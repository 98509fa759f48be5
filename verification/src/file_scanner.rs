//! The walk over the files of a tree, as decisions: the caller reads the
//! directories, the scanner says which directory to read next and which
//! files to hand out.

use crate::path_guard::{extension_of, has_extension};
use crate::render::strings_view;
use vstd::prelude::*;

verus! {

/// Whether a file with the path `path` is wanted: any file where no
/// extension is asked for, else a file with that extension.
pub open spec fn is_wanted(extension: Option<Seq<char>>, path: Seq<char>) -> bool {
    match extension {
        None => true,
        Some(e) => extension_of(path) == Some(e),
    }
}

/// The state of a walk: the directories that are still to be read.
#[derive(Debug)]
pub struct FileScanner {
    stack: Vec<String>,
    extension: Option<String>,
}

impl FileScanner {
    /// The directories that are still to be read; the last one is read
    /// next.
    pub closed spec fn pending(&self) -> Seq<Seq<char>> {
        strings_view(self.stack@)
    }

    /// The extension that files must have, if one is asked for.
    pub closed spec fn extension(&self) -> Option<Seq<char>> {
        match self.extension {
            Some(e) => Some(e@),
            None => None,
        }
    }

    /// A walk over all files below `root`.
    pub fn new(root: &str) -> (scanner: FileScanner)
        ensures
            scanner.pending() == seq![root@],
            scanner.extension() is None,
    {
        let stack = vec![root.to_owned()];
        assert(strings_view(stack@) =~= seq![root@]);
        FileScanner { stack, extension: None }
    }

    /// A walk over the files below `root` that have the extension
    /// `extension`.
    pub fn new_with_extension(root: &str, extension: String) -> (scanner: FileScanner)
        ensures
            scanner.pending() == seq![root@],
            scanner.extension() == Some(extension@),
    {
        let stack = vec![root.to_owned()];
        assert(strings_view(stack@) =~= seq![root@]);
        FileScanner { stack, extension: Some(extension) }
    }

    /// The directory to read next: the one that was found last. `None` means
    /// that the walk is over.
    pub fn next_dir(&mut self) -> (r: Option<String>)
        ensures
            final(self).extension() == old(self).extension(),
            match r {
                Some(dir) => old(self).pending().len() > 0 && dir@ == old(self).pending().last()
                    && final(self).pending() == old(self).pending().drop_last(),
                None => old(self).pending().len() == 0 && final(self).pending() == old(
                    self,
                ).pending(),
            },
    {
        let r = self.stack.pop();
        assert(r is Some ==> self.pending() =~= old(self).pending().drop_last());
        r
    }

    /// Takes one entry of the directory being read. A directory is kept to
    /// be read later. A file is handed out if it is wanted.
    pub fn visit(&mut self, path: String, is_dir: bool) -> (r: Option<String>)
        ensures
            final(self).extension() == old(self).extension(),
            final(self).pending() == if is_dir {
                old(self).pending().push(path@)
            } else {
                old(self).pending()
            },
            match r {
                Some(file) => !is_dir && file == path && is_wanted(old(self).extension(), path@),
                None => is_dir || !is_wanted(old(self).extension(), path@),
            },
    {
        if is_dir {
            self.stack.push(path);
            assert(self.pending() =~= old(self).pending().push(path@));
            None
        } else {
            let wanted = match &self.extension {
                None => true,
                Some(e) => has_extension(path.as_str(), e.as_str()),
            };
            if wanted {
                Some(path)
            } else {
                None
            }
        }
    }
}

} // verus!
