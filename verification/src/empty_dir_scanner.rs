//! The walk that finds the empty directories below a root, as decisions:
//! the caller reads the directories, the scanner keeps what was seen and
//! says at the end which directories are empty.

use crate::gen_template::{empty_among, empty_directories};
use crate::render::strings_view;
use vstd::prelude::*;

verus! {

/// The state of a walk: the directories that are still to be read, and the
/// directories and files seen so far.
#[derive(Debug)]
pub struct EmptyDirScanner {
    stack: Vec<String>,
    dirs: Vec<String>,
    files: Vec<String>,
}

impl EmptyDirScanner {
    /// The directories that are still to be read; the last one is read
    /// next.
    pub closed spec fn pending(&self) -> Seq<Seq<char>> {
        strings_view(self.stack@)
    }

    /// The directories seen below the root so far. The root itself is not
    /// among them.
    pub closed spec fn seen_dirs(&self) -> Seq<Seq<char>> {
        strings_view(self.dirs@)
    }

    /// The files seen so far.
    pub closed spec fn seen_files(&self) -> Seq<Seq<char>> {
        strings_view(self.files@)
    }

    /// A walk over the tree below `root`. The root is read, but it is not
    /// one of the directories of the tree: it is never reported as empty.
    pub fn new(root: &str) -> (scanner: EmptyDirScanner)
        ensures
            scanner.pending() == seq![root@],
            scanner.seen_dirs() == Seq::<Seq<char>>::empty(),
            scanner.seen_files() == Seq::<Seq<char>>::empty(),
    {
        let stack = vec![root.to_owned()];
        let dirs: Vec<String> = Vec::new();
        let files: Vec<String> = Vec::new();
        assert(strings_view(stack@) =~= seq![root@]);
        assert(strings_view(dirs@) =~= Seq::<Seq<char>>::empty());
        assert(strings_view(files@) =~= Seq::<Seq<char>>::empty());
        EmptyDirScanner { stack, dirs, files }
    }

    /// The directory to read next: the one that was found last. `None` means
    /// that the walk is over.
    pub fn next_dir(&mut self) -> (r: Option<String>)
        ensures
            final(self).seen_dirs() == old(self).seen_dirs(),
            final(self).seen_files() == old(self).seen_files(),
            match r {
                Some(dir) => old(self).pending().len() > 0 && dir@ == old(self).pending().last()
                    && final(self).pending() == old(self).pending().drop_last(),
                None => old(self).pending().len() == 0 && final(self).pending() == old(
                    self,
                ).pending(),
            },
    {
        let r = self.stack.pop();
        assert(r is Some ==> self.pending() =~= old(self).pending().drop_last());
        r
    }

    /// Takes one entry of the directory being read: a directory is kept to
    /// be read later, and both kinds are remembered.
    pub fn visit(&mut self, path: String, is_dir: bool)
        ensures
            final(self).pending() == if is_dir {
                old(self).pending().push(path@)
            } else {
                old(self).pending()
            },
            final(self).seen_dirs() == if is_dir {
                old(self).seen_dirs().push(path@)
            } else {
                old(self).seen_dirs()
            },
            final(self).seen_files() == if is_dir {
                old(self).seen_files()
            } else {
                old(self).seen_files().push(path@)
            },
    {
        if is_dir {
            self.stack.push(path.clone());
            self.dirs.push(path);
            assert(self.pending() =~= old(self).pending().push(path@));
            assert(self.seen_dirs() =~= old(self).seen_dirs().push(path@));
        } else {
            self.files.push(path);
            assert(self.seen_files() =~= old(self).seen_files().push(path@));
        }
    }

    /// The empty directories below the root: those of the directories seen
    /// below which no file was seen, in the order in which they were seen.
    pub fn finish(&self) -> (out: Vec<String>)
        ensures
            strings_view(out@) == empty_among(self.seen_dirs(), self.seen_files()),
    {
        empty_directories(&self.dirs, &self.files)
    }
}

} // verus!
