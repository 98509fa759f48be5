//! Finding the template that a name stands for.
//!
//! A name is first tried as a path, then below the templates directory, then
//! there with the template extension added. If none of these exists, the
//! name is matched against the paths of all templates: it stands for the one
//! template whose path holds it.

use crate::render::strings_view;
use crate::template::EXTENSION;
use crate::text::{contains, contains_seq, from_chars, push_str, to_chars};
use vstd::prelude::*;

verus! {

/// Why no template was found for a name.
#[derive(Debug, PartialEq, Eq)]
pub enum ResolveError {
    /// No template matches the name.
    NotFound,
    /// More than one template matches the name: all of them, in the order
    /// of the listing.
    AmbiguousMatch(Vec<String>),
}

/// What a [`ResolveError`] stands for.
pub enum ResolveErrorView {
    NotFound,
    AmbiguousMatch(Seq<Seq<char>>),
}

impl View for ResolveError {
    type V = ResolveErrorView;

    open spec fn view(&self) -> ResolveErrorView {
        match *self {
            ResolveError::NotFound => ResolveErrorView::NotFound,
            ResolveError::AmbiguousMatch(list) => ResolveErrorView::AmbiguousMatch(
                strings_view(list@),
            ),
        }
    }
}

/// The lines that name the candidates: each on a line of its own, after a
/// dash.
pub open spec fn candidate_lines(list: Seq<Seq<char>>) -> Seq<char>
    decreases list.len(),
{
    if list.len() == 0 {
        Seq::empty()
    } else {
        candidate_lines(list.drop_last()) + seq!['\n', '-', ' '] + list.last()
    }
}

/// The description of an error for the user.
pub open spec fn error_text(e: ResolveErrorView) -> Seq<char> {
    match e {
        ResolveErrorView::NotFound => "Template not found"@,
        ResolveErrorView::AmbiguousMatch(list) => "Multiple templates matched input string"@
            + candidate_lines(list),
    }
}

impl ResolveError {
    /// A description for the user. For an ambiguous match it names every
    /// candidate, each on a line of its own.
    pub fn message(&self) -> (out: String)
        ensures
            out@ == error_text(self@),
    {
        match self {
            ResolveError::NotFound => "Template not found".to_owned(),
            ResolveError::AmbiguousMatch(list) => {
                let mut out = to_chars("Multiple templates matched input string");
                let ghost head = out@;
                let mut i: usize = 0;
                let ghost all = strings_view(list@);
                assert(head + candidate_lines(all.take(0)) =~= head);
                while i < list.len()
                    invariant
                        i <= list.len(),
                        all == strings_view(list@),
                        out@ == head + candidate_lines(all.take(i as int)),
                    decreases list.len() - i,
                {
                    out.push('\n');
                    out.push('-');
                    out.push(' ');
                    push_str(&mut out, list[i].as_str());
                    proof {
                        assert(all.take(i + 1).drop_last() =~= all.take(i as int));
                        assert(all.take(i + 1).last() == list@[i as int]@);
                        assert(out@ =~= head + candidate_lines(all.take(i + 1)));
                    }
                    i += 1;
                }
                assert(all.take(list@.len() as int) =~= all);
                from_chars(&out)
            },
        }
    }
}

/// The members of `templates` that hold `name` somewhere in them, in order.
pub open spec fn matching(name: Seq<char>, templates: Seq<Seq<char>>) -> Seq<Seq<char>>
    decreases templates.len(),
{
    if templates.len() == 0 {
        Seq::empty()
    } else if contains_seq(templates.last(), name) {
        matching(name, templates.drop_last()).push(templates.last())
    } else {
        matching(name, templates.drop_last())
    }
}

/// The template that `name` stands for among `templates`: the only one that
/// holds the name; an error where none or more than one does.
pub open spec fn partial_match(name: Seq<char>, templates: Seq<Seq<char>>) -> Result<
    Seq<char>,
    ResolveErrorView,
> {
    let found = matching(name, templates);
    if found.len() == 0 {
        Err(ResolveErrorView::NotFound)
    } else if found.len() == 1 {
        Ok(found[0])
    } else {
        Err(ResolveErrorView::AmbiguousMatch(found))
    }
}

/// The view of a resolution.
pub open spec fn resolution_view(r: Result<String, ResolveError>) -> Result<
    Seq<char>,
    ResolveErrorView,
> {
    match r {
        Ok(path) => Ok(path@),
        Err(e) => Err(e@),
    }
}

/// Resolves `name` against the paths of all templates, which are relative
/// to the templates directory.
///
/// Succeeds if and only if exactly one path holds the name. With no such
/// path the error is `NotFound`; with more than one it is `AmbiguousMatch`
/// with every such path.
pub fn match_partial(name: &str, templates: &Vec<String>) -> (r: Result<String, ResolveError>)
    ensures
        resolution_view(r) == partial_match(name@, strings_view(templates@)),
{
    let wanted = to_chars(name);
    let mut found: Vec<String> = Vec::new();
    let mut i: usize = 0;
    let ghost all = strings_view(templates@);
    assert(strings_view(found@) =~= matching(name@, all.take(0)));
    while i < templates.len()
        invariant
            i <= templates.len(),
            wanted@ == name@,
            all == strings_view(templates@),
            strings_view(found@) == matching(name@, all.take(i as int)),
        decreases templates.len() - i,
    {
        let ghost before = strings_view(found@);
        let chars = to_chars(templates[i].as_str());
        proof {
            assert(all.take(i + 1).drop_last() =~= all.take(i as int));
            assert(all.take(i + 1).last() == templates@[i as int]@);
        }
        if contains(&chars, &wanted) {
            found.push(templates[i].clone());
            assert(strings_view(found@) =~= before.push(templates@[i as int]@));
        }
        i += 1;
    }
    assert(all.take(templates@.len() as int) =~= all);
    if found.len() == 0 {
        Err(ResolveError::NotFound)
    } else if found.len() == 1 {
        let only = found[0].clone();
        Ok(only)
    } else {
        Err(ResolveError::AmbiguousMatch(found))
    }
}

/// The paths under which `name` is looked for, in order: the name itself,
/// the name below the templates directory, and the same with the template
/// extension.
pub open spec fn candidates(name: Seq<char>, dir: Seq<char>) -> Seq<Seq<char>> {
    seq![name, dir + seq!['/'] + name, dir + seq!['/'] + name + seq!['.'] + EXTENSION@]
}

/// The paths to try for `name`, in order; the first that exists is the
/// template.
pub fn lookup_candidates(name: &str, templates_dir: &str) -> (out: Vec<String>)
    ensures
        strings_view(out@) == candidates(name@, templates_dir@),
{
    let mut below = to_chars(templates_dir);
    below.push('/');
    push_str(&mut below, name);
    let in_dir = from_chars(&below);
    assert(in_dir@ =~= templates_dir@ + seq!['/'] + name@);
    below.push('.');
    push_str(&mut below, EXTENSION);
    let with_extension = from_chars(&below);
    assert(with_extension@ =~= templates_dir@ + seq!['/'] + name@ + seq!['.'] + EXTENSION@);
    let first = name.to_owned();
    let out = vec![first, in_dir, with_extension];
    assert(out@[0]@ == name@);
    assert(strings_view(out@) =~= candidates(name@, templates_dir@));
    out
}

} // verus!
