//! Lexical path safety: a path is accepted only if it is relative and none
//! of its components is the parent directory, whatever exists on disk.
//!
//! Paths are written in portable notation: components separated by `/`.

use crate::text::{from_chars, to_chars};
use vstd::prelude::*;
use vstd::utf8::{decode_utf8, valid_utf8};

verus! {

/// Why a path was refused.
#[derive(Clone, Copy, Debug, PartialEq, Eq, Structural)]
pub enum PathError {
    /// The bytes are not a path: they are not UTF-8.
    NotAPath,
    /// The path is absolute or a component of it is `..`, so it could leave
    /// its root.
    PathEscape,
}

impl PathError {
    /// A one-line description for the user.
    pub fn message(&self) -> (out: String)
        ensures
            out@ == match *self {
                PathError::NotAPath => "Not a path"@,
                PathError::PathEscape => "Target reaches outside parent directory"@,
            },
    {
        match self {
            PathError::NotAPath => "Not a path".to_owned(),
            PathError::PathEscape => "Target reaches outside parent directory".to_owned(),
        }
    }
}

/// Whether a component `..` stands in `p` at index `i`: two dots, with the
/// start of the path or a separator before them, and the end of the path or a
/// separator after them.
pub open spec fn parent_component_at(p: Seq<char>, i: int) -> bool {
    &&& 0 <= i
    &&& i + 2 <= p.len()
    &&& p[i] == '.'
    &&& p[i + 1] == '.'
    &&& (i == 0 || p[i - 1] == '/')
    &&& (i + 2 == p.len() || p[i + 2] == '/')
}

/// Whether some component of `p` is `..`, at any position.
pub open spec fn has_parent_component(p: Seq<char>) -> bool {
    exists|i: int| parent_component_at(p, i)
}

/// Decides [`has_parent_component`].
pub fn has_parent_dir(path: &Vec<char>) -> (b: bool)
    ensures
        b == has_parent_component(path@),
{
    let n = path.len();
    if n < 2 {
        return false;
    }
    let mut i: usize = 0;
    while i <= n - 2
        invariant
            n == path.len(),
            2 <= n,
            i <= n - 1,
            forall|j: int| 0 <= j < i ==> !parent_component_at(path@, j),
        decreases n - i,
    {
        if path[i] == '.' && path[i + 1] == '.' && (i == 0 || path[i - 1] == '/') && (i + 2 == n
            || path[i + 2] == '/') {
            assert(parent_component_at(path@, i as int));
            return true;
        }
        i += 1;
    }
    false
}

/// Whether `p` is absolute: it starts at the root of the file system, not
/// at the root it is applied to.
pub open spec fn is_absolute(p: Seq<char>) -> bool {
    p.len() > 0 && p[0] == '/'
}

/// Whether `p` could lead out of the root it is applied to: it is absolute,
/// or one of its components is `..`.
pub open spec fn leaves_root(p: Seq<char>) -> bool {
    is_absolute(p) || has_parent_component(p)
}

/// Decides [`leaves_root`].
pub fn escapes(path: &Vec<char>) -> (b: bool)
    ensures
        b == leaves_root(path@),
{
    (path.len() > 0 && path[0] == '/') || has_parent_dir(path)
}

/// The result of validating the path `p`: the path itself, or `PathEscape`
/// if it is absolute or one of its components is `..`.
pub open spec fn validated(p: Seq<char>) -> Result<Seq<char>, PathError> {
    if leaves_root(p) {
        Err(PathError::PathEscape)
    } else {
        Ok(p)
    }
}

/// The view of a validation result.
pub open spec fn result_view(r: Result<String, PathError>) -> Result<Seq<char>, PathError> {
    match r {
        Ok(s) => Ok(s@),
        Err(e) => Err(e),
    }
}

/// Validates a path that is already held as characters.
pub fn validate_chars(path: &Vec<char>) -> (r: Result<String, PathError>)
    ensures
        result_view(r) == validated(path@),
{
    if escapes(path) {
        Err(PathError::PathEscape)
    } else {
        Ok(from_chars(path))
    }
}

/// Validates `relative_path` as a path below `target_root`.
///
/// The check is lexical and does not depend on the root: the path is refused
/// if and only if it is absolute or one of its components is `..`. The
/// accepted path is relative and is handed back as it was given, not joined
/// onto the root, so that the caller can apply it to the base of its choice.
pub fn validate_path(target_root: &str, relative_path: &str) -> (r: Result<String, PathError>)
    ensures
        result_view(r) == validated(relative_path@),
{
    let chars = to_chars(relative_path);
    validate_chars(&chars)
}

/// Validates `str_path` as a path below the working directory.
pub fn validate_path_string(str_path: &str) -> (r: Result<String, PathError>)
    ensures
        result_view(r) == validated(str_path@),
{
    validate_path(".", str_path)
}

/// Where the last named component of `p` ends: `p` without the separators
/// and the components `.` at its end.
pub open spec fn basename_end(p: Seq<char>) -> int
    decreases p.len(),
{
    if p.len() == 0 {
        0
    } else if p.last() == '/' {
        basename_end(p.drop_last())
    } else if p.last() == '.' && (p.len() == 1 || p[p.len() - 2] == '/') {
        basename_end(p.drop_last())
    } else {
        p.len() as int
    }
}

/// Where the component that ends at `end` starts: after the last separator
/// before `end`, or at the start of `p`.
pub open spec fn basename_start(p: Seq<char>, end: int) -> int
    decreases end,
{
    if end <= 0 {
        0
    } else if p[end - 1] == '/' {
        end
    } else {
        basename_start(p, end - 1)
    }
}

/// The file name of the path `p`: its last component, where separators and
/// components `.` at the end do not count. A path that has no component, or
/// whose last component is `..`, has no file name.
pub open spec fn file_name_of(p: Seq<char>) -> Option<Seq<char>> {
    let end = basename_end(p);
    let name = p.subrange(basename_start(p, end), end);
    if end == 0 || name == seq!['.', '.'] {
        None
    } else {
        Some(name)
    }
}

/// Computes [`file_name_of`] on characters.
pub fn file_name_chars(path: &Vec<char>) -> (r: Option<Vec<char>>)
    ensures
        match r {
            Some(name) => file_name_of(path@) == Some(name@),
            None => file_name_of(path@) is None,
        },
{
    let mut end: usize = path.len();
    assert(path@.take(end as int) =~= path@);
    while end > 0 && (path[end - 1] == '/' || (path[end - 1] == '.' && (end == 1 || path[end - 2]
        == '/')))
        invariant
            end <= path.len(),
            basename_end(path@) == basename_end(path@.take(end as int)),
        decreases end,
    {
        proof {
            let cur = path@.take(end as int);
            assert(cur.drop_last() =~= path@.take(end - 1));
        }
        end -= 1;
    }
    proof {
        let cur = path@.take(end as int);
        assert(basename_end(cur) == end);
    }
    if end == 0 {
        return None;
    }
    let mut start: usize = end;
    while start > 0 && path[start - 1] != '/'
        invariant
            start <= end <= path.len(),
            basename_start(path@, end as int) == basename_start(path@, start as int),
        decreases start,
    {
        start -= 1;
    }
    let name = crate::text::sub_vec(path, start, end);
    if name.len() == 2 && name[0] == '.' && name[1] == '.' {
        assert(name@ =~= seq!['.', '.']);
        None
    } else {
        Some(name)
    }
}

/// The file name of `path`: its last component, if that names something.
pub fn file_name(path: &str) -> (r: Option<String>)
    ensures
        match r {
            Some(name) => file_name_of(path@) == Some(name@),
            None => file_name_of(path@) is None,
        },
{
    let chars = to_chars(path);
    match file_name_chars(&chars) {
        Some(name) => Some(from_chars(&name)),
        None => None,
    }
}

/// The error of `core::str::from_utf8`.
#[verifier::external_type_specification]
#[verifier::external_body]
pub struct ExUtf8Error(core::str::Utf8Error);

/// `core::str::from_utf8` succeeds exactly on the byte slices that are
/// UTF-8, and the string slice it gives has those bytes.
pub assume_specification[ core::str::from_utf8 ](v: &[u8]) -> (r: Result<
    &str,
    core::str::Utf8Error,
>)
    ensures
        r is Ok <==> valid_utf8(v@),
        r is Ok ==> vstd::string::StringSliceAdditionalSpecFns::spec_bytes(r->Ok_0) == v@,
;

/// The result of validating the bytes `raw` as a path: `NotAPath` if they
/// are not UTF-8; else what validating their text gives.
pub open spec fn validated_bytes(raw: Seq<u8>) -> Result<Seq<char>, PathError> {
    if !valid_utf8(raw) {
        Err(PathError::NotAPath)
    } else {
        validated(decode_utf8(raw))
    }
}

/// Validates a path that comes as bytes, as a file system gives it.
///
/// Bytes that are not UTF-8 are refused with `NotAPath`. A path that is
/// absolute or has a component `..` is refused with `PathEscape`.
pub fn validate_path_bytes(raw: &[u8]) -> (r: Result<String, PathError>)
    ensures
        result_view(r) == validated_bytes(raw@),
{
    match core::str::from_utf8(raw) {
        Err(_) => Err(PathError::NotAPath),
        Ok(text) => {
            proof {
                vstd::utf8::encode_utf8_decode_utf8(text@);
            }
            validate_path_string(text)
        },
    }
}

/// The index of the last `c` in `s`.
pub open spec fn last_index_of(s: Seq<char>, c: char) -> Option<int>
    decreases s.len(),
{
    if s.len() == 0 {
        None
    } else if s.last() == c {
        Some(s.len() - 1)
    } else {
        last_index_of(s.drop_last(), c)
    }
}

/// The extension of the path `p`: what follows the last dot of its file
/// name. There is none if the path has no file name, or the file name has
/// no dot, or its only dot is its first character.
pub open spec fn extension_of(p: Seq<char>) -> Option<Seq<char>> {
    match file_name_of(p) {
        None => None,
        Some(name) => match last_index_of(name, '.') {
            None => None,
            Some(i) => if i == 0 {
                None
            } else {
                Some(name.subrange(i + 1, name.len() as int))
            },
        },
    }
}

/// Whether the extension of `path` is `extension`.
pub fn has_extension(path: &str, extension: &str) -> (b: bool)
    ensures
        b == (extension_of(path@) == Some(extension@)),
{
    let chars = to_chars(path);
    match file_name_chars(&chars) {
        None => false,
        Some(name) => {
            let mut i: usize = name.len();
            assert(name@.take(i as int) =~= name@);
            while i > 0 && name[i - 1] != '.'
                invariant
                    i <= name.len(),
                    last_index_of(name@, '.') == last_index_of(name@.take(i as int), '.'),
                decreases i,
            {
                assert(name@.take(i as int).drop_last() =~= name@.take(i - 1));
                i -= 1;
            }
            if i <= 1 {
                assert(last_index_of(name@.take(i as int), '.') == if i == 1 {
                    Some(0int)
                } else {
                    None
                }) by {
                    if i == 1 {
                        assert(name@.take(1).last() == name@[0]);
                    }
                }
                false
            } else {
                assert(name@.take(i as int).last() == name@[i - 1]);
                let found = crate::text::sub_vec(&name, i, name.len());
                let wanted = to_chars(extension);
                crate::text::same_chars(&found, &wanted)
            }
        },
    }
}

/// A component `..` is found wherever it stands: alone, at the start, at
/// the end, or between other components. Every such path is refused, and so
/// is every path that starts with a separator.
pub proof fn lemma_parent_component_anywhere(before: Seq<char>, after: Seq<char>)
    ensures
        has_parent_component(seq!['.', '.']),
        has_parent_component(seq!['.', '.', '/'] + after),
        has_parent_component(before + seq!['/', '.', '.']),
        has_parent_component(before + seq!['/', '.', '.', '/'] + after),
        validated(seq!['.', '.']) is Err,
        validated(seq!['.', '.', '/'] + after) is Err,
        validated(before + seq!['/', '.', '.']) is Err,
        validated(before + seq!['/', '.', '.', '/'] + after) is Err,
        validated(seq!['/'] + after) == Err::<Seq<char>, PathError>(PathError::PathEscape),
{
    assert((seq!['/'] + after)[0] == '/');
    assert(parent_component_at(seq!['.', '.'], 0));
    assert(parent_component_at(seq!['.', '.', '/'] + after, 0));
    assert(parent_component_at(before + seq!['/', '.', '.'], before.len() as int + 1));
    assert(parent_component_at(before + seq!['/', '.', '.', '/'] + after, before.len() as int + 1));
}

} // verus!
