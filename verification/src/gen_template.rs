//! Template authoring: turning the files and empty directories of a tree
//! into template text, with the instance name replaced by a placeholder.

use crate::path_guard::{validate_chars, validated, PathError};
use crate::render::strings_view;
use crate::template::{close_token, open_token, Entity, Node, EXTENSION};
use crate::text::{
    copy_chars, find, find_from, from_chars, lemma_find_from, matches_at, push_all, push_range,
    push_str, starts_at, to_chars,
};
use vstd::prelude::*;

verus! {

/// Whether a character is alphanumeric, as `char::is_alphanumeric` decides
/// it.
pub uninterp spec fn char_is_alphanumeric(c: char) -> bool;

/// `char::is_alphanumeric`: whether `c` is a letter or a number of Unicode.
/// The result depends on the character alone.
#[verifier::external_body]
fn is_alphanumeric(c: char) -> (b: bool)
    ensures
        b == char_is_alphanumeric(c),
{
    c.is_alphanumeric()
}

/// The path `path` written relative to `base`, as `pathdiff::diff_paths`
/// computes it from the components of the two; `None` where it has none.
pub uninterp spec fn relative_path(path: Seq<char>, base: Seq<char>) -> Option<Seq<char>>;

/// `pathdiff::diff_paths`: `path` relative to `base`, computed from the two
/// paths' components alone, without looking at the disk.
#[verifier::external_body]
fn diff_paths(path: &str, base: &str) -> (r: Option<String>)
    ensures
        match r {
            Some(p) => relative_path(path@, base@) == Some(p@),
            None => relative_path(path@, base@) is None,
        },
{
    pathdiff::diff_paths(path, base).map(|p| p.to_string_lossy().into_owned())
}

/// The placeholder that stands for the instance name in a template.
pub open spec fn name_placeholder() -> Seq<char> {
    seq!['{', '{', ' ', 'n', 'a', 'm', 'e', ' ', '}', '}']
}

/// For each character of `s`, whether it is alphanumeric.
pub open spec fn alphanumeric_flags(s: Seq<char>) -> Seq<bool> {
    Seq::new(s.len(), |i: int| char_is_alphanumeric(s[i]))
}

/// Whether the characters from `start` up to `end` stand at word
/// boundaries, where `alnum` says of each character of the text whether it
/// is alphanumeric: no alphanumeric character directly before them and none
/// directly after them. The start and the end of the text are boundaries.
pub open spec fn word_bounded_by(alnum: Seq<bool>, start: int, end: int) -> bool {
    &&& start == 0 || !alnum[start - 1]
    &&& end == alnum.len() || !alnum[end]
}

/// Whether `s[start..end]` stands at word boundaries: no alphanumeric
/// character directly before it and none directly after it. The start and the
/// end of `s` are boundaries.
pub open spec fn word_bounded(s: Seq<char>, start: int, end: int) -> bool {
    word_bounded_by(alphanumeric_flags(s), start, end)
}

/// `s[last..]` with the whole-word occurrences of `target` at or after `from`
/// replaced by `replacement`, where `alnum` says of each character of `s`
/// whether it is alphanumeric.
///
/// Occurrences are taken from left to right without overlap; one that does
/// not stand at word boundaries is passed over and stays as it is.
pub open spec fn replace_scan_by(
    s: Seq<char>,
    alnum: Seq<bool>,
    target: Seq<char>,
    replacement: Seq<char>,
    last: int,
    from: int,
) -> Seq<char>
    decreases s.len() + 1 - from,
{
    if target.len() == 0 {
        s.subrange(last, s.len() as int)
    } else {
        match find_from(s, target, from) {
            None => s.subrange(last, s.len() as int),
            Some(i) => {
                proof {
                    lemma_find_from(s, target, from);
                }
                let end = i + target.len();
                if word_bounded_by(alnum, i, end) {
                    s.subrange(last, i) + replacement + replace_scan_by(
                        s,
                        alnum,
                        target,
                        replacement,
                        end,
                        end,
                    )
                } else {
                    replace_scan_by(s, alnum, target, replacement, last, end)
                }
            },
        }
    }
}

/// `s` with every whole-word occurrence of `target` replaced by
/// `replacement`, where `alnum` says of each character of `s` whether it is
/// alphanumeric. An empty target occurs nowhere.
pub open spec fn replaced_by(
    s: Seq<char>,
    alnum: Seq<bool>,
    target: Seq<char>,
    replacement: Seq<char>,
) -> Seq<char> {
    replace_scan_by(s, alnum, target, replacement, 0, 0)
}

/// `s` with every whole-word occurrence of `target` replaced by
/// `replacement`. An empty target occurs nowhere.
pub open spec fn replaced(s: Seq<char>, target: Seq<char>, replacement: Seq<char>) -> Seq<char> {
    replaced_by(s, alphanumeric_flags(s), target, replacement)
}

/// Replaces the whole-word occurrences of `target` in `s`, given for each
/// character of `s` whether it is alphanumeric.
pub fn replace_chars_flagged(
    s: &Vec<char>,
    alnum: &Vec<bool>,
    target: &Vec<char>,
    replacement: &Vec<char>,
) -> (out: Vec<char>)
    requires
        alnum.len() == s.len(),
    ensures
        out@ == replaced_by(s@, alnum@, target@, replacement@),
{
    if target.len() == 0 {
        return copy_chars(s);
    }
    let mut out: Vec<char> = Vec::new();
    let mut last: usize = 0;
    let mut from: usize = 0;
    loop
        invariant
            target.len() > 0,
            alnum.len() == s.len(),
            last <= from <= s.len(),
            replaced_by(s@, alnum@, target@, replacement@) == out@ + replace_scan_by(
                s@,
                alnum@,
                target@,
                replacement@,
                last as int,
                from as int,
            ),
        decreases s.len() - from,
    {
        let ghost out0 = out@;
        proof {
            lemma_find_from(s@, target@, from as int);
        }
        match find(s, target, from) {
            None => {
                push_range(&mut out, s, last, s.len());
                return out;
            },
            Some(i) => {
                let end = i + target.len();
                let bounded_start = i == 0 || !alnum[i - 1];
                let bounded_end = end == s.len() || !alnum[end];
                if bounded_start && bounded_end {
                    push_range(&mut out, s, last, i);
                    push_all(&mut out, replacement);
                    proof {
                        let tail = replace_scan_by(
                            s@,
                            alnum@,
                            target@,
                            replacement@,
                            end as int,
                            end as int,
                        );
                        assert(out0 + (s@.subrange(last as int, i as int) + replacement@ + tail)
                            =~= out@ + tail);
                    }
                    last = end;
                }
                from = end;
            },
        }
    }
}

/// For each character of `s`, whether it is alphanumeric.
fn flags_of(s: &Vec<char>) -> (alnum: Vec<bool>)
    ensures
        alnum@ == alphanumeric_flags(s@),
{
    let mut alnum: Vec<bool> = Vec::new();
    let mut i: usize = 0;
    while i < s.len()
        invariant
            i <= s.len(),
            alnum.len() == i,
            forall|k: int| 0 <= k < i ==> alnum@[k] == char_is_alphanumeric(s@[k]),
        decreases s.len() - i,
    {
        alnum.push(is_alphanumeric(s[i]));
        i += 1;
    }
    assert(alnum@ =~= alphanumeric_flags(s@));
    alnum
}

/// Computes [`replaced`] on characters.
pub fn replace_chars(s: &Vec<char>, target: &Vec<char>, replacement: &Vec<char>) -> (out: Vec<
    char,
>)
    ensures
        out@ == replaced(s@, target@, replacement@),
{
    let alnum = flags_of(s);
    replace_chars_flagged(s, &alnum, target, replacement)
}

/// Replaces every whole-word occurrence of `target` in `input` by
/// `replacement`.
///
/// An occurrence is a whole word if the character before it and the
/// character after it, where there is one, are not alphanumeric.
pub fn replace_word_bounded(input: &str, target: &str, replacement: &str) -> (out: String)
    ensures
        out@ == replaced(input@, target@, replacement@),
{
    let s = to_chars(input);
    let t = to_chars(target);
    let r = to_chars(replacement);
    let out = replace_chars(&s, &t, &r);
    from_chars(&out)
}

/// A text that is the target itself, and nothing else, is replaced whole.
pub proof fn lemma_replaces_standalone(target: Seq<char>, replacement: Seq<char>)
    requires
        target.len() > 0,
    ensures
        replaced(target, target, replacement) == replacement,
{
    let n = target.len() as int;
    assert(target.subrange(0, n) =~= target);
    assert(matches_at(target, target, 0));
    assert(find_from(target, target, n) is None);
    let alnum = alphanumeric_flags(target);
    assert(replace_scan_by(target, alnum, target, replacement, n, n) =~= Seq::<char>::empty());
    assert(target.subrange(0, 0) + replacement + Seq::<char>::empty() =~= replacement);
}

/// An occurrence of the target that does not stand at word boundaries is
/// kept: a text whose only occurrence is inside a longer word comes
/// through unchanged.
pub proof fn lemma_keeps_part_of_word(
    s: Seq<char>,
    target: Seq<char>,
    replacement: Seq<char>,
    i: int,
)
    requires
        target.len() > 0,
        find_from(s, target, 0) == Some(i),
        !word_bounded(s, i, i + target.len()),
        find_from(s, target, i + target.len()) is None,
    ensures
        replaced(s, target, replacement) == s,
{
    lemma_find_from(s, target, 0);
    let end = i + target.len();
    assert(replace_scan_by(s, alphanumeric_flags(s), target, replacement, 0, end) == s.subrange(
        0,
        s.len() as int,
    ));
    assert(s.subrange(0, s.len() as int) =~= s);
}

/// The command word `DIR`.
pub open spec fn dir_word() -> Seq<char> {
    seq!['D', 'I', 'R']
}

/// The command word `FILE`.
pub open spec fn file_word() -> Seq<char> {
    seq!['F', 'I', 'L', 'E']
}

/// The command word `EXT`.
pub open spec fn ext_word() -> Seq<char> {
    seq!['E', 'X', 'T']
}

/// The text between the tokens of the marker for `command` and `path`.
pub open spec fn marker_inner(command: Seq<char>, path: Seq<char>) -> Seq<char> {
    seq![' '] + command + seq![' '] + path + seq![' ']
}

/// The line that holds the marker for `command` and `path`.
pub open spec fn marker_line(command: Seq<char>, path: Seq<char>) -> Seq<char> {
    open_token() + marker_inner(command, path) + close_token() + seq!['\n']
}

/// The template text of one entity: its marker line and, for a file, its
/// content and a line break.
pub open spec fn encode_entity(e: Entity) -> Seq<char> {
    match e {
        Entity::Dir(path) => marker_line(dir_word(), path),
        Entity::File { path, content } => marker_line(file_word(), path) + content + seq!['\n'],
        Entity::Append { path, content } => marker_line(ext_word(), path) + content + seq!['\n'],
    }
}

/// The template text of `entities`: the texts of its members, in order.
pub open spec fn encode(entities: Seq<Entity>) -> Seq<char>
    decreases entities.len(),
{
    if entities.len() == 0 {
        Seq::empty()
    } else {
        encode_entity(entities[0]) + encode(entities.drop_first())
    }
}

/// Appends the marker line for `command` and `path` to `out`.
fn push_marker(out: &mut Vec<char>, command: &Vec<char>, path: &str)
    ensures
        final(out)@ == old(out)@ + marker_line(command@, path@),
{
    let open = vec!['{', '#', '#', '#'];
    let close = vec!['#', '#', '#', '}'];
    push_all(out, &open);
    out.push(' ');
    push_all(out, command);
    out.push(' ');
    push_str(out, path);
    out.push(' ');
    push_all(out, &close);
    out.push('\n');
    assert(out@ =~= old(out)@ + marker_line(command@, path@));
}

/// Appends the template text of `node` to `out`.
fn push_node_text(out: &mut Vec<char>, node: &Node)
    ensures
        final(out)@ == old(out)@ + encode_entity(node@),
{
    match node {
        Node::Dir(path) => {
            let word = vec!['D', 'I', 'R'];
            push_marker(out, &word, path.as_str());
        },
        Node::File { path, content } => {
            let word = vec!['F', 'I', 'L', 'E'];
            push_marker(out, &word, path.as_str());
            push_str(out, content.as_str());
            out.push('\n');
            assert(out@ =~= old(out)@ + encode_entity(node@));
        },
        Node::Ext { path, content } => {
            let word = vec!['E', 'X', 'T'];
            push_marker(out, &word, path.as_str());
            push_str(out, content.as_str());
            out.push('\n');
            assert(out@ =~= old(out)@ + encode_entity(node@));
        },
    }
}

/// Writes `nodes` as template text: for each node its marker line and, for
/// a file, its content followed by a line break.
pub fn write_template(nodes: &Vec<Node>) -> (out: String)
    ensures
        out@ == encode(nodes.deep_view()),
{
    let mut out: Vec<char> = Vec::new();
    let mut i: usize = 0;
    let ghost all = nodes.deep_view();
    assert(all.skip(0) =~= all);
    while i < nodes.len()
        invariant
            i <= nodes.len(),
            all == nodes.deep_view(),
            encode(all) == out@ + encode(all.skip(i as int)),
        decreases nodes.len() - i,
    {
        let ghost out0 = out@;
        push_node_text(&mut out, &nodes[i]);
        proof {
            assert(all.skip(i as int)[0] == nodes@[i as int]@);
            assert(all.skip(i as int).drop_first() =~= all.skip(i + 1));
            let tail = encode(all.skip(i + 1));
            assert(out0 + (encode_entity(nodes@[i as int]@) + tail) =~= out@ + tail);
        }
        i += 1;
    }
    assert(out@ + encode(all.skip(nodes@.len() as int)) =~= out@);
    from_chars(&out)
}

/// What a template is made from.
#[derive(Clone, Debug)]
pub struct CreateArgs {
    /// The root of the tree; paths in the template are relative to it.
    pub path: String,
    /// The instance name, which the template replaces by a placeholder.
    pub name: String,
    /// Whether the instance name is left as it stands.
    pub no_replace: bool,
    /// The files to take, where only some of the tree is wanted. Empty
    /// directories are then left out.
    pub files: Option<Vec<String>>,
}

/// Why a template could not be made.
#[derive(Clone, Copy, Debug, PartialEq, Eq, Structural)]
pub enum CreateError {
    /// A path of the tree cannot be written relative to the root.
    NotRelative,
    /// A path of the tree was refused.
    Path(PathError),
}

impl CreateError {
    /// A one-line description for the user.
    pub fn message(&self) -> (out: String)
        ensures
            out@ == match *self {
                CreateError::NotRelative => "Path is not below the template root"@,
                CreateError::Path(PathError::NotAPath) => "Not a path"@,
                CreateError::Path(PathError::PathEscape) =>
                    "Target reaches outside parent directory"@,
            },
    {
        match self {
            CreateError::NotRelative => "Path is not below the template root".to_owned(),
            CreateError::Path(e) => e.message(),
        }
    }
}

/// `text` as the template holds it: with the instance name replaced by the
/// placeholder, unless replacing is switched off.
pub open spec fn substituted(text: Seq<char>, name: Seq<char>, no_replace: bool) -> Seq<char> {
    if no_replace {
        text
    } else {
        replaced(text, name, name_placeholder())
    }
}

/// The entity for the directory `path`, or the error of its path.
pub open spec fn dir_entity(path: Seq<char>, name: Seq<char>, no_replace: bool) -> Result<
    Entity,
    PathError,
> {
    match validated(substituted(path, name, no_replace)) {
        Ok(p) => Ok(Entity::Dir(p)),
        Err(e) => Err(e),
    }
}

/// The entity for the file `path` with the content `content`, or the error
/// of its path.
pub open spec fn file_entity(
    path: Seq<char>,
    content: Seq<char>,
    name: Seq<char>,
    no_replace: bool,
) -> Result<Entity, PathError> {
    match validated(substituted(path, name, no_replace)) {
        Ok(p) => Ok(Entity::File { path: p, content: substituted(content, name, no_replace) }),
        Err(e) => Err(e),
    }
}

/// The view of a result that holds a node.
pub open spec fn node_result_view<E>(r: Result<Node, E>) -> Result<Entity, E> {
    match r {
        Ok(node) => Ok(node@),
        Err(e) => Err(e),
    }
}

/// Computes [`substituted`].
fn substitute(text: &str, args: &CreateArgs) -> (out: Vec<char>)
    ensures
        out@ == substituted(text@, args.name@, args.no_replace),
{
    let chars = to_chars(text);
    if args.no_replace {
        chars
    } else {
        let name = to_chars(args.name.as_str());
        let placeholder = vec!['{', '{', ' ', 'n', 'a', 'm', 'e', ' ', '}', '}'];
        assert(placeholder@ == name_placeholder());
        replace_chars(&chars, &name, &placeholder)
    }
}

/// The node for the empty directory `path`, a path relative to the root.
///
/// The instance name in the path is replaced by the placeholder. The path
/// is refused if it is absolute or a component of it is `..`.
pub fn create_dir_node(args: &CreateArgs, path: &str) -> (r: Result<Node, PathError>)
    ensures
        node_result_view(r) == dir_entity(path@, args.name@, args.no_replace),
{
    let p = substitute(path, args);
    match validate_chars(&p) {
        Ok(valid) => Ok(Node::Dir(valid)),
        Err(e) => Err(e),
    }
}

/// The node for the file `path`, a path relative to the root, with the
/// content `content`.
///
/// The instance name in the path and in the content is replaced by the
/// placeholder. The path is refused if it is absolute or a component of it
/// is `..`.
pub fn create_node(args: &CreateArgs, path: &str, content: &str) -> (r: Result<Node, PathError>)
    ensures
        node_result_view(r) == file_entity(path@, content@, args.name@, args.no_replace),
{
    let p = substitute(path, args);
    match validate_chars(&p) {
        Ok(valid) => {
            let c = substitute(content, args);
            Ok(Node::File { path: valid, content: from_chars(&c) })
        },
        Err(e) => Err(e),
    }
}

/// The name of the file that holds the template of the instance `name`.
pub fn template_file_name(name: &str) -> (out: String)
    ensures
        out@ == name@ + seq!['.'] + EXTENSION@,
{
    let mut out = to_chars(name);
    out.push('.');
    push_str(&mut out, EXTENSION);
    from_chars(&out)
}

/// One thing found in the tree: an empty directory, or a file with its
/// content. Paths are as the walk of the tree gave them.
#[derive(Clone, Debug)]
pub enum SourceEntry {
    Dir { path: String },
    File { path: String, content: String },
}

/// What a [`SourceEntry`] stands for.
pub enum SourceItem {
    Dir { path: Seq<char> },
    File { path: Seq<char>, content: Seq<char> },
}

impl View for SourceEntry {
    type V = SourceItem;

    open spec fn view(&self) -> SourceItem {
        match *self {
            SourceEntry::Dir { path } => SourceItem::Dir { path: path@ },
            SourceEntry::File { path, content } => SourceItem::File {
                path: path@,
                content: content@,
            },
        }
    }
}

impl DeepView for SourceEntry {
    type V = SourceItem;

    open spec fn deep_view(&self) -> SourceItem {
        self@
    }
}

/// The entity for one item of the tree below `root`: its path is written
/// relative to the root, the instance name is replaced, and the path is
/// validated.
pub open spec fn item_entity(
    root: Seq<char>,
    name: Seq<char>,
    no_replace: bool,
    item: SourceItem,
) -> Result<Entity, CreateError> {
    match item {
        SourceItem::Dir { path } => match relative_path(path, root) {
            None => Err(CreateError::NotRelative),
            Some(rel) => match dir_entity(rel, name, no_replace) {
                Ok(e) => Ok(e),
                Err(e) => Err(CreateError::Path(e)),
            },
        },
        SourceItem::File { path, content } => match relative_path(path, root) {
            None => Err(CreateError::NotRelative),
            Some(rel) => match file_entity(rel, content, name, no_replace) {
                Ok(e) => Ok(e),
                Err(e) => Err(CreateError::Path(e)),
            },
        },
    }
}

/// The entities for the items of a tree, in order, or the error of the first
/// item that has one.
pub open spec fn tree_entities(
    root: Seq<char>,
    name: Seq<char>,
    no_replace: bool,
    items: Seq<SourceItem>,
) -> Result<Seq<Entity>, CreateError>
    decreases items.len(),
{
    if items.len() == 0 {
        Ok(Seq::empty())
    } else {
        match item_entity(root, name, no_replace, items[0]) {
            Err(e) => Err(e),
            Ok(first) => match tree_entities(root, name, no_replace, items.drop_first()) {
                Err(e) => Err(e),
                Ok(rest) => Ok(seq![first] + rest),
            },
        }
    }
}

/// The template text for the items of a tree, or the error of the first item
/// that has one.
pub open spec fn tree_template(
    root: Seq<char>,
    name: Seq<char>,
    no_replace: bool,
    items: Seq<SourceItem>,
) -> Result<Seq<char>, CreateError> {
    match tree_entities(root, name, no_replace, items) {
        Ok(entities) => Ok(encode(entities)),
        Err(e) => Err(e),
    }
}

/// The view of a result that holds a text.
pub open spec fn text_result_view<E>(r: Result<String, E>) -> Result<Seq<char>, E> {
    match r {
        Ok(text) => Ok(text@),
        Err(e) => Err(e),
    }
}

/// The node for one entry of the tree.
fn entry_node(args: &CreateArgs, entry: &SourceEntry) -> (r: Result<Node, CreateError>)
    ensures
        node_result_view(r) == item_entity(args.path@, args.name@, args.no_replace, entry@),
{
    match entry {
        SourceEntry::Dir { path } => match diff_paths(path.as_str(), args.path.as_str()) {
            None => Err(CreateError::NotRelative),
            Some(rel) => match create_dir_node(args, rel.as_str()) {
                Ok(node) => Ok(node),
                Err(e) => Err(CreateError::Path(e)),
            },
        },
        SourceEntry::File { path, content } => match diff_paths(
            path.as_str(),
            args.path.as_str(),
        ) {
            None => Err(CreateError::NotRelative),
            Some(rel) => match create_node(args, rel.as_str(), content.as_str()) {
                Ok(node) => Ok(node),
                Err(e) => Err(CreateError::Path(e)),
            },
        },
    }
}

/// Makes the template text for the entries of a tree, in their order.
///
/// Each path is written relative to the root `args.path`; the instance name
/// is replaced by the placeholder in paths and contents unless
/// `args.no_replace` is set. Nothing is made if one entry fails: the result
/// is the error of the first entry whose path cannot be written relative to
/// the root or is refused.
pub fn create_template_generic(args: &CreateArgs, entries: &Vec<SourceEntry>) -> (r: Result<
    String,
    CreateError,
>)
    ensures
        text_result_view(r) == tree_template(
            args.path@,
            args.name@,
            args.no_replace,
            entries.deep_view(),
        ),
{
    let mut nodes: Vec<Node> = Vec::new();
    let mut i: usize = 0;
    let ghost all = entries.deep_view();
    assert(all.skip(0) =~= all);
    assert(nodes.deep_view() =~= Seq::<Entity>::empty());
    while i < entries.len()
        invariant
            i <= entries.len(),
            all == entries.deep_view(),
            tree_entities(args.path@, args.name@, args.no_replace, all) == match tree_entities(
                args.path@,
                args.name@,
                args.no_replace,
                all.skip(i as int),
            ) {
                Ok(rest) => Ok(nodes.deep_view() + rest),
                Err(e) => Err(e),
            },
        decreases entries.len() - i,
    {
        let ghost before = nodes.deep_view();
        proof {
            assert(all.skip(i as int)[0] == entries@[i as int]@);
            assert(all.skip(i as int).drop_first() =~= all.skip(i + 1));
        }
        match entry_node(args, &entries[i]) {
            Err(e) => {
                return Err(e);
            },
            Ok(node) => {
                nodes.push(node);
                proof {
                    assert(nodes.deep_view() =~= before.push(node@));
                    match tree_entities(
                        args.path@,
                        args.name@,
                        args.no_replace,
                        all.skip(i + 1),
                    ) {
                        Ok(rest) => {
                            assert(before + (seq![node@] + rest) =~= nodes.deep_view() + rest);
                        },
                        Err(_) => {},
                    }
                }
            },
        }
        i += 1;
    }
    assert(nodes.deep_view() + Seq::<Entity>::empty() =~= nodes.deep_view());
    Ok(write_template(&nodes))
}

/// The items that a template is made from: the empty directories, unless
/// only listed files are wanted, and then the files.
pub open spec fn source_items(
    listed_only: bool,
    files: Seq<(Seq<char>, Seq<char>)>,
    dirs: Seq<Seq<char>>,
) -> Seq<SourceItem> {
    let dir_items = Seq::new(dirs.len(), |i: int| SourceItem::Dir { path: dirs[i] });
    let file_items = Seq::new(
        files.len(),
        |i: int| SourceItem::File { path: files[i].0, content: files[i].1 },
    );
    if listed_only {
        file_items
    } else {
        dir_items + file_items
    }
}

/// The paths and contents that a list of files holds.
pub open spec fn files_view(files: Seq<(String, String)>) -> Seq<(Seq<char>, Seq<char>)> {
    Seq::new(files.len(), |i: int| (files[i].0@, files[i].1@))
}

/// Makes the template text of a tree from its files, given as pairs of path
/// and content, and its empty directories.
///
/// The directories come first, then the files, each in the order given.
/// Where `args.files` names the files to take, the directories are left out.
pub fn create_template(
    args: &CreateArgs,
    files: &Vec<(String, String)>,
    dirs: &Vec<String>,
) -> (r: Result<String, CreateError>)
    ensures
        text_result_view(r) == tree_template(
            args.path@,
            args.name@,
            args.no_replace,
            source_items(
                args.files is Some,
                files_view(files@),
                crate::render::strings_view(dirs@),
            ),
        ),
{
    let mut entries: Vec<SourceEntry> = Vec::new();
    let ghost dir_items = Seq::new(
        dirs@.len(),
        |i: int| SourceItem::Dir { path: dirs@[i]@ },
    );
    let ghost file_items = Seq::new(
        files@.len(),
        |i: int| SourceItem::File { path: files@[i].0@, content: files@[i].1@ },
    );
    if args.files.is_none() {
        let mut i: usize = 0;
        while i < dirs.len()
            invariant
                i <= dirs.len(),
                dir_items == Seq::new(dirs@.len(), |i: int| SourceItem::Dir { path: dirs@[i]@ }),
                entries.deep_view() =~= dir_items.take(i as int),
            decreases dirs.len() - i,
        {
            let ghost before = entries.deep_view();
            let entry = SourceEntry::Dir { path: dirs[i].clone() };
            assert(entry@ == dir_items[i as int]);
            entries.push(entry);
            assert(entries.deep_view() =~= before.push(entry@));
            i += 1;
        }
        assert(dir_items.take(dirs@.len() as int) =~= dir_items);
    }
    let ghost head = entries.deep_view();
    let mut j: usize = 0;
    while j < files.len()
        invariant
            j <= files.len(),
            file_items == Seq::new(
                files@.len(),
                |i: int| SourceItem::File { path: files@[i].0@, content: files@[i].1@ },
            ),
            entries.deep_view() =~= head + file_items.take(j as int),
        decreases files.len() - j,
    {
        let ghost before = entries.deep_view();
        let entry = SourceEntry::File { path: files[j].0.clone(), content: files[j].1.clone() };
        assert(entry@ == file_items[j as int]);
        entries.push(entry);
        assert(entries.deep_view() =~= before.push(entry@));
        j += 1;
    }
    assert(file_items.take(files@.len() as int) =~= file_items);
    assert(entries.deep_view() =~= source_items(
        args.files is Some,
        files_view(files@),
        crate::render::strings_view(dirs@),
    ));
    create_template_generic(args, &entries)
}

/// Whether the file `file` lies below the directory `dir`, at any depth:
/// its path starts with the path of the directory and a separator.
pub open spec fn lies_below(file: Seq<char>, dir: Seq<char>) -> bool {
    matches_at(file, dir + seq!['/'], 0)
}

/// Whether one of `files` lies below `dir`.
pub open spec fn holds_file(dir: Seq<char>, files: Seq<Seq<char>>) -> bool {
    exists|i: int| 0 <= i < files.len() && lies_below(#[trigger] files[i], dir)
}

/// The members of `dirs` below which none of `files` lies, in order.
pub open spec fn empty_among(dirs: Seq<Seq<char>>, files: Seq<Seq<char>>) -> Seq<Seq<char>>
    decreases dirs.len(),
{
    if dirs.len() == 0 {
        Seq::empty()
    } else if holds_file(dirs.last(), files) {
        empty_among(dirs.drop_last(), files)
    } else {
        empty_among(dirs.drop_last(), files).push(dirs.last())
    }
}

/// Decides [`holds_file`].
fn any_below(dir: &str, files: &Vec<String>) -> (b: bool)
    ensures
        b == holds_file(dir@, strings_view(files@)),
{
    let mut prefix = to_chars(dir);
    prefix.push('/');
    assert(prefix@ == dir@ + seq!['/']);
    let mut i: usize = 0;
    while i < files.len()
        invariant
            i <= files.len(),
            prefix@ == dir@ + seq!['/'],
            forall|k: int| 0 <= k < i ==> !lies_below(#[trigger] strings_view(files@)[k], dir@),
        decreases files.len() - i,
    {
        let file = to_chars(files[i].as_str());
        if starts_at(&file, &prefix, 0) {
            assert(lies_below(strings_view(files@)[i as int], dir@));
            return true;
        }
        i += 1;
    }
    false
}

/// The empty directories of a tree, given all its directories and all its
/// files: a directory is empty if no file lies below it, at any depth. A
/// directory that holds only empty directories is empty too.
pub fn empty_directories(dirs: &Vec<String>, files: &Vec<String>) -> (out: Vec<String>)
    ensures
        strings_view(out@) == empty_among(strings_view(dirs@), strings_view(files@)),
{
    let mut out: Vec<String> = Vec::new();
    let mut i: usize = 0;
    let ghost all = strings_view(dirs@);
    assert(strings_view(out@) =~= empty_among(all.take(0), strings_view(files@)));
    while i < dirs.len()
        invariant
            i <= dirs.len(),
            all == strings_view(dirs@),
            strings_view(out@) == empty_among(all.take(i as int), strings_view(files@)),
        decreases dirs.len() - i,
    {
        let ghost before = strings_view(out@);
        proof {
            assert(all.take(i + 1).drop_last() =~= all.take(i as int));
            assert(all.take(i + 1).last() == dirs@[i as int]@);
        }
        if !any_below(dirs[i].as_str(), files) {
            out.push(dirs[i].clone());
            assert(strings_view(out@) =~= before.push(dirs@[i as int]@));
        }
        i += 1;
    }
    assert(all.take(dirs@.len() as int) =~= all);
    out
}

} // verus!
