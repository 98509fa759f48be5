//! The template format and its decoder.
//!
//! A template is flat text with markers in it. A marker stands between the
//! open token `{###` and the close token `###}` and holds a command word and
//! one path: `{### FILE src/main.rs ###}`. The text that follows a `FILE` or
//! `EXT` marker, up to the next marker, is that entity's content.

use crate::context::VariableContext;
use crate::path_guard::{leaves_root, validate_chars, validated, PathError};
use crate::text::{
    eq_ignore_ascii_case, find, find_from, from_chars, lemma_find_from, lemma_find_from_suffix,
    push_range, same_ignoring_ascii_case, skip_word, sub_vec, trim,
    trimmed, word_end,
};
use vstd::prelude::*;

verus! {

/// The extension of template files.
pub const EXTENSION: &'static str = "tmplr";

/// One decoded unit of a template.
#[derive(Clone, Debug, PartialEq, Eq)]
pub enum Node {
    /// A directory to create.
    Dir(String),
    /// A file to create or overwrite. Path and content may hold placeholders.
    File { path: String, content: String },
    /// A file to create or extend. Path and content may hold placeholders.
    Ext { path: String, content: String },
}

/// What a [`Node`] stands for: an entity over character sequences.
pub enum Entity {
    Dir(Seq<char>),
    File { path: Seq<char>, content: Seq<char> },
    Append { path: Seq<char>, content: Seq<char> },
}

impl View for Node {
    type V = Entity;

    open spec fn view(&self) -> Entity {
        match *self {
            Node::Dir(path) => Entity::Dir(path@),
            Node::File { path, content } => Entity::File { path: path@, content: content@ },
            Node::Ext { path, content } => Entity::Append { path: path@, content: content@ },
        }
    }
}

impl DeepView for Node {
    type V = Entity;

    open spec fn deep_view(&self) -> Entity {
        self@
    }
}

/// The token that opens a marker.
pub open spec fn open_token() -> Seq<char> {
    seq!['{', '#', '#', '#']
}

/// The token that closes a marker.
pub open spec fn close_token() -> Seq<char> {
    seq!['#', '#', '#', '}']
}

/// The command of a marker.
#[derive(Clone, Copy, Debug, PartialEq, Eq, Structural)]
pub enum Command {
    Dir,
    File,
    Ext,
    Unknown,
}

/// The command that the word `word` names; the case of its letters does not
/// matter.
pub open spec fn command_of(word: Seq<char>) -> Command {
    if same_ignoring_ascii_case(word, seq!['D', 'I', 'R']) {
        Command::Dir
    } else if same_ignoring_ascii_case(word, seq!['F', 'I', 'L', 'E']) {
        Command::File
    } else if same_ignoring_ascii_case(word, seq!['E', 'X', 'T']) {
        Command::Ext
    } else {
        Command::Unknown
    }
}

/// The command word of a marker: the first word of the text between its
/// tokens.
pub open spec fn marker_word(inner: Seq<char>) -> Seq<char> {
    let t = trim(inner);
    t.subrange(0, skip_word(t, 0))
}

/// The path argument of a marker: what follows the command word and the one
/// white space character after it, trimmed.
pub open spec fn marker_arg(inner: Seq<char>) -> Seq<char> {
    let t = trim(inner);
    let e = skip_word(t, 0);
    if e < t.len() {
        trim(t.subrange(e + 1, t.len() as int))
    } else {
        Seq::empty()
    }
}

/// The decoder's state: the entities that are complete, and the one that
/// still takes content.
pub struct DecodeState {
    pub done: Seq<Entity>,
    pub open: Option<Entity>,
}

/// The state before anything was read.
pub open spec fn initial_state() -> DecodeState {
    DecodeState { done: Seq::empty(), open: None }
}

/// The entities of a state once the open one, if any, is closed.
pub open spec fn flush(st: DecodeState) -> Seq<Entity> {
    match st.open {
        Some(e) => st.done.push(e),
        None => st.done,
    }
}

/// The state after `text` was read outside a marker: it is added to the
/// content of the open entity, and lost if none is open.
pub open spec fn add_text(st: DecodeState, text: Seq<char>) -> DecodeState {
    match st.open {
        Some(Entity::File { path, content }) => DecodeState {
            done: st.done,
            open: Some(Entity::File { path, content: content + text }),
        },
        Some(Entity::Append { path, content }) => DecodeState {
            done: st.done,
            open: Some(Entity::Append { path, content: content + text }),
        },
        _ => st,
    }
}

/// The state after a marker with the text `inner` between its tokens, or the
/// error of its path.
pub open spec fn apply_marker(st: DecodeState, inner: Seq<char>) -> Result<
    DecodeState,
    PathError,
> {
    match command_of(marker_word(inner)) {
        Command::Unknown => Ok(st),
        cmd => match validated(marker_arg(inner)) {
            Err(e) => Err(e),
            Ok(path) => Ok(
                match cmd {
                    Command::Dir => DecodeState {
                        done: flush(st).push(Entity::Dir(path)),
                        open: None,
                    },
                    Command::File => DecodeState {
                        done: flush(st),
                        open: Some(Entity::File { path, content: Seq::empty() }),
                    },
                    _ => DecodeState {
                        done: flush(st),
                        open: Some(Entity::Append { path, content: Seq::empty() }),
                    },
                },
            ),
        },
    }
}

/// What decoding the text `rest` gives when it starts in state `st`.
///
/// Text before the next open token goes to the open entity. A marker that
/// is not closed ends the scan, and nothing of it is kept.
pub open spec fn decode_rest(rest: Seq<char>, st: DecodeState) -> Result<Seq<Entity>, PathError>
    decreases rest.len(),
{
    match find_from(rest, open_token(), 0) {
        None => Ok(flush(add_text(st, rest))),
        Some(start) => {
            let st1 = add_text(st, rest.subrange(0, start));
            let after = rest.subrange(start + 4, rest.len() as int);
            match find_from(after, close_token(), 0) {
                None => Ok(flush(st1)),
                Some(end) => {
                    proof {
                        lemma_find_from(rest, open_token(), 0);
                        lemma_find_from(after, close_token(), 0);
                    }
                    match apply_marker(st1, after.subrange(0, end)) {
                        Err(e) => Err(e),
                        Ok(st2) => decode_rest(after.subrange(end + 4, after.len() as int), st2),
                    }
                },
            }
        },
    }
}

/// The entities of the template `text`, in the order of their markers, or
/// the error of the first marker whose path is refused.
pub open spec fn decode(text: Seq<char>) -> Result<Seq<Entity>, PathError> {
    decode_rest(text, initial_state())
}

/// Reads the text between a marker's tokens: its command and its path
/// argument.
pub fn parse_marker(inner: &Vec<char>) -> (r: (Command, Vec<char>))
    ensures
        r.0 == command_of(marker_word(inner@)),
        r.1@ == marker_arg(inner@),
{
    let t = trimmed(inner);
    let e = word_end(&t);
    let word = sub_vec(&t, 0, e);
    let arg = if e < t.len() {
        let tail = sub_vec(&t, e + 1, t.len());
        trimmed(&tail)
    } else {
        Vec::new()
    };
    let dir = vec!['D', 'I', 'R'];
    let file = vec!['F', 'I', 'L', 'E'];
    let ext = vec!['E', 'X', 'T'];
    let cmd = if eq_ignore_ascii_case(&word, &dir) {
        Command::Dir
    } else if eq_ignore_ascii_case(&word, &file) {
        Command::File
    } else if eq_ignore_ascii_case(&word, &ext) {
        Command::Ext
    } else {
        Command::Unknown
    };
    (cmd, arg)
}

/// The decoder's state as its loop holds it: `kind` is `Unknown` while no
/// entity is open.
pub open spec fn state_of(
    done: Seq<Entity>,
    kind: Command,
    path: Seq<char>,
    content: Seq<char>,
) -> DecodeState {
    DecodeState {
        done,
        open: match kind {
            Command::File => Some(Entity::File { path, content }),
            Command::Ext => Some(Entity::Append { path, content }),
            _ => None,
        },
    }
}

/// Appends `node` to `nodes`.
fn push_node(nodes: &mut Vec<Node>, node: Node)
    ensures
        final(nodes).deep_view() == old(nodes).deep_view().push(node@),
{
    nodes.push(node);
    assert(nodes.deep_view() =~= old(nodes).deep_view().push(node@));
}

/// Closes the open entity, if there is one.
fn close_open(nodes: &mut Vec<Node>, kind: Command, path: String, content: &Vec<char>)
    ensures
        final(nodes).deep_view() == flush(state_of(old(nodes).deep_view(), kind, path@, content@)),
{
    match kind {
        Command::File => push_node(nodes, Node::File { path, content: from_chars(content) }),
        Command::Ext => push_node(nodes, Node::Ext { path, content: from_chars(content) }),
        _ => {},
    }
}

/// Decodes the template text `source` into its entities, in the order of
/// their markers.
///
/// Text before the first marker and after a `DIR` marker belongs to no
/// entity and is dropped. A marker with an unknown command changes nothing.
/// A marker that is not closed ends the scan. Decoding fails if and only if
/// the path of a `DIR`, `FILE` or `EXT` marker is absolute or has a
/// component `..`, with the error of the first such marker.
pub fn read_template(source: &str) -> (r: Result<Vec<Node>, PathError>)
    ensures
        match r {
            Ok(nodes) => decode(source@) == Ok::<Seq<Entity>, PathError>(nodes.deep_view()),
            Err(e) => decode(source@) == Err::<Seq<Entity>, PathError>(e),
        },
{
    let s = crate::text::to_chars(source);
    let open = vec!['{', '#', '#', '#'];
    let close = vec!['#', '#', '#', '}'];
    assert(open@ == open_token());
    assert(close@ == close_token());
    let mut nodes: Vec<Node> = Vec::new();
    let mut kind = Command::Unknown;
    let mut path = String::new();
    let mut content: Vec<char> = Vec::new();
    let mut cursor: usize = 0;
    assert(nodes.deep_view() =~= Seq::<Entity>::empty());
    assert(s@.subrange(0, s@.len() as int) == s@);
    loop
        invariant
            s@ == source@,
            open@ == open_token(),
            close@ == close_token(),
            cursor <= s.len(),
            decode(source@) == decode_rest(
                s@.subrange(cursor as int, s@.len() as int),
                state_of(nodes.deep_view(), kind, path@, content@),
            ),
        decreases s.len() - cursor,
    {
        let ghost rest = s@.subrange(cursor as int, s@.len() as int);
        let ghost st = state_of(nodes.deep_view(), kind, path@, content@);
        proof {
            lemma_find_from_suffix(s@, open@, cursor as int, 0);
            lemma_find_from(s@, open@, cursor as int);
        }
        match find(&s, &open, cursor) {
            None => {
                push_range(&mut content, &s, cursor, s.len());
                assert(state_of(nodes.deep_view(), kind, path@, content@) == add_text(st, rest));
                close_open(&mut nodes, kind, path, &content);
                return Ok(nodes);
            },
            Some(start) => {
                push_range(&mut content, &s, cursor, start);
                let ghost st1 = state_of(nodes.deep_view(), kind, path@, content@);
                let ghost after = s@.subrange(start + 4, s@.len() as int);
                proof {
                    assert(rest.subrange(0, start - cursor) == s@.subrange(
                        cursor as int,
                        start as int,
                    ));
                    assert(st1 == add_text(st, rest.subrange(0, start - cursor)));
                    assert(rest.subrange(start - cursor + 4, rest.len() as int) == after);
                    lemma_find_from_suffix(s@, close@, start + 4, 0);
                    lemma_find_from(s@, close@, start + 4);
                }
                match find(&s, &close, start + 4) {
                    None => {
                        close_open(&mut nodes, kind, path, &content);
                        return Ok(nodes);
                    },
                    Some(end) => {
                        let inner = sub_vec(&s, start + 4, end);
                        proof {
                            assert(after.subrange(0, end - (start + 4)) == inner@);
                            assert(after.subrange(end - (start + 4) + 4, after.len() as int)
                                == s@.subrange(end + 4, s@.len() as int));
                        }
                        let (cmd, arg) = parse_marker(&inner);
                        match cmd {
                            Command::Unknown => {},
                            _ => {
                                match validate_chars(&arg) {
                                    Err(e) => {
                                        return Err(e);
                                    },
                                    Ok(p) => {
                                        close_open(&mut nodes, kind, path, &content);
                                        content = Vec::new();
                                        match cmd {
                                            Command::Dir => {
                                                push_node(&mut nodes, Node::Dir(p));
                                                kind = Command::Unknown;
                                                path = String::new();
                                            },
                                            _ => {
                                                kind = cmd;
                                                path = p;
                                            },
                                        }
                                    },
                                }
                            },
                        }
                        cursor = end + 4;
                    },
                }
            },
        }
    }
}

/// A request to instantiate a template.
#[derive(Debug)]
pub struct TemplateRequest {
    /// Where the template is, or the name it goes by.
    pub path: String,
    /// The name of what is made from the template.
    pub instance_name: String,
    /// The variables for the placeholders.
    pub context: VariableContext,
}

impl TemplateRequest {
    /// A request for the template at `path`, to be instantiated under
    /// `instance_name` with the variables of `context`.
    pub fn make(path: String, instance_name: String, context: VariableContext) -> (request:
        TemplateRequest)
        ensures
            request.path == path,
            request.instance_name == instance_name,
            request.context == context,
    {
        TemplateRequest { path, instance_name, context }
    }
}

/// The binding that the argument `arg` makes: what stands before its first
/// `=` is the name, what stands after it the value. An argument without `=`
/// binds nothing.
pub open spec fn binding_of(arg: Seq<char>) -> Option<(Seq<char>, Seq<char>)> {
    match find_from(arg, seq!['='], 0) {
        Some(k) => Some((arg.subrange(0, k), arg.subrange(k + 1, arg.len() as int))),
        None => None,
    }
}

/// The variables that the arguments `args` bind, a later argument over an
/// earlier one.
pub open spec fn bound_by(args: Seq<Seq<char>>) -> Map<Seq<char>, Seq<char>>
    decreases args.len(),
{
    if args.len() == 0 {
        Map::empty()
    } else {
        let before = bound_by(args.drop_last());
        match binding_of(args.last()) {
            Some(b) => before.insert(b.0, b.1),
            None => before,
        }
    }
}

/// The name of the variable that holds the instance name.
pub open spec fn name_variable() -> Seq<char> {
    seq!['n', 'a', 'm', 'e']
}

/// Reads one argument of the form `NAME=VALUE`.
pub fn parse_variable(arg: &str) -> (r: Option<(String, String)>)
    ensures
        match r {
            Some(b) => binding_of(arg@) == Some((b.0@, b.1@)),
            None => binding_of(arg@) is None,
        },
{
    let chars = crate::text::to_chars(arg);
    let sign = vec!['='];
    assert(sign@ == seq!['=']);
    proof {
        lemma_find_from(chars@, sign@, 0);
    }
    match find(&chars, &sign, 0) {
        Some(k) => {
            assert(crate::text::matches_at(chars@, sign@, k as int));
            assert(k + 1 <= chars.len());
            let name = crate::text::string_of_range(&chars, 0, k);
            let value = crate::text::string_of_range(&chars, k + 1, chars.len());
            Some((name, value))
        },
        None => None,
    }
}

/// The variables of a request: those that the arguments of the form
/// `NAME=VALUE` bind, and `name`, bound to the instance name.
pub fn context_from_args(instance_name: &str, args: &Vec<String>) -> (ctx: VariableContext)
    ensures
        ctx@ == bound_by(crate::render::strings_view(args@)).insert(
            name_variable(),
            instance_name@,
        ),
{
    let mut ctx = VariableContext::new();
    let mut i: usize = 0;
    let ghost all = crate::render::strings_view(args@);
    assert(all.take(0) =~= Seq::<Seq<char>>::empty());
    while i < args.len()
        invariant
            i <= args.len(),
            all == crate::render::strings_view(args@),
            ctx@ == bound_by(all.take(i as int)),
        decreases args.len() - i,
    {
        proof {
            assert(all.take(i + 1).drop_last() =~= all.take(i as int));
            assert(all.take(i + 1).last() == args@[i as int]@);
        }
        match parse_variable(args[i].as_str()) {
            Some(b) => ctx.insert(b.0.as_str(), b.1.as_str()),
            None => {},
        }
        i += 1;
    }
    assert(all.take(args@.len() as int) =~= all);
    let name = vec!['n', 'a', 'm', 'e'];
    assert(name@ == name_variable());
    ctx.insert_chars(name, crate::text::to_chars(instance_name));
    ctx
}

/// The command words in `rest` that name no command, in the order of their
/// markers. Only markers that are closed count.
pub open spec fn unknown_words(rest: Seq<char>) -> Seq<Seq<char>>
    decreases rest.len(),
{
    match find_from(rest, open_token(), 0) {
        None => Seq::empty(),
        Some(start) => {
            let after = rest.subrange(start + 4, rest.len() as int);
            match find_from(after, close_token(), 0) {
                None => Seq::empty(),
                Some(end) => {
                    proof {
                        lemma_find_from(rest, open_token(), 0);
                        lemma_find_from(after, close_token(), 0);
                    }
                    let word = marker_word(after.subrange(0, end));
                    (if command_of(word) is Unknown {
                        seq![word]
                    } else {
                        Seq::empty()
                    }) + unknown_words(after.subrange(end + 4, after.len() as int))
                },
            }
        },
    }
}

/// The command words of `source` that name no command, for the caller to
/// warn about. Their markers change nothing in what the template decodes
/// to.
pub fn unknown_commands(source: &str) -> (out: Vec<String>)
    ensures
        crate::render::strings_view(out@) == unknown_words(source@),
{
    let s = crate::text::to_chars(source);
    let open = vec!['{', '#', '#', '#'];
    let close = vec!['#', '#', '#', '}'];
    assert(open@ == open_token());
    assert(close@ == close_token());
    let mut out: Vec<String> = Vec::new();
    let mut cursor: usize = 0;
    assert(s@.subrange(0, s@.len() as int) == s@);
    assert(crate::render::strings_view(out@) =~= Seq::<Seq<char>>::empty());
    loop
        invariant
            s@ == source@,
            open@ == open_token(),
            close@ == close_token(),
            cursor <= s.len(),
            unknown_words(source@) == crate::render::strings_view(out@) + unknown_words(
                s@.subrange(cursor as int, s@.len() as int),
            ),
        decreases s.len() - cursor,
    {
        let ghost rest = s@.subrange(cursor as int, s@.len() as int);
        let ghost before = crate::render::strings_view(out@);
        proof {
            lemma_find_from_suffix(s@, open@, cursor as int, 0);
            lemma_find_from(s@, open@, cursor as int);
            assert(before + Seq::<Seq<char>>::empty() =~= before);
        }
        match find(&s, &open, cursor) {
            None => {
                return out;
            },
            Some(start) => {
                let ghost after = s@.subrange(start + 4, s@.len() as int);
                proof {
                    assert(rest.subrange(start - cursor + 4, rest.len() as int) == after);
                    lemma_find_from_suffix(s@, close@, start + 4, 0);
                    lemma_find_from(s@, close@, start + 4);
                }
                match find(&s, &close, start + 4) {
                    None => {
                        return out;
                    },
                    Some(end) => {
                        let inner = sub_vec(&s, start + 4, end);
                        proof {
                            assert(after.subrange(0, end - (start + 4)) == inner@);
                            assert(after.subrange(end - (start + 4) + 4, after.len() as int)
                                == s@.subrange(end + 4, s@.len() as int));
                        }
                        let (cmd, _) = parse_marker(&inner);
                        match cmd {
                            Command::Unknown => {
                                let t = trimmed(&inner);
                                let e = word_end(&t);
                                let word = crate::text::string_of_range(&t, 0, e);
                                out.push(word);
                                proof {
                                    let tail = unknown_words(
                                        s@.subrange(end + 4, s@.len() as int),
                                    );
                                    assert(crate::render::strings_view(out@) =~= before.push(
                                        word@,
                                    ));
                                    assert(before + (seq![word@] + tail) =~= before.push(word@)
                                        + tail);
                                }
                            },
                            _ => {
                                proof {
                                    let tail = unknown_words(
                                        s@.subrange(end + 4, s@.len() as int),
                                    );
                                    assert(before + (Seq::<Seq<char>>::empty() + tail) =~= before
                                        + tail);
                                }
                            },
                        }
                        cursor = end + 4;
                    },
                }
            },
        }
    }
}

/// The texts between the tokens of the markers of `rest`, in order. Only
/// markers that are closed count.
pub open spec fn markers(rest: Seq<char>) -> Seq<Seq<char>>
    decreases rest.len(),
{
    match find_from(rest, open_token(), 0) {
        None => Seq::empty(),
        Some(start) => {
            let after = rest.subrange(start + 4, rest.len() as int);
            match find_from(after, close_token(), 0) {
                None => Seq::empty(),
                Some(end) => {
                    proof {
                        lemma_find_from(rest, open_token(), 0);
                        lemma_find_from(after, close_token(), 0);
                    }
                    seq![after.subrange(0, end)] + markers(
                        after.subrange(end + 4, after.len() as int),
                    )
                },
            }
        },
    }
}

/// Whether the marker with the text `inner` names a command and gives it a
/// path that is absolute or has a component `..`.
pub open spec fn is_escaping_marker(inner: Seq<char>) -> bool {
    !(command_of(marker_word(inner)) is Unknown) && leaves_root(marker_arg(inner))
}

/// The only error of decoding is `PathEscape`, and it comes exactly when a
/// marker is escaping.
pub proof fn lemma_decode_fails_on_escape_only(rest: Seq<char>, st: DecodeState)
    ensures
        match decode_rest(rest, st) {
            Ok(_) => forall|k: int|
                0 <= k < markers(rest).len() ==> !is_escaping_marker(#[trigger] markers(rest)[k]),
            Err(e) => e == PathError::PathEscape && exists|k: int|
                0 <= k < markers(rest).len() && is_escaping_marker(#[trigger] markers(rest)[k]),
        },
    decreases rest.len(),
{
    lemma_find_from(rest, open_token(), 0);
    match find_from(rest, open_token(), 0) {
        None => {},
        Some(start) => {
            let after = rest.subrange(start + 4, rest.len() as int);
            lemma_find_from(after, close_token(), 0);
            match find_from(after, close_token(), 0) {
                None => {},
                Some(end) => {
                    let inner = after.subrange(0, end);
                    let next = after.subrange(end + 4, after.len() as int);
                    let st1 = add_text(st, rest.subrange(0, start));
                    assert(markers(rest)[0] == inner);
                    match apply_marker(st1, inner) {
                        Err(e) => {
                            assert(is_escaping_marker(markers(rest)[0]));
                        },
                        Ok(st2) => {
                            lemma_decode_fails_on_escape_only(next, st2);
                            match decode_rest(next, st2) {
                                Ok(_) => {
                                    assert forall|k: int|
                                        0 <= k < markers(rest).len() implies !is_escaping_marker(
                                        #[trigger] markers(rest)[k],
                                    ) by {
                                        if k > 0 {
                                            assert(markers(rest)[k] == markers(next)[k - 1]);
                                        }
                                    }
                                },
                                Err(_) => {
                                    let k = choose|k: int|
                                        0 <= k < markers(next).len() && is_escaping_marker(
                                            #[trigger] markers(next)[k],
                                        );
                                    assert(markers(rest)[k + 1] == markers(next)[k]);
                                },
                            }
                        },
                    }
                },
            }
        },
    }
}

/// A template with an escaping marker is refused, wherever the marker
/// stands: decoding gives `PathEscape` and no entity.
pub proof fn lemma_escaping_marker_fails(text: Seq<char>, k: int)
    requires
        0 <= k < markers(text).len(),
        is_escaping_marker(markers(text)[k]),
    ensures
        decode(text) == Err::<Seq<Entity>, PathError>(PathError::PathEscape),
{
    lemma_decode_fails_on_escape_only(text, initial_state());
}

} // verus!
