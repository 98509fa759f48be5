//! Decoding undoes encoding: the template text written for a sequence of
//! entities decodes to the same entities, in the same order.

use crate::gen_template::{
    dir_word, encode, encode_entity, ext_word, file_word, item_entity, marker_inner,
    relative_path, substituted, tree_entities, tree_template, CreateError, SourceItem,
};
use crate::path_guard::{leaves_root, PathError};
use crate::template::{
    add_text, apply_marker, close_token, command_of, decode, decode_rest, flush, initial_state,
    marker_arg, marker_word, open_token, Command, DecodeState, Entity,
};
use crate::text::{
    find_from, is_space, lemma_find_from, lemma_find_from_is, lemma_skip_spaces_bounds,
    lemma_skip_word_bounds, matches_at, same_ignoring_ascii_case, skip_spaces, skip_word, trim,
    trim_end, trim_start,
};
use vstd::prelude::*;

verus! {

/// Whether `pat` stands nowhere in `s`.
pub open spec fn free_of(s: Seq<char>, pat: Seq<char>) -> bool {
    forall|j: int| !matches_at(s, pat, j)
}

/// Whether a marker can carry the path `p` unchanged: it has no white space
/// at its ends, does not hold the close token, is relative and has no
/// component `..`.
pub open spec fn marker_safe_path(p: Seq<char>) -> bool {
    &&& trim(p) == p
    &&& free_of(p, close_token())
    &&& !leaves_root(p)
}

/// Whether template text can carry the entity `e` unchanged: its path fits
/// in a marker and its content does not hold the open token.
pub open spec fn round_trips(e: Entity) -> bool {
    match e {
        Entity::Dir(path) => marker_safe_path(path),
        Entity::File { path, content } => marker_safe_path(path) && free_of(content, open_token()),
        Entity::Append { path, content } => marker_safe_path(path) && free_of(
            content,
            open_token(),
        ),
    }
}

/// The entity as decoding gives it back: a content comes with the line
/// break after its marker and the one that ends it.
pub open spec fn as_decoded(e: Entity) -> Entity {
    match e {
        Entity::Dir(path) => Entity::Dir(path),
        Entity::File { path, content } => Entity::File {
            path,
            content: seq!['\n'] + content + seq!['\n'],
        },
        Entity::Append { path, content } => Entity::Append {
            path,
            content: seq!['\n'] + content + seq!['\n'],
        },
    }
}

proof fn lemma_trim_end_prefix(x: Seq<char>)
    ensures
        trim_end(x).len() <= x.len(),
        trim_end(x) == x.subrange(0, trim_end(x).len() as int),
    decreases x.len(),
{
    if x.len() > 0 && is_space(x.last()) {
        lemma_trim_end_prefix(x.drop_last());
        assert(x.drop_last().subrange(0, trim_end(x).len() as int) =~= x.subrange(
            0,
            trim_end(x).len() as int,
        ));
    } else {
        assert(x.subrange(0, x.len() as int) =~= x);
    }
}

/// A text that is its own trimmed form has no white space at its ends.
proof fn lemma_trim_fixed(p: Seq<char>)
    requires
        trim(p) == p,
        p.len() > 0,
    ensures
        !is_space(p[0]),
        !is_space(p.last()),
{
    lemma_skip_spaces_bounds(p, 0);
    lemma_trim_end_prefix(trim_start(p));
    if is_space(p[0]) {
        assert(skip_spaces(p, 0) >= 1);
        assert(false);
    }
    assert(trim_start(p) =~= p);
    if is_space(p.last()) {
        lemma_trim_end_prefix(p.drop_last());
        assert(false);
    }
}

/// What a marker written for the word `cmd` and the path `p` is read as:
/// the same word and the same path.
proof fn lemma_marker_parse(cmd: Seq<char>, p: Seq<char>)
    requires
        cmd.len() > 0,
        forall|i: int| 0 <= i < cmd.len() ==> !is_space(#[trigger] cmd[i]),
        trim(p) == p,
    ensures
        marker_word(marker_inner(cmd, p)) == cmd,
        marker_arg(marker_inner(cmd, p)) == p,
{
    let inner = marker_inner(cmd, p);
    let n = cmd.len() as int;
    assert(inner[0] == ' ');
    assert(inner[1] == cmd[0]);
    assert(skip_spaces(inner, 1) == 1);
    assert(skip_spaces(inner, 0) == 1);
    let started = trim_start(inner);
    assert(started =~= cmd + seq![' '] + p + seq![' ']);
    let body = cmd + seq![' '] + p;
    assert(started.drop_last() =~= body);
    assert(started.last() == ' ');
    let t = if p.len() > 0 {
        body
    } else {
        cmd
    };
    if p.len() > 0 {
        lemma_trim_fixed(p);
        assert(body.last() == p.last());
        assert(trim_end(body) == body);
    } else {
        assert(body.drop_last() =~= cmd);
        assert(body.last() == ' ');
        assert(cmd.last() == cmd[n - 1]);
        assert(trim_end(cmd) == cmd);
        assert(trim_end(body) == cmd);
    }
    assert(trim(inner) == t);
    lemma_skip_word_bounds(t, 0);
    assert forall|j: int| 0 <= j < n implies !is_space(#[trigger] t[j]) by {
        assert(t[j] == cmd[j]);
    }
    if p.len() > 0 {
        assert(t[n] == ' ');
    }
    let e = skip_word(t, 0);
    assert(e == n) by {
        if e < n {
            assert(is_space(t[e]));
            assert(!is_space(t[e]));
        }
        if e > n {
            assert(!is_space(t[n]));
        }
    }
    assert(t.subrange(0, n) =~= cmd);
    if p.len() > 0 {
        assert(t.subrange(n + 1, t.len() as int) =~= p);
    }
}

/// Whether `cmd` is one of the three command words.
pub open spec fn is_command_word(cmd: Seq<char>) -> bool {
    cmd == dir_word() || cmd == file_word() || cmd == ext_word()
}

/// In what follows the open token of a written marker, the first close
/// token is the marker's own.
proof fn lemma_close_found(cmd: Seq<char>, p: Seq<char>, tail: Seq<char>)
    requires
        is_command_word(cmd),
        free_of(p, close_token()),
    ensures
        find_from(marker_inner(cmd, p) + close_token() + tail, close_token(), 0) == Some(
            marker_inner(cmd, p).len() as int,
        ),
{
    let inner = marker_inner(cmd, p);
    let n = inner.len() as int;
    let s = inner + close_token() + tail;
    let off = cmd.len() as int + 2;
    assert(s.subrange(n, n + 4) =~= close_token());
    assert forall|j: int| 0 <= j < n implies !matches_at(s, close_token(), j) by {
        if matches_at(s, close_token(), j) {
            let w = s.subrange(j, j + 4);
            assert(w[0] == s[j] && w[1] == s[j + 1] && w[2] == s[j + 2] && w[3] == s[j + 3]);
            assert(s[n - 1] == ' ');
            if j + 3 >= n - 1 {
                assert(false);
            } else if j >= off {
                assert(p.subrange(j - off, j - off + 4) =~= w);
                assert(matches_at(p, close_token(), j - off));
                assert(false);
            } else {
                assert(s[j] == '#');
                assert(s[j] == inner[j]);
                if j == 0 {
                } else if j == off - 1 {
                } else {
                    assert(inner[j] == cmd[j - 1]);
                }
                assert(false);
            }
        }
    }
    lemma_find_from_is(s, close_token(), 0, n);
}

/// After text that does not hold the open token and ends in a line break,
/// the first open token is the one that follows the text.
proof fn lemma_open_found(text: Seq<char>, tail: Seq<char>)
    requires
        free_of(text, open_token()),
        text.len() == 0 || text.last() == '\n',
        tail.len() >= 4,
        tail.subrange(0, 4) == open_token(),
    ensures
        find_from(text + tail, open_token(), 0) == Some(text.len() as int),
{
    let s = text + tail;
    let n = text.len() as int;
    assert(s.subrange(n, n + 4) =~= tail.subrange(0, 4));
    assert forall|j: int| 0 <= j < n implies !matches_at(s, open_token(), j) by {
        if matches_at(s, open_token(), j) {
            let w = s.subrange(j, j + 4);
            assert(w[0] == s[j] && w[1] == s[j + 1] && w[2] == s[j + 2] && w[3] == s[j + 3]);
            assert(s[n - 1] == '\n');
            if j + 3 >= n - 1 {
                assert(false);
            } else {
                assert(text.subrange(j, j + 4) =~= w);
                assert(matches_at(text, open_token(), j));
                assert(false);
            }
        }
    }
    lemma_find_from_is(s, open_token(), 0, n);
}

/// Each command word names its own command.
proof fn lemma_command_words()
    ensures
        command_of(dir_word()) == Command::Dir,
        command_of(file_word()) == Command::File,
        command_of(ext_word()) == Command::Ext,
{
    let d = dir_word();
    let f = file_word();
    let e = ext_word();
    assert(same_ignoring_ascii_case(d, d));
    assert(same_ignoring_ascii_case(f, f));
    assert(same_ignoring_ascii_case(e, e));
    assert(!same_ignoring_ascii_case(e, d)) by {
        assert(e[0] == 'E' && d[0] == 'D');
    }
}

/// The state after the marker of `e` was read in state `st`.
pub open spec fn state_after_marker(st: DecodeState, e: Entity) -> DecodeState {
    match e {
        Entity::Dir(path) => DecodeState { done: flush(st).push(Entity::Dir(path)), open: None },
        Entity::File { path, .. } => DecodeState {
            done: flush(st),
            open: Some(Entity::File { path, content: Seq::empty() }),
        },
        Entity::Append { path, .. } => DecodeState {
            done: flush(st),
            open: Some(Entity::Append { path, content: Seq::empty() }),
        },
    }
}

/// The command word of an entity's marker.
pub open spec fn word_of(e: Entity) -> Seq<char> {
    match e {
        Entity::Dir(_) => dir_word(),
        Entity::File { .. } => file_word(),
        Entity::Append { .. } => ext_word(),
    }
}

/// The path of an entity.
pub open spec fn path_of(e: Entity) -> Seq<char> {
    match e {
        Entity::Dir(path) => path,
        Entity::File { path, .. } => path,
        Entity::Append { path, .. } => path,
    }
}

/// What follows an entity's marker up to the next one.
pub open spec fn text_after_marker(e: Entity) -> Seq<char> {
    match e {
        Entity::Dir(_) => seq!['\n'],
        Entity::File { content, .. } => seq!['\n'] + content + seq!['\n'],
        Entity::Append { content, .. } => seq!['\n'] + content + seq!['\n'],
    }
}

/// Reading the marker written for `e` gives the state for `e`.
proof fn lemma_apply_written_marker(st: DecodeState, e: Entity)
    requires
        round_trips(e),
    ensures
        apply_marker(st, marker_inner(word_of(e), path_of(e))) == Ok::<DecodeState, PathError>(
            state_after_marker(st, e),
        ),
{
    let cmd = word_of(e);
    let p = path_of(e);
    lemma_command_words();
    assert forall|i: int| 0 <= i < cmd.len() implies !is_space(#[trigger] cmd[i]) by {}
    lemma_marker_parse(cmd, p);
}

/// The text written for an entity: open token, marker text, close token,
/// and what follows the marker.
proof fn lemma_entity_text(e: Entity)
    ensures
        encode_entity(e) =~= open_token() + (marker_inner(word_of(e), path_of(e)) + close_token()
            + text_after_marker(e)),
{
}

/// The text after a marker holds no open token and ends in a line break.
proof fn lemma_text_after_marker(e: Entity)
    requires
        round_trips(e),
    ensures
        free_of(text_after_marker(e), open_token()),
        text_after_marker(e).len() > 0,
        text_after_marker(e).last() == '\n',
{
    let text = text_after_marker(e);
    assert forall|j: int| !matches_at(text, open_token(), j) by {
        if matches_at(text, open_token(), j) {
            let w = text.subrange(j, j + 4);
            assert(w[0] == text[j] && w[3] == text[j + 3]);
            assert(text[0] == '\n');
            assert(text.last() == '\n');
            match e {
                Entity::Dir(_) => {},
                Entity::File { content, .. } => {
                    assert(j >= 1 && j + 4 <= text.len() - 1);
                    assert(content.subrange(j - 1, j + 3) =~= w);
                    assert(matches_at(content, open_token(), j - 1));
                },
                Entity::Append { content, .. } => {
                    assert(j >= 1 && j + 4 <= text.len() - 1);
                    assert(content.subrange(j - 1, j + 3) =~= w);
                    assert(matches_at(content, open_token(), j - 1));
                },
            }
        }
    }
}

/// The state after the entity `e` was read whole: marker and what follows.
proof fn lemma_state_after_entity(st: DecodeState, e: Entity)
    ensures
        flush(add_text(state_after_marker(st, e), text_after_marker(e))) == flush(st).push(
            as_decoded(e),
        ),
{
    match e {
        Entity::Dir(_) => {},
        Entity::File { path, content } => {
            assert(Seq::<char>::empty() + text_after_marker(e) =~= text_after_marker(e));
        },
        Entity::Append { path, content } => {
            assert(Seq::<char>::empty() + text_after_marker(e) =~= text_after_marker(e));
        },
    }
}

/// Decoding a text, the template text of one entity and whatever follows:
/// the text goes to the open entity, the marker is read, and decoding goes
/// on behind the marker.
proof fn lemma_decode_entity(text: Seq<char>, e: Entity, rest: Seq<char>, st: DecodeState)
    requires
        free_of(text, open_token()),
        text.len() == 0 || text.last() == '\n',
        round_trips(e),
    ensures
        decode_rest(text + (encode_entity(e) + rest), st) == decode_rest(
            text_after_marker(e) + rest,
            state_after_marker(add_text(st, text), e),
        ),
{
    let inner = marker_inner(word_of(e), path_of(e));
    let follow = text_after_marker(e);
    let tail = encode_entity(e) + rest;
    let full = text + tail;
    lemma_entity_text(e);
    assert(tail.subrange(0, 4) =~= open_token());
    lemma_open_found(text, tail);
    let start = text.len() as int;
    assert(full.subrange(0, start) =~= text);
    let st1 = add_text(st, text);
    let after = full.subrange(start + 4, full.len() as int);
    let after_close = follow + rest;
    assert(after =~= inner + close_token() + after_close);
    lemma_close_found(word_of(e), path_of(e), after_close);
    let end = inner.len() as int;
    assert(after.subrange(0, end) =~= inner);
    lemma_apply_written_marker(st1, e);
    assert(after.subrange(end + 4, after.len() as int) =~= after_close);
}

/// Decoding `text` followed by the template text of `entities`, from the
/// state `st`: the text goes to the open entity, and the entities follow.
proof fn lemma_decode_encoded(text: Seq<char>, entities: Seq<Entity>, st: DecodeState)
    requires
        free_of(text, open_token()),
        text.len() == 0 || text.last() == '\n',
        forall|i: int| 0 <= i < entities.len() ==> round_trips(#[trigger] entities[i]),
    ensures
        decode_rest(text + encode(entities), st) == Ok::<Seq<Entity>, PathError>(
            flush(add_text(st, text)) + entities.map_values(|e: Entity| as_decoded(e)),
        ),
    decreases entities.len(),
{
    let decoded = entities.map_values(|e: Entity| as_decoded(e));
    if entities.len() == 0 {
        assert(text + encode(entities) =~= text);
        lemma_find_from(text, open_token(), 0);
        assert(flush(add_text(st, text)) + decoded =~= flush(add_text(st, text)));
    } else {
        let e = entities[0];
        let rest_entities = entities.drop_first();
        let st1 = add_text(st, text);
        let st2 = state_after_marker(st1, e);
        let follow = text_after_marker(e);
        lemma_decode_entity(text, e, encode(rest_entities), st);
        lemma_text_after_marker(e);
        assert forall|i: int| 0 <= i < rest_entities.len() implies round_trips(
            #[trigger] rest_entities[i],
        ) by {
            assert(rest_entities[i] == entities[i + 1]);
        }
        lemma_decode_encoded(follow, rest_entities, st2);
        lemma_state_after_entity(st1, e);
        let rest_decoded = rest_entities.map_values(|e: Entity| as_decoded(e));
        assert(flush(st1).push(as_decoded(e)) + rest_decoded =~= flush(st1) + decoded);
    }
}

/// The round trip: template text that was written for entities decodes to
/// one entity for each of them, in their order, of the same kind and with
/// the same path. A content comes back between the two line breaks that
/// set it off in the text.
///
/// This holds of entities that the text can carry: the path has no white
/// space at its ends, does not hold the close token, is relative and has no
/// component `..`, and the content does not hold the open token.
pub proof fn lemma_round_trip(entities: Seq<Entity>)
    requires
        forall|i: int| 0 <= i < entities.len() ==> round_trips(#[trigger] entities[i]),
    ensures
        decode(encode(entities)) == Ok::<Seq<Entity>, PathError>(
            entities.map_values(|e: Entity| as_decoded(e)),
        ),
{
    let empty = Seq::<char>::empty();
    assert(empty + encode(entities) =~= encode(entities));
    lemma_decode_encoded(empty, entities, initial_state());
    let decoded = entities.map_values(|e: Entity| as_decoded(e));
    assert(flush(add_text(initial_state(), empty)) + decoded =~= decoded);
}

/// The entities of a tree are one for each item, in order: a directory for
/// a directory and a file for a file, under the item's path relative to the
/// root, with the instance name replaced.
pub proof fn lemma_tree_entities(
    root: Seq<char>,
    name: Seq<char>,
    no_replace: bool,
    items: Seq<SourceItem>,
)
    requires
        tree_entities(root, name, no_replace, items) is Ok,
    ensures
        ({
            let entities = tree_entities(root, name, no_replace, items)->Ok_0;
            &&& entities.len() == items.len()
            &&& forall|i: int|
                0 <= i < items.len() ==> item_entity(root, name, no_replace, #[trigger] items[i])
                    == Ok::<Entity, CreateError>(entities[i])
        }),
    decreases items.len(),
{
    if items.len() > 0 {
        let rest = items.drop_first();
        lemma_tree_entities(root, name, no_replace, rest);
        let entities = tree_entities(root, name, no_replace, items)->Ok_0;
        let rest_entities = tree_entities(root, name, no_replace, rest)->Ok_0;
        assert forall|i: int| 0 <= i < items.len() implies item_entity(
            root,
            name,
            no_replace,
            #[trigger] items[i],
        ) == Ok::<Entity, CreateError>(entities[i]) by {
            if i > 0 {
                assert(items[i] == rest[i - 1]);
                assert(entities[i] == rest_entities[i - 1]);
            }
        }
    }
}

/// The round trip of a whole tree: the template made from the items of a
/// tree decodes to one entity for each file and each empty directory, in
/// the order of the items, each under its path relative to the root with
/// the instance name replaced.
///
/// This holds where the template can carry each entity (see
/// [`round_trips`]).
pub proof fn lemma_tree_round_trip(
    root: Seq<char>,
    name: Seq<char>,
    no_replace: bool,
    items: Seq<SourceItem>,
)
    requires
        tree_entities(root, name, no_replace, items) is Ok,
        forall|i: int|
            0 <= i < items.len() ==> round_trips(
                #[trigger] tree_entities(root, name, no_replace, items)->Ok_0[i],
            ),
    ensures
        tree_template(root, name, no_replace, items) is Ok,
        ({
            let text = tree_template(root, name, no_replace, items)->Ok_0;
            &&& decode(text) is Ok
            &&& decode(text)->Ok_0.len() == items.len()
            &&& forall|i: int|
                0 <= i < items.len() ==> match #[trigger] items[i] {
                    SourceItem::Dir { path } => relative_path(path, root) is Some && decode(
                        text,
                    )->Ok_0[i] == Entity::Dir(
                        substituted(relative_path(path, root)->Some_0, name, no_replace),
                    ),
                    SourceItem::File { path, content } => relative_path(path, root) is Some
                        && decode(text)->Ok_0[i] == (Entity::File {
                        path: substituted(relative_path(path, root)->Some_0, name, no_replace),
                        content: seq!['\n'] + substituted(content, name, no_replace) + seq!['\n'],
                    }),
                }
        }),
{
    let entities = tree_entities(root, name, no_replace, items)->Ok_0;
    lemma_tree_entities(root, name, no_replace, items);
    lemma_round_trip(entities);
    let text = tree_template(root, name, no_replace, items)->Ok_0;
    assert forall|i: int| 0 <= i < items.len() implies match #[trigger] items[i] {
        SourceItem::Dir { path } => relative_path(path, root) is Some && decode(text)->Ok_0[i]
            == Entity::Dir(substituted(relative_path(path, root)->Some_0, name, no_replace)),
        SourceItem::File { path, content } => relative_path(path, root) is Some && decode(
            text,
        )->Ok_0[i] == (Entity::File {
            path: substituted(relative_path(path, root)->Some_0, name, no_replace),
            content: seq!['\n'] + substituted(content, name, no_replace) + seq!['\n'],
        }),
    } by {
        assert(item_entity(root, name, no_replace, items[i]) == Ok::<Entity, CreateError>(
            entities[i],
        ));
    }
}

} // verus!
