//! Placeholder substitution.
//!
//! A placeholder is written `{{ key }}` or `{{ key | filter | filter }}`.
//! Rendering never fails: a placeholder whose key is not bound is left as it
//! stands, and a filter that is not known leaves the value as it is.

use crate::context::VariableContext;
use crate::text::{
    find, find_from, from_chars, lemma_find_from, lemma_find_from_suffix, push_all, push_range,
    same_chars, sub_vec, to_chars, trim, trimmed,
};
use vstd::prelude::*;

verus! {

/// The marker that opens a placeholder.
pub open spec fn open_braces() -> Seq<char> {
    seq!['{', '{']
}

/// The marker that closes a placeholder.
pub open spec fn close_braces() -> Seq<char> {
    seq!['}', '}']
}

/// The name of the filter that turns a value into upper case.
pub open spec fn upper_filter() -> Seq<char> {
    seq!['u', 'p', 'p', 'e', 'r']
}

/// The upper-case form of a text, as `str::to_uppercase` computes it.
pub uninterp spec fn uppercase_of(s: Seq<char>) -> Seq<char>;

/// `str::to_uppercase`: the upper-case equivalent of `s` as a new string. The
/// result depends on the characters of `s` alone.
#[verifier::external_body]
fn to_uppercase(s: &str) -> (out: String)
    ensures
        out@ == uppercase_of(s@),
{
    s.to_uppercase()
}

/// The pieces of `s` between the occurrences of `sep`, in order. There is
/// always at least one piece.
pub open spec fn split_on(s: Seq<char>, sep: char) -> Seq<Seq<char>>
    decreases s.len(),
{
    match find_from(s, seq![sep], 0) {
        None => seq![s],
        Some(k) => {
            proof {
                lemma_find_from(s, seq![sep], 0);
            }
            seq![s.subrange(0, k)] + split_on(s.subrange(k + 1, s.len() as int), sep)
        },
    }
}

/// Whether `filter` names a filter.
pub open spec fn is_known_filter(filter: Seq<char>) -> bool {
    filter == upper_filter()
}

/// `value` after the filter named `filter`; a name that is not known changes
/// nothing.
pub open spec fn apply_filter(value: Seq<char>, filter: Seq<char>) -> Seq<char> {
    if filter == upper_filter() {
        uppercase_of(value)
    } else {
        value
    }
}

/// `value` after the filters that the segments `filters` name, applied from
/// left to right. Each segment is trimmed first.
pub open spec fn apply_filters(value: Seq<char>, filters: Seq<Seq<char>>) -> Seq<char>
    decreases filters.len(),
{
    if filters.len() == 0 {
        value
    } else {
        apply_filters(apply_filter(value, trim(filters[0])), filters.drop_first())
    }
}

/// The trimmed segments of `filters` that name no known filter, in order.
pub open spec fn unknown_among(filters: Seq<Seq<char>>) -> Seq<Seq<char>>
    decreases filters.len(),
{
    if filters.len() == 0 {
        Seq::empty()
    } else if is_known_filter(trim(filters[0])) {
        unknown_among(filters.drop_first())
    } else {
        seq![trim(filters[0])] + unknown_among(filters.drop_first())
    }
}

/// The key of the placeholder with the text `inner` between its markers.
pub open spec fn placeholder_key(inner: Seq<char>) -> Seq<char> {
    trim(split_on(inner, '|')[0])
}

/// What the placeholder with the text `inner` becomes: the filtered value of
/// its key, or the placeholder itself if the key is not bound.
pub open spec fn expansion(inner: Seq<char>, ctx: Map<Seq<char>, Seq<char>>) -> Seq<char> {
    let key = placeholder_key(inner);
    if ctx.contains_key(key) {
        apply_filters(ctx[key], split_on(inner, '|').drop_first())
    } else {
        open_braces() + inner + close_braces()
    }
}

/// The unknown filter names of the placeholder `inner`; none if its key is
/// not bound, since no filter is applied then.
pub open spec fn expansion_unknown(inner: Seq<char>, ctx: Map<Seq<char>, Seq<char>>) -> Seq<
    Seq<char>,
> {
    if ctx.contains_key(placeholder_key(inner)) {
        unknown_among(split_on(inner, '|').drop_first())
    } else {
        Seq::empty()
    }
}

/// The text `t` with its placeholders expanded, read from left to right.
///
/// A placeholder runs from `{{` to the next `}}`. An open marker without a
/// close marker after it is copied as it stands, with all that follows.
pub open spec fn rendered(t: Seq<char>, ctx: Map<Seq<char>, Seq<char>>) -> Seq<char>
    decreases t.len(),
{
    if t.len() == 0 {
        t
    } else if t.len() >= 2 && t[0] == '{' && t[1] == '{' {
        let after = t.subrange(2, t.len() as int);
        match find_from(after, close_braces(), 0) {
            None => t,
            Some(end) => {
                proof {
                    lemma_find_from(after, close_braces(), 0);
                }
                expansion(after.subrange(0, end), ctx) + rendered(
                    after.subrange(end + 2, after.len() as int),
                    ctx,
                )
            },
        }
    } else {
        seq![t[0]] + rendered(t.subrange(1, t.len() as int), ctx)
    }
}

/// The unknown filter names met while rendering `t`, in order.
pub open spec fn rendered_unknown(t: Seq<char>, ctx: Map<Seq<char>, Seq<char>>) -> Seq<Seq<char>>
    decreases t.len(),
{
    if t.len() == 0 {
        Seq::empty()
    } else if t.len() >= 2 && t[0] == '{' && t[1] == '{' {
        let after = t.subrange(2, t.len() as int);
        match find_from(after, close_braces(), 0) {
            None => Seq::empty(),
            Some(end) => {
                proof {
                    lemma_find_from(after, close_braces(), 0);
                }
                expansion_unknown(after.subrange(0, end), ctx) + rendered_unknown(
                    after.subrange(end + 2, after.len() as int),
                    ctx,
                )
            },
        }
    } else {
        rendered_unknown(t.subrange(1, t.len() as int), ctx)
    }
}

/// The character sequences that a list of character vectors holds.
pub open spec fn vecs_view(v: Seq<Vec<char>>) -> Seq<Seq<char>> {
    Seq::new(v.len(), |i: int| v[i]@)
}

/// The character sequences that a list of strings holds.
pub open spec fn strings_view(v: Seq<String>) -> Seq<Seq<char>> {
    Seq::new(v.len(), |i: int| v[i]@)
}

/// Splits `s` at each occurrence of `sep`.
pub fn split(s: &Vec<char>, sep: char) -> (out: Vec<Vec<char>>)
    ensures
        vecs_view(out@) == split_on(s@, sep),
        out.len() >= 1,
{
    let pat = vec![sep];
    assert(pat@ == seq![sep]);
    let mut out: Vec<Vec<char>> = Vec::new();
    let mut cursor: usize = 0;
    assert(s@.subrange(0, s@.len() as int) == s@);
    loop
        invariant
            pat@ == seq![sep],
            cursor <= s.len(),
            split_on(s@, sep) == vecs_view(out@) + split_on(
                s@.subrange(cursor as int, s@.len() as int),
                sep,
            ),
        decreases s.len() - cursor,
    {
        let ghost rest = s@.subrange(cursor as int, s@.len() as int);
        let ghost before = vecs_view(out@);
        proof {
            lemma_find_from_suffix(s@, pat@, cursor as int, 0);
            lemma_find_from(s@, pat@, cursor as int);
        }
        match find(s, &pat, cursor) {
            None => {
                let piece = sub_vec(s, cursor, s.len());
                out.push(piece);
                assert(vecs_view(out@) =~= before + seq![rest]);
                return out;
            },
            Some(k) => {
                let piece = sub_vec(s, cursor, k);
                out.push(piece);
                proof {
                    assert(rest.subrange(0, k - cursor) == piece@);
                    assert(rest.subrange(k - cursor + 1, rest.len() as int) == s@.subrange(
                        k + 1,
                        s@.len() as int,
                    ));
                    assert(vecs_view(out@) =~= before + seq![piece@]);
                    assert(split_on(s@, sep) =~= vecs_view(out@) + split_on(
                        s@.subrange(k + 1, s@.len() as int),
                        sep,
                    ));
                }
                cursor = k + 1;
            },
        }
    }
}

/// The result of a rendering: the text, and the filter names in it that
/// are not known, for the caller to warn about.
#[derive(Debug)]
pub struct RenderReport {
    pub text: String,
    pub unknown_filters: Vec<String>,
}

/// `value` put into upper case `n` times over.
pub open spec fn upper_times(value: Seq<char>, n: nat) -> Seq<char>
    decreases n,
{
    if n == 0 {
        value
    } else {
        uppercase_of(upper_times(value, (n - 1) as nat))
    }
}

/// How many of the segments `filters` name the upper-case filter.
pub open spec fn count_upper(filters: Seq<Seq<char>>) -> nat
    decreases filters.len(),
{
    if filters.len() == 0 {
        0
    } else {
        (if trim(filters[0]) == upper_filter() {
            1nat
        } else {
            0nat
        }) + count_upper(filters.drop_first())
    }
}

/// `value` after the filters that the segments `filters` name, where
/// `uppers` holds the upper-case forms: `uppers[k]` is the value put into
/// upper case `k + 1` times over.
pub open spec fn filtered_given(
    value: Seq<char>,
    uppers: Seq<Seq<char>>,
    filters: Seq<Seq<char>>,
) -> Seq<char> {
    let n = count_upper(filters);
    if n == 0 {
        value
    } else {
        uppers[n - 1]
    }
}

/// Upper case over the upper case of a value is one time more over the
/// value.
proof fn lemma_upper_times_shift(value: Seq<char>, n: nat)
    ensures
        upper_times(uppercase_of(value), n) == upper_times(value, n + 1),
    decreases n,
{
    if n > 0 {
        lemma_upper_times_shift(value, (n - 1) as nat);
        assert(upper_times(value, n + 1) == uppercase_of(upper_times(value, n)));
    } else {
        assert(upper_times(value, 0) == value);
        assert(upper_times(value, 1) == uppercase_of(upper_times(value, 0)));
    }
}

/// The filters of a placeholder put the value into upper case as many
/// times as they name the upper-case filter, and do nothing else.
pub proof fn lemma_filters_count(value: Seq<char>, filters: Seq<Seq<char>>)
    ensures
        apply_filters(value, filters) == upper_times(value, count_upper(filters)),
    decreases filters.len(),
{
    if filters.len() > 0 {
        let rest = filters.drop_first();
        if trim(filters[0]) == upper_filter() {
            lemma_filters_count(uppercase_of(value), rest);
            lemma_upper_times_shift(value, count_upper(rest));
        } else {
            lemma_filters_count(value, rest);
        }
    }
}

/// Applies the filters that `parts[1..]` name to `value`, given the
/// upper-case forms of the value, and appends the names that are not known
/// to `unknown`. `uppers[k]` is the value put into upper case `k + 1` times
/// over; there must be one form for each time the upper-case filter is
/// named.
pub fn filter_value_given(
    value: &Vec<char>,
    uppers: &Vec<Vec<char>>,
    parts: &Vec<Vec<char>>,
    unknown: &mut Vec<String>,
) -> (out: Vec<char>)
    requires
        parts.len() >= 1,
        uppers.len() >= count_upper(vecs_view(parts@).drop_first()),
    ensures
        out@ == filtered_given(value@, vecs_view(uppers@), vecs_view(parts@).drop_first()),
        strings_view(final(unknown)@) == strings_view(old(unknown)@) + unknown_among(
            vecs_view(parts@).drop_first(),
        ),
{
    let upper = vec!['u', 'p', 'p', 'e', 'r'];
    assert(upper@ == upper_filter());
    let mut named: usize = 0;
    let mut i: usize = 1;
    let ghost all = vecs_view(parts@);
    assert(all.skip(1) =~= all.drop_first());
    assert(strings_view(unknown@) =~= strings_view(old(unknown)@) + Seq::<Seq<char>>::empty());
    while i < parts.len()
        invariant
            1 <= i <= parts.len(),
            all == vecs_view(parts@),
            upper@ == upper_filter(),
            count_upper(all.drop_first()) == named + count_upper(all.skip(i as int)),
            uppers.len() >= count_upper(all.drop_first()),
            strings_view(old(unknown)@) + unknown_among(all.drop_first()) == strings_view(unknown@)
                + unknown_among(all.skip(i as int)),
        decreases parts.len() - i,
    {
        let ghost before = strings_view(unknown@);
        let name = trimmed(&parts[i]);
        proof {
            assert(all.skip(i as int)[0] == parts@[i as int]@);
            assert(all.skip(i as int).drop_first() =~= all.skip(i + 1));
        }
        if same_chars(&name, &upper) {
            named += 1;
        } else {
            unknown.push(from_chars(&name));
            assert(strings_view(unknown@) =~= before + seq![name@]);
        }
        i += 1;
    }
    assert(all.skip(parts@.len() as int).len() == 0);
    if named == 0 {
        crate::text::copy_chars(value)
    } else {
        crate::text::copy_chars(&uppers[named - 1])
    }
}

/// How many of the segments `parts[1..]` name the upper-case filter.
fn count_upper_in(parts: &Vec<Vec<char>>) -> (n: usize)
    requires
        parts.len() >= 1,
    ensures
        n == count_upper(vecs_view(parts@).drop_first()),
{
    let upper = vec!['u', 'p', 'p', 'e', 'r'];
    assert(upper@ == upper_filter());
    let mut n: usize = 0;
    let mut i: usize = 1;
    let ghost all = vecs_view(parts@);
    assert(all.skip(1) =~= all.drop_first());
    while i < parts.len()
        invariant
            1 <= i <= parts.len(),
            n < i,
            all == vecs_view(parts@),
            upper@ == upper_filter(),
            count_upper(all.drop_first()) == n + count_upper(all.skip(i as int)),
        decreases parts.len() - i,
    {
        let name = trimmed(&parts[i]);
        proof {
            assert(all.skip(i as int)[0] == parts@[i as int]@);
            assert(all.skip(i as int).drop_first() =~= all.skip(i + 1));
        }
        if same_chars(&name, &upper) {
            n += 1;
        }
        i += 1;
    }
    assert(all.skip(parts@.len() as int).len() == 0);
    n
}

/// The first `n` upper-case forms of `value`.
fn upper_forms(value: &Vec<char>, n: usize) -> (uppers: Vec<Vec<char>>)
    ensures
        uppers.len() == n,
        forall|k: int| 0 <= k < n ==> #[trigger] uppers@[k]@ == upper_times(value@, (k + 1) as nat),
{
    let mut uppers: Vec<Vec<char>> = Vec::new();
    let mut current = from_chars(value);
    let mut k: usize = 0;
    while k < n
        invariant
            k <= n,
            uppers.len() == k,
            current@ == upper_times(value@, k as nat),
            forall|j: int|
                0 <= j < k ==> #[trigger] uppers@[j]@ == upper_times(value@, (j + 1) as nat),
        decreases n - k,
    {
        current = to_uppercase(current.as_str());
        uppers.push(to_chars(current.as_str()));
        k += 1;
    }
    uppers
}

/// Applies the filters that `parts[1..]` name to `value`, and appends the
/// names that are not known to `unknown`.
fn filter_value(value: &Vec<char>, parts: &Vec<Vec<char>>, unknown: &mut Vec<String>) -> (out: Vec<
    char,
>)
    requires
        parts.len() >= 1,
    ensures
        out@ == apply_filters(value@, vecs_view(parts@).drop_first()),
        strings_view(final(unknown)@) == strings_view(old(unknown)@) + unknown_among(
            vecs_view(parts@).drop_first(),
        ),
{
    let n = count_upper_in(parts);
    let uppers = upper_forms(value, n);
    proof {
        lemma_filters_count(value@, vecs_view(parts@).drop_first());
        if n > 0 {
            assert(vecs_view(uppers@)[n - 1] == uppers@[n - 1]@);
        }
    }
    filter_value_given(value, &uppers, parts, unknown)
}

/// Expands the placeholder with the text `inner` between its markers onto
/// the end of `out`.
fn expand(
    inner: &Vec<char>,
    ctx: &VariableContext,
    out: &mut Vec<char>,
    unknown: &mut Vec<String>,
)
    ensures
        final(out)@ == old(out)@ + expansion(inner@, ctx@),
        strings_view(final(unknown)@) == strings_view(old(unknown)@) + expansion_unknown(
            inner@,
            ctx@,
        ),
{
    let parts = split(inner, '|');
    let key = trimmed(&parts[0]);
    assert(key@ == placeholder_key(inner@));
    match ctx.get_chars(&key) {
        Some(value) => {
            let filtered = filter_value(value, &parts, unknown);
            push_all(out, &filtered);
        },
        None => {
            let ghost before = out@;
            out.push('{');
            out.push('{');
            push_all(out, inner);
            out.push('}');
            out.push('}');
            assert(out@ =~= before + (open_braces() + inner@ + close_braces()));
            assert(strings_view(unknown@) =~= strings_view(old(unknown)@) + Seq::<
                Seq<char>,
            >::empty());
        },
    }
}

/// Renders the characters `t`: the text, and the unknown filter names.
pub fn render_chars(t: &Vec<char>, ctx: &VariableContext) -> (r: (Vec<char>, Vec<String>))
    ensures
        r.0@ == rendered(t@, ctx@),
        strings_view(r.1@) == rendered_unknown(t@, ctx@),
{
    let close = vec!['}', '}'];
    assert(close@ == close_braces());
    let mut out: Vec<char> = Vec::new();
    let mut unknown: Vec<String> = Vec::new();
    let mut i: usize = 0;
    let n = t.len();
    assert(t@.subrange(0, n as int) == t@);
    assert(strings_view(unknown@) =~= Seq::<Seq<char>>::empty());
    while i < n
        invariant
            n == t.len(),
            i <= n,
            close@ == close_braces(),
            rendered(t@, ctx@) == out@ + rendered(t@.subrange(i as int, n as int), ctx@),
            rendered_unknown(t@, ctx@) == strings_view(unknown@) + rendered_unknown(
                t@.subrange(i as int, n as int),
                ctx@,
            ),
        decreases n - i,
    {
        let ghost rest = t@.subrange(i as int, n as int);
        let ghost out0 = out@;
        let ghost unknown0 = strings_view(unknown@);
        assert(rest[0] == t@[i as int]);
        if t[i] == '{' && i + 1 < n && t[i + 1] == '{' {
            assert(rest[1] == t@[i + 1]);
            let ghost after = rest.subrange(2, rest.len() as int);
            proof {
                assert(after == t@.subrange(i + 2, n as int));
                lemma_find_from_suffix(t@, close@, i + 2, 0);
                lemma_find_from(t@, close@, i + 2);
            }
            match find(t, &close, i + 2) {
                None => {
                    push_range(&mut out, t, i, n);
                    assert(strings_view(unknown@) + Seq::<Seq<char>>::empty() =~= strings_view(
                        unknown@,
                    ));
                    return (out, unknown);
                },
                Some(end) => {
                    let inner = sub_vec(t, i + 2, end);
                    proof {
                        assert(after.subrange(0, end - (i + 2)) == inner@);
                        assert(after.subrange(end - (i + 2) + 2, after.len() as int)
                            == t@.subrange(end + 2, n as int));
                    }
                    expand(&inner, ctx, &mut out, &mut unknown);
                    proof {
                        let tail = rendered(t@.subrange(end + 2, n as int), ctx@);
                        assert(out0 + (expansion(inner@, ctx@) + tail) =~= out@ + tail);
                        let tail_unknown = rendered_unknown(t@.subrange(end + 2, n as int), ctx@);
                        assert(unknown0 + (expansion_unknown(inner@, ctx@) + tail_unknown)
                            =~= strings_view(unknown@) + tail_unknown);
                    }
                    i = end + 2;
                },
            }
        } else {
            out.push(t[i]);
            proof {
                assert(rest.subrange(1, rest.len() as int) == t@.subrange(i + 1, n as int));
                let tail = rendered(t@.subrange(i + 1, n as int), ctx@);
                assert(out0 + (seq![t@[i as int]] + tail) =~= out@ + tail);
            }
            i += 1;
        }
    }
    assert(out@ + Seq::<char>::empty() =~= out@);
    assert(strings_view(unknown@) + Seq::<Seq<char>>::empty() =~= strings_view(unknown@));
    (out, unknown)
}

/// Renders `template` with the variables of `ctx`, and reports the filter
/// names that are not known.
pub fn render_report(template: &str, ctx: &VariableContext) -> (r: RenderReport)
    ensures
        r.text@ == rendered(template@, ctx@),
        strings_view(r.unknown_filters@) == rendered_unknown(template@, ctx@),
{
    let t = to_chars(template);
    let (out, unknown) = render_chars(&t, ctx);
    RenderReport { text: from_chars(&out), unknown_filters: unknown }
}

/// Renders `template` with the variables of `ctx`.
///
/// Each placeholder whose key is bound becomes the value of the key after
/// its filters; every other character is copied.
pub fn render(template: &str, ctx: &VariableContext) -> (out: String)
    ensures
        out@ == rendered(template@, ctx@),
{
    render_report(template, ctx).text
}

/// Whether `ctx` binds the key of no placeholder of `t`.
pub open spec fn keys_unbound(t: Seq<char>, ctx: Map<Seq<char>, Seq<char>>) -> bool
    decreases t.len(),
{
    if t.len() == 0 {
        true
    } else if t.len() >= 2 && t[0] == '{' && t[1] == '{' {
        let after = t.subrange(2, t.len() as int);
        match find_from(after, close_braces(), 0) {
            None => true,
            Some(end) => {
                proof {
                    lemma_find_from(after, close_braces(), 0);
                }
                !ctx.contains_key(placeholder_key(after.subrange(0, end))) && keys_unbound(
                    after.subrange(end + 2, after.len() as int),
                    ctx,
                )
            },
        }
    } else {
        keys_unbound(t.subrange(1, t.len() as int), ctx)
    }
}

/// Placeholders that are not bound come through unchanged: where the
/// context binds the key of no placeholder of a text, rendering gives the
/// text itself.
pub proof fn lemma_unbound_renders_unchanged(t: Seq<char>, ctx: Map<Seq<char>, Seq<char>>)
    requires
        keys_unbound(t, ctx),
    ensures
        rendered(t, ctx) == t,
    decreases t.len(),
{
    if t.len() == 0 {
    } else if t.len() >= 2 && t[0] == '{' && t[1] == '{' {
        let after = t.subrange(2, t.len() as int);
        lemma_find_from(after, close_braces(), 0);
        match find_from(after, close_braces(), 0) {
            None => {},
            Some(end) => {
                let inner = after.subrange(0, end);
                let rest = after.subrange(end + 2, after.len() as int);
                lemma_unbound_renders_unchanged(rest, ctx);
                assert(after.subrange(end, end + 2) == close_braces());
                assert(t =~= open_braces() + inner + close_braces() + rest) by {
                    assert(after.subrange(end, end + 2)[0] == after[end]);
                    assert(after.subrange(end, end + 2)[1] == after[end + 1]);
                }
            },
        }
    } else {
        let rest = t.subrange(1, t.len() as int);
        lemma_unbound_renders_unchanged(rest, ctx);
        assert(t =~= seq![t[0]] + rest);
    }
}

/// With no variable bound, every text renders to itself.
pub proof fn lemma_empty_context_renders_unchanged(t: Seq<char>)
    ensures
        rendered(t, Map::empty()) == t,
{
    lemma_keys_unbound_in_empty(t);
    lemma_unbound_renders_unchanged(t, Map::empty());
}

proof fn lemma_keys_unbound_in_empty(t: Seq<char>)
    ensures
        keys_unbound(t, Map::<Seq<char>, Seq<char>>::empty()),
    decreases t.len(),
{
    if t.len() == 0 {
    } else if t.len() >= 2 && t[0] == '{' && t[1] == '{' {
        let after = t.subrange(2, t.len() as int);
        lemma_find_from(after, close_braces(), 0);
        match find_from(after, close_braces(), 0) {
            None => {},
            Some(end) => {
                lemma_keys_unbound_in_empty(after.subrange(end + 2, after.len() as int));
            },
        }
    } else {
        lemma_keys_unbound_in_empty(t.subrange(1, t.len() as int));
    }
}

} // verus!
