//! Materialization: what has to be done for each entity of a template, and
//! what is printed. Nothing here touches the disk; the caller carries out the
//! steps.

use crate::context::VariableContext;
use crate::path_guard::{escapes, file_name_chars, file_name_of, leaves_root, validated, PathError};
use crate::render::{render_chars, rendered, rendered_unknown, strings_view};
use crate::template::{close_token, open_token, Entity, Node};
use crate::text::{
    contains, contains_seq, copy_chars, from_chars, lemma_find_from, matches_at, push_all,
    push_str, to_chars, trim, trimmed,
};
use vstd::prelude::*;

verus! {

/// The name of the variable that holds the path of the file being rendered.
pub open spec fn path_variable() -> Seq<char> {
    seq!['$', 'p', 'a', 't', 'h']
}

/// The name of the variable that holds the file name of the file being
/// rendered.
pub open spec fn file_variable() -> Seq<char> {
    seq!['$', 'f', 'i', 'l', 'e']
}

/// The context for the content of the file at `path`: the variables of `ctx`
/// and, over them, `$path` and, where the path has a file name, `$file`.
pub open spec fn with_magic_vars(ctx: Map<Seq<char>, Seq<char>>, path: Seq<char>) -> Map<
    Seq<char>,
    Seq<char>,
> {
    let with_path = ctx.insert(path_variable(), path);
    match file_name_of(path) {
        Some(name) => with_path.insert(file_variable(), name),
        None => with_path,
    }
}

/// Binds the variables that stand for the file itself.
fn add_magic_vars(context: &mut VariableContext, path: &Vec<char>)
    ensures
        final(context)@ == with_magic_vars(old(context)@, path@),
{
    let path_name = vec!['$', 'p', 'a', 't', 'h'];
    let file_name = vec!['$', 'f', 'i', 'l', 'e'];
    assert(path_name@ == path_variable());
    assert(file_name@ == file_variable());
    context.insert_chars(path_name, copy_chars(path));
    match file_name_chars(path) {
        Some(name) => context.insert_chars(file_name, name),
        None => {},
    }
}

/// Binds `$path` to `path_str` and, where the path has a file name, `$file`
/// to that name. Earlier bindings of the two are replaced.
pub fn update_context_with_magic_vars(context: &mut VariableContext, path_str: &str)
    ensures
        final(context)@ == with_magic_vars(old(context)@, path_str@),
{
    let path = to_chars(path_str);
    add_magic_vars(context, &path);
}

/// The rendered path and content of a file entity, or `PathEscape` if the
/// rendered path is absolute or a component of it is `..`.
///
/// The path is rendered first. The content is rendered with the variables
/// of the file added, which are computed from the rendered path, and is
/// trimmed.
pub open spec fn rendered_file(
    path: Seq<char>,
    content: Seq<char>,
    ctx: Map<Seq<char>, Seq<char>>,
) -> Result<(Seq<char>, Seq<char>), PathError> {
    let target = rendered(path, ctx);
    match validated(target) {
        Err(e) => Err(e),
        Ok(p) => Ok((p, trim(rendered(content, with_magic_vars(ctx, target))))),
    }
}

/// The filter names that are not known and are met while a file entity is
/// rendered: those of its path, then those of its content, which is
/// rendered with the variables of the file added.
pub open spec fn file_unknown_filters(
    path: Seq<char>,
    content: Seq<char>,
    ctx: Map<Seq<char>, Seq<char>>,
) -> Seq<Seq<char>> {
    rendered_unknown(path, ctx) + rendered_unknown(
        content,
        with_magic_vars(ctx, rendered(path, ctx)),
    )
}

/// A rendered file: its path, its content, and the filter names met on the
/// way that are not known, for the caller to warn about.
#[derive(Clone, Debug, PartialEq, Eq)]
pub struct RenderedFile {
    pub path: String,
    pub content: String,
    pub unknown_filters: Vec<String>,
}

/// Appends the strings of `src` to `dst`.
fn append_strings(dst: &mut Vec<String>, src: &Vec<String>)
    ensures
        strings_view(final(dst)@) == strings_view(old(dst)@) + strings_view(src@),
{
    let mut i: usize = 0;
    assert(strings_view(dst@) =~= strings_view(old(dst)@) + strings_view(src@).take(0));
    while i < src.len()
        invariant
            i <= src.len(),
            strings_view(dst@) == strings_view(old(dst)@) + strings_view(src@).take(i as int),
        decreases src.len() - i,
    {
        let ghost before = strings_view(dst@);
        let copy = src[i].clone();
        dst.push(copy);
        i += 1;
        assert(strings_view(dst@) =~= before.push(copy@));
        assert(strings_view(src@).take(i as int) =~= strings_view(src@).take(i - 1).push(
            src@[i - 1]@,
        ));
        assert(strings_view(dst@) =~= strings_view(old(dst)@) + strings_view(src@).take(
            i as int,
        ));
    }
    assert(strings_view(src@).take(src@.len() as int) =~= strings_view(src@));
}

/// Renders the path and the content of a file entity, whatever the path
/// turns out to be: the rendered path, the rendered and trimmed content, and
/// the unknown filter names.
fn render_parts(path: &str, content: &str, ctx: &VariableContext) -> (r: (
    Vec<char>,
    Vec<char>,
    Vec<String>,
))
    ensures
        r.0@ == rendered(path@, ctx@),
        r.1@ == trim(rendered(content@, with_magic_vars(ctx@, rendered(path@, ctx@)))),
        strings_view(r.2@) == file_unknown_filters(path@, content@, ctx@),
{
    let path_chars = to_chars(path);
    let (target, mut unknown) = render_chars(&path_chars, ctx);
    let mut file_ctx = ctx.clone();
    add_magic_vars(&mut file_ctx, &target);
    let content_chars = to_chars(content);
    let (body, in_content) = render_chars(&content_chars, &file_ctx);
    append_strings(&mut unknown, &in_content);
    let body = trimmed(&body);
    (target, body, unknown)
}

/// Renders a file entity: see [`rendered_file`] for its path and content,
/// and [`file_unknown_filters`] for the filter names that are not known.
pub fn render_file(path: &str, content: &str, ctx: &VariableContext) -> (r: Result<
    RenderedFile,
    PathError,
>)
    ensures
        match r {
            Ok(file) => rendered_file(path@, content@, ctx@) == Ok::<
                (Seq<char>, Seq<char>),
                PathError,
            >((file.path@, file.content@)) && strings_view(file.unknown_filters@)
                == file_unknown_filters(path@, content@, ctx@),
            Err(e) => rendered_file(path@, content@, ctx@) == Err::<
                (Seq<char>, Seq<char>),
                PathError,
            >(e),
        },
{
    let (target, body, unknown) = render_parts(path, content, ctx);
    if escapes(&target) {
        return Err(PathError::PathEscape);
    }
    Ok(
        RenderedFile {
            path: from_chars(&target),
            content: from_chars(&body),
            unknown_filters: unknown,
        },
    )
}

/// The filter names that are not known and are met while the entities are
/// rendered, in the order of the entities. A directory has none.
pub open spec fn plan_unknown_filters(entities: Seq<Entity>, ctx: Map<Seq<char>, Seq<char>>) -> Seq<
    Seq<char>,
>
    decreases entities.len(),
{
    if entities.len() == 0 {
        Seq::empty()
    } else {
        (match entities[0] {
            Entity::Dir(_) => Seq::empty(),
            Entity::File { path, content } => file_unknown_filters(path, content, ctx),
            Entity::Append { path, content } => file_unknown_filters(path, content, ctx),
        }) + plan_unknown_filters(entities.drop_first(), ctx)
    }
}

/// The filter names in the entities of a template that are not known, for
/// the caller to warn about. Each file is rendered with its own variables,
/// as [`make`] renders it; a name is reported whether or not the plan
/// succeeds.
pub fn unknown_filters(nodes: &Vec<Node>, ctx: &VariableContext) -> (out: Vec<String>)
    ensures
        strings_view(out@) == plan_unknown_filters(nodes.deep_view(), ctx@),
{
    let mut out: Vec<String> = Vec::new();
    let mut i: usize = 0;
    let ghost all = nodes.deep_view();
    assert(all.skip(0) =~= all);
    assert(strings_view(out@) =~= Seq::<Seq<char>>::empty());
    while i < nodes.len()
        invariant
            i <= nodes.len(),
            all == nodes.deep_view(),
            plan_unknown_filters(all, ctx@) == strings_view(out@) + plan_unknown_filters(
                all.skip(i as int),
                ctx@,
            ),
        decreases nodes.len() - i,
    {
        let ghost before = strings_view(out@);
        let ghost tail = plan_unknown_filters(all.skip(i + 1), ctx@);
        proof {
            assert(all.skip(i as int)[0] == nodes@[i as int]@);
            assert(all.skip(i as int).drop_first() =~= all.skip(i + 1));
        }
        match &nodes[i] {
            Node::Dir(_) => {
                assert(before + (Seq::<Seq<char>>::empty() + tail) =~= before + tail);
            },
            Node::File { path, content } => {
                let (_, _, found) = render_parts(path.as_str(), content.as_str(), ctx);
                append_strings(&mut out, &found);
                assert(before + (strings_view(found@) + tail) =~= strings_view(out@) + tail);
            },
            Node::Ext { path, content } => {
                let (_, _, found) = render_parts(path.as_str(), content.as_str(), ctx);
                append_strings(&mut out, &found);
                assert(before + (strings_view(found@) + tail) =~= strings_view(out@) + tail);
            },
        }
        i += 1;
    }
    assert(strings_view(out@) + plan_unknown_filters(all.skip(nodes@.len() as int), ctx@)
        =~= strings_view(out@));
    out
}

/// One thing to do for an entity.
#[derive(Clone, Debug, PartialEq, Eq)]
pub enum Step {
    /// Print the text; nothing on disk changes.
    Preview(String),
    /// Create the directory with its ancestors; one that exists is kept.
    CreateDir(String),
    /// Create the parent directories and write the file, over what is
    /// there.
    WriteFile { path: String, content: String },
    /// Write the file if it is missing, or extend it: see
    /// [`extend_content`].
    ExtendFile { path: String, content: String },
}

/// What a [`Step`] stands for.
pub enum StepView {
    Preview(Seq<char>),
    CreateDir(Seq<char>),
    WriteFile { path: Seq<char>, content: Seq<char> },
    ExtendFile { path: Seq<char>, content: Seq<char> },
}

impl View for Step {
    type V = StepView;

    open spec fn view(&self) -> StepView {
        match *self {
            Step::Preview(text) => StepView::Preview(text@),
            Step::CreateDir(path) => StepView::CreateDir(path@),
            Step::WriteFile { path, content } => StepView::WriteFile {
                path: path@,
                content: content@,
            },
            Step::ExtendFile { path, content } => StepView::ExtendFile {
                path: path@,
                content: content@,
            },
        }
    }
}

impl DeepView for Step {
    type V = StepView;

    open spec fn deep_view(&self) -> StepView {
        self@
    }
}

/// Whether a step leaves the disk as it is.
pub open spec fn is_preview(step: StepView) -> bool {
    step is Preview
}

/// The marker for `command` and `path` as a dry run shows it: on a line of
/// its own, after an empty line.
pub open spec fn preview_marker(command: Seq<char>, path: Seq<char>) -> Seq<char> {
    seq!['\n'] + open_token() + seq![' '] + command + seq![' '] + path + seq![' '] + close_token()
        + seq!['\n']
}

/// What a dry run shows for a directory.
pub open spec fn dir_preview(path: Seq<char>) -> Seq<char> {
    preview_marker(seq!['D', 'I', 'R'], path)
}

/// What a dry run shows for a file: its marker, then its rendered content
/// on lines of its own.
pub open spec fn file_preview(path: Seq<char>, content: Seq<char>) -> Seq<char> {
    preview_marker(seq!['F', 'I', 'L', 'E'], path) + content + seq!['\n']
}

/// The step for one entity.
///
/// A directory is created under its path as it stands. A file is written,
/// and an append target extended, under the rendered path with the rendered
/// content. In a dry run every step is a preview.
pub open spec fn entity_step(e: Entity, ctx: Map<Seq<char>, Seq<char>>, dry_run: bool) -> Result<
    StepView,
    PathError,
> {
    match e {
        Entity::Dir(path) => Ok(
            if dry_run {
                StepView::Preview(dir_preview(path))
            } else {
                StepView::CreateDir(path)
            },
        ),
        Entity::File { path, content } => match rendered_file(path, content, ctx) {
            Err(e) => Err(e),
            Ok(file) => Ok(
                if dry_run {
                    StepView::Preview(file_preview(file.0, file.1))
                } else {
                    StepView::WriteFile { path: file.0, content: file.1 }
                },
            ),
        },
        Entity::Append { path, content } => match rendered_file(path, content, ctx) {
            Err(e) => Err(e),
            Ok(file) => Ok(
                if dry_run {
                    StepView::Preview(file_preview(file.0, file.1))
                } else {
                    StepView::ExtendFile { path: file.0, content: file.1 }
                },
            ),
        },
    }
}

/// The view of a result that holds a step.
pub open spec fn step_result_view(r: Result<Step, PathError>) -> Result<StepView, PathError> {
    match r {
        Ok(step) => Ok(step@),
        Err(e) => Err(e),
    }
}

/// Builds the text of [`preview_marker`].
fn preview_marker_text(command: &Vec<char>, path: &str) -> (out: Vec<char>)
    ensures
        out@ == preview_marker(command@, path@),
{
    let open = vec!['{', '#', '#', '#'];
    let close = vec!['#', '#', '#', '}'];
    let mut out: Vec<char> = Vec::new();
    out.push('\n');
    push_all(&mut out, &open);
    out.push(' ');
    push_all(&mut out, command);
    out.push(' ');
    push_str(&mut out, path);
    out.push(' ');
    push_all(&mut out, &close);
    out.push('\n');
    assert(out@ =~= preview_marker(command@, path@));
    out
}

/// Builds the text of [`file_preview`].
fn file_preview_text(path: &str, content: &str) -> (out: String)
    ensures
        out@ == file_preview(path@, content@),
{
    let word = vec!['F', 'I', 'L', 'E'];
    let mut out = preview_marker_text(&word, path);
    push_str(&mut out, content);
    out.push('\n');
    from_chars(&out)
}

/// Decides what to do for one entity.
///
/// Fails with `PathEscape` if and only if the entity is a file or an append
/// target and its rendered path is absolute or has a component `..`.
pub fn plan_entity(node: &Node, ctx: &VariableContext, dry_run: bool) -> (r: Result<
    Step,
    PathError,
>)
    ensures
        step_result_view(r) == entity_step(node@, ctx@, dry_run),
{
    match node {
        Node::Dir(path) => {
            if dry_run {
                let word = vec!['D', 'I', 'R'];
                let text = preview_marker_text(&word, path.as_str());
                Ok(Step::Preview(from_chars(&text)))
            } else {
                Ok(Step::CreateDir(path.clone()))
            }
        },
        Node::File { path, content } => match render_file(path.as_str(), content.as_str(), ctx) {
            Err(e) => Err(e),
            Ok(file) => {
                if dry_run {
                    Ok(Step::Preview(file_preview_text(file.path.as_str(), file.content.as_str())))
                } else {
                    Ok(Step::WriteFile { path: file.path, content: file.content })
                }
            },
        },
        Node::Ext { path, content } => match render_file(path.as_str(), content.as_str(), ctx) {
            Err(e) => Err(e),
            Ok(file) => {
                if dry_run {
                    Ok(Step::Preview(file_preview_text(file.path.as_str(), file.content.as_str())))
                } else {
                    Ok(Step::ExtendFile { path: file.path, content: file.content })
                }
            },
        },
    }
}

/// The steps for `entities`, in order, or the error of the first entity
/// that has one.
pub open spec fn plan(entities: Seq<Entity>, ctx: Map<Seq<char>, Seq<char>>, dry_run: bool)
    -> Result<Seq<StepView>, PathError>
    decreases entities.len(),
{
    if entities.len() == 0 {
        Ok(Seq::empty())
    } else {
        match entity_step(entities[0], ctx, dry_run) {
            Err(e) => Err(e),
            Ok(first) => match plan(entities.drop_first(), ctx, dry_run) {
                Err(e) => Err(e),
                Ok(rest) => Ok(seq![first] + rest),
            },
        }
    }
}

/// Decides what to do for the entities of a template, in their order.
///
/// The plan is made before anything is carried out: if the rendered path
/// of one file is absolute or has a component `..`, the result is
/// `PathEscape` and there is no step at all. In a dry run every step is a
/// preview.
pub fn make(nodes: &Vec<Node>, ctx: &VariableContext, dry_run: bool) -> (r: Result<
    Vec<Step>,
    PathError,
>)
    ensures
        match r {
            Ok(steps) => plan(nodes.deep_view(), ctx@, dry_run) == Ok::<Seq<StepView>, PathError>(
                steps.deep_view(),
            ),
            Err(e) => plan(nodes.deep_view(), ctx@, dry_run) == Err::<Seq<StepView>, PathError>(e),
        },
        dry_run ==> match r {
            Ok(steps) => forall|i: int| 0 <= i < steps.len() ==> is_preview(#[trigger] steps[i]@),
            Err(_) => true,
        },
{
    let mut steps: Vec<Step> = Vec::new();
    let mut i: usize = 0;
    let ghost all = nodes.deep_view();
    assert(all.skip(0) =~= all);
    assert(steps.deep_view() =~= Seq::<StepView>::empty());
    while i < nodes.len()
        invariant
            i <= nodes.len(),
            all == nodes.deep_view(),
            plan(all, ctx@, dry_run) == match plan(all.skip(i as int), ctx@, dry_run) {
                Ok(rest) => Ok(steps.deep_view() + rest),
                Err(e) => Err(e),
            },
            dry_run ==> forall|k: int| 0 <= k < steps.len() ==> is_preview(#[trigger] steps[k]@),
        decreases nodes.len() - i,
    {
        let ghost before = steps.deep_view();
        proof {
            assert(all.skip(i as int)[0] == nodes@[i as int]@);
            assert(all.skip(i as int).drop_first() =~= all.skip(i + 1));
        }
        match plan_entity(&nodes[i], ctx, dry_run) {
            Err(e) => {
                return Err(e);
            },
            Ok(step) => {
                steps.push(step);
                proof {
                    assert(steps.deep_view() =~= before.push(step@));
                    match plan(all.skip(i + 1), ctx@, dry_run) {
                        Ok(rest) => {
                            assert(before + (seq![step@] + rest) =~= steps.deep_view() + rest);
                        },
                        Err(_) => {},
                    }
                }
            },
        }
        i += 1;
    }
    assert(steps.deep_view() + Seq::<StepView>::empty() =~= steps.deep_view());
    Ok(steps)
}

/// A dry run changes nothing on disk: every step of its plan is a preview.
pub proof fn lemma_dry_run_only_previews(entities: Seq<Entity>, ctx: Map<Seq<char>, Seq<char>>)
    ensures
        match plan(entities, ctx, true) {
            Ok(steps) => steps.len() == entities.len() && forall|i: int|
                0 <= i < steps.len() ==> is_preview(#[trigger] steps[i]),
            Err(_) => true,
        },
    decreases entities.len(),
{
    if entities.len() > 0 {
        lemma_dry_run_only_previews(entities.drop_first(), ctx);
    }
}

/// A file whose rendered path is absolute or has a component `..`, at any
/// position, makes the whole plan fail with `PathEscape`: no step is handed
/// out, so nothing on disk changes.
pub proof fn lemma_escape_fails_plan(
    entities: Seq<Entity>,
    ctx: Map<Seq<char>, Seq<char>>,
    dry_run: bool,
    i: int,
)
    requires
        0 <= i < entities.len(),
        match entities[i] {
            Entity::Dir(_) => false,
            Entity::File { path, .. } => leaves_root(rendered(path, ctx)),
            Entity::Append { path, .. } => leaves_root(rendered(path, ctx)),
        },
    ensures
        plan(entities, ctx, dry_run) == Err::<Seq<StepView>, PathError>(PathError::PathEscape),
    decreases entities.len(),
{
    if i > 0 {
        assert(entities.drop_first()[i - 1] == entities[i]);
        lemma_escape_fails_plan(entities.drop_first(), ctx, dry_run, i - 1);
        match entity_step(entities[0], ctx, dry_run) {
            Err(e) => {
                assert(e == PathError::PathEscape);
            },
            Ok(_) => {},
        }
    }
}

/// What becomes of an append target.
#[derive(Clone, Debug, PartialEq, Eq)]
pub enum Extension {
    /// The file is missing: it is written with this content.
    Write(String),
    /// The file is rewritten with this content: what it held, a line break,
    /// and the addition.
    Extend(String),
    /// The file already holds the addition and stays as it is.
    Skip,
}

/// What an [`Extension`] stands for.
pub enum ExtensionView {
    Write(Seq<char>),
    Extend(Seq<char>),
    Skip,
}

impl View for Extension {
    type V = ExtensionView;

    open spec fn view(&self) -> ExtensionView {
        match *self {
            Extension::Write(content) => ExtensionView::Write(content@),
            Extension::Extend(content) => ExtensionView::Extend(content@),
            Extension::Skip => ExtensionView::Skip,
        }
    }
}

/// What becomes of an append target that holds `existing`, or is missing,
/// when `addition` is to be appended.
pub open spec fn extended(existing: Option<Seq<char>>, addition: Seq<char>) -> ExtensionView {
    match existing {
        None => ExtensionView::Write(addition),
        Some(held) => if contains_seq(held, addition) {
            ExtensionView::Skip
        } else {
            ExtensionView::Extend(held + seq!['\n'] + addition)
        },
    }
}

/// What the file holds once an [`Extension`] was carried out.
pub open spec fn content_after(existing: Option<Seq<char>>, outcome: ExtensionView) -> Option<
    Seq<char>,
> {
    match outcome {
        ExtensionView::Write(content) => Some(content),
        ExtensionView::Extend(content) => Some(content),
        ExtensionView::Skip => existing,
    }
}

/// The view of an optional text.
pub open spec fn option_view(o: Option<&str>) -> Option<Seq<char>> {
    match o {
        Some(s) => Some(s@),
        None => None,
    }
}

/// Decides what becomes of an append target: `existing` is what the file
/// holds, or `None` if there is no such file.
///
/// A missing file is written. A file that already holds the addition
/// somewhere in it is left alone. Any other file gets a line break and the
/// addition after what it holds.
pub fn extend_content(existing: Option<&str>, addition: &str) -> (r: Extension)
    ensures
        r@ == extended(option_view(existing), addition@),
{
    match existing {
        None => Extension::Write(addition.to_owned()),
        Some(held) => {
            let mut text = to_chars(held);
            let add = to_chars(addition);
            if contains(&text, &add) {
                Extension::Skip
            } else {
                text.push('\n');
                push_all(&mut text, &add);
                assert(text@ =~= held@ + seq!['\n'] + addition@);
                Extension::Extend(from_chars(&text))
            }
        },
    }
}

/// A text that holds `pat` at some index contains it.
pub proof fn lemma_match_is_contained(s: Seq<char>, pat: Seq<char>, i: int)
    requires
        matches_at(s, pat, i),
    ensures
        contains_seq(s, pat),
{
    lemma_find_from(s, pat, 0);
}

/// Appending is idempotent: once an addition was appended to a file, or the
/// file was written with it, appending the same addition again leaves the
/// file as it is.
pub proof fn lemma_extend_idempotent(existing: Option<Seq<char>>, addition: Seq<char>)
    ensures
        extended(content_after(existing, extended(existing, addition)), addition)
            == ExtensionView::Skip,
{
    match existing {
        None => {
            assert(addition.subrange(0, addition.len() as int) =~= addition);
            lemma_match_is_contained(addition, addition, 0);
        },
        Some(held) => {
            if !contains_seq(held, addition) {
                let text = held + seq!['\n'] + addition;
                let at: int = held.len() as int + 1;
                assert(text.subrange(at, at + addition.len()) =~= addition);
                lemma_match_is_contained(text, addition, at);
            }
        },
    }
}

/// The line that reports what was done with an append target.
pub open spec fn extension_report(path: Seq<char>, outcome: ExtensionView) -> Seq<char> {
    match outcome {
        ExtensionView::Write(_) => "Writing: "@ + path,
        ExtensionView::Extend(_) => "Extending: "@ + path,
        ExtensionView::Skip => "WARN: "@ + path
            + " already contains identical content, not extending!"@,
    }
}

/// The line that reports a step, or for a preview its text. For an append
/// target the line depends on what the file held: see
/// [`extension_report`].
pub open spec fn step_report(step: StepView) -> Seq<char> {
    match step {
        StepView::Preview(text) => text,
        StepView::CreateDir(path) => "Creating dir: "@ + path,
        StepView::WriteFile { path, .. } => "Writing: "@ + path,
        StepView::ExtendFile { path, .. } => "Extending: "@ + path,
    }
}

/// Joins a label and a path.
fn labelled(label: &str, path: &str) -> (out: String)
    ensures
        out@ == label@ + path@,
{
    let mut out = to_chars(label);
    push_str(&mut out, path);
    from_chars(&out)
}

/// The line to print for an append target, once it is known what the file
/// held. `Skip` gives a warning, which goes to the diagnostic stream.
pub fn extension_line(path: &str, outcome: &Extension) -> (out: String)
    ensures
        out@ == extension_report(path@, outcome@),
{
    match outcome {
        Extension::Write(_) => labelled("Writing: ", path),
        Extension::Extend(_) => labelled("Extending: ", path),
        Extension::Skip => {
            let mut out = to_chars("WARN: ");
            push_str(&mut out, path);
            push_str(&mut out, " already contains identical content, not extending!");
            from_chars(&out)
        },
    }
}

/// The line to print for a step; for a preview, its text.
pub fn status_line(step: &Step) -> (out: String)
    ensures
        out@ == step_report(step@),
{
    match step {
        Step::Preview(text) => text.clone(),
        Step::CreateDir(path) => labelled("Creating dir: ", path.as_str()),
        Step::WriteFile { path, .. } => labelled("Writing: ", path.as_str()),
        Step::ExtendFile { path, .. } => labelled("Extending: ", path.as_str()),
    }
}

} // verus!
