//! The listing of templates as a tree of directories and files.

use crate::render::{split, split_on, strings_view, vecs_view};
use crate::text::{from_chars, same_chars, to_chars};
use vstd::prelude::*;

verus! {

/// The name of a template file.
#[derive(Clone, Debug, PartialEq, Eq, PartialOrd, Ord)]
pub struct TemplateFile(pub String);

/// The name of a directory.
#[derive(Clone, Debug, PartialEq, Eq, PartialOrd, Ord, Hash)]
pub struct Dirname(pub String);

/// A node of the tree: a directory with what is in it, or a file.
#[derive(Debug, PartialEq, Eq)]
pub enum TemplateNode {
    Dir(Dirname, TemplateTree),
    File(TemplateFile),
}

/// The nodes of one level.
#[derive(Debug, PartialEq, Eq)]
pub struct TemplateTree(pub Vec<TemplateNode>);

/// What a node stands for.
pub enum TreeModel {
    Dir(Seq<char>, Seq<TreeModel>),
    File(Seq<char>),
}

/// The model of a node.
pub open spec fn node_model(n: TemplateNode) -> TreeModel
    decreases n,
{
    match n {
        TemplateNode::File(f) => TreeModel::File(f.0@),
        TemplateNode::Dir(d, t) => TreeModel::Dir(d.0@, nodes_model(t.0@)),
    }
}

/// The models of a list of nodes.
pub open spec fn nodes_model(s: Seq<TemplateNode>) -> Seq<TreeModel>
    decreases s,
{
    if s.len() == 0 {
        Seq::empty()
    } else {
        nodes_model(s.drop_last()).push(node_model(s.last()))
    }
}

impl View for TemplateTree {
    type V = Seq<TreeModel>;

    open spec fn view(&self) -> Seq<TreeModel> {
        nodes_model(self.0@)
    }
}

impl View for TemplateNode {
    type V = TreeModel;

    open spec fn view(&self) -> TreeModel {
        node_model(*self)
    }
}

/// Whether a component of a path names something: it is not empty and is
/// neither `.` nor `..`.
pub open spec fn is_named(c: Seq<char>) -> bool {
    c.len() > 0 && c != seq!['.'] && c != seq!['.', '.']
}

/// The members of `parts` that name something, in order.
pub open spec fn named_of(parts: Seq<Seq<char>>) -> Seq<Seq<char>>
    decreases parts.len(),
{
    if parts.len() == 0 {
        Seq::empty()
    } else if is_named(parts.last()) {
        named_of(parts.drop_last()).push(parts.last())
    } else {
        named_of(parts.drop_last())
    }
}

/// The named components of the path `p`, from the outermost directory to
/// the file.
pub open spec fn named_components(p: Seq<char>) -> Seq<Seq<char>> {
    named_of(split_on(p, '/'))
}

/// The nested node for the components of one path: each component but the
/// last is a directory that holds the next one, and the last is a file.
pub open spec fn chain(components: Seq<Seq<char>>) -> TreeModel
    decreases components.len(),
{
    if components.len() <= 1 {
        TreeModel::File(components[0])
    } else {
        TreeModel::Dir(components[0], seq![chain(components.drop_first())])
    }
}

/// The tree of one path: its nested node, or nothing where the path has no
/// named component.
pub open spec fn path_tree(p: Seq<char>) -> Seq<TreeModel> {
    let components = named_components(p);
    if components.len() == 0 {
        Seq::empty()
    } else {
        seq![chain(components)]
    }
}

/// The models of a list go member by member.
pub proof fn lemma_nodes_model(s: Seq<TemplateNode>)
    ensures
        nodes_model(s).len() == s.len(),
        forall|i: int| 0 <= i < s.len() ==> #[trigger] nodes_model(s)[i] == node_model(s[i]),
    decreases s.len(),
{
    if s.len() > 0 {
        lemma_nodes_model(s.drop_last());
    }
}

/// Decides [`is_named`].
fn names_something(c: &Vec<char>) -> (b: bool)
    ensures
        b == is_named(c@),
{
    if c.len() == 0 {
        false
    } else if c.len() == 1 && c[0] == '.' {
        assert(c@ =~= seq!['.']);
        false
    } else if c.len() == 2 && c[0] == '.' && c[1] == '.' {
        assert(c@ =~= seq!['.', '.']);
        false
    } else {
        assert(c@ != seq!['.']) by {
            if c@ == seq!['.'] {
                assert(c@.len() == 1 && c@[0] == '.');
            }
        }
        assert(c@ != seq!['.', '.']) by {
            if c@ == seq!['.', '.'] {
                assert(c@.len() == 2 && c@[0] == '.' && c@[1] == '.');
            }
        }
        true
    }
}

/// Computes [`named_components`].
fn components_of(path: &Vec<char>) -> (out: Vec<Vec<char>>)
    ensures
        vecs_view(out@) == named_components(path@),
{
    let parts = split(path, '/');
    let mut out: Vec<Vec<char>> = Vec::new();
    let mut i: usize = 0;
    let ghost all = vecs_view(parts@);
    assert(all.take(0) =~= Seq::<Seq<char>>::empty());
    while i < parts.len()
        invariant
            i <= parts.len(),
            all == vecs_view(parts@),
            vecs_view(out@) =~= named_of(all.take(i as int)),
        decreases parts.len() - i,
    {
        let ghost before = vecs_view(out@);
        proof {
            assert(all.take(i + 1).drop_last() =~= all.take(i as int));
            assert(all.take(i + 1).last() == parts@[i as int]@);
        }
        if names_something(&parts[i]) {
            let c = crate::text::copy_chars(&parts[i]);
            out.push(c);
            assert(vecs_view(out@) =~= before.push(c@));
        }
        i += 1;
    }
    assert(all.take(parts@.len() as int) =~= all);
    out
}

impl TemplateTree {
    /// The tree of one path: a directory for each named component but the
    /// last, each inside the one before, and a file for the last.
    pub fn from_path(path: &str) -> (tree: TemplateTree)
        ensures
            tree@ == path_tree(path@),
    {
        let chars = to_chars(path);
        let components = components_of(&chars);
        let n = components.len();
        if n == 0 {
            return TemplateTree(Vec::new());
        }
        let ghost all = vecs_view(components@);
        let mut node = TemplateNode::File(TemplateFile(from_chars(&components[n - 1])));
        let mut i: usize = n - 1;
        proof {
            assert(all.skip(n - 1).len() == 1);
            assert(all.skip(n - 1)[0] == components@[n - 1]@);
        }
        while i > 0
            invariant
                i < n,
                n == components.len(),
                all == vecs_view(components@),
                node_model(node) == chain(all.skip(i as int)),
            decreases i,
        {
            i -= 1;
            let ghost inner = node_model(node);
            let children = vec![node];
            proof {
                lemma_nodes_model(children@);
                assert(nodes_model(children@) =~= seq![inner]);
                assert(all.skip(i as int).drop_first() =~= all.skip(i + 1));
                assert(all.skip(i as int)[0] == components@[i as int]@);
            }
            node = TemplateNode::Dir(
                Dirname(from_chars(&components[i])),
                TemplateTree(children),
            );
        }
        let ghost top = node_model(node);
        let nodes = vec![node];
        proof {
            lemma_nodes_model(nodes@);
            assert(nodes_model(nodes@) =~= seq![top]);
            assert(all.skip(0) =~= all);
        }
        TemplateTree(nodes)
    }
}

/// Whether the text `a` comes before `b`, or is `b`, in the order of a
/// dictionary over the numbers of the characters.
pub open spec fn text_le(a: Seq<char>, b: Seq<char>) -> bool
    decreases a.len(),
{
    if a.len() == 0 {
        true
    } else if b.len() == 0 {
        false
    } else if a[0] != b[0] {
        (a[0] as u32) < (b[0] as u32)
    } else {
        text_le(a.drop_first(), b.drop_first())
    }
}

/// The name of a node.
pub open spec fn name_of(m: TreeModel) -> Seq<char> {
    match m {
        TreeModel::Dir(name, _) => name,
        TreeModel::File(name) => name,
    }
}

/// Whether `a` is shown before `b` where the two are in one level, or may
/// stay before it: directories come before files, and within each kind the
/// names are in order.
pub open spec fn shown_before(a: TreeModel, b: TreeModel) -> bool {
    if a is Dir && b is File {
        true
    } else if a is File && b is Dir {
        false
    } else {
        text_le(name_of(a), name_of(b))
    }
}

/// The indices `sorted` with `x` put in: behind every index whose node may
/// stay before the node at `x`.
pub open spec fn insert_index(s: Seq<TreeModel>, sorted: Seq<int>, x: int) -> Seq<int>
    decreases sorted.len(),
{
    if sorted.len() == 0 {
        seq![x]
    } else if shown_before(s[sorted.last()], s[x]) {
        sorted.push(x)
    } else {
        insert_index(s, sorted.drop_last(), x).push(sorted.last())
    }
}

/// The indices of the first `n` nodes of `s` in the order in which they are
/// shown. Nodes that compare alike keep their order.
pub open spec fn indices_upto(s: Seq<TreeModel>, n: nat) -> Seq<int>
    decreases n,
{
    if n == 0 {
        Seq::empty()
    } else {
        insert_index(s, indices_upto(s, (n - 1) as nat), n - 1)
    }
}

/// The indices of the nodes of `s` in the order in which they are shown.
pub open spec fn display_indices(s: Seq<TreeModel>) -> Seq<int> {
    indices_upto(s, s.len())
}

/// `n` spaces.
pub open spec fn spaces(n: nat) -> Seq<char> {
    Seq::new(n, |i: int| ' ')
}

/// The depth of what is inside a directory shown at `depth`: two more, as
/// far as the type goes.
pub open spec fn child_depth(depth: u16) -> u16 {
    if depth <= u16::MAX - 2 {
        (depth + 2) as u16
    } else {
        u16::MAX
    }
}

/// The line of a directory, without its line break. At depth 0 an empty
/// line comes before it.
pub open spec fn dir_line(name: Seq<char>, depth: u16) -> Seq<char> {
    (if depth == 0 {
        seq!['\n']
    } else {
        Seq::empty()
    }) + spaces(depth as nat) + name + seq!['/']
}

/// The name under which a file is shown: its last component, or all of it
/// where it has none.
pub open spec fn shown_name(name: Seq<char>) -> Seq<char> {
    match crate::path_guard::file_name_of(name) {
        Some(last) => last,
        None => name,
    }
}

/// The line of a file, without its line break.
pub open spec fn file_line(name: Seq<char>, depth: u16) -> Seq<char> {
    spaces(depth as nat) + seq!['-', ' '] + shown_name(name)
}

/// The lines of a node shown at `depth`: its own line and, for a directory,
/// the lines of what is in it, two deeper.
pub open spec fn model_text(m: TreeModel, depth: u16) -> Seq<char>
    decreases m, 0nat,
{
    match m {
        TreeModel::File(name) => file_line(name, depth) + seq!['\n'],
        TreeModel::Dir(name, children) => dir_line(name, depth) + seq!['\n'] + models_text(
            children,
            display_indices(children),
            child_depth(depth),
        ),
    }
}

/// The lines of the nodes of `s` at the indices `order`, one after the
/// other.
pub open spec fn models_text(s: Seq<TreeModel>, order: Seq<int>, depth: u16) -> Seq<char>
    decreases s, order.len(),
{
    if order.len() == 0 {
        Seq::empty()
    } else {
        let i = order[0];
        (if 0 <= i < s.len() {
            model_text(s[i], depth)
        } else {
            Seq::empty()
        }) + models_text(s, order.drop_first(), depth)
    }
}

/// The lines of one level shown at `depth`: its nodes in the order in which
/// they are shown.
pub open spec fn tree_text(s: Seq<TreeModel>, depth: u16) -> Seq<char> {
    models_text(s, display_indices(s), depth)
}

/// Decides [`text_le`].
fn text_before(a: &Vec<char>, b: &Vec<char>) -> (r: bool)
    ensures
        r == text_le(a@, b@),
{
    let mut i: usize = 0;
    assert(a@.skip(0) =~= a@ && b@.skip(0) =~= b@);
    loop
        invariant
            i <= a.len(),
            i <= b.len(),
            text_le(a@, b@) == text_le(a@.skip(i as int), b@.skip(i as int)),
        decreases a.len() - i,
    {
        if i == a.len() {
            return true;
        }
        if i == b.len() {
            return false;
        }
        proof {
            assert(a@.skip(i as int)[0] == a@[i as int]);
            assert(b@.skip(i as int)[0] == b@[i as int]);
            assert(a@.skip(i as int).drop_first() =~= a@.skip(i + 1));
            assert(b@.skip(i as int).drop_first() =~= b@.skip(i + 1));
        }
        if a[i] != b[i] {
            return (a[i] as u32) < (b[i] as u32);
        }
        i += 1;
    }
}

/// Decides [`shown_before`].
fn node_before(a: &TemplateNode, b: &TemplateNode) -> (r: bool)
    ensures
        r == shown_before(node_model(*a), node_model(*b)),
{
    match (a, b) {
        (TemplateNode::Dir(..), TemplateNode::File(..)) => true,
        (TemplateNode::File(..), TemplateNode::Dir(..)) => false,
        (TemplateNode::Dir(x, _), TemplateNode::Dir(y, _)) => {
            let p = to_chars(x.0.as_str());
            let q = to_chars(y.0.as_str());
            text_before(&p, &q)
        },
        (TemplateNode::File(x), TemplateNode::File(y)) => {
            let p = to_chars(x.0.as_str());
            let q = to_chars(y.0.as_str());
            text_before(&p, &q)
        },
    }
}

/// The indices of a list as integers.
pub open spec fn indices_view(order: Seq<usize>) -> Seq<int> {
    Seq::new(order.len(), |k: int| order[k] as int)
}

/// Putting `x` in at `pos` is [`insert_index`] where every index before
/// `pos` may stay and none from `pos` on may.
proof fn lemma_insert_index(s: Seq<TreeModel>, sorted: Seq<int>, x: int, pos: int)
    requires
        0 <= pos <= sorted.len(),
        pos == 0 || shown_before(s[sorted[pos - 1]], s[x]),
        forall|k: int| pos <= k < sorted.len() ==> !shown_before(s[#[trigger] sorted[k]], s[x]),
    ensures
        insert_index(s, sorted, x) == sorted.insert(pos, x),
    decreases sorted.len(),
{
    if sorted.len() == 0 {
        assert(sorted.insert(pos, x) =~= seq![x]);
    } else if pos == sorted.len() {
        assert(sorted.insert(pos, x) =~= sorted.push(x));
    } else {
        assert(!shown_before(s[sorted[sorted.len() - 1]], s[x]));
        let front = sorted.drop_last();
        lemma_insert_index(s, front, x, pos);
        assert(front.insert(pos, x).push(sorted.last()) =~= sorted.insert(pos, x));
    }
}

/// The indices of `nodes` in the order in which they are shown.
fn order_of(nodes: &Vec<TemplateNode>) -> (order: Vec<usize>)
    ensures
        indices_view(order@) == display_indices(nodes_model(nodes@)),
        order.len() == nodes.len(),
        forall|k: int| 0 <= k < order.len() ==> #[trigger] order[k] < nodes.len(),
{
    let ghost s = nodes_model(nodes@);
    proof {
        lemma_nodes_model(nodes@);
    }
    let mut order: Vec<usize> = Vec::new();
    let mut x: usize = 0;
    assert(indices_view(order@) =~= indices_upto(s, 0));
    while x < nodes.len()
        invariant
            x <= nodes.len(),
            s == nodes_model(nodes@),
            s.len() == nodes.len(),
            forall|i: int| 0 <= i < nodes.len() ==> #[trigger] s[i] == node_model(nodes@[i]),
            order.len() == x,
            indices_view(order@) == indices_upto(s, x as nat),
            forall|k: int| 0 <= k < order.len() ==> #[trigger] order[k] < x,
        decreases nodes.len() - x,
    {
        let ghost sorted = indices_view(order@);
        let mut pos: usize = order.len();
        while pos > 0 && !node_before(&nodes[order[pos - 1]], &nodes[x])
            invariant
                pos <= order.len(),
                x < nodes.len(),
                order.len() == x,
                sorted == indices_view(order@),
                forall|i: int| 0 <= i < nodes.len() ==> #[trigger] s[i] == node_model(nodes@[i]),
                forall|k: int| 0 <= k < order.len() ==> #[trigger] order[k] < x,
                forall|k: int|
                    pos <= k < sorted.len() ==> !shown_before(
                        s[#[trigger] sorted[k]],
                        s[x as int],
                    ),
            decreases pos,
        {
            assert(sorted[pos - 1] == order[pos - 1]);
            pos -= 1;
        }
        proof {
            if pos > 0 {
                assert(sorted[pos - 1] == order[pos - 1]);
            }
            lemma_insert_index(s, sorted, x as int, pos as int);
        }
        order.insert(pos, x);
        assert(indices_view(order@) =~= sorted.insert(pos as int, x as int));
        x += 1;
    }
    order
}

/// Appends `n` spaces to `out`.
fn push_spaces(out: &mut Vec<char>, n: u16)
    ensures
        final(out)@ == old(out)@ + spaces(n as nat),
{
    let mut i: u16 = 0;
    assert(out@ =~= old(out)@ + spaces(0));
    while i < n
        invariant
            i <= n,
            out@ == old(out)@ + spaces(i as nat),
        decreases n - i,
    {
        out.push(' ');
        i += 1;
        assert(out@ =~= old(out)@ + spaces(i as nat));
    }
}

/// Appends the line of a directory to `out`.
fn push_dir_line(out: &mut Vec<char>, name: &str, depth: u16)
    ensures
        final(out)@ == old(out)@ + dir_line(name@, depth),
{
    if depth == 0 {
        out.push('\n');
    }
    push_spaces(out, depth);
    crate::text::push_str(out, name);
    out.push('/');
    assert(out@ =~= old(out)@ + dir_line(name@, depth));
}

/// Appends the line of a file to `out`.
fn push_file_line(out: &mut Vec<char>, name: &str, depth: u16)
    ensures
        final(out)@ == old(out)@ + file_line(name@, depth),
{
    push_spaces(out, depth);
    out.push('-');
    out.push(' ');
    let chars = to_chars(name);
    match crate::path_guard::file_name_chars(&chars) {
        Some(last) => crate::text::push_all(out, &last),
        None => crate::text::push_all(out, &chars),
    }
    assert(out@ =~= old(out)@ + file_line(name@, depth));
}

/// Computes [`child_depth`].
fn deeper(depth: u16) -> (d: u16)
    ensures
        d == child_depth(depth),
{
    if depth <= u16::MAX - 2 {
        depth + 2
    } else {
        u16::MAX
    }
}

/// Appends the lines of `node`, shown at `depth`, to `out`.
fn push_node_lines(out: &mut Vec<char>, node: &TemplateNode, depth: u16)
    ensures
        final(out)@ == old(out)@ + model_text(node_model(*node), depth),
    decreases *node, 0nat,
{
    match node {
        TemplateNode::File(f) => {
            push_file_line(out, f.0.as_str(), depth);
            out.push('\n');
            assert(out@ =~= old(out)@ + model_text(node_model(*node), depth));
        },
        TemplateNode::Dir(d, t) => {
            push_dir_line(out, d.0.as_str(), depth);
            out.push('\n');
            push_tree_lines(out, t, deeper(depth));
            assert(out@ =~= old(out)@ + model_text(node_model(*node), depth));
        },
    }
}

/// Appends the lines of the level `tree`, shown at `depth`, to `out`.
fn push_tree_lines(out: &mut Vec<char>, tree: &TemplateTree, depth: u16)
    ensures
        final(out)@ == old(out)@ + tree_text(tree@, depth),
    decreases *tree, 1nat,
{
    let order = order_of(&tree.0);
    let ghost s = nodes_model(tree.0@);
    let ghost all = indices_view(order@);
    proof {
        lemma_nodes_model(tree.0@);
    }
    let mut k: usize = 0;
    assert(all.skip(0) =~= all);
    assert(out@ =~= old(out)@ + Seq::<char>::empty());
    while k < order.len()
        invariant
            k <= order.len(),
            s == nodes_model(tree.0@),
            s.len() == tree.0.len(),
            all == indices_view(order@),
            forall|i: int| 0 <= i < tree.0.len() ==> #[trigger] s[i] == node_model(tree.0@[i]),
            forall|j: int| 0 <= j < order.len() ==> #[trigger] order[j] < tree.0.len(),
            old(out)@ + models_text(s, all, depth) == out@ + models_text(
                s,
                all.skip(k as int),
                depth,
            ),
        decreases order.len() - k,
    {
        let ghost out0 = out@;
        let idx = order[k];
        proof {
            assert(all.skip(k as int)[0] == idx);
            assert(all.skip(k as int).drop_first() =~= all.skip(k + 1));
        }
        push_node_lines(out, &tree.0[idx], depth);
        proof {
            let tail = models_text(s, all.skip(k + 1), depth);
            assert(out0 + (model_text(s[idx as int], depth) + tail) =~= out@ + tail);
        }
        k += 1;
    }
    assert(out@ + models_text(s, all.skip(order@.len() as int), depth) =~= out@);
}

/// Things that are shown as indented lines.
pub trait DepthPrint {
    /// The text of `self` shown at `depth`.
    spec fn depth_text(&self, depth: u16) -> Seq<char>;

    /// The text of `self` shown at `depth`: indented by `depth` spaces.
    fn string_at_depth(&self, depth: u16) -> (out: String)
        ensures
            out@ == self.depth_text(depth),
    ;
}

impl DepthPrint for Dirname {
    open spec fn depth_text(&self, depth: u16) -> Seq<char> {
        dir_line(self.0@, depth)
    }

    fn string_at_depth(&self, depth: u16) -> (out: String) {
        let mut out: Vec<char> = Vec::new();
        push_dir_line(&mut out, self.0.as_str(), depth);
        assert(Seq::<char>::empty() + dir_line(self.0@, depth) =~= dir_line(self.0@, depth));
        from_chars(&out)
    }
}

impl DepthPrint for TemplateFile {
    open spec fn depth_text(&self, depth: u16) -> Seq<char> {
        file_line(self.0@, depth)
    }

    fn string_at_depth(&self, depth: u16) -> (out: String) {
        let mut out: Vec<char> = Vec::new();
        push_file_line(&mut out, self.0.as_str(), depth);
        assert(Seq::<char>::empty() + file_line(self.0@, depth) =~= file_line(self.0@, depth));
        from_chars(&out)
    }
}

impl DepthPrint for TemplateNode {
    open spec fn depth_text(&self, depth: u16) -> Seq<char> {
        model_text(self@, depth)
    }

    fn string_at_depth(&self, depth: u16) -> (out: String) {
        let mut out: Vec<char> = Vec::new();
        push_node_lines(&mut out, self, depth);
        assert(Seq::<char>::empty() + model_text(self@, depth) =~= model_text(self@, depth));
        from_chars(&out)
    }
}

impl DepthPrint for TemplateTree {
    open spec fn depth_text(&self, depth: u16) -> Seq<char> {
        tree_text(self@, depth)
    }

    fn string_at_depth(&self, depth: u16) -> (out: String) {
        let mut out: Vec<char> = Vec::new();
        push_tree_lines(&mut out, self, depth);
        assert(Seq::<char>::empty() + tree_text(self@, depth) =~= tree_text(self@, depth));
        from_chars(&out)
    }
}

/// The number of nodes in a node, counting the node itself.
pub open spec fn model_size(m: TreeModel) -> nat
    decreases m,
{
    match m {
        TreeModel::File(_) => 1,
        TreeModel::Dir(_, children) => 1 + models_size(children),
    }
}

/// The number of nodes in a list of nodes, at every depth.
pub open spec fn models_size(s: Seq<TreeModel>) -> nat
    decreases s,
{
    if s.len() == 0 {
        0
    } else {
        models_size(s.drop_last()) + model_size(s.last())
    }
}

/// The files of one level, in order.
pub open spec fn files_of(s: Seq<TreeModel>) -> Seq<TreeModel>
    decreases s.len(),
{
    if s.len() == 0 {
        Seq::empty()
    } else if s.last() is File {
        files_of(s.drop_last()).push(s.last())
    } else {
        files_of(s.drop_last())
    }
}

/// The names of the directories of one level, each once, in the order in
/// which they first occur.
pub open spec fn dir_names(s: Seq<TreeModel>) -> Seq<Seq<char>>
    decreases s.len(),
{
    if s.len() == 0 {
        Seq::empty()
    } else {
        let before = dir_names(s.drop_last());
        match s.last() {
            TreeModel::Dir(name, _) => if before.contains(name) {
                before
            } else {
                before.push(name)
            },
            TreeModel::File(_) => before,
        }
    }
}

/// What the directories named `name` of one level hold, one after the
/// other.
pub open spec fn children_of(s: Seq<TreeModel>, name: Seq<char>) -> Seq<TreeModel>
    decreases s.len(),
{
    if s.len() == 0 {
        Seq::empty()
    } else {
        children_of(s.drop_last(), name) + (match s.last() {
            TreeModel::Dir(n, children) => if n == name {
                children
            } else {
                Seq::empty()
            },
            TreeModel::File(_) => Seq::empty(),
        })
    }
}

/// One level with its directories of the same name made one: first the
/// files, in order, then one directory for each name, in the order in which
/// the names first occur. Each directory holds what the directories of its
/// name held, merged in the same way.
pub open spec fn merged(s: Seq<TreeModel>) -> Seq<TreeModel>
    decreases models_size(s), dir_names(s).len() + 1,
{
    files_of(s) + merged_dirs(s, dir_names(s))
}

/// The merged directories of the level `s` for the names `names`.
pub open spec fn merged_dirs(s: Seq<TreeModel>, names: Seq<Seq<char>>) -> Seq<TreeModel>
    decreases models_size(s), names.len(),
{
    if names.len() == 0 {
        Seq::empty()
    } else {
        let children = children_of(s, names[0]);
        seq![
            TreeModel::Dir(
                names[0],
                if models_size(children) < models_size(s) {
                    merged(children)
                } else {
                    Seq::empty()
                },
            ),
        ] + merged_dirs(s, names.drop_first())
    }
}

/// The size of a list is the sum over its parts.
pub proof fn lemma_size_concat(a: Seq<TreeModel>, b: Seq<TreeModel>)
    ensures
        models_size(a + b) == models_size(a) + models_size(b),
    decreases b.len(),
{
    if b.len() == 0 {
        assert(a + b =~= a);
    } else {
        lemma_size_concat(a, b.drop_last());
        assert((a + b).drop_last() =~= a + b.drop_last());
        assert((a + b).last() == b.last());
    }
}

/// What the directories of one name hold is smaller than the level they
/// are in.
pub proof fn lemma_children_smaller(s: Seq<TreeModel>, name: Seq<char>)
    ensures
        models_size(children_of(s, name)) <= models_size(s),
        s.len() > 0 ==> models_size(children_of(s, name)) < models_size(s),
    decreases s.len(),
{
    if s.len() > 0 {
        let front = s.drop_last();
        lemma_children_smaller(front, name);
        assert(model_size(s.last()) >= 1);
        match s.last() {
            TreeModel::Dir(n, children) => {
                if n == name {
                    lemma_size_concat(children_of(front, name), children);
                } else {
                    assert(children_of(s, name) =~= children_of(front, name));
                }
            },
            TreeModel::File(_) => {
                assert(children_of(s, name) =~= children_of(front, name));
            },
        }
    }
}

/// The models of a list with one more node.
proof fn lemma_model_push(v: Seq<TemplateNode>, x: TemplateNode)
    ensures
        nodes_model(v.push(x)) == nodes_model(v).push(node_model(x)),
{
    assert(v.push(x).drop_last() =~= v);
}

/// A copy of `node` with all that is in it.
fn copy_node(node: &TemplateNode) -> (out: TemplateNode)
    ensures
        node_model(out) == node_model(*node),
    decreases *node, 0nat,
{
    match node {
        TemplateNode::File(f) => TemplateNode::File(TemplateFile(f.0.clone())),
        TemplateNode::Dir(d, t) => {
            let mut children: Vec<TemplateNode> = Vec::new();
            append_copies(&mut children, &t.0);
            assert(Seq::<TreeModel>::empty() + nodes_model(t.0@) =~= nodes_model(t.0@));
            TemplateNode::Dir(Dirname(d.0.clone()), TemplateTree(children))
        },
    }
}

/// Appends copies of the nodes of `src` to `dst`.
fn append_copies(dst: &mut Vec<TemplateNode>, src: &Vec<TemplateNode>)
    ensures
        nodes_model(final(dst)@) == nodes_model(old(dst)@) + nodes_model(src@),
    decreases *src, 1nat,
{
    let mut i: usize = 0;
    assert(src@.take(0) =~= Seq::<TemplateNode>::empty());
    assert(nodes_model(dst@) =~= nodes_model(old(dst)@) + Seq::<TreeModel>::empty());
    while i < src.len()
        invariant
            i <= src.len(),
            nodes_model(dst@) == nodes_model(old(dst)@) + nodes_model(src@.take(i as int)),
        decreases src.len() - i,
    {
        let copy = copy_node(&src[i]);
        proof {
            lemma_model_push(dst@, copy);
            lemma_model_push(src@.take(i as int), src@[i as int]);
            assert(src@.take(i + 1) =~= src@.take(i as int).push(src@[i as int]));
        }
        dst.push(copy);
        assert(nodes_model(dst@) =~= nodes_model(old(dst)@) + nodes_model(src@.take(i + 1)));
        i += 1;
    }
    assert(src@.take(src@.len() as int) =~= src@);
}

/// Copies of the files of one level.
fn files_in(nodes: &Vec<TemplateNode>) -> (out: Vec<TemplateNode>)
    ensures
        nodes_model(out@) == files_of(nodes_model(nodes@)),
{
    let mut out: Vec<TemplateNode> = Vec::new();
    let mut i: usize = 0;
    assert(nodes@.take(0) =~= Seq::<TemplateNode>::empty());
    while i < nodes.len()
        invariant
            i <= nodes.len(),
            nodes_model(out@) == files_of(nodes_model(nodes@.take(i as int))),
        decreases nodes.len() - i,
    {
        proof {
            lemma_model_push(nodes@.take(i as int), nodes@[i as int]);
            assert(nodes@.take(i + 1) =~= nodes@.take(i as int).push(nodes@[i as int]));
            assert(nodes_model(nodes@.take(i + 1)).drop_last() =~= nodes_model(
                nodes@.take(i as int),
            ));
        }
        match &nodes[i] {
            TemplateNode::File(f) => {
                let copy = TemplateNode::File(TemplateFile(f.0.clone()));
                proof {
                    lemma_model_push(out@, copy);
                }
                out.push(copy);
            },
            TemplateNode::Dir(..) => {},
        }
        i += 1;
    }
    assert(nodes@.take(nodes@.len() as int) =~= nodes@);
    out
}

/// Whether `names` holds `name`.
fn holds_name(names: &Vec<Vec<char>>, name: &Vec<char>) -> (b: bool)
    ensures
        b == vecs_view(names@).contains(name@),
{
    let mut i: usize = 0;
    while i < names.len()
        invariant
            i <= names.len(),
            forall|k: int| 0 <= k < i ==> vecs_view(names@)[k] != name@,
        decreases names.len() - i,
    {
        if same_chars(&names[i], name) {
            assert(vecs_view(names@)[i as int] == name@);
            return true;
        }
        i += 1;
    }
    false
}

/// The names of the directories of one level, each once.
fn dir_names_in(nodes: &Vec<TemplateNode>) -> (out: Vec<Vec<char>>)
    ensures
        vecs_view(out@) == dir_names(nodes_model(nodes@)),
{
    let mut out: Vec<Vec<char>> = Vec::new();
    let mut i: usize = 0;
    assert(nodes@.take(0) =~= Seq::<TemplateNode>::empty());
    assert(vecs_view(out@) =~= Seq::<Seq<char>>::empty());
    while i < nodes.len()
        invariant
            i <= nodes.len(),
            vecs_view(out@) == dir_names(nodes_model(nodes@.take(i as int))),
        decreases nodes.len() - i,
    {
        proof {
            lemma_model_push(nodes@.take(i as int), nodes@[i as int]);
            assert(nodes@.take(i + 1) =~= nodes@.take(i as int).push(nodes@[i as int]));
            assert(nodes_model(nodes@.take(i + 1)).drop_last() =~= nodes_model(
                nodes@.take(i as int),
            ));
        }
        match &nodes[i] {
            TemplateNode::Dir(d, _) => {
                let name = to_chars(d.0.as_str());
                if !holds_name(&out, &name) {
                    let ghost before = vecs_view(out@);
                    out.push(name);
                    assert(vecs_view(out@) =~= before.push(name@));
                }
            },
            TemplateNode::File(_) => {},
        }
        i += 1;
    }
    assert(nodes@.take(nodes@.len() as int) =~= nodes@);
    out
}

/// Copies of what the directories named `name` of one level hold.
fn children_in(nodes: &Vec<TemplateNode>, name: &Vec<char>) -> (out: Vec<TemplateNode>)
    ensures
        nodes_model(out@) == children_of(nodes_model(nodes@), name@),
{
    let mut out: Vec<TemplateNode> = Vec::new();
    let mut i: usize = 0;
    assert(nodes@.take(0) =~= Seq::<TemplateNode>::empty());
    while i < nodes.len()
        invariant
            i <= nodes.len(),
            nodes_model(out@) == children_of(nodes_model(nodes@.take(i as int)), name@),
        decreases nodes.len() - i,
    {
        let ghost before = nodes_model(out@);
        proof {
            lemma_model_push(nodes@.take(i as int), nodes@[i as int]);
            assert(nodes@.take(i + 1) =~= nodes@.take(i as int).push(nodes@[i as int]));
            assert(nodes_model(nodes@.take(i + 1)).drop_last() =~= nodes_model(
                nodes@.take(i as int),
            ));
        }
        match &nodes[i] {
            TemplateNode::Dir(d, t) => {
                let n = to_chars(d.0.as_str());
                if same_chars(&n, name) {
                    append_copies(&mut out, &t.0);
                } else {
                    assert(before + Seq::<TreeModel>::empty() =~= before);
                }
            },
            TemplateNode::File(_) => {
                assert(before + Seq::<TreeModel>::empty() =~= before);
            },
        }
        i += 1;
    }
    assert(nodes@.take(nodes@.len() as int) =~= nodes@);
    out
}

/// Merges the nodes of one level: see [`merged`].
fn merge_nodes(nodes: &Vec<TemplateNode>) -> (out: Vec<TemplateNode>)
    ensures
        nodes_model(out@) == merged(nodes_model(nodes@)),
    decreases models_size(nodes_model(nodes@)),
{
    let ghost s = nodes_model(nodes@);
    let mut out = files_in(nodes);
    let names = dir_names_in(nodes);
    let ghost all = vecs_view(names@);
    let mut k: usize = 0;
    assert(all.skip(0) =~= all);
    while k < names.len()
        invariant
            k <= names.len(),
            s == nodes_model(nodes@),
            all == vecs_view(names@),
            all == dir_names(s),
            merged(s) == nodes_model(out@) + merged_dirs(s, all.skip(k as int)),
        decreases names.len() - k,
    {
        let ghost before = nodes_model(out@);
        let children = children_in(nodes, &names[k]);
        proof {
            assert(all.skip(k as int)[0] == names@[k as int]@);
            assert(all.skip(k as int).drop_first() =~= all.skip(k + 1));
            lemma_children_smaller(s, names@[k as int]@);
            lemma_nodes_model(nodes@);
            assert(s.len() > 0) by {
                if s.len() == 0 {
                    assert(dir_names(s).len() == 0);
                }
            }
        }
        let inner = merge_nodes(&children);
        let dir = TemplateNode::Dir(Dirname(from_chars(&names[k])), TemplateTree(inner));
        proof {
            lemma_model_push(out@, dir);
            let tail = merged_dirs(s, all.skip(k + 1));
            assert(before + (seq![node_model(dir)] + tail) =~= before.push(node_model(dir))
                + tail);
        }
        out.push(dir);
        k += 1;
    }
    assert(nodes_model(out@) + merged_dirs(s, all.skip(names@.len() as int)) =~= nodes_model(
        out@,
    ));
    out
}

impl TemplateTree {
    /// The tree that holds what `self` and `other` hold, with directories of
    /// the same name made one at every depth: see [`merged`].
    pub fn merge(&self, other: TemplateTree) -> (out: TemplateTree)
        ensures
            out@ == merged(self@ + other@),
    {
        let mut all: Vec<TemplateNode> = Vec::new();
        append_copies(&mut all, &self.0);
        append_copies(&mut all, &other.0);
        assert(Seq::<TreeModel>::empty() + self@ + other@ =~= self@ + other@);
        TemplateTree(merge_nodes(&all))
    }
}

/// The paths as files of one level, for putting them in order.
pub open spec fn as_files(paths: Seq<Seq<char>>) -> Seq<TreeModel> {
    Seq::new(paths.len(), |i: int| TreeModel::File(paths[i]))
}

/// The trees of the paths at the indices `order`, one after the other.
pub open spec fn forest(paths: Seq<Seq<char>>, order: Seq<int>) -> Seq<TreeModel>
    decreases order.len(),
{
    if order.len() == 0 {
        Seq::empty()
    } else {
        let i = order[0];
        (if 0 <= i < paths.len() {
            path_tree(paths[i])
        } else {
            Seq::empty()
        }) + forest(paths, order.drop_first())
    }
}

/// The tree of a list of paths: the trees of the paths, taken in the order
/// of the paths as texts, merged.
pub open spec fn paths_tree(paths: Seq<Seq<char>>) -> Seq<TreeModel> {
    merged(forest(paths, display_indices(as_files(paths))))
}

impl TemplateTree {
    /// The tree of a list of paths: every path becomes nested directories
    /// around a file, and directories of the same name are made one.
    pub fn from_paths(paths: &Vec<String>) -> (tree: TemplateTree)
        ensures
            tree@ == paths_tree(strings_view(paths@)),
    {
        let ghost texts = strings_view(paths@);
        let mut files: Vec<TemplateNode> = Vec::new();
        let mut i: usize = 0;
        assert(nodes_model(files@) =~= as_files(texts).take(0));
        while i < paths.len()
            invariant
                i <= paths.len(),
                texts == strings_view(paths@),
                nodes_model(files@) == as_files(texts).take(i as int),
            decreases paths.len() - i,
        {
            let file = TemplateNode::File(TemplateFile(paths[i].clone()));
            proof {
                lemma_model_push(files@, file);
            }
            files.push(file);
            i += 1;
            assert(nodes_model(files@) =~= as_files(texts).take(i as int));
        }
        assert(as_files(texts).take(paths@.len() as int) =~= as_files(texts));
        let order = order_of(&files);
        let ghost all = indices_view(order@);
        let mut nodes: Vec<TemplateNode> = Vec::new();
        let mut k: usize = 0;
        assert(all.skip(0) =~= all);
        proof {
            lemma_nodes_model(files@);
        }
        assert(nodes_model(nodes@) =~= Seq::<TreeModel>::empty());
        while k < order.len()
            invariant
                k <= order.len(),
                texts == strings_view(paths@),
                all == indices_view(order@),
                files.len() == paths.len(),
                forall|j: int| 0 <= j < order.len() ==> #[trigger] order[j] < files.len(),
                forest(texts, all) == nodes_model(nodes@) + forest(texts, all.skip(k as int)),
            decreases order.len() - k,
        {
            let ghost before = nodes_model(nodes@);
            let idx = order[k];
            proof {
                assert(all.skip(k as int)[0] == idx);
                assert(all.skip(k as int).drop_first() =~= all.skip(k + 1));
            }
            let tree = TemplateTree::from_path(paths[idx].as_str());
            append_copies(&mut nodes, &tree.0);
            proof {
                let tail = forest(texts, all.skip(k + 1));
                assert(before + (path_tree(texts[idx as int]) + tail) =~= nodes_model(nodes@)
                    + tail);
            }
            k += 1;
        }
        assert(nodes_model(nodes@) + forest(texts, all.skip(order@.len() as int)) =~= nodes_model(
            nodes@,
        ));
        TemplateTree(merge_nodes(&nodes))
    }
}

/// What listing shows for the templates directory `dir` with the template
/// paths `paths`: that none was found, or a heading and the tree of the
/// paths.
pub open spec fn listing(dir: Seq<char>, paths: Seq<Seq<char>>) -> Seq<char> {
    if paths.len() == 0 {
        "No templates found in: "@ + dir + seq!['\n']
    } else {
        "Listing template dir: "@ + dir + seq!['\n'] + tree_text(paths_tree(paths), 0)
            + seq!['\n']
    }
}

/// The text that listing prints for the templates directory
/// `templates_dir`, which holds the templates `templates`, given by their
/// paths relative to it.
pub fn list_text(templates_dir: &str, templates: &Vec<String>) -> (out: String)
    ensures
        out@ == listing(templates_dir@, strings_view(templates@)),
{
    let mut out: Vec<char> = Vec::new();
    if templates.len() == 0 {
        crate::text::push_str(&mut out, "No templates found in: ");
        crate::text::push_str(&mut out, templates_dir);
        out.push('\n');
        assert(out@ =~= listing(templates_dir@, strings_view(templates@)));
    } else {
        crate::text::push_str(&mut out, "Listing template dir: ");
        crate::text::push_str(&mut out, templates_dir);
        out.push('\n');
        let tree = TemplateTree::from_paths(templates);
        push_tree_lines(&mut out, &tree, 0);
        out.push('\n');
        assert(out@ =~= listing(templates_dir@, strings_view(templates@)));
    }
    from_chars(&out)
}

impl Clone for TemplateNode {
    fn clone(&self) -> (out: TemplateNode)
        ensures
            out@ == self@,
    {
        copy_node(self)
    }
}

impl Clone for TemplateTree {
    fn clone(&self) -> (out: TemplateTree)
        ensures
            out@ == self@,
    {
        let mut nodes: Vec<TemplateNode> = Vec::new();
        append_copies(&mut nodes, &self.0);
        assert(Seq::<TreeModel>::empty() + self@ =~= self@);
        TemplateTree(nodes)
    }
}

/// Of two texts, one comes before the other or is the other.
pub proof fn lemma_text_le_total(a: Seq<char>, b: Seq<char>)
    ensures
        text_le(a, b) || text_le(b, a),
    decreases a.len(),
{
    if a.len() > 0 && b.len() > 0 {
        if a[0] == b[0] {
            lemma_text_le_total(a.drop_first(), b.drop_first());
        } else {
            vstd::utf8::char_u32_cast(a[0], a[0] as u32);
            vstd::utf8::char_u32_cast(b[0], b[0] as u32);
        }
    }
}

/// The order of texts is transitive.
pub proof fn lemma_text_le_transitive(a: Seq<char>, b: Seq<char>, c: Seq<char>)
    requires
        text_le(a, b),
        text_le(b, c),
    ensures
        text_le(a, c),
    decreases a.len(),
{
    if a.len() > 0 && b.len() > 0 && c.len() > 0 && a[0] == b[0] && b[0] == c[0] {
        lemma_text_le_transitive(a.drop_first(), b.drop_first(), c.drop_first());
    }
}

/// Whether the nodes of `s` at the indices `order` stand in the order in
/// which they are shown.
pub open spec fn in_display_order(s: Seq<TreeModel>, order: Seq<int>) -> bool {
    forall|a: int, b: int|
        0 <= a < b < order.len() ==> shown_before(s[#[trigger] order[a]], s[#[trigger] order[b]])
}

/// Putting an index in keeps all indices and adds the new one, at some
/// place.
proof fn lemma_insert_index_place(s: Seq<TreeModel>, sorted: Seq<int>, x: int) -> (pos: int)
    ensures
        0 <= pos <= sorted.len(),
        insert_index(s, sorted, x) == sorted.insert(pos, x),
    decreases sorted.len(),
{
    if sorted.len() == 0 {
        assert(seq![x] =~= sorted.insert(0, x));
        0
    } else if shown_before(s[sorted.last()], s[x]) {
        assert(sorted.push(x) =~= sorted.insert(sorted.len() as int, x));
        sorted.len() as int
    } else {
        let pos = lemma_insert_index_place(s, sorted.drop_last(), x);
        assert(sorted.drop_last().insert(pos, x).push(sorted.last()) =~= sorted.insert(pos, x));
        pos
    }
}

/// Putting an index into an ordered list gives an ordered list.
proof fn lemma_insert_index_ordered(s: Seq<TreeModel>, sorted: Seq<int>, x: int)
    requires
        in_display_order(s, sorted),
    ensures
        in_display_order(s, insert_index(s, sorted, x)),
    decreases sorted.len(),
{
    let out = insert_index(s, sorted, x);
    if sorted.len() == 0 {
    } else if shown_before(s[sorted.last()], s[x]) {
        assert forall|a: int, b: int| 0 <= a < b < out.len() implies shown_before(
            s[#[trigger] out[a]],
            s[#[trigger] out[b]],
        ) by {
            if b == sorted.len() {
                if a < sorted.len() - 1 {
                    assert(shown_before(s[sorted[a]], s[sorted[sorted.len() - 1]]));
                    lemma_shown_before_transitive(s[sorted[a]], s[sorted.last()], s[x]);
                }
            } else {
                assert(out[a] == sorted[a] && out[b] == sorted[b]);
            }
        }
    } else {
        let front = sorted.drop_last();
        assert forall|a: int, b: int| 0 <= a < b < front.len() implies shown_before(
            s[#[trigger] front[a]],
            s[#[trigger] front[b]],
        ) by {
            assert(front[a] == sorted[a] && front[b] == sorted[b]);
        }
        lemma_insert_index_ordered(s, front, x);
        let inner = insert_index(s, front, x);
        let pos = lemma_insert_index_place(s, front, x);
        lemma_shown_before_total(s[sorted.last()], s[x]);
        assert forall|a: int, b: int| 0 <= a < b < out.len() implies shown_before(
            s[#[trigger] out[a]],
            s[#[trigger] out[b]],
        ) by {
            if b == inner.len() {
                if a < pos {
                    assert(inner[a] == front[a]);
                    assert(front[a] == sorted[a]);
                    assert(shown_before(s[sorted[a]], s[sorted[sorted.len() - 1]]));
                } else if a == pos {
                    assert(inner[a] == x);
                } else {
                    assert(inner[a] == front[a - 1]);
                    assert(front[a - 1] == sorted[a - 1]);
                    assert(shown_before(s[sorted[a - 1]], s[sorted[sorted.len() - 1]]));
                }
            } else {
                assert(out[a] == inner[a] && out[b] == inner[b]);
            }
        }
    }
}

/// Of two nodes, one may stand before the other.
pub proof fn lemma_shown_before_total(a: TreeModel, b: TreeModel)
    ensures
        shown_before(a, b) || shown_before(b, a),
{
    lemma_text_le_total(name_of(a), name_of(b));
}

/// The order in which nodes are shown is transitive.
pub proof fn lemma_shown_before_transitive(a: TreeModel, b: TreeModel, c: TreeModel)
    requires
        shown_before(a, b),
        shown_before(b, c),
    ensures
        shown_before(a, c),
{
    if (a is Dir) == (b is Dir) && (b is Dir) == (c is Dir) {
        lemma_text_le_transitive(name_of(a), name_of(b), name_of(c));
    }
}

/// The indices of the first `n` nodes in display order are those `n`
/// indices, each once, in order.
proof fn lemma_indices_upto(s: Seq<TreeModel>, n: nat)
    ensures
        indices_upto(s, n).len() == n,
        forall|k: int| 0 <= k < n ==> 0 <= #[trigger] indices_upto(s, n)[k] < n,
        forall|i: int| 0 <= i < n ==> indices_upto(s, n).contains(i),
        in_display_order(s, indices_upto(s, n)),
    decreases n,
{
    if n > 0 {
        let before = indices_upto(s, (n - 1) as nat);
        lemma_indices_upto(s, (n - 1) as nat);
        let pos = lemma_insert_index_place(s, before, n - 1);
        lemma_insert_index_ordered(s, before, n - 1);
        let out = indices_upto(s, n);
        assert forall|k: int| 0 <= k < n implies 0 <= #[trigger] out[k] < n by {
            if k < pos {
                assert(out[k] == before[k]);
            } else if k > pos {
                assert(out[k] == before[k - 1]);
            }
        }
        assert forall|i: int| 0 <= i < n implies out.contains(i) by {
            if i == n - 1 {
                assert(out[pos] == i);
            } else {
                assert(before.contains(i));
                let k = choose|k: int| 0 <= k < before.len() && before[k] == i;
                if k < pos {
                    assert(out[k] == i);
                } else {
                    assert(out[k + 1] == i);
                }
            }
        }
    }
}

/// The display order is an ordering of the level: its indices are those of
/// the level, each once, and the nodes stand in the order of
/// [`shown_before`]: directories before files, names in the order of
/// [`text_le`].
pub proof fn lemma_display_order(s: Seq<TreeModel>)
    ensures
        display_indices(s).len() == s.len(),
        forall|k: int| 0 <= k < s.len() ==> 0 <= #[trigger] display_indices(s)[k] < s.len(),
        forall|i: int| 0 <= i < s.len() ==> display_indices(s).contains(i),
        in_display_order(s, display_indices(s)),
{
    lemma_indices_upto(s, s.len());
}

} // verus!
