//! Assembly of a forest of file nodes from a depth-first stream of entries.
use vstd::prelude::*;

verus! {

/// One filesystem object met by a directory walk. `depth` counts the levels
/// below the walk's root: the root's own children have depth 1.
#[derive(Debug, Clone, PartialEq, Eq)]
pub struct Entry {
    pub name: String,
    pub path: String,
    pub is_file: bool,
    pub depth: usize,
}

pub struct EntryView {
    pub name: Seq<char>,
    pub path: Seq<char>,
    pub is_file: bool,
    pub depth: nat,
}

impl View for Entry {
    type V = EntryView;

    open spec fn view(&self) -> EntryView {
        EntryView { name: self.name@, path: self.path@, is_file: self.is_file, depth: self.depth as nat }
    }
}

/// The mathematical value of a node: its name, path, kind and children.
pub struct NodeView {
    pub name: Seq<char>,
    pub path: Seq<char>,
    pub is_file: bool,
    pub children: Seq<NodeView>,
}

/// A node of the tree: a file, or a directory with its children in order.
#[derive(Debug, PartialEq, Eq)]
pub struct FileNode {
    pub name: String,
    pub path: String,
    pub is_file: bool,
    pub children: Vec<FileNode>,
}

/// The value of a node, children included.
pub open spec fn node_view(n: FileNode) -> NodeView
    decreases n,
{
    NodeView { name: n.name@, path: n.path@, is_file: n.is_file, children: forest_view(n.children@) }
}

/// The values of a sequence of nodes.
pub open spec fn forest_view(v: Seq<FileNode>) -> Seq<NodeView>
    decreases v,
{
    if v.len() == 0 {
        Seq::empty()
    } else {
        forest_view(v.drop_last()).push(node_view(v.last()))
    }
}

impl View for FileNode {
    type V = NodeView;

    open spec fn view(&self) -> NodeView {
        node_view(*self)
    }
}

/// The view of a sequence of nodes is taken node by node.
pub proof fn lemma_forest_view(v: Seq<FileNode>)
    ensures
        forest_view(v).len() == v.len(),
        forall|i: int| 0 <= i < v.len() ==> #[trigger] forest_view(v)[i] == v[i]@,
    decreases v.len(),
{
    if v.len() > 0 {
        lemma_forest_view(v.drop_last());
    }
}

/// Two sequences of nodes with the same node values have the same view.
pub proof fn lemma_forest_view_ext(v: Seq<FileNode>, w: Seq<NodeView>)
    requires
        v.len() == w.len(),
        forall|i: int| 0 <= i < v.len() ==> #[trigger] v[i]@ == w[i],
    ensures
        forest_view(v) == w,
{
    lemma_forest_view(v);
    assert(forest_view(v) =~= w);
}

/// The indices of an index path, as integers.
pub open spec fn path_view(v: Seq<usize>) -> Seq<int> {
    v.map_values(|i: usize| i as int)
}

/// The childless node that stands for an entry.
pub open spec fn leaf_of(e: EntryView) -> NodeView {
    NodeView { name: e.name, path: e.path, is_file: e.is_file, children: Seq::empty() }
}

/// Appends `node` to the children of the directory that `path` reaches from
/// `forest` (to `forest` itself for the empty path), and gives the new forest
/// with the position of `node` among its siblings. `None` where the path
/// leaves the forest or passes through a file.
pub open spec fn attach(forest: Seq<NodeView>, path: Seq<int>, node: NodeView) -> Option<
    (Seq<NodeView>, nat),
>
    decreases path.len(),
{
    if path.len() == 0 {
        Some((forest.push(node), forest.len()))
    } else {
        let i = path[0];
        if 0 <= i < forest.len() && !forest[i].is_file {
            match attach(forest[i].children, path.drop_first(), node) {
                Some((c, k)) => Some((forest.update(i, NodeView { children: c, ..forest[i] }), k)),
                None => None,
            }
        } else {
            None
        }
    }
}

/// The state of an assembly: the top-level nodes built so far, and the index
/// path of the directories that are open, from a top-level node downwards.
pub struct BuildState {
    pub roots: Seq<NodeView>,
    pub open: Seq<int>,
}

pub open spec fn initial_state() -> BuildState {
    BuildState { roots: Seq::empty(), open: Seq::empty() }
}

/// One step of the assembly. The entry closes the open directories at or
/// below its own level, joins the directory that is then innermost (or the
/// top level), and, if it is a directory, is opened in turn. `None` where the
/// entry has depth 0, or lies more than one level below the innermost open
/// directory.
pub open spec fn step(s: BuildState, e: EntryView) -> Option<BuildState> {
    if e.depth == 0 || e.depth - 1 > s.open.len() {
        None
    } else {
        let open = s.open.take(e.depth - 1);
        match attach(s.roots, open, leaf_of(e)) {
            Some((roots, k)) => Some(
                BuildState { roots, open: if e.is_file { open } else { open.push(k as int) } },
            ),
            None => None,
        }
    }
}

/// The state after all of `entries`, in order, or `None` where a step fails.
pub open spec fn run(entries: Seq<EntryView>) -> Option<BuildState>
    decreases entries.len(),
{
    if entries.len() == 0 {
        Some(initial_state())
    } else {
        match run(entries.drop_last()) {
            Some(s) => step(s, entries.last()),
            None => None,
        }
    }
}

/// The values of a sequence of entries.
pub open spec fn entries_view(v: Seq<Entry>) -> Seq<EntryView> {
    v.map_values(|e: Entry| e@)
}

impl FileNode {
    /// A childless node for an entry.
    pub fn new(entry: &Entry) -> (r: FileNode)
        ensures
            r@ == leaf_of(entry@),
    {
        let r = FileNode {
            name: entry.name.clone(),
            path: entry.path.clone(),
            is_file: entry.is_file,
            children: Vec::new(),
        };
        assert(r@.children =~= Seq::<NodeView>::empty());
        r
    }
}

/// Appends `node` below the directory that `path[k..end]` reaches from `nodes`.
fn attach_at(nodes: &mut Vec<FileNode>, path: &Vec<usize>, k: usize, end: usize, node: FileNode) -> (r:
    Option<usize>)
    requires
        k <= end <= path@.len(),
    ensures
        match attach(forest_view(old(nodes)@), path_view(path@).subrange(k as int, end as int), node@) {
            Some((f, i)) => r is Some && r->0 as int == i && forest_view(final(nodes)@) == f,
            None => r is None && forest_view(final(nodes)@) == forest_view(old(nodes)@),
        },
    decreases end - k,
{
    let ghost old_view = forest_view(nodes@);
    let ghost old_nodes = nodes@;
    proof {
        lemma_forest_view(old_nodes);
    }
    if k == end {
        let idx = nodes.len();
        nodes.push(node);
        assert(nodes@.drop_last() =~= old_nodes);
        return Some(idx);
    }
    assert(path_view(path@).subrange(k as int, end as int).drop_first() =~= path_view(path@).subrange(
        k + 1,
        end as int,
    ));
    let i = path[k];
    if i >= nodes.len() || nodes[i].is_file {
        return None;
    }
    let r = attach_at(&mut nodes[i].children, path, k + 1, end, node);
    proof {
        if r.is_some() {
            lemma_forest_view_ext(
                nodes@,
                old_view.update(
                    i as int,
                    NodeView { children: forest_view(nodes@[i as int].children@), ..old_view[i as int] },
                ),
            );
        } else {
            lemma_forest_view_ext(nodes@, old_view);
        }
    }
    r
}

/// Why an entry stream could not be assembled: the entry at `position` has
/// depth 0, or lies more than one level below the innermost open directory.
#[derive(Debug, Clone, Copy, PartialEq, Eq)]
pub struct DepthOrderError {
    pub position: usize,
}

/// A forest under construction from a depth-first stream of entries. The
/// open directories are kept as a path of indices from the top level down,
/// never as references into the forest.
pub struct TreeBuilder {
    roots: Vec<FileNode>,
    open: Vec<usize>,
}

impl TreeBuilder {
    /// The state of the assembly that this builder holds.
    pub closed spec fn state(&self) -> BuildState {
        BuildState { roots: forest_view(self.roots@), open: path_view(self.open@) }
    }

    /// A builder with no nodes and no open directory.
    pub fn new() -> (r: TreeBuilder)
        ensures
            r.state() == initial_state(),
    {
        let r = TreeBuilder { roots: Vec::new(), open: Vec::new() };
        assert(r.state().roots =~= Seq::<NodeView>::empty());
        assert(r.state().open =~= Seq::<int>::empty());
        r
    }

    /// Takes the next entry of the stream: performs `step`. Where the step
    /// fails, returns false and leaves the builder as it was.
    pub fn push(&mut self, entry: &Entry) -> (ok: bool)
        ensures
            match step(old(self).state(), entry@) {
                Some(s) => ok && final(self).state() == s,
                None => !ok && final(self).state() == old(self).state(),
            },
    {
        if entry.depth == 0 || entry.depth - 1 > self.open.len() {
            return false;
        }
        let level = entry.depth - 1;
        let node = FileNode::new(entry);
        let ghost pv = path_view(self.open@);
        assert(pv.subrange(0, level as int) =~= pv.take(level as int));
        match attach_at(&mut self.roots, &self.open, 0, level, node) {
            Some(k) => {
                self.open.truncate(level);
                assert(path_view(self.open@) =~= pv.take(level as int));
                if !entry.is_file {
                    self.open.push(k);
                    assert(path_view(self.open@) =~= pv.take(level as int).push(k as int));
                }
                true
            },
            None => false,
        }
    }

    /// The top-level nodes built so far.
    pub fn into_roots(self) -> (r: Vec<FileNode>)
        ensures
            forest_view(r@) == self.state().roots,
    {
        self.roots
    }
}

/// The entries before `pos` run, and the entry at `pos` breaks the depth order.
pub open spec fn fails_at(ev: Seq<EntryView>, pos: int) -> bool {
    &&& 0 <= pos < ev.len()
    &&& run(ev.take(pos)) is Some
    &&& step(run(ev.take(pos))->0, ev[pos]) is None
}

/// Builds the forest of a depth-first stream of entries, in which siblings
/// come in the order they are to keep. Succeeds exactly where every step of
/// `run` does; otherwise names the first entry that breaks the depth order.
pub fn assemble(entries: &Vec<Entry>) -> (r: Result<Vec<FileNode>, DepthOrderError>)
    ensures
        match run(entries_view(entries@)) {
            Some(s) => r is Ok && forest_view(r->Ok_0@) == s.roots,
            None => r is Err && fails_at(entries_view(entries@), r->Err_0.position as int),
        },
{
    let ghost ev = entries_view(entries@);
    let mut b = TreeBuilder::new();
    let mut i: usize = 0;
    assert(ev.take(0) =~= Seq::<EntryView>::empty());
    while i < entries.len()
        invariant
            0 <= i <= entries@.len(),
            ev == entries_view(entries@),
            run(ev.take(i as int)) == Some(b.state()),
        decreases entries@.len() - i,
    {
        assert(ev.take(i + 1).drop_last() =~= ev.take(i as int));
        assert(ev[i as int] == entries@[i as int]@);
        if !b.push(&entries[i]) {
            proof {
                lemma_run_prefix_fails(ev, i as int);
            }
            return Err(DepthOrderError { position: i });
        }
        i = i + 1;
    }
    assert(ev.take(i as int) =~= ev);
    Ok(b.into_roots())
}

/// Once a step fails, every longer prefix of the stream fails too.
proof fn lemma_run_prefix_fails(ev: Seq<EntryView>, i: int)
    requires
        0 <= i < ev.len(),
        run(ev.take(i)) is Some,
        step(run(ev.take(i))->0, ev[i]) is None,
    ensures
        run(ev) is None,
    decreases ev.len() - i,
{
    lemma_run_none_extends(ev, i + 1);
}

proof fn lemma_run_none_extends(ev: Seq<EntryView>, j: int)
    requires
        0 < j <= ev.len(),
        run(ev.take(j - 1)) is Some,
        step(run(ev.take(j - 1))->0, ev[j - 1]) is None,
    ensures
        run(ev) is None,
    decreases ev.len() - j,
{
    assert(ev.take(j).drop_last() =~= ev.take(j - 1));
    assert(run(ev.take(j)) is None);
    lemma_run_none_grows(ev, j);
}

proof fn lemma_run_none_grows(ev: Seq<EntryView>, j: int)
    requires
        0 <= j <= ev.len(),
        run(ev.take(j)) is None,
    ensures
        run(ev) is None,
    decreases ev.len() - j,
{
    if j < ev.len() {
        assert(ev.take(j + 1).drop_last() =~= ev.take(j));
        lemma_run_none_grows(ev, j + 1);
    } else {
        assert(ev.take(j) =~= ev);
    }
}

} // verus!
