//! The depth-first listing of a forest, and the fact that assembly rebuilds
//! a forest from its listing.
use vstd::prelude::*;
use crate::laws::{files_childless, leads_to_directory};
use crate::tree::{attach, initial_state, leaf_of, run, step, BuildState, EntryView, NodeView};

verus! {

/// The entry that a walk yields for node `n` at `depth`.
pub open spec fn entry_of(n: NodeView, depth: nat) -> EntryView {
    EntryView { name: n.name, path: n.path, is_file: n.is_file, depth }
}

/// The entries of a forest whose nodes lie at `depth`, depth first: each node
/// before its children, siblings in their order.
pub open spec fn listing(f: Seq<NodeView>, depth: nat) -> Seq<EntryView>
    decreases f,
{
    if f.len() == 0 {
        Seq::empty()
    } else {
        listing(f.drop_last(), depth) + node_listing(f.last(), depth)
    }
}

/// The entries of the tree below `n`, `n` first, at `depth`.
pub open spec fn node_listing(n: NodeView, depth: nat) -> Seq<EntryView>
    decreases n,
{
    seq![entry_of(n, depth)] + listing(n.children, depth + 1)
}

/// The children of the directory that `p` reaches (the forest itself for the
/// empty path).
pub open spec fn children_at(f: Seq<NodeView>, p: Seq<int>) -> Seq<NodeView>
    decreases p.len(),
{
    if p.len() == 0 {
        f
    } else {
        children_at(f[p[0]].children, p.drop_first())
    }
}

/// `f` with the children of the directory that `p` reaches replaced by `c`.
pub open spec fn replace_at(f: Seq<NodeView>, p: Seq<int>, c: Seq<NodeView>) -> Seq<NodeView>
    decreases p.len(),
{
    if p.len() == 0 {
        c
    } else {
        let i = p[0];
        f.update(i, NodeView { children: replace_at(f[i].children, p.drop_first(), c), ..f[i] })
    }
}

/// The state after `es`, in order, from state `s`.
pub open spec fn run_from(s: BuildState, es: Seq<EntryView>) -> Option<BuildState>
    decreases es.len(),
{
    if es.len() == 0 {
        Some(s)
    } else {
        match run_from(s, es.drop_last()) {
            Some(t) => step(t, es.last()),
            None => None,
        }
    }
}

proof fn lemma_run_is_run_from(es: Seq<EntryView>)
    ensures
        run(es) == run_from(initial_state(), es),
    decreases es.len(),
{
    if es.len() > 0 {
        lemma_run_is_run_from(es.drop_last());
    }
}

proof fn lemma_run_from_concat(s: BuildState, a: Seq<EntryView>, b: Seq<EntryView>)
    ensures
        run_from(s, a + b) == match run_from(s, a) {
            Some(t) => run_from(t, b),
            None => None,
        },
    decreases b.len(),
{
    if b.len() == 0 {
        assert(a + b =~= a);
    } else {
        assert((a + b).drop_last() =~= a + b.drop_last());
        assert((a + b).last() == b.last());
        lemma_run_from_concat(s, a, b.drop_last());
    }
}

proof fn lemma_attach_is_replace(f: Seq<NodeView>, p: Seq<int>, n: NodeView)
    requires
        leads_to_directory(f, p),
    ensures
        attach(f, p, n) == Some((replace_at(f, p, children_at(f, p).push(n)), children_at(f, p).len())),
    decreases p.len(),
{
    if p.len() > 0 {
        lemma_attach_is_replace(f[p[0]].children, p.drop_first(), n);
    }
}

proof fn lemma_replace_compose(f: Seq<NodeView>, p: Seq<int>, x: Seq<NodeView>, k: int, y: Seq<NodeView>)
    requires
        leads_to_directory(f, p),
        0 <= k < x.len(),
    ensures
        replace_at(replace_at(f, p, x), p.push(k), y) == replace_at(
            f,
            p,
            x.update(k, NodeView { children: y, ..x[k] }),
        ),
    decreases p.len(),
{
    if p.len() == 0 {
        assert(p.push(k).drop_first() =~= Seq::<int>::empty());
        assert(p.push(k)[0] == k);
        assert(replace_at(x[k].children, Seq::<int>::empty(), y) == y);
    } else {
        let i = p[0];
        assert(p.push(k).drop_first() =~= p.drop_first().push(k));
        assert(p.push(k)[0] == i);
        lemma_replace_compose(f[i].children, p.drop_first(), x, k, y);
        let g = replace_at(f, p, x);
        assert(g[i].children == replace_at(f[i].children, p.drop_first(), x));
        assert(g.update(i, NodeView { children: replace_at(g[i].children, p.drop_first().push(k), y), ..g[i] })
            =~= replace_at(f, p, x.update(k, NodeView { children: y, ..x[k] })));
    }
}

proof fn lemma_replace_then_read(f: Seq<NodeView>, p: Seq<int>, x: Seq<NodeView>)
    requires
        leads_to_directory(f, p),
    ensures
        children_at(replace_at(f, p, x), p) == x,
        leads_to_directory(replace_at(f, p, x), p),
        forall|k: int|
            0 <= k < x.len() && !(#[trigger] x[k]).is_file ==> leads_to_directory(
                replace_at(f, p, x),
                p.push(k),
            ) && children_at(replace_at(f, p, x), p.push(k)) == x[k].children,
    decreases p.len(),
{
    if p.len() == 0 {
        assert forall|k: int| 0 <= k < x.len() && !(#[trigger] x[k]).is_file implies leads_to_directory(
            replace_at(f, p, x),
            p.push(k),
        ) && children_at(replace_at(f, p, x), p.push(k)) == x[k].children by {
            assert(p.push(k).drop_first() =~= Seq::<int>::empty());
            assert(p.push(k)[0] == k);
            assert(replace_at(f, p, x) == x);
            assert(leads_to_directory(x[k].children, Seq::<int>::empty()));
            assert(children_at(x[k].children, Seq::<int>::empty()) == x[k].children);
        }
    } else {
        let i = p[0];
        lemma_replace_then_read(f[i].children, p.drop_first(), x);
        assert forall|k: int| 0 <= k < x.len() && !(#[trigger] x[k]).is_file implies leads_to_directory(
            replace_at(f, p, x),
            p.push(k),
        ) && children_at(replace_at(f, p, x), p.push(k)) == x[k].children by {
            assert(p.push(k).drop_first() =~= p.drop_first().push(k));
            assert(p.push(k)[0] == i);
        }
    }
}

proof fn lemma_replace_same(f: Seq<NodeView>, p: Seq<int>)
    requires
        leads_to_directory(f, p),
    ensures
        replace_at(f, p, children_at(f, p)) == f,
    decreases p.len(),
{
    if p.len() > 0 {
        let i = p[0];
        lemma_replace_same(f[i].children, p.drop_first());
        assert(replace_at(f, p, children_at(f, p)) =~= f);
    }
}

proof fn lemma_replace_twice(f: Seq<NodeView>, p: Seq<int>, x: Seq<NodeView>, y: Seq<NodeView>)
    requires
        leads_to_directory(f, p),
    ensures
        replace_at(replace_at(f, p, x), p, y) == replace_at(f, p, y),
    decreases p.len(),
{
    if p.len() > 0 {
        let i = p[0];
        lemma_replace_twice(f[i].children, p.drop_first(), x, y);
        assert(replace_at(replace_at(f, p, x), p, y) =~= replace_at(f, p, y));
    }
}

/// A forest in which no file has children.
pub open spec fn well_formed(f: Seq<NodeView>) -> bool {
    forall|i: int| 0 <= i < f.len() ==> files_childless(#[trigger] f[i])
}

/// Running the listing of `f` at depth `d`, from a state whose open path
/// reaches (through its first `d - 1` indices) a directory, appends `f` to
/// that directory's children.
proof fn lemma_run_listing(f: Seq<NodeView>, d: nat, s: BuildState)
    requires
        d >= 1,
        s.open.len() >= d - 1,
        leads_to_directory(s.roots, s.open),
        well_formed(f),
    ensures
        run_from(s, listing(f, d)) is Some,
        ({
            let t = run_from(s, listing(f, d))->0;
            let p = s.open.take(d - 1);
            &&& t.roots == replace_at(s.roots, p, children_at(s.roots, p) + f)
            &&& t.open.len() >= d - 1
            &&& t.open.take(d - 1) == p
            &&& leads_to_directory(t.roots, t.open)
        }),
    decreases f, 1nat,
{
    let p = s.open.take(d - 1);
    crate::laws::lemma_leads_prefix(s.roots, s.open, d - 1);
    if f.len() == 0 {
        assert(children_at(s.roots, p) + f =~= children_at(s.roots, p));
        lemma_replace_same(s.roots, p);
    } else {
        let g = f.drop_last();
        let n = f.last();
        assert forall|i: int| 0 <= i < g.len() implies files_childless(#[trigger] g[i]) by {
            assert(g[i] == f[i]);
        }
        lemma_run_listing(g, d, s);
        let t1 = run_from(s, listing(g, d))->0;
        lemma_run_from_concat(s, listing(g, d), node_listing(n, d));
        lemma_run_node(n, d, t1);
        let c = children_at(s.roots, p);
        lemma_replace_then_read(s.roots, p, c + g);
        assert(t1.open.take(d - 1) == p);
        lemma_replace_twice(s.roots, p, c + g, (c + g).push(n));
        assert((c + g).push(n) =~= c + f);
    }
}

/// Running the listing of the tree below `n` at depth `d` appends `n` to the
/// children of the directory that the open path reaches.
proof fn lemma_run_node(n: NodeView, d: nat, s: BuildState)
    requires
        d >= 1,
        s.open.len() >= d - 1,
        leads_to_directory(s.roots, s.open),
        files_childless(n),
    ensures
        run_from(s, node_listing(n, d)) is Some,
        ({
            let t = run_from(s, node_listing(n, d))->0;
            let p = s.open.take(d - 1);
            &&& t.roots == replace_at(s.roots, p, children_at(s.roots, p).push(n))
            &&& t.open.len() >= d - 1
            &&& t.open.take(d - 1) == p
            &&& leads_to_directory(t.roots, t.open)
        }),
    decreases n, 0nat,
{
    let p = s.open.take(d - 1);
    let e = entry_of(n, d);
    let leaf = leaf_of(e);
    crate::laws::lemma_leads_prefix(s.roots, s.open, d - 1);
    lemma_attach_is_replace(s.roots, p, leaf);
    let c = children_at(s.roots, p);
    let r1 = replace_at(s.roots, p, c.push(leaf));
    let t1 = step(s, e)->0;
    assert(seq![e].drop_last() =~= Seq::<EntryView>::empty());
    assert(seq![e].last() == e);
    assert(run_from(s, Seq::<EntryView>::empty()) == Some(s));
    assert(run_from(s, seq![e]) == step(s, e));
    lemma_run_from_concat(s, seq![e], listing(n.children, d + 1));
    lemma_replace_then_read(s.roots, p, c.push(leaf));
    assert(c.push(leaf)[c.len() as int] == leaf);
    if n.is_file {
        assert(n.children.len() == 0);
        assert(n.children =~= Seq::<NodeView>::empty());
        assert(leaf == n);
        assert(listing(n.children, d + 1) =~= Seq::<EntryView>::empty());
        assert(node_listing(n, d) =~= seq![e]);
    } else {
        let q = p.push(c.len() as int);
        assert(t1.open == q);
        assert(q.take(d as int) =~= q);
        assert forall|i: int| 0 <= i < n.children.len() implies files_childless(
            #[trigger] n.children[i],
        ) by {}
        lemma_run_listing(n.children, d + 1, t1);
        let t = run_from(t1, listing(n.children, d + 1))->0;
        assert(children_at(r1, q) == leaf.children);
        assert(leaf.children + n.children =~= n.children);
        lemma_replace_compose(s.roots, p, c.push(leaf), c.len() as int, n.children);
        assert(c.push(leaf).update(c.len() as int, NodeView { children: n.children, ..leaf }) =~= c.push(n));
        assert(t.open.take(d as int) == q);
        assert(t.open.take(d - 1) =~= q.take(d - 1));
        assert(q.take(d - 1) =~= p);
    }
}

/// Assembling the depth-first listing of a forest in which no file has
/// children gives back that forest: the order of siblings, and so any order
/// a walk gave them, is kept, and nothing else of the walk shows.
pub proof fn law_listing_round_trip(f: Seq<NodeView>)
    requires
        well_formed(f),
    ensures
        run(listing(f, 1)) is Some,
        run(listing(f, 1))->0.roots == f,
{
    let s = initial_state();
    assert(leads_to_directory(s.roots, s.open));
    lemma_run_listing(f, 1, s);
    lemma_run_is_run_from(listing(f, 1));
    assert(s.open.take(0) =~= Seq::<int>::empty());
    assert(Seq::<NodeView>::empty() + f =~= f);
}

} // verus!
