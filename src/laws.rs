//! What holds of every forest that the assembly builds, and of the entries
//! that the exclusion rules keep.
use vstd::prelude::*;
use vstd::utf8::{encode_scalar, encode_utf8};
use crate::filter::{keeps_name, name_bytes, DOT};
use crate::order::kept_entries;
use crate::tree::{attach, leaf_of, run, step, EntryView, NodeView};

verus! {

/// No file below `n`, `n` included, has children.
pub open spec fn files_childless(n: NodeView) -> bool
    decreases n,
{
    &&& (n.is_file ==> n.children.len() == 0)
    &&& forall|i: int| 0 <= i < n.children.len() ==> files_childless(#[trigger] n.children[i])
}

/// The tree below `n` has at most `m` levels, `n`'s own included.
pub open spec fn within_levels(n: NodeView, m: nat) -> bool
    decreases n,
{
    &&& m >= 1
    &&& forall|i: int|
        0 <= i < n.children.len() ==> within_levels(#[trigger] n.children[i], (m - 1) as nat)
}

/// The forest that `attach` gives, where it succeeds.
spec fn after_attach(forest: Seq<NodeView>, path: Seq<int>, node: NodeView) -> Seq<NodeView> {
    match attach(forest, path, node) {
        Some((f, _)) => f,
        None => forest,
    }
}

/// The position that `attach` gives the new node among its siblings.
spec fn attach_position(forest: Seq<NodeView>, path: Seq<int>, node: NodeView) -> nat {
    match attach(forest, path, node) {
        Some((_, k)) => k,
        None => 0,
    }
}

proof fn lemma_attach_childless(forest: Seq<NodeView>, path: Seq<int>, node: NodeView)
    requires
        forall|i: int| 0 <= i < forest.len() ==> files_childless(#[trigger] forest[i]),
        files_childless(node),
        attach(forest, path, node) is Some,
    ensures
        forall|i: int|
            0 <= i < after_attach(forest, path, node).len() ==> files_childless(
                #[trigger] after_attach(forest, path, node)[i],
            ),
    decreases path.len(),
{
    if path.len() > 0 {
        let i = path[0];
        let c = forest[i].children;
        lemma_attach_childless(c, path.drop_first(), node);
        let nc = after_attach(c, path.drop_first(), node);
        let n2 = NodeView { children: nc, ..forest[i] };
        assert(files_childless(n2));
    }
}

proof fn lemma_attach_within(forest: Seq<NodeView>, path: Seq<int>, node: NodeView, m: nat)
    requires
        forall|i: int| 0 <= i < forest.len() ==> within_levels(#[trigger] forest[i], m),
        path.len() < m,
        within_levels(node, (m - path.len()) as nat),
        attach(forest, path, node) is Some,
    ensures
        forall|i: int|
            0 <= i < after_attach(forest, path, node).len() ==> within_levels(
                #[trigger] after_attach(forest, path, node)[i],
                m,
            ),
    decreases path.len(),
{
    if path.len() > 0 {
        let i = path[0];
        let c = forest[i].children;
        assert(within_levels(forest[i], m));
        lemma_attach_within(c, path.drop_first(), node, (m - 1) as nat);
        let nc = after_attach(c, path.drop_first(), node);
        let n2 = NodeView { children: nc, ..forest[i] };
        assert(within_levels(n2, m));
    }
}

/// Every file in an assembled forest is childless.
pub proof fn law_files_have_no_children(entries: Seq<EntryView>)
    requires
        run(entries) is Some,
    ensures
        forall|i: int|
            0 <= i < run(entries)->0.roots.len() ==> files_childless(
                #[trigger] run(entries)->0.roots[i],
            ),
    decreases entries.len(),
{
    if entries.len() > 0 {
        let prev = run(entries.drop_last())->0;
        law_files_have_no_children(entries.drop_last());
        let e = entries.last();
        let open = prev.open.take(e.depth - 1);
        assert(files_childless(leaf_of(e)));
        lemma_attach_childless(prev.roots, open, leaf_of(e));
        assert(run(entries)->0.roots == after_attach(prev.roots, open, leaf_of(e)));
    }
}

/// Where no entry lies more than `m` levels below the walk's root, no node of
/// the assembled forest does: each top-level tree has at most `m` levels, and
/// for `m == 0` the forest is empty.
pub proof fn law_depth_bound(entries: Seq<EntryView>, m: nat)
    requires
        run(entries) is Some,
        forall|k: int| 0 <= k < entries.len() ==> (#[trigger] entries[k]).depth <= m,
    ensures
        forall|i: int|
            0 <= i < run(entries)->0.roots.len() ==> within_levels(
                #[trigger] run(entries)->0.roots[i],
                m,
            ),
        m == 0 ==> run(entries)->0.roots.len() == 0,
    decreases entries.len(),
{
    if entries.len() > 0 {
        let prev = run(entries.drop_last())->0;
        law_depth_bound(entries.drop_last(), m);
        let e = entries.last();
        assert(e.depth <= m);
        let open = prev.open.take(e.depth - 1);
        assert(within_levels(leaf_of(e), (m - open.len()) as nat));
        lemma_attach_within(prev.roots, open, leaf_of(e), m);
        assert(run(entries)->0.roots == after_attach(prev.roots, open, leaf_of(e)));
    }
    if m == 0 && run(entries)->0.roots.len() > 0 {
        assert(within_levels(run(entries)->0.roots[0], m));
    }
}

/// A name that starts with a dot, such as `.env`, is excluded whatever the
/// exclusion patterns are.
pub proof fn law_dot_names_excluded(name: Seq<char>, patterns: Seq<Seq<u8>>)
    requires
        name.len() > 0,
        name[0] == '.',
    ensures
        !keeps_name(name_bytes(name), patterns),
{
    let c = name[0] as u32;
    assert(c == 46);
    assert((c & 0x7F) as u8 == 46u8) by (bit_vector)
        requires
            c == 46,
    ;
    assert(encode_utf8(name) == encode_scalar(c) + encode_utf8(name.drop_first()));
    assert(encode_utf8(name)[0] == DOT);
}

/// Every entry that the exclusion rules keep has a name that is not hidden
/// and holds none of the patterns.
pub proof fn law_kept_entries_avoid_patterns(s: Seq<EntryView>, patterns: Seq<Seq<u8>>)
    ensures
        forall|i: int|
            0 <= i < kept_entries(s, patterns).len() ==> keeps_name(
                name_bytes((#[trigger] kept_entries(s, patterns)[i]).name),
                patterns,
            ),
    decreases s.len(),
{
    if s.len() > 0 {
        let prev = kept_entries(s.drop_last(), patterns);
        law_kept_entries_avoid_patterns(s.drop_last(), patterns);
        let k = kept_entries(s, patterns);
        assert forall|i: int| 0 <= i < k.len() implies keeps_name(
            name_bytes((#[trigger] k[i]).name),
            patterns,
        ) by {
            if i < prev.len() {
                assert(k[i] == prev[i]);
            } else {
                assert(k[i] == s.last());
            }
        }
    }
}

/// `path` leads from `forest` through directories only.
pub open spec fn leads_to_directory(forest: Seq<NodeView>, path: Seq<int>) -> bool
    decreases path.len(),
{
    path.len() == 0 || {
        let i = path[0];
        &&& 0 <= i < forest.len()
        &&& !forest[i].is_file
        &&& leads_to_directory(forest[i].children, path.drop_first())
    }
}

pub proof fn lemma_leads_prefix(forest: Seq<NodeView>, path: Seq<int>, j: int)
    requires
        leads_to_directory(forest, path),
        0 <= j <= path.len(),
    ensures
        leads_to_directory(forest, path.take(j)),
    decreases path.len(),
{
    if j > 0 {
        let i = path[0];
        lemma_leads_prefix(forest[i].children, path.drop_first(), j - 1);
        assert(path.take(j).drop_first() =~= path.drop_first().take(j - 1));
    }
}

proof fn lemma_attach_on_leading_path(forest: Seq<NodeView>, path: Seq<int>, node: NodeView)
    requires
        leads_to_directory(forest, path),
    ensures
        attach(forest, path, node) is Some,
        leads_to_directory(after_attach(forest, path, node), path),
        !node.is_file ==> leads_to_directory(
            after_attach(forest, path, node),
            path.push(attach_position(forest, path, node) as int),
        ),
    decreases path.len(),
{
    if path.len() == 0 {
        let f = forest.push(node);
        assert(path.push(forest.len() as int).drop_first() =~= Seq::<int>::empty());
        assert(f[forest.len() as int] == node);
        assert(leads_to_directory(node.children, Seq::<int>::empty()));
        assert(path.push(forest.len() as int).drop_first() =~= Seq::<int>::empty());
    } else {
        let i = path[0];
        let c = forest[i].children;
        lemma_attach_on_leading_path(c, path.drop_first(), node);
        let k = attach_position(c, path.drop_first(), node);
        assert(path.push(k as int).drop_first() =~= path.drop_first().push(k as int));
        let f = after_attach(forest, path, node);
        assert(f[i].children == after_attach(c, path.drop_first(), node));
        assert(path.push(k as int)[0] == i);
        assert(attach_position(forest, path, node) == k);
    }
}

/// The open directories of every state that assembly reaches are
/// directories of its forest.
proof fn lemma_run_open_valid(entries: Seq<EntryView>)
    requires
        run(entries) is Some,
    ensures
        leads_to_directory(run(entries)->0.roots, run(entries)->0.open),
    decreases entries.len(),
{
    if entries.len() > 0 {
        let prev = run(entries.drop_last())->0;
        lemma_run_open_valid(entries.drop_last());
        let e = entries.last();
        let open = prev.open.take(e.depth - 1);
        lemma_leads_prefix(prev.roots, prev.open, e.depth - 1);
        lemma_attach_on_leading_path(prev.roots, open, leaf_of(e));
        assert(run(entries)->0.roots == after_attach(prev.roots, open, leaf_of(e)));
    }
}

/// After any stream that assembles, the next entry is refused exactly when
/// its depth is 0 or lies more than one level below the innermost open
/// directory: the index path never leaves the forest nor meets a file.
pub proof fn law_step_fails_only_on_depth(entries: Seq<EntryView>, e: EntryView)
    requires
        run(entries) is Some,
    ensures
        step(run(entries)->0, e) is None <==> (e.depth == 0 || e.depth - 1 > run(
            entries,
        )->0.open.len()),
{
    let s = run(entries)->0;
    lemma_run_open_valid(entries);
    if e.depth != 0 && e.depth - 1 <= s.open.len() {
        lemma_leads_prefix(s.roots, s.open, e.depth - 1);
        lemma_attach_on_leading_path(s.roots, s.open.take(e.depth - 1), leaf_of(e));
    }
}

} // verus!
