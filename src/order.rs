//! Order of siblings: byte-wise comparison of names, and the per-directory
//! filter and sort that a walk applies to each directory's children.
use vstd::prelude::*;
use crate::filter::{bytes_view, is_not_hidden, keeps_name, name_bytes};
use crate::tree::{entries_view, Entry, EntryView};

verus! {

broadcast use vstd::seq_lib::group_to_multiset_ensures;

/// `a` comes no later than `b` in byte-wise lexicographic order.
pub open spec fn bytes_le(a: Seq<u8>, b: Seq<u8>) -> bool
    decreases a.len(),
{
    if a.len() == 0 {
        true
    } else if b.len() == 0 {
        false
    } else if a[0] != b[0] {
        a[0] < b[0]
    } else {
        bytes_le(a.drop_first(), b.drop_first())
    }
}

/// Byte-wise order is total.
pub proof fn lemma_bytes_le_total(a: Seq<u8>, b: Seq<u8>)
    ensures
        bytes_le(a, b) || bytes_le(b, a),
    decreases a.len(),
{
    if a.len() > 0 && b.len() > 0 && a[0] == b[0] {
        lemma_bytes_le_total(a.drop_first(), b.drop_first());
    }
}

/// Byte-wise order is transitive.
pub proof fn lemma_bytes_le_transitive(a: Seq<u8>, b: Seq<u8>, c: Seq<u8>)
    requires
        bytes_le(a, b),
        bytes_le(b, c),
    ensures
        bytes_le(a, c),
    decreases a.len(),
{
    if a.len() > 0 && b.len() > 0 && c.len() > 0 && a[0] == b[0] && b[0] == c[0] {
        lemma_bytes_le_transitive(a.drop_first(), b.drop_first(), c.drop_first());
    }
}

/// The name of entry `a` comes no later than that of `b`.
pub open spec fn name_le(a: EntryView, b: EntryView) -> bool {
    bytes_le(name_bytes(a.name), name_bytes(b.name))
}

/// Each entry's name comes no later than the next one's.
pub open spec fn sorted_by_name(s: Seq<EntryView>) -> bool {
    forall|i: int| 0 <= i < s.len() - 1 ==> name_le(#[trigger] s[i], s[i + 1])
}

/// In a sequence sorted by name each name comes no later than every name
/// after it.
pub proof fn law_sorted_is_pairwise(s: Seq<EntryView>)
    requires
        sorted_by_name(s),
    ensures
        forall|i: int, j: int| 0 <= i < j < s.len() ==> name_le(#[trigger] s[i], #[trigger] s[j]),
{
    assert forall|i: int, j: int| 0 <= i < j < s.len() implies name_le(
        #[trigger] s[i],
        #[trigger] s[j],
    ) by {
        lemma_sorted_step(s, i, j);
    }
}

proof fn lemma_sorted_step(s: Seq<EntryView>, i: int, j: int)
    requires
        sorted_by_name(s),
        0 <= i < j < s.len(),
    ensures
        name_le(s[i], s[j]),
    decreases j - i,
{
    if j > i + 1 {
        lemma_sorted_step(s, i, j - 1);
        assert(name_le(s[j - 1], s[j]));
        lemma_bytes_le_transitive(name_bytes(s[i].name), name_bytes(s[j - 1].name), name_bytes(s[j].name));
    }
}

/// The entries of `s` that the exclusion rules keep, in their order.
pub open spec fn kept_entries(s: Seq<EntryView>, patterns: Seq<Seq<u8>>) -> Seq<EntryView>
    decreases s.len(),
{
    if s.len() == 0 {
        Seq::empty()
    } else {
        let r = kept_entries(s.drop_last(), patterns);
        if keeps_name(name_bytes(s.last().name), patterns) {
            r.push(s.last())
        } else {
            r
        }
    }
}

/// Whether `a` comes no later than `b` byte by byte.
pub fn compare_names(a: &str, b: &str) -> (r: bool)
    ensures
        r == bytes_le(name_bytes(a@), name_bytes(b@)),
{
    let x = a.as_bytes();
    let y = b.as_bytes();
    let mut i: usize = 0;
    assert(x@.skip(0) =~= x@);
    assert(y@.skip(0) =~= y@);
    while i < x.len() && i < y.len()
        invariant
            0 <= i <= x@.len(),
            i <= y@.len(),
            x@ == name_bytes(a@),
            y@ == name_bytes(b@),
            bytes_le(x@, y@) == bytes_le(x@.skip(i as int), y@.skip(i as int)),
        decreases x@.len() - i,
    {
        assert(x@.skip(i as int)[0] == x@[i as int]);
        assert(y@.skip(i as int)[0] == y@[i as int]);
        if x[i] != y[i] {
            assert(x@.skip(i as int).len() > 0 && y@.skip(i as int).len() > 0);
            assert(bytes_le(x@.skip(i as int), y@.skip(i as int)) == (x@[i as int] < y@[i as int]));
            return x[i] < y[i];
        }
        assert(x@.skip(i as int).drop_first() =~= x@.skip(i + 1));
        assert(y@.skip(i as int).drop_first() =~= y@.skip(i + 1));
        i = i + 1;
    }
    i == x.len()
}

/// Orders entries by name, byte-wise.
pub fn sort_by_name(entries: Vec<Entry>) -> (r: Vec<Entry>)
    ensures
        sorted_by_name(entries_view(r@)),
        entries_view(r@).to_multiset() == entries_view(entries@).to_multiset(),
{
    let ghost whole = entries_view(entries@).to_multiset();
    let mut rest = entries;
    let mut out: Vec<Entry> = Vec::new();
    assert(entries_view(out@) =~= Seq::<EntryView>::empty());
    while rest.len() > 0
        invariant
            sorted_by_name(entries_view(out@)),
            entries_view(out@).to_multiset().add(entries_view(rest@).to_multiset()) == whole,
        decreases rest@.len(),
    {
        let ghost before_rest = rest@;
        let x = rest.pop().unwrap();
        assert(entries_view(before_rest) =~= entries_view(rest@).push(x@));
        let ghost ov = entries_view(out@);
        let mut p: usize = 0;
        while p < out.len() && compare_names(out[p].name.as_str(), x.name.as_str())
            invariant
                0 <= p <= out@.len(),
                ov == entries_view(out@),
                forall|j: int| 0 <= j < p ==> name_le(#[trigger] ov[j], x@),
            decreases out@.len() - p,
        {
            p = p + 1;
        }
        proof {
            if p < ov.len() {
                lemma_bytes_le_total(name_bytes(ov[p as int].name), name_bytes(x@.name));
            }
        }
        out.insert(p, x);
        assert(entries_view(out@) =~= ov.insert(p as int, x@));
        assert forall|i: int| 0 <= i < entries_view(out@).len() - 1 implies name_le(
            #[trigger] entries_view(out@)[i],
            entries_view(out@)[i + 1],
        ) by {
            let nv = entries_view(out@);
            if i + 1 < p {
                assert(nv[i] == ov[i] && nv[i + 1] == ov[i + 1]);
            } else if i + 1 == p {
                assert(nv[i] == ov[i] && nv[i + 1] == x@);
            } else if i == p {
                assert(nv[i] == x@ && nv[i + 1] == ov[i]);
            } else {
                assert(nv[i] == ov[i - 1] && nv[i + 1] == ov[i]);
            }
        }
    }
    assert(entries_view(rest@) =~= Seq::<EntryView>::empty());
    out
}

/// The children of one directory as a walk yields them: those that the
/// exclusion rules keep, ordered by name.
pub fn prepare_children(children: Vec<Entry>, exclusions: &Vec<Vec<u8>>) -> (r: Vec<Entry>)
    ensures
        sorted_by_name(entries_view(r@)),
        entries_view(r@).to_multiset() == kept_entries(
            entries_view(children@),
            bytes_view(exclusions@),
        ).to_multiset(),
{
    let ghost pats = bytes_view(exclusions@);
    let ghost whole = kept_entries(entries_view(children@), pats).to_multiset();
    let mut rest = children;
    let mut kept: Vec<Entry> = Vec::new();
    assert(entries_view(kept@) =~= Seq::<EntryView>::empty());
    while rest.len() > 0
        invariant
            pats == bytes_view(exclusions@),
            entries_view(kept@).to_multiset().add(
                kept_entries(entries_view(rest@), pats).to_multiset(),
            ) == whole,
        decreases rest@.len(),
    {
        let ghost before_rest = rest@;
        let ghost before_kept = entries_view(kept@);
        let x = rest.pop().unwrap();
        assert(entries_view(before_rest).drop_last() =~= entries_view(rest@));
        assert(entries_view(before_rest).last() == x@);
        if is_not_hidden(x.name.as_str(), exclusions) {
            kept.push(x);
            assert(entries_view(kept@) =~= before_kept.push(x@));
        }
    }
    assert(entries_view(rest@) =~= Seq::<EntryView>::empty());
    sort_by_name(kept)
}

} // verus!
