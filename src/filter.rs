//! Which directory entries take part in a tree: the hidden-name rule and the
//! caller's exclusion patterns.
use vstd::prelude::*;
use vstd::utf8::encode_utf8;

verus! {

/// The byte `.` that starts the name of a hidden entry.
pub const DOT: u8 = 46;

/// The byte `,` that separates the patterns of an exclusion string.
pub const COMMA: u8 = 44;

/// The UTF-8 bytes of a name.
pub open spec fn name_bytes(name: Seq<char>) -> Seq<u8> {
    encode_utf8(name)
}

/// `needle` occurs in `hay` starting at byte `i`.
pub open spec fn occurs_at(hay: Seq<u8>, needle: Seq<u8>, i: int) -> bool {
    0 <= i && i + needle.len() <= hay.len() && hay.subrange(i, i + needle.len()) == needle
}

/// `needle` is a substring of `hay` (the empty pattern is a substring of every name).
pub open spec fn contains_bytes(hay: Seq<u8>, needle: Seq<u8>) -> bool {
    exists|i: int| occurs_at(hay, needle, i)
}

/// A name is hidden when it starts with a dot.
pub open spec fn is_hidden_name(name: Seq<u8>) -> bool {
    name.len() > 0 && name[0] == DOT
}

/// Some pattern of `patterns` is a substring of `name`.
pub open spec fn excluded_by(name: Seq<u8>, patterns: Seq<Seq<u8>>) -> bool {
    exists|k: int| 0 <= k < patterns.len() && contains_bytes(name, #[trigger] patterns[k])
}

/// An entry with this name takes part in the tree.
pub open spec fn keeps_name(name: Seq<u8>, patterns: Seq<Seq<u8>>) -> bool {
    !is_hidden_name(name) && !excluded_by(name, patterns)
}

/// The pieces of `b` between separators `sep`, left to right; there is always
/// one more piece than there are separators.
pub open spec fn split_on(b: Seq<u8>, sep: u8) -> Seq<Seq<u8>>
    decreases b.len(),
{
    if b.len() == 0 {
        seq![Seq::<u8>::empty()]
    } else {
        let rest = split_on(b.drop_last(), sep);
        if b.last() == sep {
            rest.push(Seq::<u8>::empty())
        } else {
            rest.update(rest.len() - 1, rest.last().push(b.last()))
        }
    }
}

proof fn lemma_split_on_nonempty(b: Seq<u8>, sep: u8)
    ensures
        split_on(b, sep).len() >= 1,
    decreases b.len(),
{
    if b.len() > 0 {
        lemma_split_on_nonempty(b.drop_last(), sep);
    }
}

/// The patterns of an exclusion string: none for the empty string, else the
/// comma-separated pieces as they stand.
pub open spec fn exclusion_patterns(spec: Seq<u8>) -> Seq<Seq<u8>> {
    if spec.len() == 0 {
        Seq::empty()
    } else {
        split_on(spec, COMMA)
    }
}

/// The byte strings held in a vector of byte vectors.
pub open spec fn bytes_view(v: Seq<Vec<u8>>) -> Seq<Seq<u8>> {
    v.map_values(|p: Vec<u8>| p@)
}

/// Splits an exclusion string into its patterns, as bytes.
pub fn parse_exclusions(spec: &str) -> (r: Vec<Vec<u8>>)
    ensures
        bytes_view(r@) == exclusion_patterns(name_bytes(spec@)),
{
    let b = spec.as_bytes();
    let mut out: Vec<Vec<u8>> = Vec::new();
    if b.len() == 0 {
        assert(bytes_view(out@) =~= Seq::<Seq<u8>>::empty());
        return out;
    }
    let mut cur: Vec<u8> = Vec::new();
    let mut i: usize = 0;
    while i < b.len()
        invariant
            0 <= i <= b@.len(),
            bytes_view(out@).push(cur@) == split_on(b@.take(i as int), COMMA),
        decreases b@.len() - i,
    {
        proof {
            lemma_split_on_nonempty(b@.take(i as int), COMMA);
        }
        let c = b[i];
        let ghost before = b@.take(i as int);
        let ghost prev = bytes_view(out@);
        let ghost prev_cur = cur@;
        assert(b@.take(i + 1).drop_last() =~= before);
        assert(b@.take(i + 1).last() == c);
        if c == COMMA {
            out.push(cur);
            cur = Vec::new();
            assert(bytes_view(out@) =~= prev.push(prev_cur));
            assert(bytes_view(out@).push(cur@) =~= split_on(b@.take(i + 1), COMMA));
        } else {
            cur.push(c);
            assert(bytes_view(out@).push(cur@) =~= split_on(b@.take(i + 1), COMMA));
        }
        i = i + 1;
    }
    assert(b@.take(b@.len() as int) =~= b@);
    let ghost prev = bytes_view(out@);
    let ghost prev_cur = cur@;
    out.push(cur);
    assert(bytes_view(out@) =~= prev.push(prev_cur));
    out
}

/// Whether `needle` occurs in `hay`.
pub fn contains_pattern(hay: &[u8], needle: &[u8]) -> (r: bool)
    ensures
        r == contains_bytes(hay@, needle@),
{
    if needle.len() > hay.len() {
        assert(!contains_bytes(hay@, needle@));
        return false;
    }
    let n = hay.len();
    let last = n - needle.len();
    let mut i: usize = 0;
    while i <= last
        invariant
            n == hay@.len(),
            needle@.len() <= hay@.len(),
            last == hay@.len() - needle@.len(),
            0 <= i <= last + 1,
            forall|j: int| 0 <= j < i ==> !occurs_at(hay@, needle@, j),
        decreases last + 1 - i,
    {
        let mut k: usize = 0;
        let mut same = true;
        while k < needle.len()
            invariant
                i <= last,
                n == hay@.len(),
                needle@.len() <= hay@.len(),
                last == hay@.len() - needle@.len(),
                0 <= k <= needle@.len(),
                same == (forall|m: int| 0 <= m < k ==> hay@[i + m] == needle@[m]),
            decreases needle@.len() - k,
        {
            if hay[i + k] != needle[k] {
                same = false;
            }
            k = k + 1;
        }
        if same {
            assert(hay@.subrange(i as int, i + needle@.len()) =~= needle@);
            assert(occurs_at(hay@, needle@, i as int));
            return true;
        }
        assert(needle@.len() > 0);
        assert(!occurs_at(hay@, needle@, i as int)) by {
            if occurs_at(hay@, needle@, i as int) {
                assert forall|m: int| 0 <= m < k implies hay@[i + m] == needle@[m] by {
                    assert(hay@.subrange(i as int, i + needle@.len())[m] == hay@[i + m]);
                }
            }
        }
        i = i + 1;
    }
    assert forall|j: int| !occurs_at(hay@, needle@, j) by {
        if 0 <= j && j + needle@.len() <= hay@.len() {
            assert(j < i);
        }
    }
    false
}

/// Whether an entry named `name` takes part in the tree: its name does not
/// start with a dot and holds none of `exclusions` as a substring.
pub fn is_not_hidden(name: &str, exclusions: &Vec<Vec<u8>>) -> (r: bool)
    ensures
        r == keeps_name(name_bytes(name@), bytes_view(exclusions@)),
{
    let b = name.as_bytes();
    if b.len() > 0 && b[0] == DOT {
        return false;
    }
    let mut k: usize = 0;
    while k < exclusions.len()
        invariant
            0 <= k <= exclusions@.len(),
            b@ == name_bytes(name@),
            !is_hidden_name(b@),
            forall|j: int| 0 <= j < k ==> !contains_bytes(b@, #[trigger] bytes_view(exclusions@)[j]),
        decreases exclusions@.len() - k,
    {
        if contains_pattern(b, exclusions[k].as_slice()) {
            assert(bytes_view(exclusions@)[k as int] == exclusions@[k as int]@);
            assert(excluded_by(b@, bytes_view(exclusions@)));
            return false;
        }
        assert(bytes_view(exclusions@)[k as int] == exclusions@[k as int]@);
        k = k + 1;
    }
    true
}

} // verus!
