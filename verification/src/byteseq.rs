//! Byte-sequence groundwork: the strict lexicographic order used to sort a
//! tree's children, and splitting/joining on a separator byte, used by the
//! tree wire format (lines joined by a newline, fields joined by a space).

use vstd::prelude::*;

verus! {

/// Strict lexicographic, element-wise order on byte sequences.
pub open spec fn lex_lt(a: Seq<u8>, b: Seq<u8>) -> bool
    decreases a.len(),
{
    if b.len() == 0 {
        false
    } else if a.len() == 0 {
        true
    } else if a[0] < b[0] {
        true
    } else if a[0] > b[0] {
        false
    } else {
        lex_lt(a.skip(1), b.skip(1))
    }
}

pub proof fn lemma_lex_trichotomy(a: Seq<u8>, b: Seq<u8>)
    ensures
        lex_lt(a, b) || lex_lt(b, a) || a == b,
    decreases a.len(),
{
    if a.len() == 0 && b.len() == 0 {
        assert(a =~= b);
    } else if a.len() > 0 && b.len() > 0 && a[0] == b[0] {
        lemma_lex_trichotomy(a.skip(1), b.skip(1));
        if a.skip(1) == b.skip(1) {
            assert(a =~= b) by {
                assert(a.skip(1).len() == b.skip(1).len());
                assert forall|i: int| 0 <= i < a.len() implies a[i] == b[i] by {
                    if i >= 1 {
                        assert(a[i] == a.skip(1)[i - 1]);
                        assert(b[i] == b.skip(1)[i - 1]);
                    }
                }
            }
        }
    }
}

pub proof fn lemma_lex_irreflexive(a: Seq<u8>)
    ensures
        !lex_lt(a, a),
    decreases a.len(),
{
    if a.len() > 0 {
        lemma_lex_irreflexive(a.skip(1));
    }
}

pub proof fn lemma_lex_asymmetric(a: Seq<u8>, b: Seq<u8>)
    ensures
        lex_lt(a, b) ==> !lex_lt(b, a),
    decreases a.len(),
{
    if a.len() > 0 && b.len() > 0 && a[0] == b[0] {
        lemma_lex_asymmetric(a.skip(1), b.skip(1));
    }
}

pub proof fn lemma_lex_transitive(a: Seq<u8>, b: Seq<u8>, c: Seq<u8>)
    ensures
        lex_lt(a, b) && lex_lt(b, c) ==> lex_lt(a, c),
    decreases a.len(),
{
    if a.len() > 0 && b.len() > 0 && c.len() > 0 && a[0] == b[0] && b[0] == c[0] {
        lemma_lex_transitive(a.skip(1), b.skip(1), c.skip(1));
    }
}

/// Compares two byte vectors in the lexicographic order.
pub fn lex_cmp_lt(a: &Vec<u8>, b: &Vec<u8>) -> (r: bool)
    ensures
        r == lex_lt(a@, b@),
{
    let mut i: usize = 0;
    proof {
        assert(a@.skip(0) =~= a@);
        assert(b@.skip(0) =~= b@);
    }
    loop
        invariant
            i <= a.len(),
            i <= b.len(),
            lex_lt(a@, b@) == lex_lt(a@.skip(i as int), b@.skip(i as int)),
        decreases a.len() - i,
    {
        if i == b.len() {
            return false;
        }
        if i == a.len() {
            return true;
        }
        let x = a[i];
        let y = b[i];
        proof {
            assert(a@.skip(i as int)[0] == a@[i as int]);
            assert(b@.skip(i as int)[0] == b@[i as int]);
        }
        if x < y {
            return true;
        }
        if x > y {
            return false;
        }
        proof {
            assert(a@.skip(i as int).skip(1) =~= a@.skip(i + 1));
            assert(b@.skip(i as int).skip(1) =~= b@.skip(i + 1));
        }
        i = i + 1;
    }
}

/// Whether a byte occurs in a sequence.
pub open spec fn contains_byte(s: Seq<u8>, b: u8) -> bool {
    exists|i: int| 0 <= i < s.len() && s[i] == b
}

/// Splits on a separator byte. Always yields at least one segment; an empty
/// input yields one empty segment, mirroring how the slice splitter behaves.
pub open spec fn split_seq(s: Seq<u8>, sep: u8) -> Seq<Seq<u8>>
    decreases s.len(),
{
    if s.len() == 0 {
        seq![Seq::<u8>::empty()]
    } else if s[0] == sep {
        seq![Seq::<u8>::empty()] + split_seq(s.skip(1), sep)
    } else {
        let rest = split_seq(s.skip(1), sep);
        rest.update(0, seq![s[0]] + rest[0])
    }
}

pub proof fn lemma_split_len(s: Seq<u8>, sep: u8)
    ensures
        split_seq(s, sep).len() >= 1,
    decreases s.len(),
{
    if s.len() > 0 {
        lemma_split_len(s.skip(1), sep);
    }
}

/// Joins segments with a separator between neighbours, no trailing separator.
pub open spec fn join_seq(parts: Seq<Seq<u8>>, sep: u8) -> Seq<u8>
    decreases parts.len(),
{
    if parts.len() == 0 {
        Seq::<u8>::empty()
    } else if parts.len() == 1 {
        parts[0]
    } else {
        parts[0] + seq![sep] + join_seq(parts.skip(1), sep)
    }
}

/// Joining what a split produced restores the input.
pub proof fn lemma_join_split(s: Seq<u8>, sep: u8)
    ensures
        join_seq(split_seq(s, sep), sep) == s,
    decreases s.len(),
{
    if s.len() == 0 {
        assert(join_seq(split_seq(s, sep), sep) =~= s);
    } else if s[0] == sep {
        lemma_join_split(s.skip(1), sep);
        lemma_split_len(s.skip(1), sep);
        let rest = split_seq(s.skip(1), sep);
        let whole = seq![Seq::<u8>::empty()] + rest;
        assert(whole.skip(1) =~= rest);
        assert(whole[0] == Seq::<u8>::empty());
        assert(join_seq(whole, sep) == whole[0] + seq![sep] + join_seq(rest, sep));
        assert(join_seq(whole, sep) =~= s);
    } else {
        lemma_join_split(s.skip(1), sep);
        lemma_split_len(s.skip(1), sep);
        let rest = split_seq(s.skip(1), sep);
        let whole = rest.update(0, seq![s[0]] + rest[0]);
        if rest.len() == 1 {
            assert(whole[0] == seq![s[0]] + rest[0]);
            assert(join_seq(whole, sep) == whole[0]);
            assert(join_seq(rest, sep) == rest[0]);
            assert(join_seq(whole, sep) =~= s);
        } else {
            assert(whole.skip(1) =~= rest.skip(1));
            assert(whole[0] == seq![s[0]] + rest[0]);
            assert(join_seq(whole, sep) == whole[0] + seq![sep] + join_seq(whole.skip(1), sep));
            assert(join_seq(rest, sep) == rest[0] + seq![sep] + join_seq(rest.skip(1), sep));
            assert(rest[0] + seq![sep] + join_seq(rest.skip(1), sep) == s.skip(1));
            assert(whole[0] + seq![sep] + join_seq(whole.skip(1), sep) =~= seq![s[0]] + (rest[0]
                + seq![sep] + join_seq(rest.skip(1), sep)));
            assert(seq![s[0]] + s.skip(1) =~= s);
            assert(join_seq(whole, sep) == s);
        }
    }
}

/// Splitting a separator-free segment, a separator, and a remainder peels off
/// exactly that segment.
pub proof fn lemma_split_prepend(a: Seq<u8>, t: Seq<u8>, sep: u8)
    requires
        !contains_byte(a, sep),
    ensures
        split_seq(a + seq![sep] + t, sep) == seq![a] + split_seq(t, sep),
    decreases a.len(),
{
    let s = a + seq![sep] + t;
    if a.len() == 0 {
        assert(s[0] == sep);
        assert(s.skip(1) =~= t);
        assert(a =~= Seq::<u8>::empty());
        assert(split_seq(s, sep) =~= seq![a] + split_seq(t, sep));
    } else {
        assert(s[0] == a[0]);
        assert(a[0] != sep);
        assert(s.skip(1) =~= a.skip(1) + seq![sep] + t);
        assert(!contains_byte(a.skip(1), sep)) by {
            assert(forall|i: int|
                0 <= i < a.skip(1).len() ==> #[trigger] a.skip(1)[i] == a[i + 1]);
        }
        lemma_split_prepend(a.skip(1), t, sep);
        lemma_split_len(t, sep);
        let rest = split_seq(s.skip(1), sep);
        assert(rest == seq![a.skip(1)] + split_seq(t, sep));
        assert(rest[0] == a.skip(1));
        assert(seq![s[0]] + rest[0] =~= a);
        assert(split_seq(s, sep) =~= seq![a] + split_seq(t, sep));
    }
}

/// A separator-free sequence splits into a single segment: itself.
pub proof fn lemma_split_single(a: Seq<u8>, sep: u8)
    requires
        !contains_byte(a, sep),
    ensures
        split_seq(a, sep) == seq![a],
    decreases a.len(),
{
    if a.len() == 0 {
        assert(a =~= Seq::<u8>::empty());
        assert(split_seq(a, sep) =~= seq![a]);
    } else {
        assert(a[0] != sep);
        assert(!contains_byte(a.skip(1), sep)) by {
            assert(forall|i: int|
                0 <= i < a.skip(1).len() ==> #[trigger] a.skip(1)[i] == a[i + 1]);
        }
        lemma_split_single(a.skip(1), sep);
        assert(seq![a[0]] + a.skip(1) =~= a);
        assert(split_seq(a, sep) =~= seq![a]);
    }
}

/// Splitting the join of separator-free segments restores the segments.
pub proof fn lemma_split_join(parts: Seq<Seq<u8>>, sep: u8)
    requires
        parts.len() >= 1,
        forall|k: int| 0 <= k < parts.len() ==> !contains_byte(#[trigger] parts[k], sep),
    ensures
        split_seq(join_seq(parts, sep), sep) == parts,
    decreases parts.len(),
{
    if parts.len() == 1 {
        lemma_split_single(parts[0], sep);
        assert(split_seq(join_seq(parts, sep), sep) =~= parts);
    } else {
        lemma_split_join(parts.skip(1), sep);
        lemma_split_prepend(parts[0], join_seq(parts.skip(1), sep), sep);
        assert(join_seq(parts, sep) == parts[0] + seq![sep] + join_seq(parts.skip(1), sep));
        assert(split_seq(join_seq(parts, sep), sep) =~= parts);
    }
}

/// Appending one more segment to a join appends a separator and the segment.
pub proof fn lemma_join_push(parts: Seq<Seq<u8>>, x: Seq<u8>, sep: u8)
    ensures
        parts.len() == 0 ==> join_seq(parts.push(x), sep) == x,
        parts.len() > 0 ==> join_seq(parts.push(x), sep) == join_seq(parts, sep) + seq![sep] + x,
    decreases parts.len(),
{
    if parts.len() == 0 {
        assert(parts.push(x)[0] == x);
    } else if parts.len() == 1 {
        assert(parts.push(x).skip(1) =~= seq![x]);
        assert(parts.push(x)[0] == parts[0]);
        assert(join_seq(seq![x], sep) == x);
        assert(join_seq(parts.push(x), sep) =~= parts[0] + seq![sep] + x);
        assert(join_seq(parts, sep) + seq![sep] + x =~= parts[0] + seq![sep] + x);
    } else {
        lemma_join_push(parts.skip(1), x, sep);
        assert(parts.push(x).skip(1) =~= parts.skip(1).push(x));
        assert(parts.push(x)[0] == parts[0]);
        assert(join_seq(parts.push(x), sep) =~= join_seq(parts, sep) + seq![sep] + x);
    }
}

/// Extending the last segment extends the join by the same byte.
pub proof fn lemma_join_grow_last(parts: Seq<Seq<u8>>, x: u8, sep: u8)
    requires
        parts.len() >= 1,
    ensures
        join_seq(parts.update(parts.len() - 1, parts.last().push(x)), sep)
            == join_seq(parts, sep).push(x),
    decreases parts.len(),
{
    let grown = parts.update(parts.len() - 1, parts.last().push(x));
    if parts.len() == 1 {
        assert(grown[0] == parts[0].push(x));
        assert(join_seq(grown, sep) =~= join_seq(parts, sep).push(x));
    } else {
        lemma_join_grow_last(parts.skip(1), x, sep);
        assert(grown.skip(1) =~= parts.skip(1).update(parts.skip(1).len() - 1, parts.skip(1).last().push(x)));
        assert(grown[0] == parts[0]);
        assert(join_seq(grown, sep) =~= join_seq(parts, sep).push(x));
    }
}

/// Copies a byte vector.
pub fn copy_bytes(v: &Vec<u8>) -> (r: Vec<u8>)
    ensures
        r@ == v@,
{
    let mut out: Vec<u8> = Vec::new();
    let mut i: usize = 0;
    while i < v.len()
        invariant
            i <= v.len(),
            out@ == v@.take(i as int),
        decreases v.len() - i,
    {
        out.push(v[i]);
        proof {
            assert(v@.take(i as int).push(v@[i as int]) =~= v@.take(i + 1));
        }
        i = i + 1;
    }
    proof {
        assert(v@.take(i as int) =~= v@);
    }
    out
}

/// Whether two byte vectors hold the same bytes.
pub fn bytes_eq(a: &Vec<u8>, b: &Vec<u8>) -> (r: bool)
    ensures
        r == (a@ == b@),
{
    if a.len() != b.len() {
        return false;
    }
    let mut i: usize = 0;
    while i < a.len()
        invariant
            i <= a.len(),
            a@.len() == b@.len(),
            forall|j: int| 0 <= j < i ==> a@[j] == b@[j],
        decreases a.len() - i,
    {
        if a[i] != b[i] {
            return false;
        }
        i = i + 1;
    }
    proof {
        assert(a@ =~= b@);
    }
    true
}

/// The element-wise views of a sequence of byte vectors.
pub open spec fn views_of(v: Seq<Vec<u8>>) -> Seq<Seq<u8>> {
    Seq::new(v.len(), |i: int| v[i]@)
}

/// Splits a byte vector on a separator byte.
pub fn split_bytes(buffer: &Vec<u8>, sep: u8) -> (r: Vec<Vec<u8>>)
    ensures
        views_of(r@) == split_seq(buffer@, sep),
{
    let mut segs: Vec<Vec<u8>> = Vec::new();
    let mut cur: Vec<u8> = Vec::new();
    let mut i: usize = 0;
    proof {
        assert(views_of(segs@).push(cur@) =~= seq![cur@]);
        assert(buffer@.take(0) =~= Seq::<u8>::empty());
    }
    while i < buffer.len()
        invariant
            i <= buffer.len(),
            join_seq(views_of(segs@).push(cur@), sep) == buffer@.take(i as int),
            forall|k: int| 0 <= k < segs@.len() ==> !contains_byte(#[trigger] segs@[k]@, sep),
            !contains_byte(cur@, sep),
        decreases buffer.len() - i,
    {
        let ghost parts = views_of(segs@).push(cur@);
        let b = buffer[i];
        if b == sep {
            proof {
                lemma_join_push(parts, Seq::<u8>::empty(), sep);
                assert(join_seq(parts, sep) + seq![sep] + Seq::<u8>::empty()
                    =~= buffer@.take(i + 1));
            }
            segs.push(cur);
            cur = Vec::new();
            proof {
                assert(views_of(segs@).push(cur@) =~= parts.push(Seq::<u8>::empty()));
            }
        } else {
            proof {
                lemma_join_grow_last(parts, b, sep);
                assert(parts.update(parts.len() - 1, parts.last().push(b))
                    =~= views_of(segs@).push(cur@.push(b)));
                assert(buffer@.take(i as int).push(b) =~= buffer@.take(i + 1));
            }
            cur.push(b);
        }
        i = i + 1;
    }
    proof {
        assert(buffer@.take(i as int) =~= buffer@);
        lemma_split_join(views_of(segs@).push(cur@), sep);
    }
    segs.push(cur);
    proof {
        assert(views_of(segs@) =~= views_of(segs@.drop_last()).push(segs@.last()@));
    }
    segs
}

} // verus!
