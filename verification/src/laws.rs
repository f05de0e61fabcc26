//! The general laws of the store, each proved once and for all: determinism
//! of canonical content, idempotence of writing, ignore filtering, and
//! preservation of siblings under a structural replace.

use vstd::prelude::*;

use crate::byteseq::{lex_lt, lemma_lex_asymmetric, lemma_lex_irreflexive};
use crate::entry::FsChildV;
use crate::ignore::is_ignored;
use crate::object::{
    build_children, build_spec, chain_spec, find_child, graph_map, insert_child_spec,
    lemma_find_child, lemma_insert_members, lemma_wf_tree, replace_spec, ObjectV,
};
use crate::path::path_prefix;

verus! {

/// The children of a tree, as the mapping from name to child that the data
/// model describes: the order they are held in is representation, not value.
pub open spec fn children_map(cs: Seq<ObjectV>) -> Map<Seq<u8>, ObjectV>
    decreases cs.len(),
{
    if cs.len() == 0 {
        Map::<Seq<u8>, ObjectV>::empty()
    } else {
        children_map(cs.drop_last()).insert(cs.last().name(), cs.last())
    }
}

pub proof fn lemma_children_map_dom(cs: Seq<ObjectV>)
    ensures
        forall|k: Seq<u8>|
            children_map(cs).dom().contains(k) <==> exists|i: int|
                0 <= i < cs.len() && (#[trigger] cs[i]).name() == k,
        forall|i: int|
            0 <= i < cs.len() ==> #[trigger] children_map(cs).dom().contains(cs[i].name()),
    decreases cs.len(),
{
    if cs.len() > 0 {
        lemma_children_map_dom(cs.drop_last());
        let d = cs.drop_last();
        assert(forall|i: int| 0 <= i < d.len() ==> #[trigger] d[i] == cs[i]);
        assert(cs.last() == cs[cs.len() - 1]);
        assert forall|k: Seq<u8>| #[trigger] children_map(cs).dom().contains(k) implies exists|
            i: int,
        |
            0 <= i < cs.len() && (#[trigger] cs[i]).name() == k by {
            if k == cs.last().name() {
                assert(cs[cs.len() - 1].name() == k);
            } else {
                assert(children_map(d).dom().contains(k));
                let j = choose|j: int| 0 <= j < d.len() && (#[trigger] d[j]).name() == k;
                assert(cs[j].name() == k);
            }
        }
        assert forall|i: int| 0 <= i < cs.len() implies #[trigger] children_map(cs).dom().contains(
            cs[i].name(),
        ) by {
            if i < cs.len() - 1 {
                assert(d[i].name() == cs[i].name());
                assert(children_map(d).dom().contains(d[i].name()));
            }
        }
    }
}

/// With pairwise distinct names, the map holds each listed child.
pub proof fn lemma_children_map_at(cs: Seq<ObjectV>, i: int)
    requires
        0 <= i < cs.len(),
        forall|a: int, b: int|
            0 <= a < b < cs.len() ==> (#[trigger] cs[a]).name() != (#[trigger] cs[b]).name(),
    ensures
        children_map(cs).dom().contains(cs[i].name()),
        children_map(cs)[cs[i].name()] == cs[i],
    decreases cs.len(),
{
    lemma_children_map_dom(cs);
    if i == cs.len() - 1 {
    } else {
        let d = cs.drop_last();
        assert(forall|a: int| 0 <= a < d.len() ==> #[trigger] d[a] == cs[a]);
        lemma_children_map_at(d, i);
        assert(cs[i].name() != cs[cs.len() - 1].name());
    }
}

/// Strict sorting makes names pairwise distinct.
pub proof fn lemma_sorted_distinct(cs: Seq<ObjectV>)
    requires
        forall|a: int, b: int|
            0 <= a < b < cs.len() ==> lex_lt(
                (#[trigger] cs[a]).name(),
                (#[trigger] cs[b]).name(),
            ),
    ensures
        forall|a: int, b: int|
            0 <= a < b < cs.len() ==> (#[trigger] cs[a]).name() != (#[trigger] cs[b]).name(),
{
    assert forall|a: int, b: int| 0 <= a < b < cs.len() implies (#[trigger] cs[a]).name()
        != (#[trigger] cs[b]).name() by {
        lemma_lex_irreflexive(cs[a].name());
    }
}

/// Dropping the last child removes exactly its entry from the map.
pub proof fn lemma_children_map_drop(cs: Seq<ObjectV>)
    requires
        cs.len() > 0,
        forall|a: int, b: int|
            0 <= a < b < cs.len() ==> (#[trigger] cs[a]).name() != (#[trigger] cs[b]).name(),
    ensures
        children_map(cs.drop_last()) == children_map(cs).remove(cs.last().name()),
{
    let d = cs.drop_last();
    let n1 = cs.last().name();
    lemma_children_map_dom(d);
    assert(forall|a: int| 0 <= a < d.len() ==> #[trigger] d[a] == cs[a]);
    assert(!children_map(d).dom().contains(n1)) by {
        if children_map(d).dom().contains(n1) {
            let j = choose|j: int| 0 <= j < d.len() && (#[trigger] d[j]).name() == n1;
            assert(cs[j].name() == cs[cs.len() - 1].name());
        }
    }
    assert(children_map(d) =~= children_map(cs).remove(n1));
}

/// Two strictly name-sorted children sequences holding the same mapping are
/// the same sequence.
pub proof fn lemma_sorted_same_map(cs1: Seq<ObjectV>, cs2: Seq<ObjectV>)
    requires
        forall|a: int, b: int|
            0 <= a < b < cs1.len() ==> lex_lt(
                (#[trigger] cs1[a]).name(),
                (#[trigger] cs1[b]).name(),
            ),
        forall|a: int, b: int|
            0 <= a < b < cs2.len() ==> lex_lt(
                (#[trigger] cs2[a]).name(),
                (#[trigger] cs2[b]).name(),
            ),
        children_map(cs1) == children_map(cs2),
    ensures
        cs1 == cs2,
    decreases cs1.len(),
{
    lemma_children_map_dom(cs1);
    lemma_children_map_dom(cs2);
    lemma_sorted_distinct(cs1);
    lemma_sorted_distinct(cs2);
    if cs1.len() == 0 {
        if cs2.len() > 0 {
            assert(children_map(cs2).dom().contains(cs2[0].name()));
            assert(exists|i: int| 0 <= i < cs1.len() && (#[trigger] cs1[i]).name() == cs2[0].name());
        }
        assert(cs1 =~= cs2);
    } else {
        assert(children_map(cs1).dom().contains(cs1[cs1.len() - 1].name()));
        assert(cs2.len() > 0) by {
            if cs2.len() == 0 {
                assert(exists|i: int|
                    0 <= i < cs2.len() && (#[trigger] cs2[i]).name() == cs1[cs1.len() - 1].name());
            }
        }
        let n1 = cs1.last().name();
        let n2 = cs2.last().name();
        assert(n1 == n2) by {
            assert(children_map(cs2).dom().contains(n1)) by {
                assert(cs1[cs1.len() - 1].name() == n1);
            }
            let i2 = choose|i: int| 0 <= i < cs2.len() && (#[trigger] cs2[i]).name() == n1;
            assert(children_map(cs1).dom().contains(n2)) by {
                assert(cs2[cs2.len() - 1].name() == n2);
            }
            let i1 = choose|i: int| 0 <= i < cs1.len() && (#[trigger] cs1[i]).name() == n2;
            if i2 < cs2.len() - 1 {
                assert(lex_lt(n1, n2));
                if i1 < cs1.len() - 1 {
                    assert(lex_lt(n2, n1));
                    lemma_lex_asymmetric(n1, n2);
                } else {
                    assert(n2 == n1);
                }
            }
        }
        assert(cs1.last() == cs2.last()) by {
            lemma_children_map_at(cs1, cs1.len() - 1);
            lemma_children_map_at(cs2, cs2.len() - 1);
            assert(children_map(cs1)[n1] == cs1.last());
            assert(children_map(cs2)[n1] == cs2.last());
        }
        lemma_children_map_drop(cs1);
        lemma_children_map_drop(cs2);
        let d1 = cs1.drop_last();
        let d2 = cs2.drop_last();
        assert(forall|a: int| 0 <= a < d1.len() ==> #[trigger] d1[a] == cs1[a]);
        assert(forall|a: int| 0 <= a < d2.len() ==> #[trigger] d2[a] == cs2[a]);
        lemma_sorted_same_map(d1, d2);
        assert(cs1.len() == cs2.len());
        assert(cs1[cs1.len() - 1] == cs2[cs2.len() - 1]);
        assert forall|a: int| 0 <= a < cs1.len() implies cs1[a] == cs2[a] by {
            if a < cs1.len() - 1 {
                assert(d1[a] == cs1[a]);
                assert(d2[a] == cs2[a]);
            }
        }
        assert(cs1 =~= cs2);
    }
}

/// Determinism of canonical content: two well-formed trees at one path that
/// hold the same children, as the mapping from name to child and however the
/// underlying collection orders them, have identical canonical content, and
/// so identical hashes.
pub proof fn lemma_canonical_deterministic(
    t1: ObjectV,
    t2: ObjectV,
    p: Seq<Seq<u8>>,
    cs1: Seq<ObjectV>,
    cs2: Seq<ObjectV>,
)
    requires
        t1 == (ObjectV::Tree { path: p, children: cs1 }),
        t2 == (ObjectV::Tree { path: p, children: cs2 }),
        t1.wf(),
        t2.wf(),
        children_map(cs1) == children_map(cs2),
    ensures
        t1.canon() == t2.canon(),
        t1.hash_of() == t2.hash_of(),
{
    lemma_wf_tree(t1, p, cs1);
    lemma_wf_tree(t2, p, cs2);
    lemma_sorted_same_map(cs1, cs2);
}

/// Writing an object's graph twice stores exactly what one write stores: the
/// second write finds every hash present and changes nothing. (A write into
/// the store value cannot fail at all; persistence failures belong to the
/// caller that flushes it.)
pub proof fn lemma_put_idempotent(o: ObjectV, m: Map<Seq<u8>, Seq<u8>>)
    ensures
        graph_map(o).union_prefer_right(graph_map(o).union_prefer_right(m)) == graph_map(
            o,
        ).union_prefer_right(m),
{
    assert(graph_map(o).union_prefer_right(graph_map(o).union_prefer_right(m)) =~= graph_map(
        o,
    ).union_prefer_right(m));
}

/// Round-trip: an object whose whole graph the store holds is rehydratable
/// by its own hash, kind and depth. A write establishes `graph_stored` (its
/// ensures, absent hash collisions), and rehydration of anything
/// `rehydratable` must succeed and reproduce the stored canonical content
/// byte for byte (the rehydration operation's ensures).
pub proof fn lemma_round_trip(m: Map<Seq<u8>, Seq<u8>>, o: ObjectV)
    requires
        o.wf(),
        crate::object::graph_stored(m, o),
    ensures
        crate::object::rehydratable(m, o, o.hash_of(), o is Tree, crate::object::depth(o)),
{
}

/// The inserted child itself appears in an insertion's result.
pub proof fn lemma_insert_contains(cs: Seq<ObjectV>, c: ObjectV)
    ensures
        exists|idx: int|
            0 <= idx < insert_child_spec(cs, c).len() && #[trigger] insert_child_spec(cs, c)[idx]
                == c,
    decreases cs.len(),
{
    let out = insert_child_spec(cs, c);
    if cs.len() == 0 {
        assert(out[0] == c);
    } else if lex_lt(c.name(), cs[0].name()) {
        assert(out[0] == c);
    } else if c.name() == cs[0].name() {
        assert(out[0] == c);
    } else {
        lemma_insert_contains(cs.skip(1), c);
        let rec = insert_child_spec(cs.skip(1), c);
        let idx = choose|idx: int| 0 <= idx < rec.len() && #[trigger] rec[idx] == c;
        assert(out[idx + 1] == c);
    }
}

/// A child whose name differs from the inserted one survives an insertion.
pub proof fn lemma_insert_keeps(cs: Seq<ObjectV>, c: ObjectV, j: int)
    requires
        0 <= j < cs.len(),
        cs[j].name() != c.name(),
    ensures
        exists|j2: int|
            0 <= j2 < insert_child_spec(cs, c).len() && #[trigger] insert_child_spec(cs, c)[j2]
                == cs[j],
    decreases cs.len(),
{
    let out = insert_child_spec(cs, c);
    if lex_lt(c.name(), cs[0].name()) {
        assert(out[j + 1] == cs[j]);
    } else if c.name() == cs[0].name() {
        assert(j > 0);
        assert(out[j] == cs.skip(1)[j - 1]);
        assert(out[j] == cs[j]);
    } else {
        if j == 0 {
            assert(out[0] == cs[0]);
        } else {
            assert(cs.skip(1)[j - 1] == cs[j]);
            lemma_insert_keeps(cs.skip(1), c, j - 1);
            let rec = insert_child_spec(cs.skip(1), c);
            let j2 = choose|j2: int| 0 <= j2 < rec.len() && #[trigger] rec[j2] == cs.skip(1)[j - 1];
            assert(out[j2 + 1] == cs[j]);
        }
    }
}

/// Replace preserves siblings: a child of the tree whose name is not the one
/// the target path descends through survives, bit for bit (so its canonical
/// content and hash are untouched). The other half of the replace law, that
/// a target outside the tree fails with `PathMismatch` and changes nothing,
/// is the error clause of the replace operation itself.
pub proof fn lemma_replace_preserves_siblings(
    o: ObjectV,
    target: Seq<Seq<u8>>,
    n: ObjectV,
    j: int,
)
    requires
        o.wf(),
        o is Tree,
        path_prefix(o.path(), target),
        target.len() > o.path().len(),
        n.path() == target,
        0 <= j < o.children().len(),
        o.children()[j].name() != target[o.path().len() as int],
    ensures
        exists|j2: int|
            0 <= j2 < replace_spec(o, target, n).children().len()
                && #[trigger] replace_spec(o, target, n).children()[j2] == o.children()[j],
{
    assert(o.path() != target);
    match o {
        ObjectV::Tree { path, children } => {
            assert(o.children() == children);
            let nm = target[path.len() as int];
            let idx = find_child(children, nm);
            lemma_find_child(children, nm);
            let out = replace_spec(o, target, n);
            if 0 <= idx && idx < children.len() {
                assert(children[idx].name() == nm);
                assert(j != idx);
                let cs2 = children.update(idx, replace_spec(children[idx], target, n));
                assert(out.children() == cs2);
                assert(cs2[j] == children[j]);
            } else {
                let c = chain_spec(path.push(nm), target, n);
                assert(c.name() == nm) by {
                    let p2 = path.push(nm);
                    if p2.len() >= target.len() {
                        assert(p2 =~= target);
                        assert(c == n);
                        assert(n.path().last() == nm);
                    } else {
                        assert(c.path() == p2);
                    }
                }
                assert(out.children() == insert_child_spec(children, c));
                lemma_insert_keeps(children, c, j);
            }
        },
        _ => {
            assert(false);
        },
    }
}

/// The name of everything a build gathers is the name of some scanned entry.
pub proof fn lemma_build_names(p: Seq<Seq<u8>>, es: Seq<FsChildV>, ig: Seq<Seq<u8>>)
    ensures
        forall|i: int|
            0 <= i < build_children(p, es, ig).len() ==> exists|k: int|
                0 <= k < es.len() && (#[trigger] build_children(p, es, ig)[i]).name()
                    == (#[trigger] es[k]).name,
    decreases es.len(),
{
    if es.len() > 0 {
        lemma_build_names(p, es.drop_last(), ig);
        let d = es.drop_last();
        let acc = build_children(p, d, ig);
        let out = build_children(p, es, ig);
        assert(forall|k: int| 0 <= k < d.len() ==> #[trigger] d[k] == es[k]);
        let c = es.last();
        if is_ignored(ig, p.push(c.name)) {
            assert(out == acc);
            assert forall|i: int| 0 <= i < out.len() implies exists|k: int|
                0 <= k < es.len() && (#[trigger] out[i]).name() == (#[trigger] es[k]).name by {
                let k = choose|k: int|
                    0 <= k < d.len() && (#[trigger] acc[i]).name() == (#[trigger] d[k]).name;
                assert(out[i].name() == es[k].name);
            }
        } else {
            let b = build_spec(p.push(c.name), c.entry, ig);
            assert(b.name() == c.name) by {
                match c.entry {
                    crate::entry::FsEntryV::File { .. } => {},
                    crate::entry::FsEntryV::Dir { .. } => {},
                }
            }
            assert(out == insert_child_spec(acc, b));
            lemma_insert_members(acc, b);
            assert forall|i: int| 0 <= i < out.len() implies exists|k: int|
                0 <= k < es.len() && (#[trigger] out[i]).name() == (#[trigger] es[k]).name by {
                if out[i] == b {
                    assert(out[i].name() == es[es.len() - 1].name);
                } else {
                    let a = choose|a: int| 0 <= a < acc.len() && out[i] == #[trigger] acc[a];
                    let k = choose|k: int|
                        0 <= k < d.len() && (#[trigger] acc[a]).name() == (#[trigger] d[k]).name;
                    assert(out[i].name() == es[k].name);
                }
            }
        }
    }
}

/// Ignore filtering: a scanned entry whose path matches a loaded pattern is
/// absent from the built tree, and one that matches no pattern is present,
/// built exactly; sibling entries never affect one another.
pub proof fn lemma_build_filters(p: Seq<Seq<u8>>, es: Seq<FsChildV>, ig: Seq<Seq<u8>>, j: int)
    requires
        0 <= j < es.len(),
        forall|a: int, b: int|
            0 <= a < b < es.len() ==> (#[trigger] es[a]).name != (#[trigger] es[b]).name,
    ensures
        is_ignored(ig, p.push(es[j].name)) ==> find_child(build_children(p, es, ig), es[j].name)
            < 0,
        !is_ignored(ig, p.push(es[j].name)) ==> exists|idx: int|
            0 <= idx < build_children(p, es, ig).len() && #[trigger] build_children(p, es, ig)[idx]
                == build_spec(p.push(es[j].name), es[j].entry, ig),
    decreases es.len(),
{
    let d = es.drop_last();
    let acc = build_children(p, d, ig);
    let out = build_children(p, es, ig);
    let c = es.last();
    assert(forall|k: int| 0 <= k < d.len() ==> #[trigger] d[k] == es[k]);
    lemma_build_names(p, d, ig);
    lemma_find_child(out, es[j].name);
    let b = build_spec(p.push(c.name), c.entry, ig);
    assert(b.name() == c.name) by {
        match c.entry {
            crate::entry::FsEntryV::File { .. } => {},
            crate::entry::FsEntryV::Dir { .. } => {},
        }
    }
    if j == es.len() - 1 {
        if is_ignored(ig, p.push(es[j].name)) {
            assert(out == acc);
            if find_child(out, es[j].name) >= 0 {
                let f = find_child(out, es[j].name);
                assert(acc[f].name() == es[j].name);
                let k = choose|k: int|
                    0 <= k < d.len() && (#[trigger] acc[f]).name() == (#[trigger] d[k]).name;
                assert(es[k].name == es[es.len() - 1].name);
            }
        } else {
            assert(out == insert_child_spec(acc, b));
            lemma_insert_contains(acc, b);
        }
    } else {
        lemma_build_filters(p, d, ig, j);
        if is_ignored(ig, p.push(es[j].name)) {
            lemma_find_child(acc, es[j].name);
            if is_ignored(ig, p.push(c.name)) {
                assert(out == acc);
            } else {
                assert(out == insert_child_spec(acc, b));
                if find_child(out, es[j].name) >= 0 {
                    let f = find_child(out, es[j].name);
                    assert(out[f].name() == es[j].name);
                    lemma_insert_members(acc, b);
                    if out[f] == b {
                        assert(es[es.len() - 1].name == es[j].name);
                    } else {
                        let a = choose|a: int| 0 <= a < acc.len() && out[f] == #[trigger] acc[a];
                        assert(acc[a].name() == es[j].name);
                    }
                }
            }
        } else {
            let idx0 = choose|idx: int|
                0 <= idx < acc.len() && #[trigger] acc[idx] == build_spec(
                    p.push(es[j].name),
                    es[j].entry,
                    ig,
                );
            if is_ignored(ig, p.push(c.name)) {
                assert(out == acc);
            } else {
                assert(out == insert_child_spec(acc, b));
                assert(acc[idx0].name() == es[j].name) by {
                    match es[j].entry {
                        crate::entry::FsEntryV::File { .. } => {},
                        crate::entry::FsEntryV::Dir { .. } => {},
                    }
                }
                lemma_insert_keeps(acc, b, idx0);
            }
        }
    }
}

} // verus!
