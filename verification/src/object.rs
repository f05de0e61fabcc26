//! The object model: blobs (file contents) and trees (directory listings),
//! their canonical serialization, and the hash that names them.
//!
//! The canonical content of a blob is its raw bytes; the canonical content of
//! a tree is one line per child, `<kind> <hash> <name>`, in ascending
//! lexicographic order of child name, joined by newlines with no trailing
//! newline. An object's hash is the hex SHA-1 digest of its canonical,
//! uncompressed content; compression is a storage detail that never touches
//! identity.

use vstd::prelude::*;

use crate::byteseq::{
    bytes_eq, contains_byte, copy_bytes, join_seq, lex_cmp_lt, lex_lt, lemma_lex_asymmetric,
    lemma_lex_irreflexive, lemma_lex_transitive, lemma_lex_trichotomy,
};
use crate::entry::{FsChildV, FsEntry, FsEntryV};
use crate::error::Error;
use crate::ignore::Ignore;
use crate::io::{
    bytes_to_string, compress_by_zlib, generate_hash, hash_bytes_of, lemma_hex_bytes_plain,
    unzlib_content, zlib_of,
};
use crate::path::RepoPath;
use crate::repo::{stored_ok, Repo};

verus! {

/// The mathematical shape of an object: paths and bytes as sequences.
pub ghost enum ObjectV {
    Blob { path: Seq<Seq<u8>>, data: Seq<u8> },
    Tree { path: Seq<Seq<u8>>, children: Seq<ObjectV> },
}

/// The `"blob"` kind token of the wire format.
pub open spec fn blob_token() -> Seq<u8> {
    seq![98u8, 108u8, 111u8, 98u8]
}

/// The `"tree"` kind token of the wire format.
pub open spec fn tree_token() -> Seq<u8> {
    seq![116u8, 114u8, 101u8, 101u8]
}

/// A child name the wire format can carry: non-empty, no space, no newline.
pub open spec fn valid_name(n: Seq<u8>) -> bool {
    n.len() > 0 && forall|i: int| 0 <= i < n.len() ==> n[i] != 32 && n[i] != 10
}

impl ObjectV {
    pub open spec fn path(self) -> Seq<Seq<u8>> {
        match self {
            ObjectV::Blob { path, .. } => path,
            ObjectV::Tree { path, .. } => path,
        }
    }

    /// The display name: the final path component.
    pub open spec fn name(self) -> Seq<u8> {
        self.path().last()
    }

    pub open spec fn kind_token(self) -> Seq<u8> {
        match self {
            ObjectV::Blob { .. } => blob_token(),
            ObjectV::Tree { .. } => tree_token(),
        }
    }

    /// The canonical content: what the object's hash is computed over.
    pub open spec fn canon(self) -> Seq<u8>
        decreases self, 0int,
    {
        match self {
            ObjectV::Blob { data, .. } => data,
            ObjectV::Tree { children, .. } => join_seq(lines_of(children), 10),
        }
    }

    /// The hash that names the object: hex SHA-1 of its canonical content.
    pub open spec fn hash_of(self) -> Seq<u8>
        decreases self, 1int,
    {
        hash_bytes_of(self.canon())
    }

    /// The listing line an object contributes to its parent tree.
    pub open spec fn line_of(self) -> Seq<u8>
        decreases self, 2int,
    {
        self.kind_token() + seq![32u8] + self.hash_of() + seq![32u8] + self.name()
    }

    /// Well-formedness: every child sits one component below its parent, has
    /// a name the wire format can carry, and children are strictly sorted by
    /// name (so names are unique and the listing is deterministic).
    pub open spec fn wf(self) -> bool
        decreases self, 1int,
    {
        match self {
            ObjectV::Blob { .. } => true,
            ObjectV::Tree { path, children } => {
                &&& forall|i: int| 0 <= i < children.len() ==> (#[trigger] children[i]).wf()
                &&& forall|i: int|
                    0 <= i < children.len() ==> (#[trigger] children[i]).path().len() == path.len()
                        + 1 && children[i].path().drop_last() == path
                &&& forall|i: int|
                    0 <= i < children.len() ==> valid_name((#[trigger] children[i]).name())
                &&& forall|i: int, j: int|
                    0 <= i < j < children.len() ==> lex_lt(
                        (#[trigger] children[i]).name(),
                        (#[trigger] children[j]).name(),
                    )
            },
        }
    }
}

/// Unpacks well-formedness of a tree into facts about its children.
pub proof fn lemma_wf_tree(t: ObjectV, path: Seq<Seq<u8>>, children: Seq<ObjectV>)
    requires
        t.wf(),
        t == (ObjectV::Tree { path, children }),
    ensures
        forall|i: int| 0 <= i < children.len() ==> (#[trigger] children[i]).wf(),
        forall|i: int|
            0 <= i < children.len() ==> (#[trigger] children[i]).path().len() == path.len() + 1
                && children[i].path().drop_last() == path,
        forall|i: int| 0 <= i < children.len() ==> valid_name((#[trigger] children[i]).name()),
        forall|i: int, j: int|
            0 <= i < j < children.len() ==> lex_lt(
                (#[trigger] children[i]).name(),
                (#[trigger] children[j]).name(),
            ),
{
    match t {
        ObjectV::Tree { path: p2, children: c2 } => {
            assert(p2 == path);
            assert(c2 == children);
            assert(forall|i: int| 0 <= i < c2.len() ==> (#[trigger] c2[i]).wf());
            assert(forall|i: int|
                0 <= i < c2.len() ==> (#[trigger] c2[i]).path().len() == p2.len() + 1
                    && c2[i].path().drop_last() == p2);
            assert(forall|i: int| 0 <= i < c2.len() ==> valid_name((#[trigger] c2[i]).name()));
            assert(forall|i: int, j: int|
                0 <= i < j < c2.len() ==> lex_lt(
                    (#[trigger] c2[i]).name(),
                    (#[trigger] c2[j]).name(),
                ));
        },
        _ => {
            assert(false);
        },
    }
}

/// The listing lines of a children sequence, in order.
pub open spec fn lines_of(cs: Seq<ObjectV>) -> Seq<Seq<u8>>
    decreases cs, 3int,
{
    if cs.len() == 0 {
        Seq::<Seq<u8>>::empty()
    } else {
        lines_of(cs.drop_last()).push(cs.last().line_of())
    }
}

pub proof fn lemma_lines_of(cs: Seq<ObjectV>)
    ensures
        lines_of(cs).len() == cs.len(),
        forall|i: int| 0 <= i < cs.len() ==> #[trigger] lines_of(cs)[i] == cs[i].line_of(),
    decreases cs.len(),
{
    if cs.len() > 0 {
        lemma_lines_of(cs.drop_last());
        assert(forall|i: int| 0 <= i < cs.len() - 1 ==> #[trigger] cs.drop_last()[i] == cs[i]);
    }
}

/// A listing line never holds a newline: the kind token, the hex digest and a
/// valid name are all newline-free.
pub proof fn lemma_line_newline_free(c: ObjectV)
    requires
        valid_name(c.name()),
    ensures
        !contains_byte(c.line_of(), 10),
{
    lemma_hex_bytes_plain(crate::io::sha1_of(c.canon()));
    let line = c.line_of();
    assert forall|i: int| 0 <= i < line.len() implies line[i] != 10 by {
        let kind = c.kind_token();
        let hash = c.hash_of();
        let name = c.name();
        if i < kind.len() {
            assert(line[i] == kind[i]);
        } else if i == kind.len() {
            assert(line[i] == 32);
        } else if i < kind.len() + 1 + hash.len() {
            assert(line[i] == hash[i - kind.len() - 1]);
        } else if i == kind.len() + 1 + hash.len() {
            assert(line[i] == 32);
        } else {
            assert(line[i] == name[i - (kind.len() + 1 + hash.len() + 1)]);
        }
    }
}

impl ObjectV {
    /// The children of a tree; a blob has none.
    pub open spec fn children(self) -> Seq<ObjectV> {
        match self {
            ObjectV::Blob { .. } => Seq::<ObjectV>::empty(),
            ObjectV::Tree { children, .. } => children,
        }
    }
}

/// The index of the child with a given name, or a negative value.
pub open spec fn find_child(cs: Seq<ObjectV>, name: Seq<u8>) -> int
    decreases cs.len(),
{
    if cs.len() == 0 {
        -1
    } else if cs[0].name() == name {
        0
    } else {
        let r = find_child(cs.skip(1), name);
        if r < 0 {
            -1
        } else {
            r + 1
        }
    }
}

pub proof fn lemma_find_child(cs: Seq<ObjectV>, name: Seq<u8>)
    ensures
        find_child(cs, name) >= 0 ==> 0 <= find_child(cs, name) < cs.len() && cs[find_child(
            cs,
            name,
        )].name() == name,
        find_child(cs, name) < 0 ==> forall|i: int|
            0 <= i < cs.len() ==> (#[trigger] cs[i]).name() != name,
        find_child(cs, name) >= 0 ==> forall|i: int|
            0 <= i < find_child(cs, name) ==> (#[trigger] cs[i]).name() != name,
    decreases cs.len(),
{
    if cs.len() > 0 && cs[0].name() != name {
        lemma_find_child(cs.skip(1), name);
        if find_child(cs, name) < 0 {
            assert forall|i: int| 0 <= i < cs.len() implies (#[trigger] cs[i]).name() != name by {
                if i >= 1 {
                    assert(cs.skip(1)[i - 1] == cs[i]);
                }
            }
        } else {
            let f = find_child(cs, name);
            assert(cs.skip(1)[f - 1] == cs[f]);
            assert forall|i: int| 0 <= i < f implies (#[trigger] cs[i]).name() != name by {
                if i >= 1 {
                    assert(cs.skip(1)[i - 1] == cs[i]);
                }
            }
        }
    }
}

/// Insertion into a name-sorted children sequence: before the first greater
/// name, replacing an equal name in place.
pub open spec fn insert_child_spec(cs: Seq<ObjectV>, c: ObjectV) -> Seq<ObjectV>
    decreases cs.len(),
{
    if cs.len() == 0 {
        seq![c]
    } else if lex_lt(c.name(), cs[0].name()) {
        seq![c] + cs
    } else if c.name() == cs[0].name() {
        seq![c] + cs.skip(1)
    } else {
        seq![cs[0]] + insert_child_spec(cs.skip(1), c)
    }
}

/// Every member of an insertion result is the inserted object or a member of
/// the original sequence.
pub proof fn lemma_insert_members(cs: Seq<ObjectV>, c: ObjectV)
    ensures
        insert_child_spec(cs, c).len() >= 1,
        insert_child_spec(cs, c).len() <= cs.len() + 1,
        forall|j: int|
            0 <= j < insert_child_spec(cs, c).len() ==> (#[trigger] insert_child_spec(cs, c)[j]) == c
                || exists|i: int| 0 <= i < cs.len() && insert_child_spec(cs, c)[j] == #[trigger] cs[i],
    decreases cs.len(),
{
    let out = insert_child_spec(cs, c);
    if cs.len() == 0 {
    } else if lex_lt(c.name(), cs[0].name()) {
        assert forall|j: int| 0 <= j < out.len() implies (#[trigger] out[j]) == c || exists|i: int|
            0 <= i < cs.len() && out[j] == #[trigger] cs[i] by {
            if j > 0 {
                assert(out[j] == cs[j - 1]);
            }
        }
    } else if c.name() == cs[0].name() {
        assert forall|j: int| 0 <= j < out.len() implies (#[trigger] out[j]) == c || exists|i: int|
            0 <= i < cs.len() && out[j] == #[trigger] cs[i] by {
            if j > 0 {
                assert(out[j] == cs.skip(1)[j - 1]);
                assert(out[j] == cs[j]);
            }
        }
    } else {
        lemma_insert_members(cs.skip(1), c);
        let rec = insert_child_spec(cs.skip(1), c);
        assert forall|j: int| 0 <= j < out.len() implies (#[trigger] out[j]) == c || exists|i: int|
            0 <= i < cs.len() && out[j] == #[trigger] cs[i] by {
            if j == 0 {
                assert(out[0] == cs[0]);
            } else {
                assert(out[j] == rec[j - 1]);
                if rec[j - 1] == c {
                } else {
                    let i = choose|i: int| 0 <= i < cs.skip(1).len() && rec[j - 1] == #[trigger] cs.skip(
                        1,
                    )[i];
                    assert(cs.skip(1)[i] == cs[i + 1]);
                    assert(out[j] == cs[i + 1]);
                }
            }
        }
    }
}

/// Inserting a fitting child into a well-formed tree keeps it well-formed.
pub proof fn lemma_insert_child_wf(path: Seq<Seq<u8>>, cs: Seq<ObjectV>, c: ObjectV)
    requires
        (ObjectV::Tree { path, children: cs }).wf(),
        c.wf(),
        c.path().len() == path.len() + 1,
        c.path().drop_last() == path,
        valid_name(c.name()),
    ensures
        (ObjectV::Tree { path, children: insert_child_spec(cs, c) }).wf(),
    decreases cs.len(),
{
    let t = ObjectV::Tree { path, children: cs };
    lemma_wf_tree(t, path, cs);
    let out = insert_child_spec(cs, c);
    if cs.len() == 0 {
        lemma_wf_tree_intro(path, out);
    } else if lex_lt(c.name(), cs[0].name()) {
        assert(forall|j: int| 1 <= j < out.len() ==> #[trigger] out[j] == cs[j - 1]);
        assert forall|a: int, b: int| 0 <= a < b < out.len() implies lex_lt(
            (#[trigger] out[a]).name(),
            (#[trigger] out[b]).name(),
        ) by {
            if a == 0 {
                if b > 1 {
                    lemma_lex_transitive(c.name(), cs[0].name(), cs[b - 1].name());
                }
            }
        }
        lemma_wf_tree_intro(path, out);
    } else if c.name() == cs[0].name() {
        assert(forall|j: int| 1 <= j < out.len() ==> #[trigger] out[j] == cs[j]);
        assert forall|a: int, b: int| 0 <= a < b < out.len() implies lex_lt(
            (#[trigger] out[a]).name(),
            (#[trigger] out[b]).name(),
        ) by {
            if a == 0 {
                assert(out[b] == cs[b]);
                assert(lex_lt(cs[0].name(), cs[b].name()));
            }
        }
        lemma_wf_tree_intro(path, out);
    } else {
        lemma_lex_trichotomy(c.name(), cs[0].name());
        assert(lex_lt(cs[0].name(), c.name()));
        let tail = cs.skip(1);
        assert(forall|i: int| 0 <= i < tail.len() ==> #[trigger] tail[i] == cs[i + 1]);
        lemma_wf_tree_intro(path, tail);
        lemma_insert_child_wf(path, tail, c);
        let rec = insert_child_spec(tail, c);
        lemma_wf_tree(ObjectV::Tree { path, children: rec }, path, rec);
        lemma_insert_members(tail, c);
        assert(forall|j: int| 1 <= j < out.len() ==> #[trigger] out[j] == rec[j - 1]);
        assert forall|a: int, b: int| 0 <= a < b < out.len() implies lex_lt(
            (#[trigger] out[a]).name(),
            (#[trigger] out[b]).name(),
        ) by {
            if a == 0 {
                if rec[b - 1] == c {
                    assert(lex_lt(cs[0].name(), c.name()));
                } else {
                    let i = choose|i: int| 0 <= i < tail.len() && rec[b - 1] == #[trigger] tail[i];
                    assert(tail[i] == cs[i + 1]);
                    lemma_lex_transitive(cs[0].name(), cs[1].name(), cs[i + 1].name());
                    if i == 0 {
                        assert(lex_lt(cs[0].name(), cs[1].name()));
                    } else {
                        assert(lex_lt(cs[1].name(), cs[i + 1].name()));
                        lemma_lex_transitive(cs[0].name(), cs[1].name(), cs[i + 1].name());
                    }
                    assert(lex_lt(cs[0].name(), rec[b - 1].name()));
                }
            }
        }
        lemma_wf_tree_intro(path, out);
    }
}

/// The converse of `lemma_wf_tree`: the four child conditions make the tree
/// well-formed.
pub proof fn lemma_wf_tree_intro(path: Seq<Seq<u8>>, children: Seq<ObjectV>)
    requires
        forall|i: int| 0 <= i < children.len() ==> (#[trigger] children[i]).wf(),
        forall|i: int|
            0 <= i < children.len() ==> (#[trigger] children[i]).path().len() == path.len() + 1
                && children[i].path().drop_last() == path,
        forall|i: int| 0 <= i < children.len() ==> valid_name((#[trigger] children[i]).name()),
        forall|i: int, j: int|
            0 <= i < j < children.len() ==> lex_lt(
                (#[trigger] children[i]).name(),
                (#[trigger] children[j]).name(),
            ),
    ensures
        (ObjectV::Tree { path, children }).wf(),
{
    let t = ObjectV::Tree { path, children };
    match t {
        ObjectV::Tree { path: p2, children: c2 } => {
            assert(p2 == path);
            assert(c2 == children);
        },
        _ => {
            assert(false);
        },
    }
}

/// Where the insertion lands: before the first name not below the new one,
/// replacing it if the names are equal.
pub proof fn lemma_insert_spec_position(cs: Seq<ObjectV>, c: ObjectV, k: int)
    requires
        0 <= k <= cs.len(),
        forall|j: int| 0 <= j < k ==> lex_lt((#[trigger] cs[j]).name(), c.name()),
        k < cs.len() ==> !lex_lt(cs[k].name(), c.name()),
    ensures
        k < cs.len() && cs[k].name() == c.name() ==> insert_child_spec(cs, c) == cs.take(k)
            + seq![c] + cs.skip(k + 1),
        !(k < cs.len() && cs[k].name() == c.name()) ==> insert_child_spec(cs, c) == cs.take(k)
            + seq![c] + cs.skip(k),
    decreases k,
{
    if k == 0 {
        if cs.len() == 0 {
            assert(insert_child_spec(cs, c) =~= cs.take(0) + seq![c] + cs.skip(0));
        } else if cs[0].name() == c.name() {
            assert(insert_child_spec(cs, c) =~= cs.take(0) + seq![c] + cs.skip(1));
        } else {
            lemma_lex_trichotomy(c.name(), cs[0].name());
            assert(lex_lt(c.name(), cs[0].name()));
            assert(insert_child_spec(cs, c) =~= cs.take(0) + seq![c] + cs.skip(0));
        }
    } else {
        assert(lex_lt(cs[0].name(), c.name()));
        lemma_lex_asymmetric(cs[0].name(), c.name());
        lemma_lex_irreflexive(c.name());
        assert(cs[0].name() != c.name()) by {
            if cs[0].name() == c.name() {
                assert(lex_lt(c.name(), c.name()));
            }
        }
        let tail = cs.skip(1);
        assert(forall|i: int| 0 <= i < tail.len() ==> #[trigger] tail[i] == cs[i + 1]);
        lemma_insert_spec_position(tail, c, k - 1);
        assert(insert_child_spec(cs, c) == seq![cs[0]] + insert_child_spec(tail, c));
        if k < cs.len() && cs[k].name() == c.name() {
            assert(tail[k - 1].name() == c.name());
            assert(insert_child_spec(cs, c) =~= cs.take(k) + seq![c] + cs.skip(k + 1)) by {
                assert(insert_child_spec(tail, c) == tail.take(k - 1) + seq![c] + tail.skip(k));
                assert(forall|i: int|
                    0 <= i < tail.take(k - 1).len() ==> #[trigger] tail.take(k - 1)[i] == cs[i
                        + 1]);
                assert(forall|i: int|
                    0 <= i < tail.skip(k).len() ==> #[trigger] tail.skip(k)[i] == cs[i + k + 1]);
            }
        } else {
            assert(insert_child_spec(cs, c) =~= cs.take(k) + seq![c] + cs.skip(k)) by {
                assert(insert_child_spec(tail, c) == tail.take(k - 1) + seq![c] + tail.skip(k - 1));
                assert(forall|i: int|
                    0 <= i < tail.take(k - 1).len() ==> #[trigger] tail.take(k - 1)[i] == cs[i
                        + 1]);
                assert(forall|i: int|
                    0 <= i < tail.skip(k - 1).len() ==> #[trigger] tail.skip(k - 1)[i] == cs[i
                        + k]);
            }
        }
    }
}

/// The nesting depth of an object: a blob is one level, a tree one more
/// than its deepest child.
pub open spec fn depth(o: ObjectV) -> nat
    decreases o, 11int,
{
    match o {
        ObjectV::Blob { .. } => 1,
        ObjectV::Tree { children, .. } => 1 + depth_list(children),
    }
}

pub open spec fn depth_list(cs: Seq<ObjectV>) -> nat
    decreases cs, 12int,
{
    if cs.len() == 0 {
        0
    } else {
        let d1 = depth_list(cs.drop_last());
        let d2 = depth(cs.last());
        if d1 >= d2 {
            d1
        } else {
            d2
        }
    }
}

pub proof fn lemma_depth_list(cs: Seq<ObjectV>)
    ensures
        forall|i: int| 0 <= i < cs.len() ==> depth(#[trigger] cs[i]) <= depth_list(cs),
    decreases cs.len(),
{
    if cs.len() > 0 {
        lemma_depth_list(cs.drop_last());
        assert forall|i: int| 0 <= i < cs.len() implies depth(#[trigger] cs[i]) <= depth_list(
            cs,
        ) by {
            if i < cs.len() - 1 {
                assert(cs.drop_last()[i] == cs[i]);
                assert(depth(cs.drop_last()[i]) <= depth_list(cs.drop_last()));
            } else {
                assert(cs[i] == cs.last());
            }
        }
    }
}

/// An object is at least one level deep.
pub proof fn lemma_depth_positive(o: ObjectV)
    ensures
        depth(o) >= 1,
{
    match o {
        ObjectV::Blob { .. } => {},
        ObjectV::Tree { .. } => {},
    }
}

/// The store holds this object's bytes and, below a tree, every child's.
pub open spec fn graph_stored(m: Map<Seq<u8>, Seq<u8>>, o: ObjectV) -> bool
    decreases o, 11int,
{
    &&& m.dom().contains(o.hash_of())
    &&& crate::io::unzlib_of(m[o.hash_of()]) == Some(o.canon())
    &&& match o {
        ObjectV::Tree { children, .. } => forall|i: int|
            0 <= i < children.len() ==> graph_stored(m, #[trigger] children[i]),
        ObjectV::Blob { .. } => true,
    }
}

/// Unpacks `graph_stored` over a tree's children.
pub proof fn lemma_graph_stored_parts(m: Map<Seq<u8>, Seq<u8>>, o: ObjectV)
    requires
        graph_stored(m, o),
    ensures
        m.dom().contains(o.hash_of()),
        crate::io::unzlib_of(m[o.hash_of()]) == Some(o.canon()),
        forall|i: int|
            0 <= i < o.children().len() ==> graph_stored(m, #[trigger] o.children()[i]),
{
    match o {
        ObjectV::Tree { path: p2, children: c2 } => {
            assert(o.children() == c2);
            assert(forall|i: int| 0 <= i < c2.len() ==> graph_stored(m, #[trigger] c2[i]));
        },
        ObjectV::Blob { .. } => {
            assert(o.children() =~= Seq::<ObjectV>::empty());
        },
    }
}

/// A space-separated decomposition with space-free leading fields is unique.
pub proof fn lemma_fields_unique(x: Seq<u8>, r1: Seq<u8>, y: Seq<u8>, r2: Seq<u8>)
    requires
        x + seq![32u8] + r1 == y + seq![32u8] + r2,
        !contains_byte(x, 32),
        !contains_byte(y, 32),
    ensures
        x == y,
        r1 == r2,
{
    let lhs = x + seq![32u8] + r1;
    let rhs = y + seq![32u8] + r2;
    if x.len() < y.len() {
        assert(lhs[x.len() as int] == 32);
        assert(rhs[x.len() as int] == y[x.len() as int]);
        assert(false);
    } else if y.len() < x.len() {
        assert(rhs[y.len() as int] == 32);
        assert(lhs[y.len() as int] == x[y.len() as int]);
        assert(false);
    }
    assert(x =~= y) by {
        assert(forall|i: int| 0 <= i < x.len() ==> lhs[i] == #[trigger] x[i]);
        assert(forall|i: int| 0 <= i < y.len() ==> rhs[i] == #[trigger] y[i]);
    }
    assert(r1 =~= r2) by {
        assert(lhs.len() == x.len() + 1 + r1.len());
        assert(rhs.len() == y.len() + 1 + r2.len());
        assert(r1.len() == r2.len());
        assert forall|i: int| 0 <= i < r1.len() implies r1[i] == r2[i] by {
            assert(lhs[x.len() + 1 + i] == r1[i]);
            assert(rhs[y.len() + 1 + i] == r2[i]);
        }
    }
}

/// The kind tokens hold no space and differ from one another.
pub proof fn lemma_token_plain()
    ensures
        !contains_byte(blob_token(), 32),
        !contains_byte(tree_token(), 32),
        blob_token() != tree_token(),
{
    assert forall|i: int| 0 <= i < blob_token().len() implies blob_token()[i] != 32 by {
        if i == 0 {
        } else if i == 1 {
        } else if i == 2 {
        }
    }
    assert forall|i: int| 0 <= i < tree_token().len() implies tree_token()[i] != 32 by {
        if i == 0 {
        } else if i == 1 {
        } else if i == 2 {
        }
    }
    assert(blob_token()[0] != tree_token()[0]);
}

/// A listing line parses back to exactly the fields it was printed from.
pub proof fn lemma_line_parse(c: ObjectV, a: Seq<u8>, b: Seq<u8>, nm: Seq<u8>)
    requires
        valid_name(c.name()),
        c.line_of() == a + seq![32u8] + b + seq![32u8] + nm,
        !contains_byte(a, 32),
        !contains_byte(b, 32),
    ensures
        a == c.kind_token(),
        b == c.hash_of(),
        nm == c.name(),
{
    lemma_token_plain();
    lemma_hex_bytes_plain(crate::io::sha1_of(c.canon()));
    assert(!contains_byte(c.kind_token(), 32)) by {
        match c {
            ObjectV::Blob { .. } => {},
            ObjectV::Tree { .. } => {},
        }
    }
    assert(!contains_byte(c.hash_of(), 32));
    assert(c.line_of() =~= c.kind_token() + seq![32u8] + (c.hash_of() + seq![32u8] + c.name()));
    assert(a + seq![32u8] + b + seq![32u8] + nm =~= a + seq![32u8] + (b + seq![32u8] + nm));
    lemma_fields_unique(a, b + seq![32u8] + nm, c.kind_token(), c.hash_of() + seq![32u8] + c.name());
    lemma_fields_unique(b, nm, c.hash_of(), c.name());
}

/// Whether `c` is the object itself or lies anywhere below it.
pub open spec fn in_graph(o: ObjectV, c: ObjectV) -> bool
    decreases o, 13int,
{
    ||| c == o
    ||| match o {
        ObjectV::Tree { children, .. } => exists|i: int|
            0 <= i < children.len() && in_graph(#[trigger] children[i], c),
        ObjectV::Blob { .. } => false,
    }
}

/// Whatever the store already holds under a hash of this graph is that
/// object's own content: no collision against the store.
pub open spec fn compatible(m: Map<Seq<u8>, Seq<u8>>, o: ObjectV) -> bool {
    forall|c: ObjectV|
        #[trigger] in_graph(o, c) ==> (m.dom().contains(c.hash_of())
            ==> crate::io::unzlib_of(m[c.hash_of()]) == Some(c.canon()))
}

/// No two objects of the graph share a hash without sharing content: no
/// collision inside the graph itself.
pub open spec fn graph_consistent(o: ObjectV) -> bool {
    forall|c1: ObjectV, c2: ObjectV|
        #[trigger] in_graph(o, c1) && #[trigger] in_graph(o, c2) && c1.hash_of() == c2.hash_of()
            ==> c1.canon() == c2.canon()
}

/// A child's graph lies inside its parent's.
pub proof fn lemma_in_graph_child(o: ObjectV, i: int)
    requires
        o is Tree,
        0 <= i < o.children().len(),
    ensures
        forall|c: ObjectV|
            #[trigger] in_graph(o.children()[i], c) ==> in_graph(o, c),
{
    match o {
        ObjectV::Tree { path: p2, children: c2 } => {
            assert(o.children() == c2);
            assert forall|c: ObjectV| #[trigger] in_graph(c2[i], c) implies in_graph(o, c) by {
                assert(0 <= i < c2.len() && in_graph(c2[i], c));
            }
        },
        _ => {
            assert(false);
        },
    }
}

/// Every key a write records is the hash of something in the graph.
pub proof fn lemma_graph_map_keys(o: ObjectV)
    ensures
        forall|k: Seq<u8>|
            #[trigger] graph_map(o).dom().contains(k) ==> exists|c: ObjectV|
                in_graph(o, c) && c.hash_of() == k,
    decreases o, 14int,
{
    match o {
        ObjectV::Blob { .. } => {
            assert forall|k: Seq<u8>| #[trigger] graph_map(o).dom().contains(k) implies exists|
                c: ObjectV,
            | in_graph(o, c) && c.hash_of() == k by {
                assert(in_graph(o, o) && o.hash_of() == k);
            }
        },
        ObjectV::Tree { path: p2, children: c2 } => {
            lemma_graph_map_children_keys(c2);
            assert forall|k: Seq<u8>| #[trigger] graph_map(o).dom().contains(k) implies exists|
                c: ObjectV,
            | in_graph(o, c) && c.hash_of() == k by {
                if k == o.hash_of() && !graph_children(c2).dom().contains(k) {
                    assert(in_graph(o, o) && o.hash_of() == k);
                } else {
                    assert(graph_children(c2).dom().contains(k));
                    let (i, c) = choose|i: int, c: ObjectV|
                        0 <= i < c2.len() && #[trigger] in_graph(c2[i], c) && c.hash_of() == k;
                    assert(in_graph(o, c));
                }
            }
        },
    }
}

pub proof fn lemma_graph_map_children_keys(cs: Seq<ObjectV>)
    ensures
        forall|k: Seq<u8>|
            #[trigger] graph_children(cs).dom().contains(k) ==> exists|i: int, c: ObjectV|
                0 <= i < cs.len() && #[trigger] in_graph(cs[i], c) && c.hash_of() == k,
    decreases cs, 15int,
{
    if cs.len() > 0 {
        lemma_graph_map_children_keys(cs.drop_last());
        lemma_graph_map_keys(cs.last());
        let d = cs.drop_last();
        assert(forall|i: int| 0 <= i < d.len() ==> #[trigger] d[i] == cs[i]);
        assert forall|k: Seq<u8>| #[trigger] graph_children(cs).dom().contains(k) implies exists|
            i: int,
            c: ObjectV,
        | 0 <= i < cs.len() && #[trigger] in_graph(cs[i], c) && c.hash_of() == k by {
            if graph_children(d).dom().contains(k) {
                let (i, c) = choose|i: int, c: ObjectV|
                    0 <= i < d.len() && #[trigger] in_graph(d[i], c) && c.hash_of() == k;
                assert(0 <= i < cs.len() && in_graph(cs[i], c) && c.hash_of() == k);
            } else {
                assert(graph_map(cs.last()).dom().contains(k));
                let c = choose|c: ObjectV| in_graph(cs.last(), c) && c.hash_of() == k;
                assert(in_graph(cs[cs.len() - 1], c));
            }
        }
    }
}

/// `graph_stored` survives any extension of the store that keeps the
/// existing entries.
pub proof fn lemma_graph_stored_mono(
    m: Map<Seq<u8>, Seq<u8>>,
    m2: Map<Seq<u8>, Seq<u8>>,
    o: ObjectV,
)
    requires
        graph_stored(m, o),
        forall|k: Seq<u8>|
            #[trigger] m.dom().contains(k) ==> m2.dom().contains(k) && m2[k] == m[k],
    ensures
        graph_stored(m2, o),
    decreases o, 14int,
{
    match o {
        ObjectV::Blob { .. } => {},
        ObjectV::Tree { path: p2, children: c2 } => {
            assert(forall|i: int| 0 <= i < c2.len() ==> graph_stored(m, #[trigger] c2[i]));
            assert forall|i: int| 0 <= i < c2.len() implies graph_stored(m2, #[trigger] c2[i]) by {
                lemma_graph_stored_mono(m, m2, c2[i]);
            }
        },
    }
}

/// A stored graph stores each of its members.
pub proof fn lemma_graph_stored_in(m: Map<Seq<u8>, Seq<u8>>, o: ObjectV, c: ObjectV)
    requires
        graph_stored(m, o),
        in_graph(o, c),
    ensures
        m.dom().contains(c.hash_of()),
        crate::io::unzlib_of(m[c.hash_of()]) == Some(c.canon()),
    decreases o, 14int,
{
    if c == o {
        lemma_graph_stored_parts(m, o);
    } else {
        match o {
            ObjectV::Tree { path: p2, children: c2 } => {
                let i = choose|i: int| 0 <= i < c2.len() && in_graph(#[trigger] c2[i], c);
                assert(graph_stored(m, c2[i]));
                lemma_graph_stored_in(m, c2[i], c);
            },
            _ => {
                assert(false);
            },
        }
    }
}

/// An object the store can rehydrate under a hash within a depth bound: it
/// is well-formed, its whole graph is stored, the hash and kind are its own.
pub open spec fn rehydratable(
    m: Map<Seq<u8>, Seq<u8>>,
    o: ObjectV,
    h: Seq<u8>,
    want_tree: bool,
    fuel: nat,
) -> bool {
    &&& o.wf()
    &&& graph_stored(m, o)
    &&& h == o.hash_of()
    &&& (want_tree <==> o is Tree)
    &&& depth(o) <= fuel
}

/// The converse of `lemma_graph_stored_parts`, for a tree.
pub proof fn lemma_graph_stored_intro(
    m: Map<Seq<u8>, Seq<u8>>,
    t: ObjectV,
    path: Seq<Seq<u8>>,
    children: Seq<ObjectV>,
)
    requires
        t == (ObjectV::Tree { path, children }),
        m.dom().contains(t.hash_of()),
        crate::io::unzlib_of(m[t.hash_of()]) == Some(t.canon()),
        forall|i: int| 0 <= i < children.len() ==> graph_stored(m, #[trigger] children[i]),
    ensures
        graph_stored(m, t),
{
    match t {
        ObjectV::Tree { path: p2, children: c2 } => {
            assert(c2 == children);
            assert(forall|i: int| 0 <= i < c2.len() ==> graph_stored(m, #[trigger] c2[i]));
        },
        _ => {
            assert(false);
        },
    }
}

/// Everything rehydration needs of a well-formed tree whose graph the store
/// holds: the stored content is its canonical listing, which splits back
/// into exactly the lines its children print.
pub proof fn lemma_rehydratable_tree(m: Map<Seq<u8>, Seq<u8>>, o: ObjectV, content: Seq<u8>)
    requires
        o.wf(),
        o is Tree,
        graph_stored(m, o),
        crate::io::unzlib_of(m[o.hash_of()]) == Some(content),
    ensures
        content == o.canon(),
        content.len() == 0 <==> o.children().len() == 0,
        content.len() > 0 ==> crate::byteseq::split_seq(content, 10) == lines_of(o.children()),
        lines_of(o.children()).len() == o.children().len(),
        forall|k: int|
            0 <= k < o.children().len() ==> #[trigger] lines_of(o.children())[k]
                == o.children()[k].line_of(),
        forall|k: int| 0 <= k < o.children().len() ==> (#[trigger] o.children()[k]).wf(),
        forall|k: int|
            0 <= k < o.children().len() ==> valid_name((#[trigger] o.children()[k]).name()),
        forall|k: int|
            0 <= k < o.children().len() ==> graph_stored(m, #[trigger] o.children()[k]),
        forall|a: int, b: int|
            0 <= a < b < o.children().len() ==> lex_lt(
                (#[trigger] o.children()[a]).name(),
                (#[trigger] o.children()[b]).name(),
            ),
        forall|k: int|
            0 <= k < o.children().len() ==> depth(#[trigger] o.children()[k]) + 1 <= depth(o),
{
    lemma_graph_stored_parts(m, o);
    match o {
        ObjectV::Tree { path: p2, children: c2 } => {
            assert(o.children() == c2);
            lemma_wf_tree(o, p2, c2);
            lemma_lines_of(c2);
            lemma_depth_list(c2);
            assert(depth(o) == 1 + depth_list(c2));
            assert(o.canon() == join_seq(lines_of(c2), 10));
            if c2.len() == 0 {
                assert(lines_of(c2) =~= Seq::<Seq<u8>>::empty());
                assert(o.canon() =~= Seq::<u8>::empty());
            } else {
                assert forall|k: int|
                    0 <= k < lines_of(c2).len() implies !contains_byte(
                    #[trigger] lines_of(c2)[k],
                    10,
                ) by {
                    lemma_line_newline_free(c2[k]);
                }
                crate::byteseq::lemma_split_join(lines_of(c2), 10);
                assert(o.canon().len() > 0) by {
                    let parts = lines_of(c2);
                    assert(parts[0] == c2[0].line_of());
                    assert(c2[0].line_of().len() >= c2[0].kind_token().len() + 1) by {
                        assert(c2[0].line_of() == c2[0].kind_token() + seq![32u8] + c2[0].hash_of()
                            + seq![32u8] + c2[0].name());
                    }
                    assert(c2[0].kind_token().len() == 4) by {
                        match c2[0] {
                            ObjectV::Blob { .. } => {},
                            ObjectV::Tree { .. } => {},
                        }
                    }
                    if parts.len() == 1 {
                        assert(join_seq(parts, 10) == parts[0]);
                    } else {
                        assert(join_seq(parts, 10) == parts[0] + seq![10u8] + join_seq(
                            parts.skip(1),
                            10,
                        ));
                    }
                }
            }
        },
        _ => {
            assert(false);
        },
    }
}

/// A chain of single-child trees from `p` down to `target`, ending in `n`.
pub open spec fn chain_spec(p: Seq<Seq<u8>>, target: Seq<Seq<u8>>, n: ObjectV) -> ObjectV
    decreases target.len() - p.len(),
{
    if p.len() >= target.len() {
        n
    } else {
        ObjectV::Tree {
            path: p,
            children: seq![chain_spec(p.push(target[p.len() as int]), target, n)],
        }
    }
}

/// The structural replace: the node at `target` under `o` becomes `n`; a
/// missing branch is created, and every other branch is left untouched.
pub open spec fn replace_spec(o: ObjectV, target: Seq<Seq<u8>>, n: ObjectV) -> ObjectV
    decreases o, 9int,
{
    if o.path() == target {
        n
    } else {
        match o {
            ObjectV::Blob { path, .. } => chain_spec(path, target, n),
            ObjectV::Tree { path, children } => {
                let nm = target[path.len() as int];
                let idx = find_child(children, nm);
                if 0 <= idx && idx < children.len() {
                    ObjectV::Tree {
                        path,
                        children: children.update(idx, replace_spec(children[idx], target, n)),
                    }
                } else {
                    ObjectV::Tree {
                        path,
                        children: insert_child_spec(children, chain_spec(path.push(nm), target, n)),
                    }
                }
            },
        }
    }
}

/// The chain is well-formed and rooted at `p`.
pub proof fn lemma_chain_wf(p: Seq<Seq<u8>>, target: Seq<Seq<u8>>, n: ObjectV)
    requires
        n.wf(),
        n.path() == target,
        crate::path::path_prefix(p, target),
        forall|i: int| p.len() <= i < target.len() ==> valid_name(#[trigger] target[i]),
    ensures
        chain_spec(p, target, n).wf(),
        chain_spec(p, target, n).path() == p || p.len() >= target.len(),
        p.len() >= target.len() ==> chain_spec(p, target, n) == n,
    decreases target.len() - p.len(),
{
    if p.len() >= target.len() {
    } else {
        let nm = target[p.len() as int];
        let p2 = p.push(nm);
        assert(crate::path::path_prefix(p2, target)) by {
            assert(forall|i: int| 0 <= i < p2.len() ==> target[i] == #[trigger] p2[i]);
        }
        lemma_chain_wf(p2, target, n);
        let child = chain_spec(p2, target, n);
        assert(child.path() == p2) by {
            if p2.len() >= target.len() {
                assert(p2.len() == target.len());
                assert(p2 =~= target);
            }
        }
        let cs = seq![child];
        assert(child.path().drop_last() =~= p);
        lemma_wf_tree_intro(p, cs);
    }
}

/// A structural replace keeps the tree well-formed and keeps its root path.
pub proof fn lemma_replace_wf(o: ObjectV, target: Seq<Seq<u8>>, n: ObjectV)
    requires
        o.wf(),
        n.wf(),
        n.path() == target,
        crate::path::path_prefix(o.path(), target),
        forall|i: int| o.path().len() <= i < target.len() ==> valid_name(#[trigger] target[i]),
    ensures
        replace_spec(o, target, n).wf(),
        replace_spec(o, target, n).path() == o.path(),
    decreases o, 10int,
{
    if o.path() == target {
    } else {
        assert(o.path().len() < target.len()) by {
            if o.path().len() == target.len() {
                assert(o.path() =~= target);
            }
        }
        match o {
            ObjectV::Blob { path, .. } => {
                lemma_chain_wf(path, target, n);
            },
            ObjectV::Tree { path, children } => {
                lemma_wf_tree(o, path, children);
                let nm = target[path.len() as int];
                let idx = find_child(children, nm);
                lemma_find_child(children, nm);
                if 0 <= idx && idx < children.len() {
                    let old_child = children[idx];
                    assert(crate::path::path_prefix(old_child.path(), target)) by {
                        assert(old_child.path().len() == path.len() + 1);
                        assert(old_child.path().drop_last() == path);
                        assert(old_child.name() == nm);
                        assert(forall|i: int|
                            0 <= i < old_child.path().len() - 1 ==> #[trigger] old_child.path()[i]
                                == old_child.path().drop_last()[i]);
                        assert(old_child.path()[path.len() as int] == old_child.name());
                        assert(forall|i: int|
                            0 <= i < old_child.path().len() ==> target[i] == #[trigger] old_child.path()[i]);
                    }
                    lemma_replace_wf(old_child, target, n);
                    let newc = replace_spec(old_child, target, n);
                    let cs2 = children.update(idx, newc);
                    assert forall|i: int| 0 <= i < cs2.len() implies (#[trigger] cs2[i]).wf()
                        && cs2[i].path().len() == path.len() + 1 && cs2[i].path().drop_last()
                        == path && valid_name(cs2[i].name()) by {
                        if i != idx {
                            assert(cs2[i] == children[i]);
                        }
                    }
                    assert forall|i: int, j: int| 0 <= i < j < cs2.len() implies lex_lt(
                        (#[trigger] cs2[i]).name(),
                        (#[trigger] cs2[j]).name(),
                    ) by {
                        assert(cs2[i].name() == children[i].name());
                        assert(cs2[j].name() == children[j].name());
                    }
                    lemma_wf_tree_intro(path, cs2);
                } else {
                    let p2 = path.push(nm);
                    assert(crate::path::path_prefix(p2, target)) by {
                        assert(forall|i: int| 0 <= i < p2.len() ==> target[i] == #[trigger] p2[i]);
                    }
                    lemma_chain_wf(p2, target, n);
                    let c = chain_spec(p2, target, n);
                    assert(c.path() == p2);
                    assert(c.path().drop_last() =~= path);
                    lemma_insert_child_wf(path, children, c);
                }
            },
        }
    }
}

/// The stored entries a write of this object records: hash to compressed
/// canonical content, for the object and everything below it. A parent is
/// written after its children, and a hash already present is left alone, so
/// the right-hand (earlier) side of each union wins.
pub open spec fn graph_map(o: ObjectV) -> Map<Seq<u8>, Seq<u8>>
    decreases o, 5int,
{
    match o {
        ObjectV::Blob { .. } => Map::<Seq<u8>, Seq<u8>>::empty().insert(
            o.hash_of(),
            zlib_of(o.canon()),
        ),
        ObjectV::Tree { children, .. } => Map::<Seq<u8>, Seq<u8>>::empty().insert(
            o.hash_of(),
            zlib_of(o.canon()),
        ).union_prefer_right(graph_children(children)),
    }
}

pub open spec fn graph_children(cs: Seq<ObjectV>) -> Map<Seq<u8>, Seq<u8>>
    decreases cs, 6int,
{
    if cs.len() == 0 {
        Map::<Seq<u8>, Seq<u8>>::empty()
    } else {
        graph_map(cs.last()).union_prefer_right(graph_children(cs.drop_last()))
    }
}

/// The hashes of an object and everything below it, parent first.
pub open spec fn all_hashes(o: ObjectV) -> Seq<Seq<u8>>
    decreases o, 7int,
{
    match o {
        ObjectV::Blob { .. } => seq![o.hash_of()],
        ObjectV::Tree { children, .. } => seq![o.hash_of()] + all_hashes_list(children),
    }
}

pub open spec fn all_hashes_list(cs: Seq<ObjectV>) -> Seq<Seq<u8>>
    decreases cs, 8int,
{
    if cs.len() == 0 {
        Seq::<Seq<u8>>::empty()
    } else {
        all_hashes_list(cs.drop_last()) + all_hashes(cs.last())
    }
}

/// Every name in a scanned subtree fits the wire format.
pub open spec fn fs_names_ok(e: FsEntryV) -> bool
    decreases e, 1int,
{
    match e {
        FsEntryV::File { .. } => true,
        FsEntryV::Dir { entries } => forall|i: int|
            0 <= i < entries.len() ==> valid_name((#[trigger] entries[i]).name) && fs_names_ok(
                entries[i].entry,
            ),
    }
}

/// Unpacks name-validity of a scanned directory.
pub proof fn lemma_fs_names_ok_dir(t: FsEntryV, entries: Seq<FsChildV>)
    requires
        fs_names_ok(t),
        t == (FsEntryV::Dir { entries }),
    ensures
        forall|i: int|
            0 <= i < entries.len() ==> valid_name((#[trigger] entries[i]).name) && fs_names_ok(
                entries[i].entry,
            ),
{
    match t {
        FsEntryV::Dir { entries: e2 } => {
            assert(e2 == entries);
            assert(forall|i: int|
                0 <= i < e2.len() ==> valid_name((#[trigger] e2[i]).name) && fs_names_ok(
                    e2[i].entry,
                ));
        },
        _ => {
            assert(false);
        },
    }
}

/// What a scan builds: a blob for a file, and for a directory a tree holding
/// the non-ignored children, each built recursively, sorted by name.
pub open spec fn build_spec(p: Seq<Seq<u8>>, e: FsEntryV, ig: Seq<Seq<u8>>) -> ObjectV
    decreases e, 1int,
{
    match e {
        FsEntryV::File { data } => ObjectV::Blob { path: p, data },
        FsEntryV::Dir { entries } => ObjectV::Tree {
            path: p,
            children: build_children(p, entries, ig),
        },
    }
}

pub open spec fn build_children(p: Seq<Seq<u8>>, es: Seq<FsChildV>, ig: Seq<Seq<u8>>) -> Seq<
    ObjectV,
>
    decreases es, 2int,
{
    if es.len() == 0 {
        Seq::<ObjectV>::empty()
    } else {
        let acc = build_children(p, es.drop_last(), ig);
        let c = es.last();
        if crate::ignore::is_ignored(ig, p.push(c.name)) {
            acc
        } else {
            insert_child_spec(acc, build_spec(p.push(c.name), c.entry, ig))
        }
    }
}

/// The kind tag of a stored object, as the wire format names it.
#[derive(Debug)]
pub enum ObjectType {
    Blob,
    Tree,
}

/// The wire-format kind tokens, written out, equal their byte spellings.
pub proof fn lemma_token_bytes()
    ensures
        vstd::utf8::encode_utf8("tree"@) == tree_token(),
        vstd::utf8::encode_utf8("blob"@) == blob_token(),
{
    reveal_strlit("tree");
    reveal_strlit("blob");
    assert(vstd::utf8::is_ascii_chars("tree"@)) by {
        assert forall|i: int| 0 <= i < "tree"@.len() implies '\0' <= #[trigger] "tree"@[i]
            <= '\u{7f}' by {
            if i == 0 {
            } else if i == 1 {
            } else if i == 2 {
            }
        }
    }
    assert(vstd::utf8::is_ascii_chars("blob"@)) by {
        assert forall|i: int| 0 <= i < "blob"@.len() implies '\0' <= #[trigger] "blob"@[i]
            <= '\u{7f}' by {
            if i == 0 {
            } else if i == 1 {
            } else if i == 2 {
            }
        }
    }
    vstd::utf8::is_ascii_chars_encode_utf8("tree"@);
    vstd::utf8::is_ascii_chars_encode_utf8("blob"@);
    assert(vstd::utf8::encode_utf8("tree"@) =~= tree_token());
    assert(vstd::utf8::encode_utf8("blob"@) =~= blob_token());
}

/// The `"tree"` token as bytes.
fn tree_token_vec() -> (r: Vec<u8>)
    ensures
        r@ == tree_token(),
{
    let mut v: Vec<u8> = Vec::new();
    v.push(116);
    v.push(114);
    v.push(101);
    v.push(101);
    proof {
        assert(v@ =~= tree_token());
    }
    v
}

/// The `"blob"` token as bytes.
fn blob_token_vec() -> (r: Vec<u8>)
    ensures
        r@ == blob_token(),
{
    let mut v: Vec<u8> = Vec::new();
    v.push(98);
    v.push(108);
    v.push(111);
    v.push(98);
    proof {
        assert(v@ =~= blob_token());
    }
    v
}

impl ObjectType {
    /// Reads a kind token; anything but `"blob"` or `"tree"` is malformed.
    pub fn from_str(string: &str) -> (r: Result<ObjectType, Error>)
        ensures
            (r matches Ok(t) && t is Tree) <==> string@ == "tree"@,
            (r matches Ok(t) && t is Blob) <==> string@ == "blob"@,
            r is Err ==> r == Err::<ObjectType, Error>(Error::FormatError),
    {
        let bytes = string.as_bytes_vec();
        proof {
            lemma_token_bytes();
            vstd::utf8::encode_utf8_decode_utf8(string@);
            vstd::utf8::encode_utf8_decode_utf8("tree"@);
            vstd::utf8::encode_utf8_decode_utf8("blob"@);
        }
        match Self::from_bytes(&bytes) {
            Some(t) => Ok(t),
            None => Err(Error::FormatError),
        }
    }

    /// Reads a kind token from raw bytes.
    fn from_bytes(b: &Vec<u8>) -> (r: Option<ObjectType>)
        ensures
            (r matches Some(t) && t is Tree) <==> b@ == tree_token(),
            (r matches Some(t) && t is Blob) <==> b@ == blob_token(),
    {
        if bytes_eq(b, &tree_token_vec()) {
            Some(ObjectType::Tree)
        } else if bytes_eq(b, &blob_token_vec()) {
            Some(ObjectType::Blob)
        } else {
            None
        }
    }
}

/// The store's objects: blobs carry exact file bytes, trees own their
/// children exclusively; the source is an acyclic filesystem tree, so no
/// sharing and no cycles arise.
#[derive(Debug)]
pub enum Object {
    Blob { path: RepoPath, data: Vec<u8> },
    Tree { path: RepoPath, children: Vec<Object> },
}

/// The views of a sequence of objects, element-wise.
pub open spec fn objs_view(cs: Seq<Object>) -> Seq<ObjectV>
    decreases cs, 2int,
{
    if cs.len() == 0 {
        Seq::<ObjectV>::empty()
    } else {
        objs_view(cs.drop_last()).push(obj_view(cs.last()))
    }
}

pub open spec fn obj_view(o: Object) -> ObjectV
    decreases o, 1int,
{
    match o {
        Object::Blob { path, data } => ObjectV::Blob { path: path@, data: data@ },
        Object::Tree { path, children } => ObjectV::Tree {
            path: path@,
            children: objs_view(children@),
        },
    }
}

impl View for Object {
    type V = ObjectV;

    open spec fn view(&self) -> ObjectV {
        obj_view(*self)
    }
}

pub proof fn lemma_objs_view(cs: Seq<Object>)
    ensures
        objs_view(cs).len() == cs.len(),
        forall|i: int| 0 <= i < cs.len() ==> #[trigger] objs_view(cs)[i] == obj_view(cs[i]),
    decreases cs.len(),
{
    if cs.len() > 0 {
        lemma_objs_view(cs.drop_last());
        assert(forall|i: int| 0 <= i < cs.len() - 1 ==> #[trigger] cs.drop_last()[i] == cs[i]);
    }
}

impl Object {
    /// The path the object was recorded under.
    pub fn path(&self) -> (r: RepoPath)
        ensures
            r@ == self@.path(),
    {
        match self {
            Object::Blob { path, .. } => path.duplicate(),
            Object::Tree { path, .. } => path.duplicate(),
        }
    }

    /// The raw bytes of a blob, or the canonical listing of a tree: the
    /// canonical content that identity is computed over.
    #[verifier::loop_isolation(false)]
    pub fn data(&self) -> (r: Vec<u8>)
        requires
            self@.wf(),
        ensures
            r@ == self@.canon(),
        decreases *self, 2int,
    {
        match self {
            Object::Blob { data, .. } => copy_bytes(data),
            Object::Tree { path, children } => {
                let mut out: Vec<u8> = Vec::new();
                let mut i: usize = 0;
                proof {
                    lemma_objs_view(children@);
                    assert(objs_view(children@.take(0)) =~= Seq::<ObjectV>::empty());
                }
                while i < children.len()
                    invariant
                        i <= children.len(),
                        out@ == join_seq(lines_of(objs_view(children@.take(i as int))), 10),
                    decreases children.len() - i,
                {
                    let child = &children[i];
                    proof {
                        assert(decreases_to!(*self => *child));
                        let cs = objs_view(children@);
                        lemma_wf_tree(self@, path@, cs);
                        assert(cs[i as int].wf());
                        assert(cs[i as int].path().len() == path@.len() + 1);
                        assert(cs[i as int] == obj_view(children@[i as int]));
                    }
                    let line = child.listing_line();
                    let ghost before = lines_of(objs_view(children@.take(i as int)));
                    proof {
                        lemma_lines_of(objs_view(children@.take(i as int)));
                        crate::byteseq::lemma_join_push(before, child@.line_of(), 10);
                        assert(objs_view(children@.take(i + 1)) =~= objs_view(
                            children@.take(i as int),
                        ).push(obj_view(children@[i as int]))) by {
                            lemma_objs_view(children@.take(i + 1));
                            lemma_objs_view(children@.take(i as int));
                            assert(forall|k: int|
                                0 <= k < i ==> #[trigger] children@.take(i + 1)[k]
                                    == children@.take(i as int)[k]);
                        }
                        assert(lines_of(objs_view(children@.take(i + 1))) =~= before.push(
                            child@.line_of(),
                        )) by {
                            let grown = objs_view(children@.take(i + 1));
                            assert(grown.drop_last() =~= objs_view(children@.take(i as int)));
                        }
                    }
                    if i > 0 {
                        out.push(10);
                    } else {
                        proof {
                            assert(before =~= Seq::<Seq<u8>>::empty());
                        }
                    }
                    let mut j: usize = 0;
                    while j < line.len()
                        invariant
                            j <= line.len(),
                            i > 0 ==> out@ == join_seq(before, 10) + seq![10u8] + line@.take(
                                j as int,
                            ),
                            i == 0 ==> out@ == line@.take(j as int) && before
                                == Seq::<Seq<u8>>::empty(),
                        decreases line.len() - j,
                    {
                        out.push(line[j]);
                        proof {
                            assert(line@.take(j as int).push(line@[j as int]) =~= line@.take(
                                j + 1,
                            ));
                        }
                        j = j + 1;
                    }
                    proof {
                        assert(line@.take(j as int) =~= line@);
                    }
                    i = i + 1;
                }
                proof {
                    assert(children@.take(i as int) =~= children@);
                }
                out
            },
        }
    }

    /// The listing line this object contributes to its parent tree.
    fn listing_line(&self) -> (r: Vec<u8>)
        requires
            self@.wf(),
            self@.path().len() > 0,
        ensures
            r@ == self@.line_of(),
        decreases *self, 4int,
    {
        let mut line: Vec<u8> = match self {
            Object::Blob { .. } => {
                let mut v: Vec<u8> = Vec::new();
                v.push(98);
                v.push(108);
                v.push(111);
                v.push(98);
                proof {
                    assert(v@ =~= blob_token());
                }
                v
            },
            Object::Tree { .. } => {
                let mut v: Vec<u8> = Vec::new();
                v.push(116);
                v.push(114);
                v.push(101);
                v.push(101);
                proof {
                    assert(v@ =~= tree_token());
                }
                v
            },
        };
        line.push(32);
        let h = self.hash();
        let mut k: usize = 0;
        while k < h.len()
            invariant
                k <= h.len(),
                line@ == self@.kind_token() + seq![32u8] + h@.take(k as int),
            decreases h.len() - k,
        {
            line.push(h[k]);
            proof {
                assert(h@.take(k as int).push(h@[k as int]) =~= h@.take(k + 1));
                assert((self@.kind_token() + seq![32u8] + h@.take(k as int)).push(h@[k as int])
                    =~= self@.kind_token() + seq![32u8] + h@.take(k + 1));
            }
            k = k + 1;
        }
        proof {
            assert(h@.take(k as int) =~= h@);
        }
        line.push(32);
        let name = match self {
            Object::Blob { path, .. } => path.file_name(),
            Object::Tree { path, .. } => path.file_name(),
        };
        let mut k2: usize = 0;
        while k2 < name.len()
            invariant
                k2 <= name.len(),
                line@ == self@.kind_token() + seq![32u8] + self@.hash_of() + seq![32u8]
                    + name@.take(k2 as int),
            decreases name.len() - k2,
        {
            line.push(name[k2]);
            proof {
                assert(name@.take(k2 as int).push(name@[k2 as int]) =~= name@.take(k2 + 1));
                assert((self@.kind_token() + seq![32u8] + self@.hash_of() + seq![32u8]
                    + name@.take(k2 as int)).push(name@[k2 as int]) =~= self@.kind_token()
                    + seq![32u8] + self@.hash_of() + seq![32u8] + name@.take(k2 + 1));
            }
            k2 = k2 + 1;
        }
        proof {
            assert(name@.take(k2 as int) =~= name@);
            assert(line@ =~= self@.line_of());
        }
        line
    }

    /// The compressed storage form: identity never depends on it.
    pub fn compress(&self) -> (r: Vec<u8>)
        requires
            self@.wf(),
        ensures
            r@ == zlib_of(self@.canon()),
            crate::io::unzlib_of(r@) == Some(self@.canon()),
    {
        let data = self.data();
        compress_by_zlib(data.as_slice())
    }

    /// The hex digest that names this object in the store.
    pub fn hash(&self) -> (r: Vec<u8>)
        requires
            self@.wf(),
        ensures
            r@ == self@.hash_of(),
            r@.len() == 40,
        decreases *self, 3int,
    {
        let data = self.data();
        generate_hash(data.as_slice())
    }

    /// The path an object's bytes are recorded under, relative to the
    /// repository root: `.aequorea/objects/<hash>`.
    pub fn obj_recorded_path(hash: Vec<u8>) -> (r: RepoPath)
        ensures
            r@ == seq![
                crate::repo::store_dir_name(),
                crate::repo::objects_dir_name(),
                hash@,
            ],
    {
        let ghost h = hash@;
        let c0 = crate::repo::store_dir_component();
        let c1 = crate::repo::objects_dir_component();
        let ghost g0 = c0@;
        let ghost g1 = c1@;
        let mut components: Vec<Vec<u8>> = Vec::new();
        components.push(c0);
        components.push(c1);
        components.push(hash);
        let r = RepoPath::new(components);
        proof {
            assert(components@.len() == 3);
            assert(components@[0]@ == g0);
            assert(components@[1]@ == g1);
            assert(components@[2]@ == h);
            assert(r@ =~= seq![
                crate::repo::store_dir_name(),
                crate::repo::objects_dir_name(),
                h,
            ]);
        }
        r
    }

    /// Persists the object and, first, all its descendants: a stored tree
    /// never points at a missing child. Rewriting an existing hash is a no-op,
    /// so the whole map equation prefers what the store already held.
    #[verifier::rlimit(30)]
    #[verifier::loop_isolation(false)]
    pub fn write(&self, repo: &mut Repo)
        requires
            self@.wf(),
            old(repo).inv(),
        ensures
            final(repo).inv(),
            final(repo).objects_map() == graph_map(self@).union_prefer_right(
                old(repo).objects_map(),
            ),
            final(repo).index_view() == old(repo).index_view(),
            stored_ok(old(repo).objects_map()) ==> stored_ok(final(repo).objects_map()),
            (compatible(old(repo).objects_map(), self@) && graph_consistent(self@))
                ==> graph_stored(final(repo).objects_map(), self@),
        decreases *self, 6int,
    {
        match self {
            Object::Tree { path, children } => {
                let ghost old_map = old(repo).objects_map();
                proof {
                    lemma_objs_view(children@);
                    lemma_wf_tree(self@, path@, objs_view(children@));
                    assert(objs_view(children@.take(0)) =~= Seq::<ObjectV>::empty());
                    assert(graph_children(objs_view(children@.take(0))).union_prefer_right(old_map)
                        =~= old_map);
                }
                let mut i: usize = 0;
                while i < children.len()
                    invariant
                        i <= children.len(),
                        repo.inv(),
                        repo.objects_map() == graph_children(
                            objs_view(children@.take(i as int)),
                        ).union_prefer_right(old_map),
                        repo.index_view() == old(repo).index_view(),
                        stored_ok(old_map) ==> stored_ok(repo.objects_map()),
                        (compatible(old_map, self@) && graph_consistent(self@)) ==> forall|j: int|
                            0 <= j < i ==> graph_stored(
                                repo.objects_map(),
                                #[trigger] objs_view(children@)[j],
                            ),
                    decreases children.len() - i,
                {
                    let child = &children[i];
                    proof {
                        assert(decreases_to!(*self => *child));
                        assert(objs_view(children@)[i as int].wf());
                        assert(objs_view(children@)[i as int] == obj_view(children@[i as int]));
                    }
                    let ghost mid = repo.objects_map();
                    child.write(repo);
                    proof {
                        let prev = objs_view(children@.take(i as int));
                        let now = objs_view(children@.take(i + 1));
                        assert(now =~= prev.push(obj_view(children@[i as int]))) by {
                            lemma_objs_view(children@.take(i + 1));
                            lemma_objs_view(children@.take(i as int));
                            assert(forall|k: int|
                                0 <= k < i ==> #[trigger] children@.take(i + 1)[k]
                                    == children@.take(i as int)[k]);
                        }
                        assert(now.drop_last() =~= prev);
                        assert(graph_children(now) == graph_map(child@).union_prefer_right(
                            graph_children(prev),
                        ));
                        crate::repo::lemma_upr_assoc(graph_map(child@), graph_children(prev), old_map);
                        if compatible(old_map, self@) && graph_consistent(self@) {
                            let cs = objs_view(children@);
                            lemma_in_graph_child(self@, i as int);
                            assert(graph_consistent(child@)) by {
                                assert forall|c1: ObjectV, c2: ObjectV|
                                    #[trigger] in_graph(child@, c1) && #[trigger] in_graph(
                                    child@,
                                    c2,
                                ) && c1.hash_of() == c2.hash_of() implies c1.canon()
                                    == c2.canon() by {
                                    assert(in_graph(self@, c1));
                                    assert(in_graph(self@, c2));
                                }
                            }
                            assert(compatible(mid, child@)) by {
                                assert forall|c: ObjectV|
                                    #[trigger] in_graph(child@, c) && mid.dom().contains(
                                    c.hash_of(),
                                ) implies crate::io::unzlib_of(mid[c.hash_of()]) == Some(
                                    c.canon(),
                                ) by {
                                    assert(in_graph(self@, c));
                                    let k = c.hash_of();
                                    if mid.dom().contains(k) {
                                        if old_map.dom().contains(k) {
                                            assert(mid[k] == old_map[k]);
                                        } else {
                                            assert(graph_children(prev).dom().contains(k));
                                            lemma_graph_map_children_keys(prev);
                                            let (j, d) = choose|j: int, d: ObjectV|
                                                0 <= j < prev.len() && #[trigger] in_graph(
                                                    prev[j],
                                                    d,
                                                ) && d.hash_of() == k;
                                            lemma_objs_view(children@.take(i as int));
                                            assert(prev.len() == i as int);
                                            assert(prev[j] == cs[j]) by {
                                                assert(children@.take(i as int)[j]
                                                    == children@[j]);
                                            }
                                            assert(graph_stored(mid, cs[j]));
                                            lemma_graph_stored_in(mid, cs[j], d);
                                            lemma_in_graph_child(self@, j);
                                            assert(in_graph(self@, d));
                                            assert(d.canon() == c.canon());
                                        }
                                    }
                                }
                            }
                            assert(graph_stored(repo.objects_map(), child@));
                            assert forall|j: int| 0 <= j < i + 1 implies graph_stored(
                                repo.objects_map(),
                                #[trigger] cs[j],
                            ) by {
                                if j < i {
                                    assert(graph_stored(mid, cs[j]));
                                    lemma_graph_stored_mono(mid, repo.objects_map(), cs[j]);
                                } else {
                                    assert(cs[j] == child@);
                                }
                            }
                        }
                    }
                    i = i + 1;
                }
                proof {
                    assert(children@.take(i as int) =~= children@);
                }
            },
            Object::Blob { .. } => {},
        }
        let ghost pre = repo.objects_map();
        let hash = self.hash();
        if !repo.contains(&hash) {
            let compressed = self.compress();
            proof {
                assert(crate::repo::consistent_entry(self@.hash_of(), zlib_of(self@.canon())));
                if stored_ok(pre) {
                    crate::repo::lemma_stored_ok_insert(
                        pre,
                        self@.hash_of(),
                        zlib_of(self@.canon()),
                    );
                }
            }
            repo.insert_object(hash, compressed);
        }
        proof {
            let single = Map::<Seq<u8>, Seq<u8>>::empty().insert(
                self@.hash_of(),
                zlib_of(self@.canon()),
            );
            assert(repo.objects_map() =~= single.union_prefer_right(pre));
            match *self {
                Object::Blob { .. } => {
                    assert(graph_map(self@) == single);
                },
                Object::Tree { path: ref p2, children: ref c2 } => {
                    assert(graph_map(self@) == single.union_prefer_right(
                        graph_children(objs_view(c2@)),
                    ));
                    crate::repo::lemma_upr_assoc(
                        single,
                        graph_children(objs_view(c2@)),
                        old(repo).objects_map(),
                    );
                },
            }
            if compatible(old(repo).objects_map(), self@) && graph_consistent(self@) {
                let m2 = repo.objects_map();
                let h = self@.hash_of();
                assert(m2.dom().contains(h));
                assert(in_graph(self@, self@));
                assert(crate::io::unzlib_of(m2[h]) == Some(self@.canon())) by {
                    if pre.dom().contains(h) {
                        assert(m2[h] == pre[h]);
                        match *self {
                            Object::Blob { .. } => {
                                assert(pre == old(repo).objects_map());
                            },
                            Object::Tree { path: ref p2, children: ref c2 } => {
                                let prev = objs_view(c2@);
                                if old(repo).objects_map().dom().contains(h) {
                                    assert(pre[h] == old(repo).objects_map()[h]);
                                } else {
                                    assert(graph_children(prev).dom().contains(h));
                                    lemma_graph_map_children_keys(prev);
                                    let (j, d) = choose|j: int, d: ObjectV|
                                        0 <= j < prev.len() && #[trigger] in_graph(prev[j], d)
                                            && d.hash_of() == h;
                                    assert(graph_stored(pre, prev[j]));
                                    lemma_graph_stored_in(pre, prev[j], d);
                                    lemma_in_graph_child(self@, j);
                                    assert(in_graph(self@, d));
                                    assert(d.canon() == self@.canon());
                                }
                            },
                        }
                    } else {
                        assert(m2[h] == zlib_of(self@.canon()));
                    }
                }
                match *self {
                    Object::Blob { .. } => {
                        assert(graph_stored(m2, self@));
                    },
                    Object::Tree { path: ref p2, children: ref c2 } => {
                        let prev = objs_view(c2@);
                        assert forall|j: int| 0 <= j < prev.len() implies graph_stored(
                            m2,
                            #[trigger] prev[j],
                        ) by {
                            assert(graph_stored(pre, prev[j]));
                            lemma_graph_stored_mono(pre, m2, prev[j]);
                        }
                        lemma_graph_stored_intro(m2, self@, p2@, prev);
                    },
                }
            }
        }
    }

    /// The hashes of the object and every object below it, parent first.
    #[verifier::loop_isolation(false)]
    pub fn all_contained_hash(&self) -> (r: Vec<Vec<u8>>)
        requires
            self@.wf(),
        ensures
            r@.len() == all_hashes(self@).len(),
            forall|k: int| 0 <= k < r@.len() ==> #[trigger] r@[k]@ == all_hashes(self@)[k],
        decreases *self, 8int,
    {
        let mut out: Vec<Vec<u8>> = Vec::new();
        out.push(self.hash());
        match self {
            Object::Blob { .. } => {
                proof {
                    assert(all_hashes(self@) =~= seq![self@.hash_of()]);
                }
                out
            },
            Object::Tree { path, children } => {
                proof {
                    lemma_objs_view(children@);
                    lemma_wf_tree(self@, path@, objs_view(children@));
                    assert(objs_view(children@.take(0)) =~= Seq::<ObjectV>::empty());
                    assert(all_hashes(self@) =~= seq![self@.hash_of()] + all_hashes_list(
                        objs_view(children@),
                    ));
                }
                let mut i: usize = 0;
                while i < children.len()
                    invariant
                        i <= children.len(),
                        out@.len() == 1 + all_hashes_list(objs_view(children@.take(i as int))).len(),
                        forall|k: int|
                            0 <= k < out@.len() ==> #[trigger] out@[k]@ == (seq![self@.hash_of()]
                                + all_hashes_list(objs_view(children@.take(i as int))))[k],
                    decreases children.len() - i,
                {
                    let child = &children[i];
                    proof {
                        assert(decreases_to!(*self => *child));
                        assert(objs_view(children@)[i as int].wf());
                        assert(objs_view(children@)[i as int] == obj_view(children@[i as int]));
                    }
                    let mut sub = child.all_contained_hash();
                    let ghost out_before = out@;
                    let ghost sub_view = sub@;
                    out.append(&mut sub);
                    proof {
                        let prev = objs_view(children@.take(i as int));
                        let now = objs_view(children@.take(i + 1));
                        assert(now =~= prev.push(obj_view(children@[i as int]))) by {
                            lemma_objs_view(children@.take(i + 1));
                            lemma_objs_view(children@.take(i as int));
                            assert(forall|k: int|
                                0 <= k < i ==> #[trigger] children@.take(i + 1)[k]
                                    == children@.take(i as int)[k]);
                        }
                        assert(now.drop_last() =~= prev);
                        assert(all_hashes_list(now) == all_hashes_list(prev) + all_hashes(
                            child@,
                        ));
                        assert(out@ == out_before + sub_view);
                    }
                    i = i + 1;
                }
                proof {
                    assert(children@.take(i as int) =~= children@);
                }
                out
            },
        }
    }

    /// The final path component, the display name.
    pub fn name_bytes(&self) -> (r: &Vec<u8>)
        requires
            self@.path().len() > 0,
        ensures
            r@ == self@.name(),
    {
        match self {
            Object::Blob { path, .. } => path.file_name(),
            Object::Tree { path, .. } => path.file_name(),
        }
    }

    /// Adds a child to a tree, keeping the listing sorted by name and
    /// replacing a child of the same name. A blob takes no children.
    #[verifier::loop_isolation(false)]
    pub fn insert_child(&mut self, child: Object) -> (r: Option<()>)
        requires
            old(self)@.wf(),
            child@.wf(),
            child@.path().len() > 0,
            old(self)@ is Tree ==> child@.path().len() == old(self)@.path().len() + 1
                && child@.path().drop_last() == old(self)@.path() && valid_name(child@.name()),
        ensures
            old(self)@ is Blob ==> r is None && *final(self) == *old(self),
            old(self)@ is Tree ==> r is Some && final(self)@ == (ObjectV::Tree {
                path: old(self)@.path(),
                children: insert_child_spec(old(self)@.children(), child@),
            }),
            old(self)@ is Tree ==> final(self)@.wf(),
    {
        let ghost cv = child@;
        match self {
            Object::Blob { .. } => None,
            Object::Tree { path, children } => {
                let ghost ocs = objs_view(children@);
                proof {
                    lemma_objs_view(children@);
                    lemma_wf_tree(old(self)@, path@, ocs);
                }
                let mut k: usize = 0;
                let mut found = false;
                while k < children.len() && !found
                    invariant
                        k <= children@.len(),
                        forall|j: int|
                            0 <= j < k ==> lex_lt((#[trigger] ocs[j]).name(), cv.name()),
                        found ==> k < children@.len() && !lex_lt(ocs[k as int].name(), cv.name()),
                    decreases children@.len() - k + (if found { 0int } else { 1int }),
                {
                    if lex_cmp_lt(children[k].name_bytes(), child.name_bytes()) {
                        k = k + 1;
                    } else {
                        found = true;
                    }
                }
                let mut same_name = false;
                if found {
                    if !lex_cmp_lt(child.name_bytes(), children[k].name_bytes()) {
                        same_name = true;
                        proof {
                            lemma_lex_trichotomy(cv.name(), ocs[k as int].name());
                        }
                    }
                }
                proof {
                    lemma_insert_spec_position(ocs, cv, k as int);
                    if found && !same_name {
                        lemma_lex_trichotomy(cv.name(), ocs[k as int].name());
                        lemma_lex_irreflexive(cv.name());
                    }
                }
                let ghost before = children@;
                if same_name {
                    let _ = children.remove(k);
                }
                children.insert(k, child);
                proof {
                    if same_name {
                        assert(children@ =~= before.take(k as int).push(child).add(
                            before.skip(k + 1),
                        ));
                    } else {
                        assert(children@ =~= before.take(k as int).push(child).add(
                            before.skip(k as int),
                        ));
                    }
                    lemma_objs_view(children@);
                    lemma_objs_view(before);
                    assert(objs_view(children@) =~= insert_child_spec(ocs, cv)) by {
                        if same_name {
                            assert(insert_child_spec(ocs, cv) == ocs.take(k as int) + seq![cv]
                                + ocs.skip(k + 1));
                            assert(forall|j: int|
                                0 <= j < ocs.take(k as int).len() ==> #[trigger] ocs.take(
                                    k as int,
                                )[j] == ocs[j]);
                        } else {
                            assert(insert_child_spec(ocs, cv) == ocs.take(k as int) + seq![cv]
                                + ocs.skip(k as int));
                        }
                    }
                    lemma_insert_child_wf(path@, ocs, cv);
                }
                Some(())
            },
        }
    }

    /// Builds the chain of single-child trees from `p` down to `target`.
    pub(crate) fn chain_build(p: RepoPath, target: &RepoPath, n: Object) -> (r: Object)
        requires
            n@.wf(),
            n@.path() == target@,
            crate::path::path_prefix(p@, target@),
            forall|i: int| p@.len() <= i < target@.len() ==> valid_name(#[trigger] target@[i]),
        ensures
            r@ == chain_spec(p@, target@, n@),
        decreases target@.len() - p@.len(),
    {
        if p.len() >= target.len() {
            proof {
                assert(p@ =~= target@);
            }
            n
        } else {
            let nm = copy_bytes(target.component(p.len()));
            let next = p.join(nm);
            proof {
                assert(crate::path::path_prefix(next@, target@)) by {
                    assert(forall|i: int|
                        0 <= i < next@.len() ==> target@[i] == #[trigger] next@[i]);
                }
            }
            let child = Self::chain_build(next, target, n);
            let mut children: Vec<Object> = Vec::new();
            children.push(child);
            let r = Object::Tree { path: p, children };
            proof {
                lemma_objs_view(children@);
                assert(objs_view(children@) =~= seq![obj_view(children@[0])]);
            }
            r
        }
    }

    /// Replaces the node at `target` inside this tree by `obj`, creating the
    /// branch where it is missing and leaving every sibling untouched; fails
    /// with `PathMismatch`, changing nothing, where `target` does not lie
    /// under this object.
    pub fn replace(&mut self, path: RepoPath, obj: Object) -> (r: Result<(), Error>)
        requires
            old(self)@.wf(),
            obj@.wf(),
            obj@.path() == path@,
            forall|i: int|
                old(self)@.path().len() <= i < path@.len() ==> valid_name(#[trigger] path@[i]),
        ensures
            (r matches Ok(())) ==> (crate::path::path_prefix(old(self)@.path(), path@)
                && final(self)@ == replace_spec(old(self)@, path@, obj@) && final(self)@.wf()
                && final(self)@.path() == old(self)@.path()),
            (r is Err) ==> (r == Err::<(), Error>(Error::PathMismatch)
                && !crate::path::path_prefix(old(self)@.path(), path@) && *final(self) == *old(
                self,
            )),
    {
        let own_path = self.path();
        if !path.starts_with(&own_path) {
            return Err(Error::PathMismatch);
        }
        let mut tmp = Object::Blob { path: RepoPath::root(), data: Vec::new() };
        core::mem::swap(self, &mut tmp);
        let replaced = Self::replace_inner(tmp, &path, obj);
        *self = replaced;
        Ok(())
    }

    /// The owned worker behind `replace`.
    #[verifier::rlimit(30)]
    #[verifier::loop_isolation(false)]
    fn replace_inner(o: Object, target: &RepoPath, n: Object) -> (r: Object)
        requires
            o@.wf(),
            n@.wf(),
            n@.path() == target@,
            crate::path::path_prefix(o@.path(), target@),
            forall|i: int| o@.path().len() <= i < target@.len() ==> valid_name(#[trigger] target@[i]),
        ensures
            r@ == replace_spec(o@, target@, n@),
            r@.wf(),
            r@.path() == o@.path(),
        decreases o,
    {
        proof {
            lemma_replace_wf(o@, target@, n@);
        }
        let own_len = match &o {
            Object::Blob { path, .. } => path.len(),
            Object::Tree { path, .. } => path.len(),
        };
        if own_len == target.len() {
            proof {
                assert(o@.path() =~= target@);
            }
            return n;
        }
        proof {
            assert(o@.path().len() < target@.len());
        }
        match o {
            Object::Blob { path, .. } => Self::chain_build(path, target, n),
            Object::Tree { path, mut children } => {
                let ghost o_snapshot = o;
                let ghost vec0 = children;
                let ghost ocs = objs_view(children@);
                proof {
                    lemma_objs_view(children@);
                    lemma_wf_tree(o@, path@, ocs);
                }
                let nm_ref = target.component(path.len());
                let ghost nm = target@[path@.len() as int];
                let mut i: usize = 0;
                let mut found = false;
                while i < children.len() && !found
                    invariant
                        i <= children@.len(),
                        children == vec0,
                        forall|j: int| 0 <= j < i ==> (#[trigger] ocs[j]).name() != nm,
                        found ==> i < children@.len() && ocs[i as int].name() == nm,
                    decreases children@.len() - i + (if found { 0int } else { 1int }),
                {
                    proof {
                        assert(ocs[i as int].path().len() == path@.len() + 1);
                        assert(ocs[i as int] == obj_view(children@[i as int]));
                    }
                    if bytes_eq(children[i].name_bytes(), nm_ref) {
                        found = true;
                    } else {
                        i = i + 1;
                    }
                }
                proof {
                    lemma_find_child(ocs, nm);
                }
                if found {
                    proof {
                        assert(find_child(ocs, nm) == i as int) by {
                            let f = find_child(ocs, nm);
                            if f < 0 {
                                assert(ocs[i as int].name() != nm);
                            } else if f < i as int {
                                assert(ocs[f].name() != nm);
                            } else if f > i as int {
                                assert(ocs[i as int].name() != nm);
                            }
                        }
                    }
                    let child = children.remove(i);
                    proof {
                        assert(child == vec0@[i as int]);
                        assert(decreases_to!(o_snapshot => child));
                        assert(obj_view(child) == ocs[i as int]);
                        assert(crate::path::path_prefix(child@.path(), target@)) by {
                            assert(child@.path().len() == path@.len() + 1);
                            assert(child@.path().drop_last() == path@);
                            assert(child@.name() == nm);
                            assert(forall|k: int|
                                0 <= k < child@.path().len() - 1 ==> #[trigger] child@.path()[k]
                                    == child@.path().drop_last()[k]);
                            assert(child@.path()[path@.len() as int] == child@.name());
                            assert(forall|k: int|
                                0 <= k < child@.path().len() ==> target@[k]
                                    == #[trigger] child@.path()[k]);
                        }
                    }
                    let newc = Self::replace_inner(child, target, n);
                    children.insert(i, newc);
                    let r = Object::Tree { path, children };
                    proof {
                        lemma_objs_view(children@);
                        assert(objs_view(children@) =~= ocs.update(
                            i as int,
                            replace_spec(ocs[i as int], target@, n@),
                        )) by {
                            assert(children@ =~= vec0@.update(i as int, newc));
                        }
                    }
                    r
                } else {
                    proof {
                        assert(i as int == children@.len());
                        assert(find_child(ocs, nm) < 0) by {
                            let f = find_child(ocs, nm);
                            if f >= 0 {
                                assert(ocs[f].name() != nm);
                            }
                        }
                    }
                    let chain = Self::chain_build(path.join(copy_bytes(nm_ref)), target, n);
                    proof {
                        assert(crate::path::path_prefix(path@.push(nm), target@)) by {
                            let p2 = path@.push(nm);
                            assert(forall|k: int|
                                0 <= k < p2.len() ==> target@[k] == #[trigger] p2[k]);
                        }
                        lemma_chain_wf(path@.push(nm), target@, n@);
                        assert(chain@.path().drop_last() =~= path@);
                    }
                    let mut t = Object::Tree { path, children };
                    let inserted = t.insert_child(chain);
                    proof {
                        assert(inserted is Some);
                    }
                    t
                }
            },
        }
    }

    /// Builds the object for a scanned subtree: file bytes become a blob; a
    /// directory becomes a tree of its children, skipping ignored paths,
    /// sorted by name whatever order the scan reported.
    #[verifier::loop_isolation(false)]
    pub fn from_path(path: RepoPath, entry: &FsEntry, ignore: &Ignore) -> (r: Object)
        requires
            fs_names_ok(entry@),
        ensures
            r@ == build_spec(path@, entry@, ignore@),
            r@.wf(),
            r@.path() == path@,
        decreases *entry,
    {
        match entry {
            FsEntry::File { data } => {
                let r = Object::Blob { path, data: copy_bytes(data) };
                r
            },
            FsEntry::Dir { entries } => {
                let ghost p = path@;
                let ghost ev = crate::entry::fs_children_view(entries@);
                proof {
                    crate::entry::lemma_fs_children_view(entries@);
                    lemma_fs_names_ok_dir(entry@, ev);
                }
                let path_copy = path.duplicate();
                let mut tree = Object::Tree { path, children: Vec::new() };
                proof {
                    lemma_objs_view(Seq::<Object>::empty());
                    assert(objs_view(Seq::<Object>::empty()) =~= Seq::<ObjectV>::empty());
                    assert(ev.take(0) =~= Seq::<FsChildV>::empty());
                    assert(build_children(p, ev.take(0), ignore@) =~= Seq::<ObjectV>::empty());
                    lemma_wf_tree_intro(p, Seq::<ObjectV>::empty());
                }
                let mut i: usize = 0;
                while i < entries.len()
                    invariant
                        i <= entries@.len(),
                        tree@ == (ObjectV::Tree {
                            path: p,
                            children: build_children(p, ev.take(i as int), ignore@),
                        }),
                        tree@.wf(),
                    decreases entries@.len() - i,
                {
                    let child_ref = &entries[i];
                    proof {
                        assert(crate::entry::fs_child_view(entries@[i as int]) == ev[i as int]);
                        assert(ev.take(i + 1).drop_last() =~= ev.take(i as int));
                        assert(ev.take(i + 1).last() == ev[i as int]);
                    }
                    let cp = path_copy.join(copy_bytes(&child_ref.name));
                    proof {
                        assert(cp@ =~= p.push(ev[i as int].name));
                    }
                    if !ignore.for_path(&cp) {
                        proof {
                            assert(decreases_to!(*entry => child_ref.entry));
                            assert(child_ref.entry@ == ev[i as int].entry);
                        }
                        let child = Self::from_path(cp, &child_ref.entry, ignore);
                        proof {
                            assert(child@.path().len() == p.len() + 1);
                            assert(child@.path().drop_last() =~= p);
                            assert(child@.name() == ev[i as int].name);
                            assert(valid_name(ev[i as int].name));
                        }
                        let res = tree.insert_child(child);
                        proof {
                            assert(res is Some);
                        }
                    }
                    i = i + 1;
                }
                proof {
                    assert(ev.take(i as int) =~= ev);
                }
                tree
            },
        }
    }

    /// Reconstructs an object from its stored, compressed bytes; a tree's
    /// children are rehydrated recursively by the hashes its listing names.
    /// On a consistent store the result reproduces the stored canonical
    /// content byte for byte, and so hashes back to the same name.
    pub fn from_compressed_obj(
        path: RepoPath,
        hash: &Vec<u8>,
        obj_type: ObjectType,
        repo: &Repo,
    ) -> (r: Result<Object, Error>)
        requires
            repo.inv(),
        ensures
            r matches Ok(o) ==> (o@.path() == path@ && o@.wf() && (obj_type is Tree <==> o@
                is Tree) && repo.objects_map().dom().contains(hash@) && (stored_ok(
                repo.objects_map(),
            ) ==> o@.canon() == unzlib_content(repo.objects_map()[hash@]) && o@.hash_of()
                == hash@)),
            !repo.objects_map().dom().contains(hash@) ==> r == Err::<Object, Error>(
                Error::NotFound,
            ),
            (repo.objects_map().dom().contains(hash@) && crate::io::unzlib_of(
                repo.objects_map()[hash@],
            ) is None) ==> r == Err::<Object, Error>(Error::CodecError),
            (obj_type is Blob && repo.objects_map().dom().contains(hash@)
                && crate::io::unzlib_of(repo.objects_map()[hash@]) is Some) ==> r is Ok,
            r == Err::<Object, Error>(Error::CodecError) ==> exists|h2: Seq<u8>|
                #[trigger] repo.objects_map().dom().contains(h2) && crate::io::unzlib_of(
                    repo.objects_map()[h2],
                ) is None,
            (r == Err::<Object, Error>(Error::NotFound) && repo.objects_map().dom().contains(
                hash@,
            )) ==> obj_type is Tree,
            r == Err::<Object, Error>(Error::FormatError) ==> obj_type is Tree,
            forall|o: ObjectV| #[trigger] rehydratable(
                repo.objects_map(),
                o,
                hash@,
                obj_type is Tree,
                repo.objects_list().len() as nat,
            ) ==> r is Ok,
    {
        let fuel = repo.entries().len();
        Self::rehydrate(path, hash, obj_type, repo, fuel)
    }

    /// The bounded worker behind `from_compressed_obj`: the chain of parent
    /// hashes in a consistent store is no longer than the store itself, so a
    /// deeper recursion means a malformed store, not a longer wait.
    #[verifier::rlimit(30)]
    #[verifier::loop_isolation(false)]
    fn rehydrate(
        path: RepoPath,
        hash: &Vec<u8>,
        obj_type: ObjectType,
        repo: &Repo,
        fuel: usize,
    ) -> (r: Result<Object, Error>)
        requires
            repo.inv(),
        ensures
            r matches Ok(o) ==> (o@.path() == path@ && o@.wf() && (obj_type is Tree <==> o@
                is Tree) && repo.objects_map().dom().contains(hash@) && (stored_ok(
                repo.objects_map(),
            ) ==> o@.canon() == unzlib_content(repo.objects_map()[hash@]) && o@.hash_of()
                == hash@)),
            !repo.objects_map().dom().contains(hash@) ==> r == Err::<Object, Error>(
                Error::NotFound,
            ),
            (repo.objects_map().dom().contains(hash@) && crate::io::unzlib_of(
                repo.objects_map()[hash@],
            ) is None) ==> r == Err::<Object, Error>(Error::CodecError),
            (obj_type is Blob && repo.objects_map().dom().contains(hash@)
                && crate::io::unzlib_of(repo.objects_map()[hash@]) is Some) ==> r is Ok,
            r == Err::<Object, Error>(Error::CodecError) ==> exists|h2: Seq<u8>|
                #[trigger] repo.objects_map().dom().contains(h2) && crate::io::unzlib_of(
                    repo.objects_map()[h2],
                ) is None,
            (r == Err::<Object, Error>(Error::NotFound) && repo.objects_map().dom().contains(
                hash@,
            )) ==> obj_type is Tree,
            r == Err::<Object, Error>(Error::FormatError) ==> obj_type is Tree,
            forall|o: ObjectV| #[trigger] rehydratable(
                repo.objects_map(),
                o,
                hash@,
                obj_type is Tree,
                fuel as nat,
            ) ==> r is Ok,
        decreases fuel,
    {
        let stored = match repo.get(hash) {
            Ok(v) => v,
            Err(e) => {
                proof {
                    assert forall|o: ObjectV|
                        #[trigger] rehydratable(
                            repo.objects_map(),
                            o,
                            hash@,
                            obj_type is Tree,
                            fuel as nat,
                        ) implies false by {
                        lemma_graph_stored_parts(repo.objects_map(), o);
                    }
                }
                return Err(e);
            },
        };
        let content = match crate::io::decompress_by_zlib(stored.as_slice()) {
            Some(v) => v,
            None => {
                proof {
                    assert(repo.objects_map().dom().contains(hash@));
                    assert(crate::io::unzlib_of(repo.objects_map()[hash@]) is None);
                    assert forall|o: ObjectV|
                        #[trigger] rehydratable(
                            repo.objects_map(),
                            o,
                            hash@,
                            obj_type is Tree,
                            fuel as nat,
                        ) implies false by {
                        lemma_graph_stored_parts(repo.objects_map(), o);
                    }
                }
                return Err(Error::CodecError);
            },
        };
        proof {
            if stored_ok(repo.objects_map()) {
                assert(crate::repo::consistent_entry(hash@, repo.objects_map()[hash@]));
                assert(content@ == unzlib_content(repo.objects_map()[hash@]));
                assert(hash_bytes_of(content@) == hash@);
            }
        }
        match obj_type {
            ObjectType::Blob => {
                let o = Object::Blob { path, data: content };
                proof {
                    assert(o@.canon() == content@);
                }
                Ok(o)
            },
            ObjectType::Tree => {
                let mut children: Vec<Object> = Vec::new();
                let ghost c = content@;
                let ghost tree_path = path@;
                if content.len() == 0 {
                    let o = Object::Tree { path, children };
                    proof {
                        lemma_objs_view(children@);
                        assert(objs_view(children@) =~= Seq::<ObjectV>::empty());
                        lemma_wf_tree_intro(tree_path, objs_view(children@));
                        assert(o@.canon() == join_seq(lines_of(objs_view(children@)), 10));
                        assert(o@.canon() =~= c);
                    }
                    return Ok(o);
                }
                if fuel == 0 {
                    proof {
                        assert forall|o: ObjectV|
                            #[trigger] rehydratable(
                                repo.objects_map(),
                                o,
                                hash@,
                                obj_type is Tree,
                                fuel as nat,
                            ) implies false by {
                            lemma_depth_positive(o);
                        }
                    }
                    return Err(Error::FormatError);
                }
                let lines = crate::byteseq::split_bytes(&content, 10);
                let ghost line_seq = crate::byteseq::split_seq(c, 10);
                proof {
                    crate::byteseq::lemma_split_len(c, 10);
                    crate::byteseq::lemma_join_split(c, 10);
                }
                let mut k: usize = 0;
                while k < lines.len()
                    invariant
                        k <= lines@.len(),
                        children@.len() == k,
                        forall|j: int|
                            0 <= j < k ==> (#[trigger] obj_view(children@[j])).wf()
                                && obj_view(children@[j]).path().len() == tree_path.len() + 1
                                && obj_view(children@[j]).path().drop_last() == tree_path
                                && valid_name(obj_view(children@[j]).name()),
                        forall|a: int, b: int|
                            0 <= a < b < k ==> lex_lt(
                                (#[trigger] obj_view(children@[a])).name(),
                                (#[trigger] obj_view(children@[b])).name(),
                            ),
                        stored_ok(repo.objects_map()) ==> forall|j: int|
                            0 <= j < k ==> (#[trigger] obj_view(children@[j])).line_of()
                                == line_seq[j],
                        forall|j: int|
                            0 <= j < k ==> exists|aa: Seq<u8>, bb: Seq<u8>|
                                line_seq[j] == aa + seq![32u8] + bb + seq![32u8]
                                    + (#[trigger] obj_view(children@[j])).name()
                                    && !contains_byte(aa, 32) && !contains_byte(bb, 32),
                    decreases lines@.len() - k,
                {
                    let line = &lines[k];
                    let (kind_b, hash_b, name_b) = match Self::split3(line) {
                        Some(t) => t,
                        None => {
                            proof {
                                assert forall|o: ObjectV|
                                    #[trigger] rehydratable(
                                        repo.objects_map(),
                                        o,
                                        hash@,
                                        obj_type is Tree,
                                        fuel as nat,
                                    ) implies false by {
                                let m = repo.objects_map();
                                lemma_graph_stored_parts(m, o);
                                assert(crate::io::unzlib_of(m[o.hash_of()]) == Some(c));
                                lemma_rehydratable_tree(m, o, c);
                                let ck = o.children()[k as int];
                                assert(line@ == line_seq[k as int]);
                                assert(line_seq[k as int] == ck.line_of());
                                    assert(ck.line_of() == ck.kind_token() + seq![32u8]
                                        + ck.hash_of() + seq![32u8] + ck.name());
                                    let i0 = ck.kind_token().len() as int;
                                    let j0 = ck.kind_token().len() + 1 + ck.hash_of().len() as int;
                                    assert(line@[i0] == 32);
                                    assert(line@[j0] == 32);
                                    assert(ck.name().len() > 0);
                                    assert(0 <= i0 < j0 < line@.len());
                                }
                            }
                            return Err(Error::FormatError);
                        },
                    };
                    let kind = match ObjectType::from_bytes(&kind_b) {
                        Some(t) => t,
                        None => {
                            proof {
                                assert forall|o: ObjectV|
                                    #[trigger] rehydratable(
                                        repo.objects_map(),
                                        o,
                                        hash@,
                                        obj_type is Tree,
                                        fuel as nat,
                                    ) implies false by {
                                let m = repo.objects_map();
                                lemma_graph_stored_parts(m, o);
                                assert(crate::io::unzlib_of(m[o.hash_of()]) == Some(c));
                                lemma_rehydratable_tree(m, o, c);
                                let ck = o.children()[k as int];
                                assert(line@ == line_seq[k as int]);
                                assert(line_seq[k as int] == ck.line_of());
                                    lemma_line_parse(ck, kind_b@, hash_b@, name_b@);
                                    lemma_token_plain();
                                    match ck {
                                        ObjectV::Blob { .. } => {},
                                        ObjectV::Tree { .. } => {},
                                    }
                                }
                            }
                            return Err(Error::FormatError);
                        },
                    };
                    if !Self::check_name(&name_b) {
                        proof {
                            assert forall|o: ObjectV|
                                #[trigger] rehydratable(
                                    repo.objects_map(),
                                    o,
                                    hash@,
                                    obj_type is Tree,
                                    fuel as nat,
                                ) implies false by {
                                let m = repo.objects_map();
                                lemma_graph_stored_parts(m, o);
                                assert(crate::io::unzlib_of(m[o.hash_of()]) == Some(c));
                                lemma_rehydratable_tree(m, o, c);
                                let ck = o.children()[k as int];
                                assert(line@ == line_seq[k as int]);
                                assert(line_seq[k as int] == ck.line_of());
                                lemma_line_parse(ck, kind_b@, hash_b@, name_b@);
                            }
                        }
                        return Err(Error::FormatError);
                    }
                    if children.len() > 0 {
                        let last_name = children[children.len() - 1].name_bytes();
                        if !lex_cmp_lt(last_name, &name_b) {
                            proof {
                                assert forall|o: ObjectV|
                                    #[trigger] rehydratable(
                                        repo.objects_map(),
                                        o,
                                        hash@,
                                        obj_type is Tree,
                                        fuel as nat,
                                    ) implies false by {
                                let m = repo.objects_map();
                                lemma_graph_stored_parts(m, o);
                                assert(crate::io::unzlib_of(m[o.hash_of()]) == Some(c));
                                lemma_rehydratable_tree(m, o, c);
                                let ck = o.children()[k as int];
                                assert(line@ == line_seq[k as int]);
                                assert(line_seq[k as int] == ck.line_of());
                                    lemma_line_parse(ck, kind_b@, hash_b@, name_b@);
                                    let prev = obj_view(children@[k - 1]);
                                    let (aa, bb) = choose|aa: Seq<u8>, bb: Seq<u8>|
                                        line_seq[k - 1] == aa + seq![32u8] + bb + seq![32u8]
                                            + prev.name() && !contains_byte(aa, 32)
                                            && !contains_byte(bb, 32);
                                    let ckm1 = o.children()[k - 1];
                                    assert(line_seq[k - 1] == ckm1.line_of());
                                    lemma_line_parse(ckm1, aa, bb, prev.name());
                                    assert(lex_lt(ckm1.name(), ck.name()));
                                }
                            }
                            return Err(Error::FormatError);
                        }
                    }
                    let ghost kind_bv = kind_b@;
                    let ghost hash_bv = hash_b@;
                    let ghost name_bv = name_b@;
                    let child_path = path.join(name_b);
                    let child = match Self::rehydrate(child_path, &hash_b, kind, repo, fuel - 1) {
                        Ok(o) => o,
                        Err(e) => {
                            proof {
                                assert forall|o: ObjectV|
                                    #[trigger] rehydratable(
                                        repo.objects_map(),
                                        o,
                                        hash@,
                                        obj_type is Tree,
                                        fuel as nat,
                                    ) implies false by {
                                let m = repo.objects_map();
                                lemma_graph_stored_parts(m, o);
                                assert(crate::io::unzlib_of(m[o.hash_of()]) == Some(c));
                                lemma_rehydratable_tree(m, o, c);
                                let ck = o.children()[k as int];
                                assert(line@ == line_seq[k as int]);
                                assert(line_seq[k as int] == ck.line_of());
                                    lemma_line_parse(ck, kind_bv, hash_bv, name_bv);
                                    lemma_token_plain();
                                    match ck {
                                        ObjectV::Blob { .. } => {},
                                        ObjectV::Tree { .. } => {},
                                    }
                                    assert(rehydratable(
                                        repo.objects_map(),
                                        ck,
                                        hash_bv,
                                        kind is Tree,
                                        (fuel - 1) as nat,
                                    ));
                                }
                            }
                            return Err(e);
                        },
                    };
                    proof {
                        assert(child@.name() == name_bv);
                        assert(child@.path().drop_last() =~= tree_path);
                        if stored_ok(repo.objects_map()) {
                            assert(child@.hash_of() == hash_bv);
                            assert(child@.kind_token() == kind_bv);
                            assert(child@.line_of() == line_seq[k as int]) by {
                                assert(line@ == kind_bv + seq![32u8] + hash_bv + seq![32u8]
                                    + name_bv);
                                assert(line@ == line_seq[k as int]);
                            }
                        }
                    }
                    let ghost before = children@;
                    children.push(child);
                    proof {
                        assert(forall|j: int|
                            0 <= j < before.len() ==> children@[j] == #[trigger] before[j]);
                        assert(children@[k as int] == child);
                        assert(line_seq[k as int] == kind_bv + seq![32u8] + hash_bv + seq![32u8]
                            + obj_view(children@[k as int]).name() && !contains_byte(kind_bv, 32)
                            && !contains_byte(hash_bv, 32)) by {
                            assert(line@ == line_seq[k as int]);
                            assert(obj_view(children@[k as int]).name() == name_bv);
                        }
                        assert forall|a: int, b: int|
                            0 <= a < b < children@.len() implies lex_lt(
                            (#[trigger] obj_view(children@[a])).name(),
                            (#[trigger] obj_view(children@[b])).name(),
                        ) by {
                            if b == k as int && k > 0 {
                                assert(obj_view(children@[b]).name() == name_bv);
                                if a < k - 1 {
                                    lemma_lex_transitive(
                                        obj_view(children@[a]).name(),
                                        obj_view(children@[k - 1]).name(),
                                        name_bv,
                                    );
                                }
                            }
                        }
                    }
                    k = k + 1;
                }
                let o = Object::Tree { path, children };
                proof {
                    lemma_objs_view(children@);
                    let cs = objs_view(children@);
                    assert forall|j: int| 0 <= j < cs.len() implies (#[trigger] cs[j]).wf()
                        && cs[j].path().len() == tree_path.len() + 1 && cs[j].path().drop_last()
                        == tree_path && valid_name(cs[j].name()) by {
                        assert(cs[j] == obj_view(children@[j]));
                    }
                    assert forall|a: int, b: int| 0 <= a < b < cs.len() implies lex_lt(
                        (#[trigger] cs[a]).name(),
                        (#[trigger] cs[b]).name(),
                    ) by {
                        assert(cs[a] == obj_view(children@[a]));
                        assert(cs[b] == obj_view(children@[b]));
                    }
                    lemma_wf_tree_intro(tree_path, cs);
                    if stored_ok(repo.objects_map()) {
                        lemma_lines_of(cs);
                        assert(lines_of(cs) =~= line_seq) by {
                            assert(forall|j: int|
                                0 <= j < cs.len() ==> #[trigger] lines_of(cs)[j] == cs[j].line_of());
                            assert(forall|j: int|
                                0 <= j < cs.len() ==> (#[trigger] cs[j]).line_of() == obj_view(
                                    children@[j],
                                ).line_of());
                        }
                        assert(o@.canon() == join_seq(lines_of(cs), 10));
                        assert(o@.canon() == c);
                    }
                }
                Ok(o)
            },
        }
    }

    /// Checks that a name fits the wire format.
    fn check_name(v: &Vec<u8>) -> (r: bool)
        ensures
            r == valid_name(v@),
    {
        if v.len() == 0 {
            return false;
        }
        let mut i: usize = 0;
        while i < v.len()
            invariant
                i <= v@.len(),
                forall|j: int| 0 <= j < i ==> v@[j] != 32 && v@[j] != 10,
            decreases v.len() - i,
        {
            let b = v[i];
            if b == 32 || b == 10 {
                return false;
            }
            i = i + 1;
        }
        true
    }

    /// Splits a listing line into its three fields: kind, hash, and name,
    /// which keeps everything after the second space.
    fn split3(line: &Vec<u8>) -> (r: Option<(Vec<u8>, Vec<u8>, Vec<u8>)>)
        ensures
            r matches Some(p) ==> (line@ == p.0@ + seq![32u8] + p.1@ + seq![32u8] + p.2@
                && !contains_byte(p.0@, 32) && !contains_byte(p.1@, 32)),
            r is None ==> !(exists|i: int, j: int|
                0 <= i < j < line@.len() && line@[i] == 32 && line@[j] == 32),
    {
        let mut first: usize = 0;
        while first < line.len() && line[first] != 32
            invariant
                first <= line@.len(),
                forall|j: int| 0 <= j < first ==> line@[j] != 32,
            decreases line@.len() - first,
        {
            first = first + 1;
        }
        if first == line.len() {
            return None;
        }
        let mut second: usize = first + 1;
        while second < line.len() && line[second] != 32
            invariant
                first < second <= line@.len(),
                forall|j: int| first < j < second ==> line@[j] != 32,
            decreases line@.len() - second,
        {
            second = second + 1;
        }
        if second == line.len() {
            proof {
                assert forall|i: int, j: int|
                    0 <= i < j < line@.len() implies !(line@[i] == 32 && line@[j] == 32) by {
                    if line@[i] == 32 && line@[j] == 32 {
                        assert(i == first as int || i > first as int);
                        assert(j > first as int);
                    }
                }
            }
            return None;
        }
        let mut a: Vec<u8> = Vec::new();
        let mut i: usize = 0;
        while i < first
            invariant
                i <= first,
                first < line@.len(),
                a@ == line@.take(i as int),
            decreases first - i,
        {
            a.push(line[i]);
            proof {
                assert(line@.take(i as int).push(line@[i as int]) =~= line@.take(i + 1));
            }
            i = i + 1;
        }
        let mut b: Vec<u8> = Vec::new();
        let mut j: usize = first + 1;
        while j < second
            invariant
                first < j <= second,
                second < line@.len(),
                b@ == line@.subrange(first + 1, j as int),
            decreases second - j,
        {
            b.push(line[j]);
            proof {
                assert(line@.subrange(first + 1, j as int).push(line@[j as int]) =~= line@.subrange(
                    first + 1,
                    j + 1,
                ));
            }
            j = j + 1;
        }
        let mut cpart: Vec<u8> = Vec::new();
        let mut m: usize = second + 1;
        while m < line.len()
            invariant
                second < m <= line@.len(),
                cpart@ == line@.subrange(second + 1, m as int),
            decreases line@.len() - m,
        {
            cpart.push(line[m]);
            proof {
                assert(line@.subrange(second + 1, m as int).push(line@[m as int])
                    =~= line@.subrange(second + 1, m + 1));
            }
            m = m + 1;
        }
        proof {
            assert(line@ =~= line@.take(first as int) + seq![32u8] + line@.subrange(
                first + 1,
                second as int,
            ) + seq![32u8] + line@.subrange(second + 1, line@.len() as int));
            assert forall|t: int|
                0 <= t < line@.take(first as int).len() implies #[trigger] line@.take(
                first as int,
            )[t] != 32 by {
                assert(line@.take(first as int)[t] == line@[t]);
            }
            assert forall|t: int|
                0 <= t < line@.subrange(first + 1, second as int).len()
                    implies #[trigger] line@.subrange(first + 1, second as int)[t] != 32 by {
                assert(line@.subrange(first + 1, second as int)[t] == line@[first + 1 + t]);
            }
        }
        Some((a, b, cpart))
    }

    /// The canonical content as text, where it is valid UTF-8.
    pub fn to_show(&self) -> (r: Option<String>)
        requires
            self@.wf(),
        ensures
            r is Some <==> vstd::utf8::valid_utf8(self@.canon()),
            r matches Some(s) ==> s@ == vstd::utf8::decode_utf8(self@.canon()),
    {
        let data = self.data();
        bytes_to_string(data.as_slice())
    }
}

} // verus!
