//! The content-addressed store and the index pointer, modelled as a value:
//! a map from hash to stored (compressed) bytes, plus the optional root hash.
//! Reading the files into this value and flushing it back is the caller's
//! business; every rule about what the store holds is enforced here.

use vstd::prelude::*;

use crate::byteseq::{bytes_eq, copy_bytes};
use crate::error::Error;
use crate::io::{hash_bytes_of, unzlib_of};

verus! {

/// One stored entry is consistent when its bytes decompress to content whose
/// hash is the key it is stored under.
pub open spec fn consistent_entry(h: Seq<u8>, v: Seq<u8>) -> bool {
    match unzlib_of(v) {
        Some(c) => hash_bytes_of(c) == h,
        None => false,
    }
}

/// Every entry of the store is consistent: content addressing holds.
pub open spec fn stored_ok(m: Map<Seq<u8>, Seq<u8>>) -> bool {
    forall|h: Seq<u8>| #[trigger] m.dom().contains(h) ==> consistent_entry(h, m[h])
}

pub open spec fn assoc_map(s: Seq<(Vec<u8>, Vec<u8>)>) -> Map<Seq<u8>, Seq<u8>>
    decreases s.len(),
{
    if s.len() == 0 {
        Map::<Seq<u8>, Seq<u8>>::empty()
    } else {
        assoc_map(s.drop_last()).insert(s.last().0@, s.last().1@)
    }
}

pub proof fn lemma_assoc_map(s: Seq<(Vec<u8>, Vec<u8>)>)
    ensures
        forall|k: Seq<u8>|
            assoc_map(s).dom().contains(k) <==> exists|i: int|
                0 <= i < s.len() && (#[trigger] s[i]).0@ == k,
        forall|i: int|
            0 <= i < s.len() ==> #[trigger] assoc_map(s).dom().contains(s[i].0@),
    decreases s.len(),
{
    if s.len() > 0 {
        lemma_assoc_map(s.drop_last());
        let d = s.drop_last();
        assert(forall|i: int| 0 <= i < d.len() ==> #[trigger] d[i] == s[i]);
        assert(s.last() == s[s.len() - 1]);
        assert forall|k: Seq<u8>| #[trigger] assoc_map(s).dom().contains(k) implies exists|i: int|
            0 <= i < s.len() && (#[trigger] s[i]).0@ == k by {
            if k == s.last().0@ {
                assert(s[s.len() - 1].0@ == k);
            } else {
                assert(assoc_map(d).dom().contains(k));
                let j = choose|j: int| 0 <= j < d.len() && (#[trigger] d[j]).0@ == k;
                assert(s[j].0@ == k);
            }
        }
        assert forall|i: int| 0 <= i < s.len() implies #[trigger] assoc_map(s).dom().contains(
            s[i].0@,
        ) by {
            if i < s.len() - 1 {
                assert(d[i].0@ == s[i].0@);
                assert(assoc_map(d).dom().contains(d[i].0@));
            }
        }
    }
}

/// With unique keys, the map holds each listed pair.
pub proof fn lemma_assoc_map_at(s: Seq<(Vec<u8>, Vec<u8>)>, i: int)
    requires
        0 <= i < s.len(),
        forall|a: int, b: int| 0 <= a < b < s.len() ==> (#[trigger] s[a]).0@ != (#[trigger] s[b]).0@,
    ensures
        assoc_map(s).dom().contains(s[i].0@),
        assoc_map(s)[s[i].0@] == s[i].1@,
    decreases s.len(),
{
    lemma_assoc_map(s);
    if i == s.len() - 1 {
    } else {
        assert(forall|a: int| 0 <= a < s.len() - 1 ==> #[trigger] s.drop_last()[a] == s[a]);
        lemma_assoc_map_at(s.drop_last(), i);
        assert(s[i].0@ != s.last().0@);
    }
}

/// The in-memory image of one repository: stored objects and the index.
pub struct Repo {
    objects: Vec<(Vec<u8>, Vec<u8>)>,
    index: Option<Vec<u8>>,
}

impl Repo {
    /// What the store holds: compressed bytes, keyed by hash.
    pub closed spec fn objects_map(self) -> Map<Seq<u8>, Seq<u8>> {
        assoc_map(self.objects@)
    }

    /// The raw entry list, for callers that persist the store.
    pub closed spec fn objects_list(self) -> Seq<(Vec<u8>, Vec<u8>)> {
        self.objects@
    }

    /// The current root pointer, if any.
    pub closed spec fn index_view(self) -> Option<Seq<u8>> {
        match self.index {
            Some(h) => Some(h@),
            None => None,
        }
    }

    /// Stored keys are unique, so lookups are unambiguous.
    pub closed spec fn inv(self) -> bool {
        forall|a: int, b: int|
            0 <= a < b < self.objects@.len() ==> (#[trigger] self.objects@[a]).0@
                != (#[trigger] self.objects@[b]).0@
    }

    /// An empty repository: no objects, index unset.
    pub fn new() -> (r: Repo)
        ensures
            r.inv(),
            r.objects_map() == Map::<Seq<u8>, Seq<u8>>::empty(),
            r.index_view() is None,
    {
        Repo { objects: Vec::new(), index: None }
    }

    /// Whether the store holds an object under this hash.
    pub fn contains(&self, hash: &Vec<u8>) -> (r: bool)
        ensures
            r == self.objects_map().dom().contains(hash@),
    {
        proof {
            lemma_assoc_map(self.objects@);
        }
        let mut i: usize = 0;
        while i < self.objects.len()
            invariant
                i <= self.objects@.len(),
                forall|j: int| 0 <= j < i ==> (#[trigger] self.objects@[j]).0@ != hash@,
                forall|k: Seq<u8>|
                    assoc_map(self.objects@).dom().contains(k) <==> exists|j: int|
                        0 <= j < self.objects@.len() && (#[trigger] self.objects@[j]).0@ == k,
            decreases self.objects@.len() - i,
        {
            if bytes_eq(&self.objects[i].0, hash) {
                return true;
            }
            i = i + 1;
        }
        false
    }

    /// The stored bytes under a hash, or `NotFound`.
    pub fn get(&self, hash: &Vec<u8>) -> (r: Result<Vec<u8>, Error>)
        requires
            self.inv(),
        ensures
            r matches Ok(v) ==> self.objects_map().dom().contains(hash@) && v@
                == self.objects_map()[hash@],
            r is Err ==> r == Err::<Vec<u8>, Error>(Error::NotFound)
                && !self.objects_map().dom().contains(hash@),
    {
        proof {
            lemma_assoc_map(self.objects@);
        }
        let mut i: usize = 0;
        while i < self.objects.len()
            invariant
                i <= self.objects@.len(),
                self.inv(),
                forall|j: int| 0 <= j < i ==> (#[trigger] self.objects@[j]).0@ != hash@,
                forall|k: Seq<u8>|
                    assoc_map(self.objects@).dom().contains(k) <==> exists|j: int|
                        0 <= j < self.objects@.len() && (#[trigger] self.objects@[j]).0@ == k,
            decreases self.objects@.len() - i,
        {
            if bytes_eq(&self.objects[i].0, hash) {
                proof {
                    lemma_assoc_map_at(self.objects@, i as int);
                }
                return Ok(copy_bytes(&self.objects[i].1));
            }
            i = i + 1;
        }
        Err(Error::NotFound)
    }

    /// Records bytes under a hash; writing a hash that already exists is a
    /// no-op, as content addressing allows.
    pub fn insert_object(&mut self, hash: Vec<u8>, bytes: Vec<u8>)
        requires
            old(self).inv(),
        ensures
            final(self).inv(),
            old(self).objects_map().dom().contains(hash@) ==> *final(self) == *old(self),
            !old(self).objects_map().dom().contains(hash@) ==> final(self).objects_map()
                == old(self).objects_map().insert(hash@, bytes@),
            final(self).index_view() == old(self).index_view(),
            final(self).objects_map().dom() == old(self).objects_map().dom().insert(hash@),
            forall|k: Seq<u8>|
                old(self).objects_map().dom().contains(k) ==> final(self).objects_map().dom().contains(
                    k,
                ) && #[trigger] final(self).objects_map()[k] == old(self).objects_map()[k],
    {
        proof {
            lemma_assoc_map(self.objects@);
        }
        if self.contains(&hash) {
            proof {
                assert(old(self).objects_map().dom().insert(hash@) =~= old(
                    self,
                ).objects_map().dom());
            }
            return;
        }
        self.objects.push((hash, bytes));
        proof {
            let s = self.objects@;
            assert(s.drop_last() =~= old(self).objects@);
            lemma_assoc_map(old(self).objects@);
            assert(forall|a: int|
                0 <= a < s.len() - 1 ==> (#[trigger] s[a]).0@ != s[s.len() - 1].0@);
            assert(final(self).objects_map().dom() =~= old(self).objects_map().dom().insert(
                hash@,
            ));
        }
    }

    /// The current index pointer.
    pub fn index_hash(&self) -> (r: Option<Vec<u8>>)
        ensures
            r is Some <==> self.index_view() is Some,
            r matches Some(h) ==> self.index_view() == Some(h@),
    {
        match &self.index {
            Some(h) => Some(copy_bytes(h)),
            None => None,
        }
    }

    /// Overwrites the index pointer; the store itself is untouched.
    pub fn set_index(&mut self, hash: Vec<u8>)
        requires
            old(self).inv(),
        ensures
            final(self).inv(),
            final(self).index_view() == Some(hash@),
            final(self).objects_map() == old(self).objects_map(),
            final(self).objects_list() == old(self).objects_list(),
    {
        self.index = Some(hash);
    }

    /// The stored entries, hash and compressed bytes, for persisting.
    pub fn entries(&self) -> (r: &Vec<(Vec<u8>, Vec<u8>)>)
        ensures
            r@ == self.objects_list(),
    {
        &self.objects
    }
}

/// The name of the store's own metadata directory.
pub open spec fn store_dir_name() -> Seq<u8> {
    seq![46u8, 97u8, 101u8, 113u8, 117u8, 111u8, 114u8, 101u8, 97u8]
}

/// The name of the objects directory inside the store.
pub open spec fn objects_dir_name() -> Seq<u8> {
    seq![111u8, 98u8, 106u8, 101u8, 99u8, 116u8, 115u8]
}

/// The name of the index file inside the store.
pub open spec fn index_file_name() -> Seq<u8> {
    seq![105u8, 110u8, 100u8, 101u8, 120u8]
}

/// The store directory name, `.aequorea`, as bytes.
pub fn store_dir_component() -> (r: Vec<u8>)
    ensures
        r@ == store_dir_name(),
{
    let mut v: Vec<u8> = Vec::new();
    v.push(46);
    v.push(97);
    v.push(101);
    v.push(113);
    v.push(117);
    v.push(111);
    v.push(114);
    v.push(101);
    v.push(97);
    proof {
        assert(v@ =~= store_dir_name());
    }
    v
}

/// The objects directory name, `objects`, as bytes.
pub fn objects_dir_component() -> (r: Vec<u8>)
    ensures
        r@ == objects_dir_name(),
{
    let mut v: Vec<u8> = Vec::new();
    v.push(111);
    v.push(98);
    v.push(106);
    v.push(101);
    v.push(99);
    v.push(116);
    v.push(115);
    proof {
        assert(v@ =~= objects_dir_name());
    }
    v
}

/// The index file name, `index`, as bytes.
pub fn index_file_component() -> (r: Vec<u8>)
    ensures
        r@ == index_file_name(),
{
    let mut v: Vec<u8> = Vec::new();
    v.push(105);
    v.push(110);
    v.push(100);
    v.push(101);
    v.push(120);
    proof {
        assert(v@ =~= index_file_name());
    }
    v
}

/// Inserting a consistent entry keeps the whole store consistent.
pub proof fn lemma_stored_ok_insert(m: Map<Seq<u8>, Seq<u8>>, h: Seq<u8>, v: Seq<u8>)
    requires
        stored_ok(m),
        consistent_entry(h, v),
    ensures
        stored_ok(m.insert(h, v)),
{
    assert forall|k: Seq<u8>| #[trigger] m.insert(h, v).dom().contains(k) implies consistent_entry(
        k,
        m.insert(h, v)[k],
    ) by {
        if k != h {
            assert(m.dom().contains(k));
        }
    }
}

/// Union preferring the right map, reassociated.
pub proof fn lemma_upr_assoc(
    a: Map<Seq<u8>, Seq<u8>>,
    b: Map<Seq<u8>, Seq<u8>>,
    c: Map<Seq<u8>, Seq<u8>>,
)
    ensures
        a.union_prefer_right(b.union_prefer_right(c)) == a.union_prefer_right(b).union_prefer_right(
            c,
        ),
{
    assert(a.union_prefer_right(b.union_prefer_right(c))
        =~= a.union_prefer_right(b).union_prefer_right(c));
}

} // verus!
