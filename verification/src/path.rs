//! Paths inside the repository, modelled as a sequence of name components
//! relative to the repository root. The root itself is the empty path.

use vstd::prelude::*;

use crate::byteseq::{bytes_eq, copy_bytes};

verus! {

/// A repository-relative path: a sequence of byte-string components.
#[derive(Debug)]
pub struct RepoPath {
    pub components: Vec<Vec<u8>>,
}

impl View for RepoPath {
    type V = Seq<Seq<u8>>;

    open spec fn view(&self) -> Seq<Seq<u8>> {
        Seq::new(self.components@.len(), |i: int| self.components@[i]@)
    }
}

/// Whether `p` is a (not necessarily strict) component-wise prefix of `q`.
pub open spec fn path_prefix(p: Seq<Seq<u8>>, q: Seq<Seq<u8>>) -> bool {
    p.len() <= q.len() && forall|i: int| 0 <= i < p.len() ==> q[i] == #[trigger] p[i]
}

impl RepoPath {
    /// The repository root: the empty path.
    pub fn root() -> (r: RepoPath)
        ensures
            r@ == Seq::<Seq<u8>>::empty(),
    {
        let r = RepoPath { components: Vec::new() };
        proof {
            assert(r@ =~= Seq::<Seq<u8>>::empty());
        }
        r
    }

    /// A path from its components.
    pub fn new(components: Vec<Vec<u8>>) -> (r: RepoPath)
        ensures
            r@.len() == components@.len(),
            forall|i: int| 0 <= i < components@.len() ==> r@[i] == #[trigger] components@[i]@,
    {
        RepoPath { components }
    }

    pub fn len(&self) -> (r: usize)
        ensures
            r == self@.len(),
    {
        self.components.len()
    }

    /// An exact copy.
    pub fn duplicate(&self) -> (r: RepoPath)
        ensures
            r@ == self@,
    {
        let mut out: Vec<Vec<u8>> = Vec::new();
        let mut i: usize = 0;
        while i < self.components.len()
            invariant
                i <= self.components.len(),
                out@.len() == i,
                forall|j: int| 0 <= j < i ==> out@[j]@ == self@[j],
            decreases self.components.len() - i,
        {
            out.push(copy_bytes(&self.components[i]));
            i = i + 1;
        }
        let r = RepoPath { components: out };
        proof {
            assert(r@ =~= self@);
        }
        r
    }

    /// The component at an index.
    pub fn component(&self, i: usize) -> (r: &Vec<u8>)
        requires
            i < self@.len(),
        ensures
            r@ == self@[i as int],
    {
        &self.components[i]
    }

    /// The path extended by one more component.
    pub fn join(&self, name: Vec<u8>) -> (r: RepoPath)
        ensures
            r@ == self@.push(name@),
    {
        let mut out = self.duplicate();
        out.components.push(name);
        proof {
            assert(out@ =~= self@.push(name@));
        }
        out
    }

    /// The path without its final component; the root's parent is the root.
    pub fn parent(&self) -> (r: RepoPath)
        ensures
            self@.len() > 0 ==> r@ == self@.drop_last(),
            self@.len() == 0 ==> r@ == self@,
    {
        let mut out = self.duplicate();
        if out.components.len() > 0 {
            let _ = out.components.pop();
            proof {
                assert(out@ =~= self@.drop_last());
            }
        }
        out
    }

    /// The final component: the display name of whatever the path names.
    pub fn file_name(&self) -> (r: &Vec<u8>)
        requires
            self@.len() > 0,
        ensures
            r@ == self@.last(),
    {
        &self.components[self.components.len() - 1]
    }

    /// Whether `other` is a component-wise prefix of this path.
    pub fn starts_with(&self, other: &RepoPath) -> (r: bool)
        ensures
            r == path_prefix(other@, self@),
    {
        if other.components.len() > self.components.len() {
            return false;
        }
        let mut i: usize = 0;
        while i < other.components.len()
            invariant
                i <= other.components.len(),
                other@.len() <= self@.len(),
                forall|j: int| 0 <= j < i ==> self@[j] == other@[j],
            decreases other.components.len() - i,
        {
            if !bytes_eq(&self.components[i], &other.components[i]) {
                proof {
                    assert(self@[i as int] == self.components@[i as int]@);
                    assert(other@[i as int] == other.components@[i as int]@);
                }
                return false;
            }
            i = i + 1;
        }
        true
    }

    /// Whether the two paths are equal.
    pub fn same_as(&self, other: &RepoPath) -> (r: bool)
        ensures
            r == (self@ == other@),
    {
        if self.components.len() != other.components.len() {
            proof {
                assert(self@.len() != other@.len());
            }
            return false;
        }
        let mut i: usize = 0;
        while i < self.components.len()
            invariant
                i <= self.components.len(),
                self@.len() == other@.len(),
                forall|j: int| 0 <= j < i ==> self@[j] == other@[j],
            decreases self.components.len() - i,
        {
            if !bytes_eq(&self.components[i], &other.components[i]) {
                proof {
                    assert(self@[i as int] == self.components@[i as int]@);
                    assert(other@[i as int] == other.components@[i as int]@);
                }
                return false;
            }
            i = i + 1;
        }
        proof {
            assert(self@ =~= other@);
        }
        true
    }
}

/// Whether `child` lies strictly below `parent`.
pub fn contain_child(parent: &RepoPath, child: &RepoPath) -> (r: bool)
    ensures
        r == (path_prefix(parent@, child@) && !path_prefix(child@, parent@)),
{
    child.starts_with(parent) && !parent.starts_with(child)
}

} // verus!
