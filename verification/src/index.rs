//! The index: the single persisted pointer to the current root object.

use vstd::prelude::*;

use crate::byteseq::copy_bytes;
use crate::path::RepoPath;
use crate::repo::{index_file_name, store_dir_name, Repo};

verus! {

/// The root pointer, holding the current root object's hash.
pub struct Index {
    hash: Vec<u8>,
}

impl View for Index {
    type V = Seq<u8>;

    closed spec fn view(&self) -> Seq<u8> {
        self.hash@
    }
}

impl Index {
    /// An index pointing at the given hash.
    pub fn from_hash(hash: Vec<u8>) -> (r: Index)
        ensures
            r@ == hash@,
    {
        Index { hash }
    }

    /// Reads the pointer from the index file's bytes: an empty (or absent,
    /// read as empty) file means no snapshot yet, and is not an error.
    pub fn new(contents: &Vec<u8>) -> (r: Option<Index>)
        ensures
            r is None <==> contents@.len() == 0,
            r matches Some(ix) ==> ix@ == contents@,
    {
        if contents.len() == 0 {
            None
        } else {
            Some(Index { hash: copy_bytes(contents) })
        }
    }

    /// Where the pointer lives, relative to the repository root:
    /// `.aequorea/index`.
    pub fn index_path() -> (r: RepoPath)
        ensures
            r@ == seq![store_dir_name(), index_file_name()],
    {
        let c0 = crate::repo::store_dir_component();
        let c1 = crate::repo::index_file_component();
        let ghost g0 = c0@;
        let ghost g1 = c1@;
        let mut components: Vec<Vec<u8>> = Vec::new();
        components.push(c0);
        components.push(c1);
        let r = RepoPath::new(components);
        proof {
            assert(components@.len() == 2);
            assert(components@[0]@ == g0);
            assert(components@[1]@ == g1);
            assert(r@ =~= seq![store_dir_name(), index_file_name()]);
        }
        r
    }

    /// The hash the index points at.
    pub fn hash(&self) -> (r: Vec<u8>)
        ensures
            r@ == self@,
    {
        copy_bytes(&self.hash)
    }

    /// Advances the repository's pointer to this hash; the stored objects are
    /// untouched. This is the final step of an add, never an intermediate one.
    pub fn write(&self, repo: &mut Repo)
        requires
            old(repo).inv(),
        ensures
            final(repo).inv(),
            final(repo).index_view() == Some(self@),
            final(repo).objects_map() == old(repo).objects_map(),
            final(repo).objects_list() == old(repo).objects_list(),
    {
        repo.set_index(copy_bytes(&self.hash));
    }
}

} // verus!
