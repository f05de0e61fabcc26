//! The add operation: build the subtree for the target path, attach it to
//! the current root (or become the root), persist the whole graph bottom-up,
//! and only then advance the index.

use vstd::prelude::*;

use crate::entry::FsEntry;
use crate::error::Error;
use crate::ignore::Ignore;
use crate::index::Index;
use crate::object::{
    build_spec, chain_spec, fs_names_ok, graph_map, lemma_chain_wf, rehydratable, replace_spec,
    valid_name, Object, ObjectType, ObjectV,
};
use crate::path::{path_prefix, RepoPath};
use crate::repo::{stored_ok, Repo};

verus! {

/// The root object a first-ever add records: the built subtree, wrapped in
/// single-child ancestor trees up to the repository root.
pub open spec fn fresh_root_spec(
    target: Seq<Seq<u8>>,
    e: crate::entry::FsEntryV,
    ig: Seq<Seq<u8>>,
) -> ObjectV {
    chain_spec(Seq::<Seq<u8>>::empty(), target, build_spec(target, e, ig))
}

/// Adds a snapshot of the scanned subtree at `target` (a repository-relative
/// path) to the store. With the index unset the subtree, wrapped up to the
/// root, becomes the first root; with the index set the existing root is
/// rehydrated and the node at `target` is structurally replaced, siblings
/// untouched. The graph is persisted bottom-up and the index is advanced
/// only after every object is written; on any error the repository value is
/// left exactly as it was.
pub fn add(target: &RepoPath, entry: &FsEntry, ignore: &Ignore, repo: &mut Repo) -> (r: Result<
    Vec<u8>,
    Error,
>)
    requires
        fs_names_ok(entry@),
        old(repo).inv(),
        forall|i: int| 0 <= i < target@.len() ==> valid_name(#[trigger] target@[i]),
    ensures
        final(repo).inv(),
        stored_ok(old(repo).objects_map()) ==> stored_ok(final(repo).objects_map()),
        r is Err ==> *final(repo) == *old(repo),
        r matches Ok(h) ==> final(repo).index_view() == Some(h@),
        old(repo).index_view() is None ==> (r is Ok && final(repo).index_view() == Some(
            fresh_root_spec(target@, entry@, ignore@).hash_of(),
        ) && final(repo).objects_map() == graph_map(
            fresh_root_spec(target@, entry@, ignore@),
        ).union_prefer_right(old(repo).objects_map())),
        (old(repo).index_view() matches Some(oldh) && exists|o: ObjectV|
            rehydratable(
                old(repo).objects_map(),
                o,
                oldh,
                true,
                old(repo).objects_list().len() as nat,
            )) ==> r is Ok,
        (old(repo).index_view() is Some && r is Ok) ==> exists|old_root: ObjectV, oldh: Seq<u8>|
            {
                &&& old(repo).index_view() == Some(oldh)
                &&& old_root.wf()
                &&& old_root.path() == Seq::<Seq<u8>>::empty()
                &&& old_root is Tree
                &&& old(repo).objects_map().dom().contains(oldh)
                &&& (stored_ok(old(repo).objects_map()) ==> old_root.canon()
                    == crate::io::unzlib_content(old(repo).objects_map()[oldh])
                    && old_root.hash_of() == oldh)
                &&& final(repo).index_view() == Some(
                    replace_spec(
                        old_root,
                        target@,
                        build_spec(target@, entry@, ignore@),
                    ).hash_of(),
                )
                &&& final(repo).objects_map() == graph_map(
                    replace_spec(old_root, target@, build_spec(target@, entry@, ignore@)),
                ).union_prefer_right(old(repo).objects_map())
            },
{
    let built = Object::from_path(target.duplicate(), entry, ignore);
    match repo.index_hash() {
        None => {
            proof {
                lemma_chain_wf(Seq::<Seq<u8>>::empty(), target@, built@);
            }
            let root = Object::chain_build(RepoPath::root(), target, built);
            root.write(repo);
            let h = root.hash();
            let pointer = Index::from_hash(crate::byteseq::copy_bytes(&h));
            pointer.write(repo);
            Ok(h)
        },
        Some(old_hash) => {
            let mut root = match Object::from_compressed_obj(
                RepoPath::root(),
                &old_hash,
                ObjectType::Tree,
                repo,
            ) {
                Ok(o) => o,
                Err(e) => {
                    proof {
                        assert(!(exists|o: ObjectV|
                            rehydratable(
                                repo.objects_map(),
                                o,
                                old_hash@,
                                true,
                                repo.objects_list().len() as nat,
                            ))) by {
                            if exists|o: ObjectV|
                                rehydratable(
                                    repo.objects_map(),
                                    o,
                                    old_hash@,
                                    true,
                                    repo.objects_list().len() as nat,
                                ) {
                                let o = choose|o: ObjectV|
                                    rehydratable(
                                        repo.objects_map(),
                                        o,
                                        old_hash@,
                                        true,
                                        repo.objects_list().len() as nat,
                                    );
                                assert(rehydratable(
                                    repo.objects_map(),
                                    o,
                                    old_hash@,
                                    true,
                                    repo.objects_list().len() as nat,
                                ));
                            }
                        }
                    }
                    return Err(e);
                },
            };
            let ghost old_root = root@;
            let res = root.replace(target.duplicate(), built);
            proof {
                assert(path_prefix(old_root.path(), target@));
                assert(res is Ok);
            }
            match res {
                Ok(()) => {},
                Err(e) => {
                    return Err(e);
                },
            }
            root.write(repo);
            let h = root.hash();
            let pointer = Index::from_hash(crate::byteseq::copy_bytes(&h));
            pointer.write(repo);
            Ok(h)
        },
    }
}

} // verus!
