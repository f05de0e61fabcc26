//! Classifying filesystem entries, and the snapshot value a scan hands to the
//! object builder: the library never touches the filesystem itself.

use vstd::prelude::*;

verus! {

/// The kind of a filesystem entry the store can model.
pub enum Entry {
    File,
    Dir,
}

impl Entry {
    /// Classifies an entry from what the filesystem reported of it; a
    /// directory wins over a file, and anything else is unsupported.
    pub fn modelize_entry(is_dir: bool, is_file: bool) -> (r: Option<Entry>)
        ensures
            is_dir ==> (r matches Some(e) && e is Dir),
            !is_dir && is_file ==> (r matches Some(e) && e is File),
            !is_dir && !is_file ==> r is None,
    {
        if is_dir {
            Some(Entry::Dir)
        } else if is_file {
            Some(Entry::File)
        } else {
            None
        }
    }
}

/// One named child of a scanned directory.
pub struct FsChild {
    pub name: Vec<u8>,
    pub entry: FsEntry,
}

/// A snapshot of a filesystem subtree: file contents and directory listings,
/// exactly as a scan found them.
pub enum FsEntry {
    File { data: Vec<u8> },
    Dir { entries: Vec<FsChild> },
}

/// The mathematical shape of a scanned child.
pub ghost struct FsChildV {
    pub name: Seq<u8>,
    pub entry: FsEntryV,
}

/// The mathematical shape of a scanned subtree.
pub ghost enum FsEntryV {
    File { data: Seq<u8> },
    Dir { entries: Seq<FsChildV> },
}

pub open spec fn fs_child_view(c: FsChild) -> FsChildV
    decreases c, 1int,
{
    FsChildV { name: c.name@, entry: fs_entry_view(c.entry) }
}

pub open spec fn fs_children_view(cs: Seq<FsChild>) -> Seq<FsChildV>
    decreases cs, 2int,
{
    if cs.len() == 0 {
        Seq::<FsChildV>::empty()
    } else {
        fs_children_view(cs.drop_last()).push(fs_child_view(cs.last()))
    }
}

pub proof fn lemma_fs_children_view(cs: Seq<FsChild>)
    ensures
        fs_children_view(cs).len() == cs.len(),
        forall|i: int|
            0 <= i < cs.len() ==> #[trigger] fs_children_view(cs)[i] == fs_child_view(cs[i]),
    decreases cs.len(),
{
    if cs.len() > 0 {
        lemma_fs_children_view(cs.drop_last());
        assert(forall|i: int|
            0 <= i < cs.len() - 1 ==> #[trigger] cs.drop_last()[i] == cs[i]);
    }
}

pub open spec fn fs_entry_view(e: FsEntry) -> FsEntryV
    decreases e, 0int,
{
    match e {
        FsEntry::File { data } => FsEntryV::File { data: data@ },
        FsEntry::Dir { entries } => FsEntryV::Dir { entries: fs_children_view(entries@) },
    }
}

impl View for FsEntry {
    type V = FsEntryV;

    open spec fn view(&self) -> FsEntryV {
        fs_entry_view(*self)
    }
}

} // verus!
