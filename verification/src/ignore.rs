//! Ignore rules: a list of patterns loaded from the ignore file, each
//! matching a trailing run of path components; the store's own metadata
//! directory is always ignored, whatever the file says.

use vstd::prelude::*;

use crate::byteseq::{bytes_eq, copy_bytes, split_bytes, split_seq};
use crate::path::RepoPath;
use crate::repo::{store_dir_component, store_dir_name};

verus! {

/// Whether one pattern matches: its slash-separated components equal the
/// trailing components of the path.
pub open spec fn pattern_matches(pat: Seq<u8>, path: Seq<Seq<u8>>) -> bool {
    let comps = split_seq(pat, 47);
    path.len() >= comps.len() && forall|i: int|
        0 <= i < comps.len() ==> path[path.len() - comps.len() + i] == #[trigger] comps[i]
}

/// Whether any loaded pattern matches the path.
pub open spec fn is_ignored(names: Seq<Seq<u8>>, path: Seq<Seq<u8>>) -> bool {
    exists|k: int| 0 <= k < names.len() && pattern_matches(#[trigger] names[k], path)
}

/// The non-empty lines, in order.
pub open spec fn nonempty_of(ls: Seq<Seq<u8>>) -> Seq<Seq<u8>>
    decreases ls.len(),
{
    if ls.len() == 0 {
        Seq::<Seq<u8>>::empty()
    } else {
        let rest = nonempty_of(ls.drop_last());
        if ls.last().len() > 0 {
            rest.push(ls.last())
        } else {
            rest
        }
    }
}

/// The loaded ignore rules.
pub struct Ignore {
    names: Vec<Vec<u8>>,
}

impl View for Ignore {
    type V = Seq<Seq<u8>>;

    closed spec fn view(&self) -> Seq<Seq<u8>> {
        Seq::new(self.names@.len(), |i: int| self.names@[i]@)
    }
}

impl Ignore {
    /// Builds the rule set from the ignore file's lines: blank lines are
    /// skipped, and the store's own directory is always appended.
    #[verifier::loop_isolation(false)]
    pub fn new(lines: Vec<Vec<u8>>) -> (r: Ignore)
        ensures
            r@ == nonempty_of(Seq::new(lines@.len(), |i: int| lines@[i]@)).push(store_dir_name()),
    {
        let ghost lv = Seq::new(lines@.len(), |i: int| lines@[i]@);
        let mut names: Vec<Vec<u8>> = Vec::new();
        let mut i: usize = 0;
        proof {
            assert(lv.take(0) =~= Seq::<Seq<u8>>::empty());
        }
        while i < lines.len()
            invariant
                i <= lines@.len(),
                names@.len() == nonempty_of(lv.take(i as int)).len(),
                forall|j: int|
                    0 <= j < names@.len() ==> #[trigger] names@[j]@ == nonempty_of(
                        lv.take(i as int),
                    )[j],
            decreases lines@.len() - i,
        {
            proof {
                assert(lv.take(i + 1).drop_last() =~= lv.take(i as int));
                assert(lv.take(i + 1).last() == lv[i as int]);
            }
            if lines[i].len() > 0 {
                names.push(copy_bytes(&lines[i]));
            }
            i = i + 1;
        }
        proof {
            assert(lv.take(i as int) =~= lv);
        }
        names.push(store_dir_component());
        let r = Ignore { names };
        proof {
            assert(r@ =~= nonempty_of(lv).push(store_dir_name()));
        }
        r
    }

    /// Whether the path matches any rule.
    #[verifier::loop_isolation(false)]
    pub fn for_path(&self, path: &RepoPath) -> (r: bool)
        ensures
            r == is_ignored(self@, path@),
    {
        let mut k: usize = 0;
        while k < self.names.len()
            invariant
                k <= self.names@.len(),
                forall|j: int| 0 <= j < k ==> !pattern_matches(#[trigger] self@[j], path@),
            decreases self.names@.len() - k,
        {
            if Self::matches_pattern(&self.names[k], path) {
                proof {
                    assert(pattern_matches(self@[k as int], path@));
                }
                return true;
            }
            k = k + 1;
        }
        false
    }

    /// Whether one pattern's components equal the path's trailing components.
    #[verifier::loop_isolation(false)]
    fn matches_pattern(pat: &Vec<u8>, path: &RepoPath) -> (r: bool)
        ensures
            r == pattern_matches(pat@, path@),
    {
        let comps = split_bytes(pat, 47);
        if comps.len() > path.len() {
            return false;
        }
        let offset = path.len() - comps.len();
        let mut i: usize = 0;
        while i < comps.len()
            invariant
                i <= comps@.len(),
                forall|j: int|
                    0 <= j < i ==> path@[offset + j] == #[trigger] split_seq(pat@, 47)[j],
            decreases comps@.len() - i,
        {
            if !bytes_eq(path.component(offset + i), &comps[i]) {
                proof {
                    assert(path@[offset + i] != split_seq(pat@, 47)[i as int]);
                }
                return false;
            }
            i = i + 1;
        }
        true
    }
}

} // verus!
