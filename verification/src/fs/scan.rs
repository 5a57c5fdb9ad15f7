//! Which files of a directory tree are named by ids.

use vstd::prelude::*;

use crate::paths;
use crate::uintn::UintN;

verus! {

/// Which ids are asked for.
#[derive(Debug, Clone, Copy, PartialEq, Eq, Structural)]
pub enum Scan {
    Min,
    Max,
    All,
}

/// The ids that were asked for.
#[derive(Debug, PartialEq, Eq)]
pub enum ScanResult {
    /// There is no file with the extension.
    Nothing,
    One(UintN),
    All(Vec<UintN>),
}

/// What `ids` are.
pub open spec fn id_views(ids: Seq<UintN>) -> Seq<nat> {
    Seq::new(ids.len(), |i: int| ids[i]@)
}

/// The ids of the files of `names` with the extension `ext`, in their order.
pub open spec fn ids_in(names: Seq<Vec<u8>>, ext: Seq<u8>) -> Seq<nat>
    decreases names.len(),
{
    if names.len() == 0 {
        Seq::empty()
    } else {
        let head = ids_in(names.drop_last(), ext);
        match paths::file_id(names.last()@, ext) {
            Some(id) => head.push(id),
            None => head,
        }
    }
}

/// Whether `id` is the least of `ids`.
pub open spec fn is_least(ids: Seq<nat>, id: nat) -> bool {
    ids.contains(id) && forall|i: int| 0 <= i < ids.len() ==> id <= #[trigger] ids[i]
}

/// Whether `id` is the greatest of `ids`.
pub open spec fn is_greatest(ids: Seq<nat>, id: nat) -> bool {
    ids.contains(id) && forall|i: int| 0 <= i < ids.len() ==> #[trigger] ids[i] <= id
}

/// Every file of an id is found by its name, and every id that is found is that of a file.
pub proof fn lemma_every_file_is_found(names: Seq<Vec<u8>>, ext: Seq<u8>, k: int, id: nat)
    requires
        0 <= k < names.len(),
        names[k]@ == paths::file_name(id, ext),
    ensures
        ids_in(names, ext).contains(id),
    decreases names.len(),
{
    paths::lemma_file_id_of_file_name(id, ext);
    let ids = ids_in(names, ext);
    if k < names.len() - 1 {
        lemma_every_file_is_found(names.drop_last(), ext, k, id);
        let i = ids_in(names.drop_last(), ext).index_of(id);
        assert(ids[i] == id);
    } else {
        assert(ids[ids.len() - 1] == id);
    }
}

/// An id that is found is that of a file with the extension; no id is made up.
pub proof fn lemma_no_id_is_made_up(names: Seq<Vec<u8>>, ext: Seq<u8>, id: nat)
    requires
        ids_in(names, ext).contains(id),
    ensures
        exists|k: int| 0 <= k < names.len() && paths::file_id((#[trigger] names[k])@, ext) == Some(id),
    decreases names.len(),
{
    let ids = ids_in(names, ext);
    let i = ids.index_of(id);
    let head = ids_in(names.drop_last(), ext);
    if i < head.len() {
        assert(head[i] == id);
        lemma_no_id_is_made_up(names.drop_last(), ext, id);
        let k = choose|k: int|
            0 <= k < names.len() - 1 && paths::file_id(
                (#[trigger] names.drop_last()[k])@,
                ext,
            ) == Some(id);
        assert(names[k] == names.drop_last()[k]);
    } else {
        assert(names[names.len() - 1] == names.last());
    }
}

/// The least and the greatest id are ids that were found, and none that was found is beyond
/// them; so there is one answer.
pub proof fn lemma_least_and_greatest(ids: Seq<nat>, low: nat, high: nat, i: int)
    requires
        is_least(ids, low),
        is_greatest(ids, high),
        0 <= i < ids.len(),
    ensures
        low <= ids[i] <= high,
        ids.contains(low),
        ids.contains(high),
{
}

/// The ids that are asked for, of the files with the extension `ext`. `names` are the files
/// of the directory tree, from its root.
pub fn scan_ids(names: &Vec<Vec<u8>>, ext: &[u8], which: Scan) -> (r: ScanResult)
    ensures
        ({
            let ids = ids_in(names@, ext@);
            match r {
                ScanResult::Nothing => ids.len() == 0,
                ScanResult::One(id) => match which {
                    Scan::Min => is_least(ids, id@),
                    Scan::Max => is_greatest(ids, id@),
                    Scan::All => false,
                },
                ScanResult::All(found) => which == Scan::All && ids.len() > 0 && id_views(found@)
                    == ids,
            }
        }),
{
    let mut found: Vec<UintN> = Vec::new();
    let mut i: usize = 0;
    assert(names@.take(0) =~= Seq::empty());
    assert(id_views(found@) =~= Seq::empty());
    while i < names.len()
        invariant
            i <= names@.len(),
            id_views(found@) == ids_in(names@.take(i as int), ext@),
        decreases names@.len() - i,
    {
        assert(names@.take(i + 1).drop_last() =~= names@.take(i as int));
        let ghost was = found@;
        if let Some(id) = paths::read_file_id(names[i].as_slice(), ext) {
            found.push(id);
            assert(id_views(found@) =~= id_views(was).push(id@));
        }
        i = i + 1;
    }
    assert(names@.take(i as int) =~= names@);
    let ghost ids = id_views(found@);
    if found.len() == 0 {
        return ScanResult::Nothing;
    }
    if which == Scan::All {
        return ScanResult::All(found);
    }
    let mut best: usize = 0;
    let mut k: usize = 1;
    let n: usize = found.len();
    while k < n
        invariant
            ids == id_views(found@),
            best < k <= n == found@.len(),
            which != Scan::All,
            forall|j: int|
                0 <= j < k ==> if which == Scan::Min {
                    ids[best as int] <= #[trigger] ids[j]
                } else {
                    #[trigger] ids[j] <= ids[best as int]
                },
        decreases n - k,
    {
        let better: bool = match which {
            Scan::Min => found[k].is_below(&found[best]),
            _ => found[best].is_below(&found[k]),
        };
        if better {
            best = k;
        }
        k = k + 1;
    }
    assert(ids[best as int] == found@[best as int]@);
    ScanResult::One(found[best].clone())
}

} // verus!
