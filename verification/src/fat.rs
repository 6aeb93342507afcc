//! The file allocation table, which says what cluster comes after each.
use vstd::prelude::*;
use vstd::set_lib::{lemma_int_range, lemma_len_subset, set_int_range};

use crate::boot_sector::BootSector;
use crate::disk::{delivers, fails, PartitionError, ReadOffset, Replies};
use crate::error::FatError;
use crate::le::{le_value, read_u32};

verus! {

/// The numbers that `raw` holds, each in four bytes.
pub open spec fn words(raw: Seq<u8>) -> Seq<u32> {
    Seq::new(raw.len() / 4, |i: int| le_value(raw.subrange(4 * i, 4 * i + 4)) as u32)
}

/// How many bytes the FAT of a volume has: four for each cluster, and for two
/// numbers that are no clusters.
pub open spec fn fat_len(boot: BootSector) -> nat {
    ((boot.cluster_count + 2) * 4) as nat
}

/// Loading the FAT may come out as `r`.
pub open spec fn fat_loads<E: PartitionError>(
    replies: Replies<E>,
    boot: BootSector,
    r: Result<Seq<u32>, FatError<E>>,
) -> bool {
    match r {
        Err(FatError::TooLarge(n)) => n == fat_len(boot) && n > usize::MAX,
        Err(FatError::Io(e)) => fat_len(boot) <= usize::MAX && fails(
            replies,
            boot.fat_start(),
            fat_len(boot),
            e,
        ),
        Ok(entries) => fat_len(boot) <= usize::MAX && exists|raw: Seq<u8>|
            {
                &&& raw.len() == fat_len(boot)
                &&& #[trigger] delivers(replies, boot.fat_start(), raw)
                &&& entries == words(raw)
            },
    }
}

/// Whether the table says what comes after `cluster`.
pub open spec fn listed(entries: Seq<u32>, cluster: u32) -> bool {
    2 <= cluster < entries.len()
}

/// `chain` begins at `first`, goes on as the table says, and ends at the first
/// cluster after which the table names no cluster.
pub open spec fn is_chain(entries: Seq<u32>, first: u32, chain: Seq<u32>) -> bool {
    &&& is_path(entries, first, chain)
    &&& !listed(entries, entries[chain.last() as int])
}

/// `path` begins at `first` and goes on as the table says.
pub open spec fn is_path(entries: Seq<u32>, first: u32, path: Seq<u32>) -> bool {
    &&& path.len() > 0
    &&& path[0] == first
    &&& forall|i: int| 0 <= i < path.len() ==> listed(entries, #[trigger] path[i])
    &&& forall|i: int, j: int|
        0 <= i < path.len() && j == i + 1 && j < path.len() ==> #[trigger] path[j]
            == entries[#[trigger] path[i] as int]
}

/// The clusters from `first` on, unless the table leads in a circle.
pub open spec fn chain_of(entries: Seq<u32>, first: u32) -> Option<Seq<u32>> {
    if exists|chain: Seq<u32>| is_chain(entries, first, chain) {
        Some(choose|chain: Seq<u32>| is_chain(entries, first, chain))
    } else {
        None
    }
}

proof fn lemma_paths_agree(entries: Seq<u32>, first: u32, a: Seq<u32>, b: Seq<u32>, i: int)
    requires
        is_path(entries, first, a),
        is_path(entries, first, b),
        0 <= i < a.len(),
        i < b.len(),
    ensures
        a[i] == b[i],
    decreases i,
{
    if i > 0 {
        lemma_paths_agree(entries, first, a, b, i - 1);
    }
}

/// There is at most one chain from a cluster.
pub proof fn law_chain_unique(entries: Seq<u32>, first: u32, a: Seq<u32>, b: Seq<u32>)
    requires
        is_chain(entries, first, a),
        is_chain(entries, first, b),
    ensures
        a == b,
{
    if a.len() < b.len() {
        lemma_path_within_chain(entries, first, b, a);
        lemma_paths_agree(entries, first, a, b, a.len() - 1);
        assert(b[a.len() as int] == entries[b[a.len() - 1] as int]);
    } else if b.len() < a.len() {
        lemma_paths_agree(entries, first, a, b, b.len() - 1);
        assert(a[b.len() as int] == entries[a[b.len() - 1] as int]);
    }
    assert forall|i: int| 0 <= i < a.len() implies a[i] == b[i] by {
        lemma_paths_agree(entries, first, a, b, i);
    }
    assert(a =~= b);
}

proof fn lemma_path_within_chain(entries: Seq<u32>, first: u32, path: Seq<u32>, chain: Seq<u32>)
    requires
        is_path(entries, first, path),
        is_chain(entries, first, chain),
    ensures
        path.len() <= chain.len(),
{
    if path.len() > chain.len() {
        let n = chain.len() as int;
        lemma_paths_agree(entries, first, path, chain, n - 1);
        assert(path[n] == entries[path[n - 1] as int]);
    }
}

proof fn lemma_repeat_goes_on(entries: Seq<u32>, first: u32, path: Seq<u32>, i: int, j: int, k: int)
    requires
        is_path(entries, first, path),
        0 <= i < j,
        0 <= k,
        j + k < path.len(),
        path[i] == path[j],
    ensures
        path[i + k] == path[j + k],
    decreases k,
{
    if k > 0 {
        lemma_repeat_goes_on(entries, first, path, i, j, k - 1);
        assert(path[i + k] == entries[path[i + k - 1] as int]);
        assert(path[j + k] == entries[path[j + k - 1] as int]);
    }
}

/// A chain is shorter than the table: no cluster comes twice.
pub proof fn law_chain_has_no_repeats(entries: Seq<u32>, first: u32, chain: Seq<u32>)
    requires
        is_chain(entries, first, chain),
    ensures
        chain.no_duplicates(),
        chain.len() + 2 <= entries.len(),
{
    assert forall|i: int, j: int| 0 <= i < j < chain.len() implies chain[i] != chain[j] by {
        if chain[i] == chain[j] {
            let k = chain.len() - 1 - j;
            lemma_repeat_goes_on(entries, first, chain, i, j, k);
            assert(chain[i + k + 1] == entries[chain[i + k] as int]);
            assert(listed(entries, chain[i + k + 1]));
        }
    }
    let ints = chain.map_values(|c: u32| c as int);
    assert(ints.no_duplicates());
    ints.unique_seq_to_set();
    let range = set_int_range(2, entries.len() as int);
    lemma_int_range(2, entries.len() as int);
    assert(listed(entries, chain[0]));
    assert forall|c: int| ints.to_set().contains(c) implies range.contains(c) by {
        let i = choose|i: int| 0 <= i < ints.len() && ints[i] == c;
        assert(listed(entries, chain[i]));
    }
    lemma_len_subset(ints.to_set(), range);
}

/// The table of a volume.
#[derive(Debug)]
pub struct Fat {
    entries: Vec<u32>,
}

impl View for Fat {
    type V = Seq<u32>;

    closed spec fn view(&self) -> Seq<u32> {
        self.entries@
    }
}

impl Fat {
    /// Loads the table of the volume on `device`.
    pub fn load<O: ReadOffset>(device: &O, boot: &BootSector) -> (r: Result<Fat, FatError<O::Err>>)
        requires
            boot.valid(),
        ensures
            fat_loads(
                device.replies(),
                *boot,
                match r {
                    Ok(fat) => Ok(fat@),
                    Err(e) => Err(e),
                },
            ),
            r matches Ok(fat) ==> fat@.len() == boot.cluster_count + 2,
    {
        let count: u64 = boot.cluster_count as u64 + 2;
        let len: u64 = count * 4;
        if len > usize::MAX as u64 {
            return Err(FatError::TooLarge(len));
        }
        let mut raw: Vec<u8> = vec![0u8; len as usize];
        let ghost raw_len = raw@.len();
        match device.read_exact(boot.fat_byte_offset(), raw.as_mut_slice()) {
            Err(e) => return Err(FatError::Io(e)),
            Ok(()) => {},
        }
        assert(raw@.len() == raw_len);
        let mut entries: Vec<u32> = Vec::new();
        let mut i: usize = 0;
        while i < count as usize
            invariant
                i <= count,
                count <= usize::MAX,
                count * 4 == raw.len(),
                entries@ =~= words(raw@).take(i as int),
            decreases count - i,
        {
            entries.push(read_u32(raw.as_slice(), i * 4));
            i = i + 1;
        }
        let fat = Fat { entries };
        assert(fat@ =~= words(raw@));
        Ok(fat)
    }

    /// The clusters from `first` on, `None` where the table leads in a circle.
    pub fn chain(&self, first: u32) -> (r: Option<Vec<u32>>)
        requires
            listed(self@, first),
        ensures
            match r {
                Some(chain) => chain_of(self@, first) == Some(chain@),
                None => chain_of(self@, first) is None,
            },
    {
        let count: usize = self.entries.len();
        let mut chain: Vec<u32> = Vec::new();
        chain.push(first);
        let mut next: u32 = self.entries[first as usize];
        while 2 <= next && (next as usize) < count
            invariant
                count == self@.len(),
                chain@.len() <= count,
                is_path(self@, first, chain@),
                next == self@[chain@.last() as int],
            decreases count - chain@.len(),
        {
            if chain.len() == count {
                proof {
                    assert forall|c: Seq<u32>| !is_chain(self@, first, c) by {
                        if is_chain(self@, first, c) {
                            lemma_path_within_chain(self@, first, chain@, c);
                            law_chain_has_no_repeats(self@, first, c);
                        }
                    }
                }
                return None;
            }
            let ghost before = chain@;
            chain.push(next);
            assert(is_path(self@, first, chain@)) by {
                assert forall|i: int, j: int|
                    0 <= i < chain@.len() && j == i + 1 && j < chain@.len() implies
                    #[trigger] chain@[j] == self@[#[trigger] chain@[i] as int] by {
                    assert(chain@[i] == before[i]);
                    if j < before.len() {
                        assert(chain@[j] == before[j]);
                    }
                }
            }
            next = self.entries[next as usize];
        }
        proof {
            assert(is_chain(self@, first, chain@));
            law_chain_unique(self@, first, chain@, chain_of(self@, first)->Some_0);
        }
        Some(chain)
    }
}

} // verus!
