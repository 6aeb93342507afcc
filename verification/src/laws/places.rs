//! Where things are on a volume: the boot sector, the FAT, and the clusters of a
//! file or directory.
use vstd::arithmetic::div_mod::{lemma_fundamental_div_mod, lemma_fundamental_div_mod_converse};
use vstd::arithmetic::power2::{lemma_pow2_adds, pow2};
use vstd::prelude::*;

use crate::boot_sector::BootSector;
use crate::cluster::{clusters_for, extent_of, ClusterChainOptions, Extent};
use crate::disk::{
    delivers, fails, is_image, law_image_delivers, law_image_fails, PartitionError, Replies,
};
use crate::error::{ClusterChainError, FatError, RootError};
use crate::fat::{
    chain_of, fat_len, fat_loads, is_chain, is_path, law_chain_has_no_repeats, law_chain_unique,
    words,
};
use crate::laws::numbers::{four, lemma_values, two};
use crate::le::{le_value, lemma_le_value_bound, lemma_radix};

verus! {

/// The boot sector says what its bytes say, and nothing else counts.
pub proof fn law_boot_sector_bytes(boot: BootSector, sector: Seq<u8>)
    requires
        sector.len() == 512,
    ensures
        boot.describes(sector) <==> {
            &&& boot.filesystem_name@ == sector.subrange(3, 11)
            &&& boot.fat_offset == four(sector, 80)
            &&& boot.fat_length == four(sector, 84)
            &&& boot.cluster_heap_offset == four(sector, 88)
            &&& boot.cluster_count == four(sector, 92)
            &&& boot.first_cluster_of_root_directory == four(sector, 96)
            &&& boot.volume_flags == two(sector, 106)
            &&& boot.bytes_per_sector_shift == sector[108]
            &&& boot.sectors_per_cluster_shift == sector[109]
            &&& boot.number_of_fats == sector[110]
        },
{
    lemma_values(sector, 80);
    lemma_values(sector, 84);
    lemma_values(sector, 88);
    lemma_values(sector, 92);
    lemma_values(sector, 96);
    lemma_values(sector, 106);
}

/// The bytes of the name `EXFAT` with three spaces.
pub open spec fn named_exfat(name: Seq<u8>) -> bool {
    &&& name.len() == 8
    &&& name[0] == 0x45 && name[1] == 0x58 && name[2] == 0x46 && name[3] == 0x41 && name[4] == 0x54
    &&& name[5] == 0x20 && name[6] == 0x20 && name[7] == 0x20
}

/// A volume is refused for its name, for sectors that are not of 512 to 4096
/// bytes, for clusters above 32 MiB, for a number of FATs that is not one or two,
/// and for a FAT in use that is not the last; in this order, and for nothing else.
pub proof fn law_boot_sector_faults<E>(boot: BootSector)
    ensures
        ({
            let name = named_exfat(boot.filesystem_name@);
            let sectors = 9 <= boot.bytes_per_sector_shift && boot.bytes_per_sector_shift <= 12;
            let clusters = boot.bytes_per_sector_shift + boot.sectors_per_cluster_shift <= 25;
            let fats = boot.number_of_fats == 1 + boot.volume_flags % 2;
            &&& boot.fault::<E>() is None <==> name && sectors && clusters && fats
            &&& !name ==> boot.fault::<E>() == Some(RootError::<E>::WrongFs)
            &&& name && !sectors ==> boot.fault::<E>() == Some(
                RootError::<E>::InvalidBytesPerSectorShift(boot.bytes_per_sector_shift),
            )
            &&& name && sectors && !clusters ==> boot.fault::<E>() == Some(
                RootError::<E>::InvalidSectorsPerClusterShift(boot.sectors_per_cluster_shift),
            )
            &&& name && sectors && clusters && !fats ==> boot.fault::<E>() == Some(
                RootError::<E>::InvalidNumberOfFats(boot.number_of_fats),
            )
            &&& boot.valid() <==> sectors && clusters
        }),
{
    lemma_second_fat(boot);
    let name = boot.filesystem_name@;
    if named_exfat(name) {
        assert(name =~= seq![0x45u8, 0x58, 0x46, 0x41, 0x54, 0x20, 0x20, 0x20]);
    }
}

proof fn lemma_second_fat(boot: BootSector)
    ensures
        boot.second_fat_active() <==> boot.volume_flags % 2 == 1,
{
    let v = boot.volume_flags;
    assert((v & 1 != 0) == (v % 2 == 1)) by (bit_vector);
}

/// The number of bytes of a sector.
pub open spec fn sector_bytes(boot: BootSector) -> int {
    pow2(boot.bytes_per_sector_shift as nat) as int
}

/// The number of bytes of a cluster: those of its sectors.
pub open spec fn cluster_bytes(boot: BootSector) -> int {
    sector_bytes(boot) * pow2(boot.sectors_per_cluster_shift as nat)
}

/// Where the cluster number 2 + `k` begins.
pub open spec fn place_of_cluster(boot: BootSector, k: int) -> int {
    boot.cluster_heap_offset * sector_bytes(boot) + k * cluster_bytes(boot)
}

/// A volume has as many clusters as it says, numbered from 2 on. The first of them
/// is as many sectors into the volume as the boot sector says, and each begins
/// where the one before it ends.
pub proof fn law_clusters_are_in_a_row(boot: BootSector, cluster: u32, next: u32)
    requires
        next == cluster + 1,
    ensures
        boot.has_cluster(cluster) <==> 2 <= cluster && cluster - 2 < boot.cluster_count,
        boot.cluster_start(2) == boot.cluster_heap_offset * sector_bytes(boot),
        boot.cluster_start(next) - boot.cluster_start(cluster) == cluster_bytes(boot),
        boot.cluster_start(cluster) == place_of_cluster(boot, cluster - 2),
        boot.cluster_size() == cluster_bytes(boot),
        boot.sector_size() == sector_bytes(boot),
{
    lemma_sizes(boot);
    let size = cluster_bytes(boot);
    let k = cluster - 2;
    assert((k + 1) * size - k * size == size) by (nonlinear_arith);
    assert(0 * size == 0);
}

proof fn lemma_sizes(boot: BootSector)
    ensures
        boot.sector_size() == sector_bytes(boot),
        boot.cluster_size() == cluster_bytes(boot),
        forall|c: u32| #[trigger]
            boot.cluster_start(c) == place_of_cluster(boot, c - 2),
{
    lemma_pow2_adds(
        boot.bytes_per_sector_shift as nat,
        boot.sectors_per_cluster_shift as nat,
    );
}

/// The first FAT is as many sectors into the volume as the boot sector says,
/// however long it is, and the second comes right behind it. Boot sectors that
/// differ only in where they put the FAT have FATs as many sectors apart.
pub proof fn law_fat_place(boot: BootSector, other: BootSector, longer: BootSector)
    requires
        other == (BootSector { fat_offset: other.fat_offset, ..boot }),
        longer == (BootSector { fat_length: longer.fat_length, ..boot }),
    ensures
        other.fat_start() - boot.fat_start() == (other.fat_offset - boot.fat_offset)
            * sector_bytes(boot),
        boot.volume_flags % 2 == 0 ==> {
            &&& longer.fat_start() == boot.fat_start()
            &&& boot.fat_start() == boot.fat_offset * sector_bytes(boot)
        },
        boot.volume_flags % 2 == 1 ==> {
            &&& longer.fat_start() - boot.fat_start() == (longer.fat_length - boot.fat_length)
                * sector_bytes(boot)
            &&& boot.fat_start() == boot.fat_offset * sector_bytes(boot) + boot.fat_length
                * sector_bytes(boot)
        },
{
    lemma_second_fat(boot);
    let s = sector_bytes(boot);
    let a = boot.fat_offset as int;
    let b = other.fat_offset as int;
    let m = boot.fat_length as int;
    let n = longer.fat_length as int;
    assert((b + m) * s - (a + m) * s == (b - a) * s) by (nonlinear_arith);
    assert((b + 0) * s - (a + 0) * s == (b - a) * s) by (nonlinear_arith);
    assert((a + n) * s - (a + m) * s == (n - m) * s) by (nonlinear_arith);
    assert((a + m) * s == a * s + m * s) by (nonlinear_arith);
}

/// Where the FAT in use begins.
pub open spec fn place_of_fat(boot: BootSector) -> int {
    if boot.volume_flags % 2 == 1 {
        boot.fat_offset * sector_bytes(boot) + boot.fat_length * sector_bytes(boot)
    } else {
        boot.fat_offset * sector_bytes(boot)
    }
}

/// The numbers of the FAT are those that stand in the image where the boot sector
/// says, four bytes each: one for each cluster, behind two for none.
pub open spec fn is_fat_of(fat: Seq<u32>, boot: BootSector, image: Seq<u8>) -> bool {
    &&& fat.len() == boot.cluster_count + 2
    &&& place_of_fat(boot) + 4 * fat.len() <= image.len()
    &&& forall|i: int|
        0 <= i < fat.len() ==> #[trigger] fat[i] == four(image, place_of_fat(boot) + 4 * i)
}

/// The FAT that is loaded of an image is the one that the image holds where the
/// boot sector says. Loading fails only where the image ends before the FAT does,
/// or where memory has no room for it.
pub proof fn law_fat_is_loaded_from_its_place<E: PartitionError>(
    boot: BootSector,
    replies: Replies<E>,
    image: Seq<u8>,
    r: Result<Seq<u32>, FatError<E>>,
)
    requires
        boot.valid(),
        is_image(replies, image),
        fat_loads(replies, boot, r),
    ensures
        match r {
            Ok(fat) => is_fat_of(fat, boot, image),
            Err(FatError::Io(e)) => e.is_unexpected_eop() && place_of_fat(boot) + 4 * (
            boot.cluster_count + 2) > image.len(),
            Err(FatError::TooLarge(n)) => n == 4 * (boot.cluster_count + 2) && n > usize::MAX,
        },
{
    law_fat_place(boot, boot, boot);
    boot.lemma_fat_start();
    let start = boot.fat_start();
    match r {
        Ok(fat) => {
            let raw = choose|raw: Seq<u8>|
                {
                    &&& raw.len() == fat_len(boot)
                    &&& #[trigger] delivers(replies, start, raw)
                    &&& fat == words(raw)
                };
            law_image_delivers(replies, image, start, raw);
            assert forall|i: int| 0 <= i < fat.len() implies #[trigger] fat[i] == four(
                image,
                start + 4 * i,
            ) by {
                lemma_values(raw, 4 * i);
                assert(four(raw, 4 * i) == four(image, start + 4 * i));
                let v = le_value(raw.subrange(4 * i, 4 * i + 4));
                lemma_le_value_bound(raw.subrange(4 * i, 4 * i + 4));
                lemma_radix();
                assert(v as u32 == v);
            }
        },
        Err(FatError::Io(e)) => {
            law_image_fails(replies, image, start, fat_len(boot), e);
        },
        Err(FatError::TooLarge(_)) => {},
    }
}

/// `path` begins at `first` and goes on from number to number as the FAT says.
pub open spec fn follows(fat: Seq<u32>, first: u32, path: Seq<u32>) -> bool {
    &&& path.len() > 0
    &&& path[0] == first
    &&& forall|i: int|
        0 <= i < path.len() ==> 2 <= #[trigger] path[i] && path[i] < fat.len()
    &&& forall|i: int|
        0 < i < path.len() ==> #[trigger] path[i] == fat[path[i - 1] as int]
}

/// `chain` follows the FAT up to a cluster behind which it names none.
pub open spec fn follows_to_end(fat: Seq<u32>, first: u32, chain: Seq<u32>) -> bool {
    &&& follows(fat, first, chain)
    &&& !(2 <= fat[chain.last() as int] && fat[chain.last() as int] < fat.len())
}

proof fn lemma_follows(fat: Seq<u32>, first: u32, path: Seq<u32>)
    ensures
        follows(fat, first, path) <==> is_path(fat, first, path),
        follows_to_end(fat, first, path) <==> is_chain(fat, first, path),
{
    if follows(fat, first, path) {
        assert forall|i: int, j: int|
            0 <= i < path.len() && j == i + 1 && j < path.len() implies #[trigger] path[j]
            == fat[#[trigger] path[i] as int] by {
            assert(path[j] == fat[path[j - 1] as int]);
        }
        assert(is_path(fat, first, path));
    }
    if is_path(fat, first, path) {
        assert forall|i: int| 0 < i < path.len() implies #[trigger] path[i] == fat[path[i
            - 1] as int] by {
            assert(path[i] == fat[path[i - 1] as int]);
        }
        assert forall|i: int| 0 <= i < path.len() implies 2 <= #[trigger] path[i] && path[i]
            < fat.len() by {}
        assert(follows(fat, first, path));
    }
    if path.len() > 0 && (follows(fat, first, path) || is_path(fat, first, path)) {
        assert(2 <= path[path.len() - 1]);
    }
}

proof fn lemma_endless_path(fat: Seq<u32>, first: u32, n: nat) -> (path: Seq<u32>)
    requires
        2 <= first < fat.len(),
        chain_of(fat, first) is None,
        n > 0,
    ensures
        follows(fat, first, path),
        path.len() == n,
    decreases n,
{
    if n == 1 {
        seq![first]
    } else {
        let path = lemma_endless_path(fat, first, (n - 1) as nat);
        lemma_follows(fat, first, path);
        assert(!is_chain(fat, first, path));
        let longer = path.push(fat[path.last() as int]);
        assert(follows(fat, first, longer)) by {
            assert(2 <= fat[path.last() as int] && fat[path.last() as int] < fat.len());
            assert forall|i: int| 0 <= i < longer.len() implies 2 <= #[trigger] longer[i]
                && longer[i] < fat.len() by {
                if i < path.len() {
                    assert(longer[i] == path[i]);
                }
            }
            assert forall|i: int| 0 < i < longer.len() implies #[trigger] longer[i] == fat[longer[i
                - 1] as int] by {
                assert(longer[i - 1] == path[i - 1]);
                if i < path.len() {
                    assert(longer[i] == path[i]);
                }
            }
        }
        longer
    }
}

/// The clusters from `first` on are found if and only if the FAT leads from there
/// to an end, and they are then all of those on the way. Otherwise the FAT can be
/// followed for ever.
pub proof fn law_chain_follows_fat(fat: Seq<u32>, first: u32, n: nat)
    requires
        2 <= first < fat.len(),
        n > 0,
    ensures
        forall|chain: Seq<u32>|
            chain_of(fat, first) == Some(chain) <==> #[trigger] follows_to_end(fat, first, chain),
        chain_of(fat, first) is None ==> exists|path: Seq<u32>| #[trigger]
            follows(fat, first, path) && path.len() == n,
{
    assert forall|chain: Seq<u32>|
        chain_of(fat, first) == Some(chain) <==> #[trigger] follows_to_end(
            fat,
            first,
            chain,
        ) by {
        lemma_follows(fat, first, chain);
        if is_chain(fat, first, chain) {
            law_chain_unique(fat, first, chain, chain_of(fat, first)->Some_0);
        }
    }
    if chain_of(fat, first) is None {
        let path = lemma_endless_path(fat, first, n);
    }
}

/// A file or directory in clusters that follow one another has those from its first
/// on, as many as its bytes need, and no more. There are none only where the first
/// is no cluster of the volume or the numbers of clusters end.
pub proof fn law_contiguous_clusters(boot: BootSector, fat: Seq<u32>, first: u32, len: u64)
    requires
        boot.valid(),
    ensures
        ({
            let size = cluster_bytes(boot);
            let last = 0x1_0000_0000 - first;
            match extent_of(
                boot,
                fat,
                first,
                ClusterChainOptions::Contiguous { data_length: len },
            ) {
                Ok(extent) => {
                    &&& 2 <= first && first - 2 < boot.cluster_count && len <= last * size
                    &&& extent.boot == boot
                    &&& extent.data_length == len
                    &&& (extent.chain.len() - 1) * size < len <= extent.chain.len() * size
                    &&& forall|i: int|
                        0 <= i < extent.chain.len() ==> #[trigger] extent.chain[i] == first + i
                },
                Err(ClusterChainError::InvalidFirstCluster(c)) => c == first && !(2 <= first
                    && first - 2 < boot.cluster_count),
                Err(ClusterChainError::InvalidDataLength(n)) => n == len && 2 <= first && first - 2
                    < boot.cluster_count && len > last * size,
                Err(ClusterChainError::CyclicChain(_)) => false,
            }
        }),
{
    lemma_sizes(boot);
    boot.lemma_sizes();
    let size = cluster_bytes(boot);
    let n = clusters_for(len as nat, size as nat) as int;
    let q = len as int / size;
    let m = len as int % size;
    lemma_fundamental_div_mod(len as int, size);
    assert(0 <= m < size) by (nonlinear_arith)
        requires
            size > 0,
            m == len as int % size,
    ;
    assert((n - 1) * size < len <= n * size) by (nonlinear_arith)
        requires
            size > 0,
            len == size * q + m,
            0 <= m < size,
            m == 0 ==> n == q,
            m != 0 ==> n == q + 1,
    ;
    let last = 0x1_0000_0000 - first;
    if n <= last {
        assert(n * size <= last * size) by (nonlinear_arith)
            requires
                n <= last,
                size > 0,
        ;
    } else {
        assert(last * size <= (n - 1) * size) by (nonlinear_arith)
            requires
                last <= n - 1,
                size > 0,
        ;
    }
}

/// A file or directory whose clusters the FAT lists has those from its first on to
/// the end, and as many bytes as it says, or all that the clusters have room for
/// where it does not say. There are none only where the first is no cluster of the
/// volume, the FAT leads to no end, or the clusters have too little room.
pub proof fn law_linked_clusters(
    boot: BootSector,
    fat: Seq<u32>,
    first: u32,
    len: Option<u64>,
    chain: Seq<u32>,
)
    requires
        boot.valid(),
        fat.len() == boot.cluster_count + 2,
    ensures
        ({
            let size = cluster_bytes(boot);
            let r = extent_of(boot, fat, first, ClusterChainOptions::Fat { data_length: len });
            &&& r == Err::<Extent, ClusterChainError>(
                ClusterChainError::InvalidFirstCluster(first),
            ) <==> !(2 <= first && first - 2 < boot.cluster_count)
            &&& follows_to_end(fat, first, chain) && (len matches Some(n) ==> n <= chain.len()
                * size) ==> {
                &&& r is Ok
                &&& r->Ok_0.boot == boot
                &&& r->Ok_0.chain == chain
                &&& r->Ok_0.data_length == match len {
                    Some(n) => n as int,
                    None => chain.len() * size,
                }
            }
            &&& follows_to_end(fat, first, chain) && (len matches Some(n) && n > chain.len() * size)
                ==> r == Err::<Extent, ClusterChainError>(
                ClusterChainError::InvalidDataLength(len->Some_0),
            )
            &&& r matches Err(ClusterChainError::CyclicChain(c)) ==> c == first
            &&& r == Err::<Extent, ClusterChainError>(ClusterChainError::CyclicChain(first)) <==> {
                &&& 2 <= first && first - 2 < boot.cluster_count
                &&& forall|c: Seq<u32>| !#[trigger] follows_to_end(fat, first, c)
            }
        }),
{
    lemma_sizes(boot);
    boot.lemma_sizes();
    let size = cluster_bytes(boot);
    if 2 <= first < fat.len() {
        law_chain_follows_fat(fat, first, 1);
        if chain_of(fat, first) is Some {
            assert(follows_to_end(fat, first, chain_of(fat, first)->Some_0));
        }
    }
    if follows_to_end(fat, first, chain) {
        assert(2 <= chain[0] && chain[0] < fat.len());
        lemma_follows(fat, first, chain);
        law_chain_has_no_repeats(fat, first, chain);
        assert(0 <= chain.len() * size <= 0x1_0000_0000 * 0x200_0000) by (nonlinear_arith)
            requires
                chain.len() <= 0x1_0000_0000,
                0 <= size <= 0x200_0000,
        ;
    }
}

/// The byte of a file or directory that is the byte `i` of its cluster number `k` is
/// the one that the image holds there.
pub proof fn law_contents_lie_in_clusters(extent: Extent, image: Seq<u8>, k: int, i: int)
    requires
        extent.wf(),
        0 <= k < extent.chain.len(),
        0 <= i < cluster_bytes(extent.boot),
        k * cluster_bytes(extent.boot) + i < extent.data_length,
    ensures
        extent.contents(image).len() == extent.data_length,
        extent.contents(image)[k * cluster_bytes(extent.boot) + i] == image[place_of_cluster(
            extent.boot,
            extent.chain[k] - 2,
        ) + i],
        extent.device_offset(k * cluster_bytes(extent.boot) + i) == place_of_cluster(
            extent.boot,
            extent.chain[k] - 2,
        ) + i,
        extent.cluster_at(k * cluster_bytes(extent.boot) + i) == extent.chain[k],
{
    lemma_sizes(extent.boot);
    let size = cluster_bytes(extent.boot);
    let p = k * size + i;
    assert(0 <= k * size) by (nonlinear_arith)
        requires
            k >= 0,
            size > 0,
    ;
    lemma_fundamental_div_mod_converse(p, size, k, i);
}

/// What one read of an image gives: the bytes that the image holds in the cluster of
/// the position, from there on. They are as many as are wanted, unless the cluster
/// or the file or directory ends before. Nothing comes only where nothing is wanted
/// or left; the read fails only where the volume has no such cluster, or the image
/// ends before the bytes do.
pub proof fn law_one_read<E: PartitionError>(
    extent: Extent,
    replies: Replies<E>,
    image: Seq<u8>,
    k: int,
    i: int,
    want: nat,
    r: Result<Seq<u8>, E>,
)
    requires
        extent.wf(),
        is_image(replies, image),
        0 <= k < extent.chain.len(),
        0 <= i < cluster_bytes(extent.boot),
        k * cluster_bytes(extent.boot) + i < extent.data_length,
        extent.reads(replies, k * cluster_bytes(extent.boot) + i, want, r),
    ensures
        ({
            let size = cluster_bytes(extent.boot);
            let left = extent.data_length - (k * size + i);
            let place = place_of_cluster(extent.boot, extent.chain[k] - 2) + i;
            let here = 2 <= extent.chain[k] && extent.chain[k] - 2 < extent.boot.cluster_count;
            match r {
                Ok(data) => {
                    &&& data.len() <= want && data.len() <= left && i + data.len() <= size
                    &&& data.len() == want || data.len() == left || i + data.len() == size
                    &&& data.len() > 0 ==> here && data == image.subrange(
                        place,
                        place + data.len(),
                    ) && place + data.len() <= image.len()
                },
                Err(e) => {
                    &&& want > 0
                    &&& !here ==> e.is_cluster_not_found(extent.chain[k])
                    &&& here ==> e.is_unexpected_eop() && place + want > image.len() && place
                        + left > image.len() && place - i + size > image.len()
                },
            }
        }),
{
    let size = cluster_bytes(extent.boot);
    let p = k * size + i;
    law_contents_lie_in_clusters(extent, image, k, i);
    lemma_sizes(extent.boot);
    extent.boot.lemma_sizes();
    assert(0 <= k * size) by (nonlinear_arith)
        requires
            k >= 0,
            size > 0,
    ;
    lemma_fundamental_div_mod_converse(p, size, k, i);
    let n = extent.readable(p, want);
    if n > 0 && extent.boot.has_cluster(extent.chain[k]) {
        extent.boot.lemma_cluster_start(extent.chain[k]);
        match r {
            Ok(data) => {
                law_image_delivers(replies, image, extent.device_offset(p), data);
            },
            Err(e) => {
                law_image_fails(replies, image, extent.device_offset(p), n, e);
            },
        }
    }
}

/// At the end nothing is read, and nothing fails.
pub proof fn law_read_at_the_end<E: PartitionError>(
    extent: Extent,
    replies: Replies<E>,
    want: nat,
    r: Result<Seq<u8>, E>,
)
    requires
        extent.reads(replies, extent.data_length as int, want, r),
    ensures
        r == Ok::<Seq<u8>, E>(Seq::empty()),
{
    assert(r->Ok_0 =~= Seq::empty());
}

/// What is read of an extent can be placed: every position of it lies in one of its
/// clusters.
pub proof fn law_positions_lie_in_clusters(extent: Extent, position: int) -> (at: (int, int))
    requires
        extent.wf(),
        0 <= position < extent.data_length,
    ensures
        0 <= at.0 < extent.chain.len(),
        0 <= at.1 < cluster_bytes(extent.boot),
        position == at.0 * cluster_bytes(extent.boot) + at.1,
{
    lemma_sizes(extent.boot);
    extent.boot.lemma_sizes();
    let size = cluster_bytes(extent.boot);
    let n = extent.chain.len() as int;
    let k = position / size;
    let i = position % size;
    lemma_fundamental_div_mod(position, size);
    assert(0 <= i < size) by (nonlinear_arith)
        requires
            size > 0,
            i == position % size,
    ;
    assert(0 <= k < n) by (nonlinear_arith)
        requires
            size > 0,
            0 <= position < n * size,
            position == size * k + i,
            0 <= i < size,
    ;
    assert(size * k == k * size) by (nonlinear_arith);
    (k, i)
}

/// What one read of any device gives: what reading the device in the cluster of the
/// position gives, for as many bytes as are wanted, unless the cluster or the file or
/// directory ends before. Where the volume has no such cluster, that is reported.
pub proof fn law_one_read_of_device<E: PartitionError>(
    extent: Extent,
    replies: Replies<E>,
    k: int,
    i: int,
    want: nat,
    r: Result<Seq<u8>, E>,
)
    requires
        extent.wf(),
        0 <= k < extent.chain.len(),
        0 <= i < cluster_bytes(extent.boot),
        k * cluster_bytes(extent.boot) + i < extent.data_length,
        want > 0,
        extent.reads(replies, k * cluster_bytes(extent.boot) + i, want, r),
    ensures
        ({
            let size = cluster_bytes(extent.boot);
            let left = extent.data_length - (k * size + i);
            let place = place_of_cluster(extent.boot, extent.chain[k] - 2) + i;
            let here = 2 <= extent.chain[k] && extent.chain[k] - 2 < extent.boot.cluster_count;
            match r {
                Ok(data) => {
                    &&& here
                    &&& 0 < data.len() <= want && data.len() <= left && i + data.len() <= size
                    &&& data.len() == want || data.len() == left || i + data.len() == size
                    &&& delivers(replies, place, data)
                },
                Err(e) => {
                    &&& !here ==> e.is_cluster_not_found(extent.chain[k])
                    &&& here ==> exists|n: nat|
                        {
                            &&& #[trigger] fails(replies, place, n, e)
                            &&& 0 < n <= want && n <= left && i + n <= size
                            &&& n == want || n == left || i + n == size
                        }
                },
            }
        }),
{
    let size = cluster_bytes(extent.boot);
    let p = k * size + i;
    law_contents_lie_in_clusters(extent, Seq::empty(), k, i);
    lemma_sizes(extent.boot);
    extent.boot.lemma_sizes();
    assert(0 <= k * size) by (nonlinear_arith)
        requires
            k >= 0,
            size > 0,
    ;
    lemma_fundamental_div_mod_converse(p, size, k, i);
    let n = extent.readable(p, want);
    if let Err(e) = r {
        if extent.boot.has_cluster(extent.chain[k]) {
            assert(fails(replies, extent.device_offset(p), n, e));
        }
    }
}

/// The FAT that is loaded of any device is what reading the device where the boot
/// sector says gives, and loading it fails as that does.
pub proof fn law_fat_of_device<E: PartitionError>(
    boot: BootSector,
    replies: Replies<E>,
    r: Result<Seq<u32>, FatError<E>>,
)
    requires
        boot.valid(),
        fat_loads(replies, boot, r),
    ensures
        4 * (boot.cluster_count + 2) > usize::MAX ==> (r matches Err(FatError::TooLarge(_))),
        match r {
            Ok(fat) => exists|raw: Seq<u8>|
                {
                    &&& #[trigger] delivers(replies, place_of_fat(boot), raw)
                    &&& raw.len() == 4 * (boot.cluster_count + 2) == 4 * fat.len()
                    &&& forall|i: int|
                        0 <= i < fat.len() ==> #[trigger] fat[i] == four(raw, 4 * i)
                },
            Err(FatError::Io(e)) => fails(
                replies,
                place_of_fat(boot),
                (4 * (boot.cluster_count + 2)) as nat,
                e,
            ),
            Err(FatError::TooLarge(n)) => n == 4 * (boot.cluster_count + 2) && n > usize::MAX,
        },
{
    law_fat_place(boot, boot, boot);
    let start = boot.fat_start();
    if let Ok(fat) = r {
        let raw = choose|raw: Seq<u8>|
            {
                &&& raw.len() == fat_len(boot)
                &&& #[trigger] delivers(replies, start, raw)
                &&& fat == words(raw)
            };
        assert(delivers(replies, place_of_fat(boot), raw));
        assert forall|i: int| 0 <= i < fat.len() implies #[trigger] fat[i] == four(raw, 4 * i) by {
            lemma_values(raw, 4 * i);
            lemma_le_value_bound(raw.subrange(4 * i, 4 * i + 4));
            lemma_radix();
        }
    }
}

} // verus!
