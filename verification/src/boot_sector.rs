//! The first sector of a volume, which says where everything is.
use endify::Endify;
use vstd::arithmetic::power2::{
    lemma2_to64, lemma_pow2_adds, lemma_pow2_strictly_increases, pow2,
};
use vstd::bits::lemma_u64_shl_is_mul;
use vstd::prelude::*;

use crate::error::RootError;
use crate::le::{array_at, le_value, lemma_le_value_bound, lemma_radix};

verus! {

/// The number of bytes of the boot sector that are in use.
pub const BOOT_SECTOR_LEN: usize = 512;

/// What the boot sector says.
#[derive(Clone, Copy, Debug, PartialEq, Eq)]
pub struct BootSector {
    pub filesystem_name: [u8; 8],
    /// Where the first FAT begins, in sectors.
    pub fat_offset: u32,
    /// How long each FAT is, in sectors.
    pub fat_length: u32,
    /// Where the first cluster begins, in sectors.
    pub cluster_heap_offset: u32,
    pub cluster_count: u32,
    pub first_cluster_of_root_directory: u32,
    pub volume_flags: u16,
    pub bytes_per_sector_shift: u8,
    pub sectors_per_cluster_shift: u8,
    pub number_of_fats: u8,
}

/// The bytes of `EXFAT` and three spaces.
pub open spec fn exfat_name() -> Seq<u8> {
    seq![0x45, 0x58, 0x46, 0x41, 0x54, 0x20, 0x20, 0x20]
}

/// The 512 bytes of a boot sector as 128 little-endian numbers. The reading of
/// the bytes as numbers of this machine is `bytemuck::pod_read_unaligned`, which
/// panics unless there are as many bytes as the array has; the change from
/// little-endian to the order of this machine, number by number, is
/// `endify::Endify::from_le`. Together they give the value that each four bytes
/// spell, whatever the machine.
#[verifier::external_body]
fn little_endian_words(sector: &[u8]) -> (words: [u32; 128])
    requires
        sector@.len() == BOOT_SECTOR_LEN,
    ensures
        forall|i: int| 0 <= i < 128 ==> #[trigger] words@[i] == le_value(
            sector@.subrange(4 * i, 4 * i + 4),
        ),
{
    Endify::from_le(bytemuck::pod_read_unaligned::<[u32; 128]>(sector))
}

impl BootSector {
    /// This is what the boot sector with these bytes says.
    pub open spec fn describes(self, sector: Seq<u8>) -> bool {
        &&& self.filesystem_name@ == sector.subrange(3, 11)
        &&& self.fat_offset == le_value(sector.subrange(80, 84))
        &&& self.fat_length == le_value(sector.subrange(84, 88))
        &&& self.cluster_heap_offset == le_value(sector.subrange(88, 92))
        &&& self.cluster_count == le_value(sector.subrange(92, 96))
        &&& self.first_cluster_of_root_directory == le_value(sector.subrange(96, 100))
        &&& self.volume_flags == le_value(sector.subrange(106, 108))
        &&& self.bytes_per_sector_shift == sector[108]
        &&& self.sectors_per_cluster_shift == sector[109]
        &&& self.number_of_fats == sector[110]
    }

    /// A boot sector says one thing only.
    pub proof fn law_describes_one(a: Self, b: Self, sector: Seq<u8>)
        requires
            a.describes(sector),
            b.describes(sector),
        ensures
            a == b,
    {
        assert(a.filesystem_name =~= b.filesystem_name);
    }

    pub fn parse(sector: &[u8]) -> (r: Self)
        requires
            sector@.len() == BOOT_SECTOR_LEN,
        ensures
            r.describes(sector@),
    {
        let words = little_endian_words(sector);
        proof {
            let s = sector@.subrange(104, 108);
            assert(words@[26] == le_value(s));
            reveal_with_fuel(le_value, 5);
            let high = sector@.subrange(106, 108);
            assert(s.skip(1).skip(1) =~= high);
            assert(le_value(s) == s[0] + 256 * (s[1] + 256 * le_value(high)));
            lemma_le_value_bound(high);
            lemma_radix();
            assert(le_value(s) / 0x1_0000 == le_value(high));
        }
        BootSector {
            filesystem_name: array_at::<8>(sector, 3),
            fat_offset: words[20],
            fat_length: words[21],
            cluster_heap_offset: words[22],
            cluster_count: words[23],
            first_cluster_of_root_directory: words[24],
            volume_flags: (words[26] / 0x1_0000) as u16,
            bytes_per_sector_shift: sector[108],
            sectors_per_cluster_shift: sector[109],
            number_of_fats: sector[110],
        }
    }

    /// Whether the second FAT is the one in use.
    pub open spec fn second_fat_active(self) -> bool {
        self.volume_flags & 1 != 0
    }

    /// What keeps the volume from being read, if anything does.
    pub open spec fn fault<E>(self) -> Option<RootError<E>> {
        if self.filesystem_name@ != exfat_name() {
            Some(RootError::WrongFs)
        } else if !(9 <= self.bytes_per_sector_shift <= 12) {
            Some(RootError::InvalidBytesPerSectorShift(self.bytes_per_sector_shift))
        } else if self.sectors_per_cluster_shift > 25 - self.bytes_per_sector_shift {
            Some(RootError::InvalidSectorsPerClusterShift(self.sectors_per_cluster_shift))
        } else if self.number_of_fats != 1 && self.number_of_fats != 2 {
            Some(RootError::InvalidNumberOfFats(self.number_of_fats))
        } else if self.second_fat_active() != (self.number_of_fats == 2) {
            Some(RootError::InvalidNumberOfFats(self.number_of_fats))
        } else {
            None
        }
    }

    /// Whether the volume can be read.
    pub fn check<E>(&self) -> (r: Result<(), RootError<E>>)
        ensures
            r == match self.fault::<E>() {
                Some(e) => Err(e),
                None => Ok::<(), RootError<E>>(()),
            },
            r is Ok ==> self.valid(),
    {
        // check for fs name
        let n = self.filesystem_name;
        assert(n@ =~= exfat_name() <==> n@[0] == 0x45 && n@[1] == 0x58 && n@[2] == 0x46 && n@[3]
            == 0x41 && n@[4] == 0x54 && n@[5] == 0x20 && n@[6] == 0x20 && n@[7] == 0x20);
        if !(n[0] == 0x45 && n[1] == 0x58 && n[2] == 0x46 && n[3] == 0x41 && n[4] == 0x54 && n[5]
            == 0x20 && n[6] == 0x20 && n[7] == 0x20) {
            return Err(RootError::WrongFs);
        }

        // check for bytes per sector shift
        if !(9 <= self.bytes_per_sector_shift && self.bytes_per_sector_shift <= 12) {
            return Err(RootError::InvalidBytesPerSectorShift(self.bytes_per_sector_shift));
        }

        // check for sectors per cluster shift
        if self.sectors_per_cluster_shift > 25 - self.bytes_per_sector_shift {
            return Err(RootError::InvalidSectorsPerClusterShift(self.sectors_per_cluster_shift));
        }

        // check for number of fats
        let fat_num: u8 = self.number_of_fats;
        if fat_num != 1 && fat_num != 2 {
            return Err(RootError::InvalidNumberOfFats(fat_num));
        }

        // check for correct active fat
        let active: bool = self.volume_flags & 1 != 0;
        if active && fat_num == 1 || !active && fat_num == 2 {
            return Err(RootError::InvalidNumberOfFats(fat_num));
        }
        Ok(())
    }

    /// Sectors and clusters have sizes that volumes can have.
    pub open spec fn valid(self) -> bool {
        &&& 9 <= self.bytes_per_sector_shift <= 12
        &&& self.sectors_per_cluster_shift <= 25 - self.bytes_per_sector_shift
    }

    pub open spec fn sector_size(self) -> nat {
        pow2(self.bytes_per_sector_shift as nat)
    }

    pub open spec fn cluster_size(self) -> nat {
        pow2((self.bytes_per_sector_shift + self.sectors_per_cluster_shift) as nat)
    }

    /// Whether the volume has a cluster of this number.
    pub open spec fn has_cluster(self, cluster: u32) -> bool {
        2 <= cluster <= self.cluster_count + 1
    }

    /// Where the cluster begins, in bytes.
    pub open spec fn cluster_start(self, cluster: u32) -> int {
        self.cluster_heap_offset * self.sector_size() + (cluster - 2) * self.cluster_size()
    }

    /// Where the FAT in use begins, in bytes.
    pub open spec fn fat_start(self) -> int {
        (self.fat_offset + if self.second_fat_active() {
            self.fat_length as int
        } else {
            0
        }) * self.sector_size()
    }

    /// How large sectors and clusters can be. A cluster is made of whole entries.
    pub proof fn lemma_sizes(self)
        requires
            self.valid(),
        ensures
            512 <= self.sector_size() <= 4096,
            512 <= self.cluster_size() <= 0x200_0000,
            self.cluster_size() % 32 == 0,
    {
        let s = self.bytes_per_sector_shift as nat;
        let c = (self.bytes_per_sector_shift + self.sectors_per_cluster_shift) as nat;
        lemma2_to64();
        if s > 9 {
            lemma_pow2_strictly_increases(9, s);
        }
        if s < 12 {
            lemma_pow2_strictly_increases(s, 12);
        }
        if c > 9 {
            lemma_pow2_strictly_increases(9, c);
        }
        if c < 25 {
            lemma_pow2_strictly_increases(c, 25);
        }
        lemma_pow2_adds(5, (c - 5) as nat);
        let k = pow2((c - 5) as nat) as int;
        assert((32 * k) % 32 == 0);
    }

    /// Clusters lie where offsets can point.
    pub proof fn lemma_cluster_start(self, cluster: u32)
        requires
            self.valid(),
            self.has_cluster(cluster),
        ensures
            0 <= self.cluster_start(cluster) <= 0x400_0000_0000_0000,
    {
        self.lemma_sizes();
        let h = self.cluster_heap_offset as int;
        let s = self.sector_size() as int;
        let k = cluster - 2;
        let c = self.cluster_size() as int;
        assert(0 <= h * s <= 0x1_0000_0000 * 4096) by (nonlinear_arith)
            requires
                0 <= h <= 0x1_0000_0000,
                0 <= s <= 4096,
        ;
        assert(0 <= k * c <= 0x1_0000_0000 * 0x200_0000) by (nonlinear_arith)
            requires
                0 <= k <= 0x1_0000_0000,
                0 <= c <= 0x200_0000,
        ;
    }

    /// The FAT lies where offsets can point.
    pub proof fn lemma_fat_start(self)
        requires
            self.valid(),
        ensures
            0 <= self.fat_start() <= 0x2000_0000_0000,
    {
        self.lemma_sizes();
        let first = self.fat_offset + if self.second_fat_active() {
            self.fat_length as int
        } else {
            0
        };
        let sector = self.sector_size() as int;
        assert(0 <= first * sector <= 0x2_0000_0000 * 4096) by (nonlinear_arith)
            requires
                0 <= first <= 0x2_0000_0000,
                0 <= sector <= 4096,
        ;
    }

    fn sector_bytes(&self) -> (r: u64)
        requires
            self.valid(),
        ensures
            r == self.sector_size(),
    {
        proof {
            self.lemma_sizes();
            lemma_u64_shl_is_mul(1, self.bytes_per_sector_shift as u64);
        }
        1u64 << (self.bytes_per_sector_shift as u64)
    }

    /// The size of a cluster in bytes.
    pub fn cluster_bytes(&self) -> (r: u64)
        requires
            self.valid(),
        ensures
            r == self.cluster_size(),
    {
        let shift: u64 = self.bytes_per_sector_shift as u64
            + self.sectors_per_cluster_shift as u64;
        proof {
            self.lemma_sizes();
            lemma_u64_shl_is_mul(1, shift);
        }
        1u64 << shift
    }

    /// Where the cluster begins, in bytes, where there is such a cluster.
    pub fn cluster_offset(&self, cluster: u32) -> (r: Option<u64>)
        requires
            self.valid(),
        ensures
            match r {
                Some(o) => self.has_cluster(cluster) && o == self.cluster_start(cluster),
                None => !self.has_cluster(cluster),
            },
    {
        if cluster < 2 || (cluster - 2) as u64 >= self.cluster_count as u64 {
            return None;
        }
        let sector: u64 = self.sector_bytes();
        let size: u64 = self.cluster_bytes();
        let h: u64 = self.cluster_heap_offset as u64;
        let k: u64 = (cluster - 2) as u64;
        proof {
            self.lemma_sizes();
            self.lemma_cluster_start(cluster);
            assert(0 <= h * sector) by (nonlinear_arith);
            assert(0 <= k * size) by (nonlinear_arith);
        }
        Some(h * sector + k * size)
    }

    /// Where the FAT in use begins, in bytes.
    pub fn fat_byte_offset(&self) -> (r: u64)
        requires
            self.valid(),
        ensures
            r == self.fat_start(),
    {
        let sector: u64 = self.sector_bytes();
        let first: u64 = self.fat_offset as u64 + if self.volume_flags & 1 != 0 {
            self.fat_length as u64
        } else {
            0
        };
        proof {
            self.lemma_fat_start();
        }
        first * sector
    }
}

} // verus!
