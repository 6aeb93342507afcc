//! The entries of directories.
use vstd::prelude::*;

use crate::error::DirEntryError;
use crate::label::Label;
use crate::le::{array_at, lemma_le_bytes_len, push_all};

pub mod parsed;
pub mod payload;
pub mod reader;

pub use self::payload::{
    BitmapEntry, FileAttributes, FileEntry, FileNameEntry, GeneralSecondaryFlags,
    StreamExtensionEntry, UpcaseTableEntry, VendorAllocationEntry, VendorExtensionEntry,
    VolumeGuidEntry, VolumeLabelEntry,
};
use self::payload::PAYLOAD_LEN;

verus! {

broadcast use lemma_le_bytes_len;

/// The type of the entry that holds the identifier of the volume.
pub const VOLUME_GUID_ENTRY_TYPE: u8 = 0xA0;

/// The first cluster that holds data. The numbers below it have other meanings.
pub const FIRST_USABLE_CLUSTER_INDEX: u32 = 2;

/// The length of the up-case table that new volumes get, in bytes.
pub const DEFAULT_UPCASE_TABLE_LEN: u64 = 5836;

/// The checksum of the up-case table that new volumes get.
pub const DEFAULT_UPCASE_TABLE_CHECKSUM: u32 = 0xE619_D30D;

/// The number of bytes of an entry.
pub const ENTRY_LEN: usize = 32;

/// A generic exFAT directory entry.
#[derive(Clone, Copy, Debug, PartialEq, Eq)]
pub enum DirEntry {
    /// Type `0x00`: no entry follows.
    EndOfDirectory([u8; 31]),
    /// Types `0x01` to `0x7F`, the type and what is behind it: out of use.
    Unused(u8, [u8; 31]),
    /// Type `0x80`.
    Invalid,
    Bitmap(BitmapEntry),
    UpcaseTable(UpcaseTableEntry),
    VolumeLabel(VolumeLabelEntry),
    File(FileEntry),
    VolumeGuid(VolumeGuidEntry),
    StreamExtension(StreamExtensionEntry),
    FileName(FileNameEntry),
    VendorExtension(VendorExtensionEntry),
    VendorAllocation(VendorAllocationEntry),
}

/// Whether there are entries of type `t`.
pub open spec fn is_entry_type(t: u8) -> bool {
    t <= 0x83 || t == 0x85 || t == 0xA0 || 0xC0 <= t <= 0xC1 || 0xE0 <= t <= 0xE1
}

/// The entry that 32 bytes hold, if there is one: the well-formed entry that is
/// spelled by them. Nothing is kept of what is behind the type `0x80`.
pub open spec fn decode(b: Seq<u8>) -> Option<DirEntry> {
    if !is_entry_type(b[0]) {
        None
    } else if b[0] == 0x80 {
        Some(DirEntry::Invalid)
    } else {
        Some(choose|e: DirEntry| e.wf() && e.encode() == b)
    }
}

/// The entry that 32 bytes hold, or the type that no entry has.
pub open spec fn decoded(b: Seq<u8>) -> Result<DirEntry, DirEntryError> {
    match decode(b) {
        Some(e) => Ok(e),
        None => Err(DirEntryError::InvalidEntry(b[0])),
    }
}

impl TryFrom<[u8; 32]> for DirEntry {
    type Error = DirEntryError;

    fn try_from(value: [u8; 32]) -> (r: Result<Self, DirEntryError>) {
        DirEntry::from_bytes(value)
    }
}

impl vstd::std_specs::convert::TryFromSpecImpl<[u8; 32]> for DirEntry {
    open spec fn obeys_try_from_spec() -> bool {
        true
    }

    open spec fn try_from_spec(value: [u8; 32]) -> Result<Self, DirEntryError> {
        decoded(value@)
    }
}

impl DirEntry {
    /// An entry out of use has one of the types for that.
    pub open spec fn wf(self) -> bool {
        self matches DirEntry::Unused(t, _) ==> 0 < t < 0x80
    }

    pub open spec fn type_byte(self) -> u8 {
        match self {
            DirEntry::EndOfDirectory(_) => 0x00,
            DirEntry::Unused(t, _) => t,
            DirEntry::Invalid => 0x80,
            DirEntry::Bitmap(_) => 0x81,
            DirEntry::UpcaseTable(_) => 0x82,
            DirEntry::VolumeLabel(_) => 0x83,
            DirEntry::File(_) => 0x85,
            DirEntry::VolumeGuid(_) => 0xA0,
            DirEntry::StreamExtension(_) => 0xC0,
            DirEntry::FileName(_) => 0xC1,
            DirEntry::VendorExtension(_) => 0xE0,
            DirEntry::VendorAllocation(_) => 0xE1,
        }
    }

    /// What is behind the type byte.
    pub open spec fn payload(self) -> Seq<u8> {
        match self {
            DirEntry::EndOfDirectory(rest) => rest@,
            DirEntry::Unused(_, rest) => rest@,
            DirEntry::Invalid => Seq::new(PAYLOAD_LEN as nat, |i: int| 0u8),
            DirEntry::Bitmap(e) => e.encode(),
            DirEntry::UpcaseTable(e) => e.encode(),
            DirEntry::VolumeLabel(e) => e.encode(),
            DirEntry::File(e) => e.encode(),
            DirEntry::VolumeGuid(e) => e.encode(),
            DirEntry::StreamExtension(e) => e.encode(),
            DirEntry::FileName(e) => e.encode(),
            DirEntry::VendorExtension(e) => e.encode(),
            DirEntry::VendorAllocation(e) => e.encode(),
        }
    }

    /// The 32 bytes of the entry.
    pub open spec fn encode(self) -> Seq<u8> {
        seq![self.type_byte()] + self.payload()
    }

    pub open spec fn is_unused(self) -> bool {
        0 < self.type_byte() < 0x80
    }

    pub open spec fn is_regular(self) -> bool {
        self.type_byte() >= 0x81
    }

    pub open spec fn is_primary(self) -> bool {
        self.type_byte() & 0x40 == 0
    }

    /// Well-formed entries with the same bytes are the same.
    pub proof fn law_encode_injective(a: Self, b: Self)
        requires
            a.wf(),
            b.wf(),
            a.encode() == b.encode(),
        ensures
            a == b,
    {
        assert(a.encode()[0] == a.type_byte());
        assert(b.encode()[0] == b.type_byte());
        assert(a.payload() =~= a.encode().skip(1));
        assert(b.payload() =~= b.encode().skip(1));
        match a {
            DirEntry::EndOfDirectory(x) => {
                assert(b matches DirEntry::EndOfDirectory(y) && x =~= y);
            },
            DirEntry::Unused(_, x) => {
                assert(b matches DirEntry::Unused(_, y) && x =~= y);
            },
            DirEntry::Invalid => {},
            DirEntry::Bitmap(x) => {
                BitmapEntry::law_encode_injective(x, b->Bitmap_0);
            },
            DirEntry::UpcaseTable(x) => {
                UpcaseTableEntry::law_encode_injective(x, b->UpcaseTable_0);
            },
            DirEntry::VolumeLabel(x) => {
                VolumeLabelEntry::law_encode_injective(x, b->VolumeLabel_0);
            },
            DirEntry::File(x) => {
                FileEntry::law_encode_injective(x, b->File_0);
            },
            DirEntry::VolumeGuid(x) => {
                VolumeGuidEntry::law_encode_injective(x, b->VolumeGuid_0);
            },
            DirEntry::StreamExtension(x) => {
                StreamExtensionEntry::law_encode_injective(x, b->StreamExtension_0);
            },
            DirEntry::FileName(x) => {
                FileNameEntry::law_encode_injective(x, b->FileName_0);
            },
            DirEntry::VendorExtension(x) => {
                VendorExtensionEntry::law_encode_injective(x, b->VendorExtension_0);
            },
            DirEntry::VendorAllocation(x) => {
                VendorAllocationEntry::law_encode_injective(x, b->VendorAllocation_0);
            },
        }
    }

    /// Every entry has 32 bytes.
    pub proof fn lemma_encode_len(self)
        ensures
            self.encode().len() == ENTRY_LEN,
    {
    }

    /// Reading back the bytes of a well-formed entry gives the entry.
    pub proof fn law_decode_of_encode(e: Self)
        requires
            e.wf(),
        ensures
            decode(e.encode()) == Some(e),
    {
        let b = e.encode();
        assert(b[0] == e.type_byte());
        if b[0] != 0x80 {
            let d = choose|d: DirEntry| d.wf() && d.encode() == b;
            DirEntry::law_encode_injective(d, e);
        }
    }

    /// The entry that 32 bytes hold. There is one for the types of
    /// `is_entry_type` and for no others.
    pub fn from_bytes(value: [u8; 32]) -> (r: Result<Self, DirEntryError>)
        ensures
            r == decoded(value@),
            r matches Ok(e) ==> e.wf() && e.type_byte() == value@[0] && (value@[0] != 0x80
                ==> e.encode() == value@),
    {
        let t: u8 = value[0];
        let rest = &value[1..32];
        let e = if t == 0x00 {
            DirEntry::EndOfDirectory(array_at::<31>(rest, 0))
        } else if t < 0x80 {
            DirEntry::Unused(t, array_at::<31>(rest, 0))
        } else if t == 0x80 {
            DirEntry::Invalid
        } else if t == 0x81 {
            DirEntry::Bitmap(BitmapEntry::read_from(rest))
        } else if t == 0x82 {
            DirEntry::UpcaseTable(UpcaseTableEntry::read_from(rest))
        } else if t == 0x83 {
            DirEntry::VolumeLabel(VolumeLabelEntry::read_from(rest))
        } else if t == 0x85 {
            DirEntry::File(FileEntry::read_from(rest))
        } else if t == 0xA0 {
            DirEntry::VolumeGuid(VolumeGuidEntry::read_from(rest))
        } else if t == 0xC0 {
            DirEntry::StreamExtension(StreamExtensionEntry::read_from(rest))
        } else if t == 0xC1 {
            DirEntry::FileName(FileNameEntry::read_from(rest))
        } else if t == 0xE0 {
            DirEntry::VendorExtension(VendorExtensionEntry::read_from(rest))
        } else if t == 0xE1 {
            DirEntry::VendorAllocation(VendorAllocationEntry::read_from(rest))
        } else {
            return Err(DirEntryError::InvalidEntry(t));
        };
        proof {
            if t != 0x80 {
                assert(e.payload() =~= rest@);
                assert(e.encode() =~= value@);
                DirEntry::law_decode_of_encode(e);
            }
        }
        Ok(e)
    }

    /// Whether the entry is in use.
    pub fn regular(&self) -> (r: bool)
        ensures
            r == self.is_regular(),
    {
        self.entry_type() >= 0x81
    }

    pub fn primary(&self) -> (r: bool)
        ensures
            r == self.is_primary(),
    {
        let t: u8 = self.entry_type();
        assert((((t & 0x40) >> 6) == 0) == (t & 0x40 == 0)) by (bit_vector);
        ((t & 0x40) >> 6) == 0
    }

    pub fn unused(&self) -> (r: bool)
        ensures
            r == self.is_unused(),
    {
        self.entry_type() > 0x0 && self.entry_type() < 0x80
    }

    /// Retrieves the bytes of the directory entry.
    pub fn bytes(&self) -> (r: [u8; 32])
        ensures
            r@ == self.encode(),
    {
        let mut out: Vec<u8> = Vec::new();
        out.push(self.entry_type());
        match self {
            DirEntry::EndOfDirectory(rest) => push_all(&mut out, rest),
            DirEntry::Unused(_, rest) => push_all(&mut out, rest),
            DirEntry::Invalid => push_all(&mut out, &[0u8; 31]),
            DirEntry::Bitmap(e) => e.push_to(&mut out),
            DirEntry::UpcaseTable(e) => e.push_to(&mut out),
            DirEntry::VolumeLabel(e) => e.push_to(&mut out),
            DirEntry::File(e) => e.push_to(&mut out),
            DirEntry::VolumeGuid(e) => e.push_to(&mut out),
            DirEntry::StreamExtension(e) => e.push_to(&mut out),
            DirEntry::FileName(e) => e.push_to(&mut out),
            DirEntry::VendorExtension(e) => e.push_to(&mut out),
            DirEntry::VendorAllocation(e) => e.push_to(&mut out),
        }
        assert(out@ =~= self.encode());
        assert(out@.len() == 32);
        let r = array_at::<32>(out.as_slice(), 0);
        assert(r@ =~= self.encode());
        r
    }

    pub fn entry_type(&self) -> (r: u8)
        ensures
            r == self.type_byte(),
    {
        match self {
            DirEntry::EndOfDirectory(_) => 0x00,
            DirEntry::Unused(t, _) => *t,
            DirEntry::Invalid => 0x80,
            DirEntry::Bitmap(_) => 0x81,
            DirEntry::UpcaseTable(_) => 0x82,
            DirEntry::VolumeLabel(_) => 0x83,
            DirEntry::File(_) => 0x85,
            DirEntry::VolumeGuid(_) => 0xA0,
            DirEntry::StreamExtension(_) => 0xC0,
            DirEntry::FileName(_) => 0xC1,
            DirEntry::VendorExtension(_) => 0xE0,
            DirEntry::VendorAllocation(_) => 0xE1,
        }
    }

    /// An entry that stands for one of type `t` and is out of use: of the type
    /// without its highest bit, and empty.
    pub fn new_unused(t: u8) -> (r: DirEntry)
        ensures
            r.wf(),
            r.encode() == seq![t & 0x7F] + Seq::new(PAYLOAD_LEN as nat, |i: int| 0u8),
    {
        assert(t & !0x80u8 == t & 0x7F && t & 0x7F < 0x80) by (bit_vector);
        let unused: u8 = t & !0x80u8;
        let rest = [0u8; 31];
        assert(rest@ =~= Seq::new(PAYLOAD_LEN as nat, |i: int| 0u8));
        if unused == 0 {
            DirEntry::EndOfDirectory(rest)
        } else {
            DirEntry::Unused(unused, rest)
        }
    }

    /// The bytes that the checksum covers: all of a secondary entry. The third and
    /// fourth of a primary entry hold the checksum and are left out.
    pub open spec fn checked_bytes(self) -> Seq<u8> {
        let b = self.encode();
        b.take(2) + b.skip(
            if self.is_primary() {
                4
            } else {
                2
            },
        )
    }

    /// Entries of one type that differ in one byte only have the same checksum
    /// where they are primary and the byte is one of the two that hold the
    /// checksum, and different ones everywhere else.
    pub proof fn law_checksum_covers(a: Self, b: Self, input: u16, at: int)
        requires
            a.type_byte() == b.type_byte(),
            1 <= at < ENTRY_LEN,
            a.encode()[at] != b.encode()[at],
            forall|i: int|
                0 <= i < ENTRY_LEN && i != at ==> #[trigger] a.encode()[i] == b.encode()[i],
        ensures
            checksum_of(input, a.checked_bytes()) == checksum_of(input, b.checked_bytes()) <==> (
            a.is_primary() && (at == 2 || at == 3)),
    {
        let x = a.checked_bytes();
        let y = b.checked_bytes();
        a.lemma_encode_len();
        b.lemma_encode_len();
        let skipped: int = if a.is_primary() {
            2
        } else {
            0
        };
        assert forall|i: int| 0 <= i < x.len() implies x[i] == a.encode()[if i < 2 {
            i
        } else {
            i + skipped
        }] && y[i] == b.encode()[if i < 2 {
            i
        } else {
            i + skipped
        }] by {}
        if a.is_primary() && (at == 2 || at == 3) {
            assert(x =~= y);
        } else if at < 2 {
            law_checksum_tells_apart(input, x, y, at);
        } else {
            law_checksum_tells_apart(input, x, y, at - skipped);
        }
    }

    /// The checksum of an entry set after this entry, `input` being that of the
    /// entries before it.
    pub fn checksum(&self, input: u16) -> (r: u16)
        ensures
            r == checksum_of(input, self.checked_bytes()),
    {
        let bytes = self.bytes();

        let start: usize = if self.primary() {
            4
        } else {
            2
        };

        let mut sum: u16 = add_to_checksum(input, bytes[0]);
        sum = add_to_checksum(sum, bytes[1]);
        let ghost covered = self.checked_bytes();
        proof {
            reveal_with_fuel(checksum_of, 3);
            let two = covered.take(2);
            assert(two.drop_last() =~= covered.take(1));
            assert(covered.take(1).drop_last() =~= Seq::empty());
        }
        let mut i: usize = start;
        while i < 32
            invariant
                2 <= start <= i <= 32,
                start == (if self.is_primary() {
                    4int
                } else {
                    2int
                }),
                bytes@ == self.encode(),
                covered == self.checked_bytes(),
                sum == checksum_of(input, covered.take(2 + (i - start))),
            decreases 32 - i,
        {
            sum = add_to_checksum(sum, bytes[i]);
            proof {
                let next = covered.take(2 + (i + 1 - start));
                assert(next.drop_last() =~= covered.take(2 + (i - start)));
                assert(next.last() == bytes@[i as int]);
            }
            i = i + 1;
        }
        assert(covered.take(2 + (32 - start)) =~= covered);
        sum
    }
}

/// `sum` after the byte `b`: rotated right by one bit, then added to, modulo 2^16.
pub open spec fn checksum_step(sum: u16, b: u8) -> u16 {
    ((sum / 2 + (sum % 2) * 0x8000 + b) % 0x1_0000) as u16
}

/// The checksum of the bytes `s`, starting from `input`.
pub open spec fn checksum_of(input: u16, s: Seq<u8>) -> u16
    decreases s.len(),
{
    if s.len() == 0 {
        input
    } else {
        checksum_step(checksum_of(input, s.drop_last()), s.last())
    }
}

/// The checksum of bytes goes on from that of the bytes before them.
pub proof fn law_checksum_goes_on(input: u16, a: Seq<u8>, b: Seq<u8>)
    ensures
        checksum_of(input, a + b) == checksum_of(checksum_of(input, a), b),
    decreases b.len(),
{
    if b.len() == 0 {
        assert(a + b =~= a);
    } else {
        assert((a + b).drop_last() =~= a + b.drop_last());
        law_checksum_goes_on(input, a, b.drop_last());
    }
}

/// Bytes that differ in one place only have different checksums.
pub proof fn law_checksum_tells_apart(input: u16, a: Seq<u8>, b: Seq<u8>, at: int)
    requires
        a.len() == b.len(),
        0 <= at < a.len(),
        a[at] != b[at],
        forall|i: int| 0 <= i < a.len() && i != at ==> a[i] == b[i],
    ensures
        checksum_of(input, a) != checksum_of(input, b),
    decreases a.len(),
{
    let x = checksum_of(input, a.drop_last());
    let y = checksum_of(input, b.drop_last());
    if at == a.len() - 1 {
        assert(a.drop_last() =~= b.drop_last());
    } else {
        assert(a.last() == b.last());
        law_checksum_tells_apart(input, a.drop_last(), b.drop_last(), at);
    }
    lemma_steps_differ(x, y, a.last(), b.last());
}

/// Where either the sums or the bytes differ, and not both, the next sums differ.
proof fn lemma_steps_differ(x: u16, y: u16, a: u8, b: u8)
    requires
        (x == y) != (a == b),
    ensures
        checksum_step(x, a) != checksum_step(y, b),
{
}

fn add_to_checksum(sum: u16, b: u8) -> (r: u16)
    ensures
        r == checksum_step(sum, b),
{
    let rotated: u16 = sum / 2 + (sum % 2) * 0x8000;
    rotated.wrapping_add(b as u16)
}

/// An entry that says which clusters belong to something.
pub trait ClusterAllocation {
    spec fn is_valid(&self) -> bool;

    fn valid(&self) -> (r: bool)
        ensures
            r == self.is_valid(),
    ;
}

impl BitmapEntry {
    /// The entry of the only allocation bitmap, which has `data_len` bytes and
    /// begins where data begins.
    pub fn new(data_len: u64) -> (r: Self)
        ensures
            r.flags == 0,
            r._reserved@ == Seq::new(18, |i: int| 0u8),
            r.first_cluster == FIRST_USABLE_CLUSTER_INDEX,
            r.data_len == data_len,
    {
        let r = BitmapEntry {
            flags: 0,
            _reserved: [0u8; 18],
            first_cluster: FIRST_USABLE_CLUSTER_INDEX,
            data_len,
        };
        assert(r._reserved@ =~= Seq::new(18, |i: int| 0u8));
        r
    }

    /// Which of the bitmaps this is.
    pub fn index(&self) -> (r: u8)
        ensures
            r == self.flags & 1,
    {
        self.flags & 1
    }
}

impl ClusterAllocation for BitmapEntry {
    open spec fn is_valid(&self) -> bool {
        self.first_cluster >= 2
    }

    fn valid(&self) -> (r: bool) {
        !(self.first_cluster == 0 && self.data_len != 0 || self.first_cluster < 2)
    }
}

impl UpcaseTableEntry {
    /// The entry of the default up-case table, where it begins at `first_cluster`.
    pub fn new(first_cluster: u32) -> (r: Self)
        ensures
            r._reserved1@ == Seq::new(3, |i: int| 0u8),
            r.table_checksum == DEFAULT_UPCASE_TABLE_CHECKSUM,
            r._reserved2@ == Seq::new(12, |i: int| 0u8),
            r.first_cluster == first_cluster,
            r.data_len == DEFAULT_UPCASE_TABLE_LEN,
    {
        let r = UpcaseTableEntry {
            _reserved1: [0u8; 3],
            table_checksum: DEFAULT_UPCASE_TABLE_CHECKSUM,
            _reserved2: [0u8; 12],
            first_cluster,
            data_len: DEFAULT_UPCASE_TABLE_LEN,
        };
        assert(r._reserved1@ =~= Seq::new(3, |i: int| 0u8));
        assert(r._reserved2@ =~= Seq::new(12, |i: int| 0u8));
        r
    }
}

impl ClusterAllocation for UpcaseTableEntry {
    open spec fn is_valid(&self) -> bool {
        self.first_cluster >= 2
    }

    fn valid(&self) -> (r: bool) {
        !(self.first_cluster == 0 && self.data_len != 0 || self.first_cluster < 2)
    }
}

impl VolumeLabelEntry {
    pub fn new(label: Label) -> (r: Self)
        ensures
            r.character_count == label.1,
            r.volume_label == label.0,
            r._reserved == 0,
    {
        VolumeLabelEntry { character_count: label.1, volume_label: label.0, _reserved: 0 }
    }
}

impl VolumeGuidEntry {
    /// The entry for `volume_guid`, with its checksum filled in.
    pub fn new(volume_guid: u128) -> (r: Self)
        ensures
            r.secondary_count == 0,
            r.general_primary_flag == 0,
            r.volume_guid == volume_guid,
            r._reserved@ == Seq::new(10, |i: int| 0u8),
            r.set_checksum == checksum_of(0, DirEntry::VolumeGuid(r).checked_bytes()),
    {
        let mut instance = VolumeGuidEntry {
            secondary_count: 0,
            set_checksum: 0,
            general_primary_flag: 0,
            volume_guid,
            _reserved: [0u8; 10],
        };
        assert(instance._reserved@ =~= Seq::new(10, |i: int| 0u8));
        let entry = DirEntry::VolumeGuid(instance);
        let checksum: u16 = entry.checksum(0);
        instance.set_checksum = checksum;
        proof {
            assert(0xA0u8 & 0x40 == 0) by (bit_vector);
            assert(DirEntry::VolumeGuid(instance).checked_bytes() =~= entry.checked_bytes());
        }
        instance
    }
}

impl ClusterAllocation for StreamExtensionEntry {
    open spec fn is_valid(&self) -> bool {
        &&& self.first_cluster == 0 && self.data_len == 0 || self.first_cluster >= 2
        &&& self.general_secondary_flags.may_allocate()
        &&& self.name_length > 0
        &&& self.valid_data_length <= self.data_len
    }

    fn valid(&self) -> (r: bool) {
        ((self.first_cluster == 0 && self.data_len == 0) || self.first_cluster >= 2)
            && self.general_secondary_flags.allocation_possible() && self.name_length > 0
            && self.valid_data_length <= self.data_len
    }
}

} // verus!
