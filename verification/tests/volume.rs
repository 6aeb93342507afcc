use std::sync::Arc;

use exfat_fs::boot_sector::BootSector;
use exfat_fs::cluster::{ClusterChainOptions, ClusterChainReader};
use exfat_fs::disk::{PartitionError, ReadOffset, SeekFrom};
use exfat_fs::entry::reader::DirEntryReader;
use exfat_fs::entry::{
    BitmapEntry, DirEntry, FileAttributes, FileEntry, FileNameEntry, GeneralSecondaryFlags,
    StreamExtensionEntry, UpcaseTableEntry, VendorExtensionEntry, VolumeGuidEntry,
    VolumeLabelEntry,
};
use exfat_fs::error::{
    ClusterChainError, DirEntryError, DirectoryError, EntryReaderError, FatError, FileParserError,
    InvalidSeek, RootError,
};
use exfat_fs::fat::Fat;
use exfat_fs::fs::directory::Directory;
use exfat_fs::fs::file::File;
use exfat_fs::fs::FsElement;
use exfat_fs::label::Label;
use exfat_fs::raw_root::RawRoot;
use exfat_fs::root::Root;
use exfat_fs::timestamp::{Timestamp, Timestamps};

#[derive(Debug, PartialEq, Eq)]
enum DiskError {
    Ended,
    NoCluster(u32),
    Broken,
}

impl PartitionError for DiskError {
    fn unexpected_eop() -> Self {
        DiskError::Ended
    }

    fn cluster_not_found(cluster: u32) -> Self {
        DiskError::NoCluster(cluster)
    }
}

/// A volume in memory. It hands over at most `step` bytes at a time, and what
/// begins in the bad cluster cannot be read.
#[derive(Clone)]
struct Image {
    bytes: Vec<u8>,
    step: usize,
    bad: usize,
}

impl ReadOffset for Image {
    type Err = DiskError;

    fn read_at(&self, offset: u64, buffer: &mut [u8]) -> Result<usize, DiskError> {
        if offset >= self.bytes.len() as u64 {
            return Ok(0);
        }
        let start = offset as usize;
        if start / 512 == self.bad {
            return Err(DiskError::Broken);
        }
        let n = buffer.len().min(self.step).min(self.bytes.len() - start);
        buffer[..n].copy_from_slice(&self.bytes[start..start + n]);
        Ok(n)
    }
}

const END: u32 = 0xFFFF_FFFF;

impl Image {
    /// Sectors and clusters of 512 bytes. The cluster `k` begins at byte
    /// `512 * k`; there are 20 of them. The root directory is cluster 4.
    fn new() -> Image {
        let mut image = Image { bytes: vec![0; 512 * 22], step: 100, bad: 1000 };
        image.put(3, b"EXFAT   ");
        image.put32(80, 1);
        image.put32(84, 1);
        image.put32(88, 2);
        image.put32(92, 20);
        image.put32(96, 4);
        image.bytes[108] = 9;
        image.bytes[109] = 0;
        image.bytes[110] = 1;
        image.link(4, END);
        image
    }

    fn put(&mut self, at: usize, data: &[u8]) {
        self.bytes[at..at + data.len()].copy_from_slice(data);
    }

    fn put32(&mut self, at: usize, v: u32) {
        self.put(at, &v.to_le_bytes());
    }

    fn link(&mut self, cluster: usize, next: u32) {
        self.put32(512 + 4 * cluster, next);
    }

    fn entries(&mut self, cluster: usize, entries: &[DirEntry]) {
        for (i, e) in entries.iter().enumerate() {
            self.put(512 * cluster + 32 * i, &e.bytes());
        }
    }

    fn with_root(entries: &[DirEntry]) -> Image {
        let mut image = Image::new();
        image.entries(4, entries);
        image
    }
}

fn label() -> Label {
    let mut units = [0u8; 22];
    units[0] = b'V';
    units[2] = b'o';
    units[4] = b'l';
    Label(units, 3)
}

fn bitmap(index: u8) -> DirEntry {
    let mut e = BitmapEntry::new(3);
    e.flags = index;
    DirEntry::Bitmap(e)
}

fn table() -> DirEntry {
    DirEntry::UpcaseTable(UpcaseTableEntry::new(3))
}

fn label_entry() -> DirEntry {
    DirEntry::VolumeLabel(VolumeLabelEntry::new(label()))
}

fn file_entry(count: u8, attributes: u16) -> DirEntry {
    let mut e = FileEntry::default();
    e.secondary_count = count;
    e.file_attributes = FileAttributes(attributes);
    e.create_timestamp = 77;
    e.create_utc_offset = 0x88;
    DirEntry::File(e)
}

fn times() -> Timestamps {
    Timestamps::new(Timestamp::new(77, 0, 8), Timestamp::new(0, 0, 0), Timestamp::new(0, 0, 0))
}

fn stream(name_length: u8, flags: u8, first_cluster: u32, len: u64) -> StreamExtensionEntry {
    StreamExtensionEntry {
        general_secondary_flags: GeneralSecondaryFlags(flags),
        name_length,
        valid_data_length: len,
        first_cluster,
        data_len: len,
        ..StreamExtensionEntry::default()
    }
}

fn name_entry(name: &str) -> DirEntry {
    let mut e = FileNameEntry::default();
    for (i, unit) in name.encode_utf16().enumerate() {
        e.file_name[2 * i] = (unit & 0xFF) as u8;
        e.file_name[2 * i + 1] = (unit >> 8) as u8;
    }
    DirEntry::FileName(e)
}

fn item(name: &str, attributes: u16, flags: u8, first_cluster: u32, len: u64) -> Vec<DirEntry> {
    vec![
        file_entry(2, attributes),
        DirEntry::StreamExtension(stream(name.len() as u8, flags, first_cluster, len)),
        name_entry(name),
    ]
}

fn fault(image: Image) -> RootError<DiskError> {
    match Root::open(image) {
        Ok(_) => panic!("the volume was opened"),
        Err(e) => e,
    }
}

fn root_fault(entries: &[DirEntry]) -> RootError<DiskError> {
    fault(Image::with_root(entries))
}

/// What a file holds, read `step` bytes at a time.
fn contents(file: &mut File<Image>, step: usize) -> Vec<u8> {
    let mut all = Vec::new();
    let mut buffer = vec![0u8; step];
    loop {
        let n = file.read(&mut buffer).unwrap();
        if n == 0 {
            return all;
        }
        all.extend_from_slice(&buffer[..n]);
    }
}

/// A volume with a file in two clusters that are not adjacent, a contiguous
/// file, an empty file, and a directory that holds a file.
fn full() -> Image {
    let mut entries = vec![label_entry(), DirEntry::new_unused(0xA0), bitmap(0), table()];
    entries.extend(item("linked", 0, 1, 5, 600));
    entries.extend(item("row", 0x20, 3, 8, 700));
    entries.extend(item("none", 0, 1, 0, 0));
    let mut image = Image::with_root(&entries);
    image.link(4, 6);
    image.link(6, END);
    // the root directory goes on in cluster 6, behind three unused entries
    image.entries(4, &[]);
    for i in 13..16 {
        image.put(512 * 4 + 32 * i, &DirEntry::new_unused(0x85).bytes());
    }
    image.entries(6, &item("dir", 0x10, 1, 10, 512));
    image.link(10, END);
    image.entries(10, &item("inner", 0, 1, 12, 4));
    image.link(12, END);
    image.put(512 * 12, b"deep");
    image.link(5, 7);
    image.link(7, END);
    for i in 0..512 {
        image.bytes[512 * 5 + i] = i as u8;
        image.bytes[512 * 7 + i] = 200;
        image.bytes[512 * 8 + i] = 1;
        image.bytes[512 * 9 + i] = 2;
    }
    image
}

fn file_at(root: &mut Root<Image>, i: usize) -> &mut File<Image> {
    match &mut root.items()[i] {
        FsElement::F(file) => file,
        FsElement::D(_) => panic!("a directory"),
    }
}

fn directory_at(root: &mut Root<Image>, i: usize) -> &Directory<Image> {
    match &mut root.items()[i] {
        FsElement::D(directory) => directory,
        FsElement::F(_) => panic!("a file"),
    }
}

#[test]
fn volume_lists_its_root() {
    let mut root = Root::open(full()).ok().unwrap();
    assert_eq!(root.label(), Some(&label()));
    assert_eq!(root.items().len(), 4);
    assert_eq!(file_at(&mut root, 0).name(), "linked");
    assert_eq!(file_at(&mut root, 0).len(), 600);
    assert!(!file_at(&mut root, 0).is_empty());
    assert_eq!(file_at(&mut root, 0).timestamps(), &times());
    assert_eq!(file_at(&mut root, 1).name(), "row");
    assert_eq!(file_at(&mut root, 2).name(), "none");
    assert!(file_at(&mut root, 2).is_empty());
    assert_eq!(directory_at(&mut root, 3).name(), "dir");
    assert_eq!(directory_at(&mut root, 3).timestamps(), &times());
}

#[test]
fn files_give_their_contents() {
    let mut root = Root::open(full()).ok().unwrap();
    let mut linked: Vec<u8> = (0..512).map(|i| i as u8).collect();
    linked.extend(vec![200; 88]);
    let mut row = vec![1; 512];
    row.extend(vec![2; 188]);
    for step in [1, 7, 512, 513, 2000] {
        assert_eq!(contents(file_at(&mut root, 0), step), linked);
        assert_eq!(contents(file_at(&mut root, 1), step), row);
        file_at(&mut root, 0).rewind();
        file_at(&mut root, 1).rewind();
        assert_eq!(contents(file_at(&mut root, 2), step), Vec::<u8>::new());
    }
}

#[test]
fn reads_stop_where_clusters_do() {
    let mut root = Root::open(full()).ok().unwrap();
    let file = file_at(&mut root, 0);
    let mut buffer = [9u8; 700];
    assert_eq!(file.read(&mut []), Ok(0));
    assert_eq!(file.read(&mut buffer), Ok(512));
    assert_eq!(buffer[511], 255);
    assert_eq!(buffer[512], 9);
    assert_eq!(file.stream_position(), 512);
    assert_eq!(file.read(&mut buffer), Ok(88));
    assert_eq!(file.read(&mut buffer), Ok(0));
    assert_eq!(file.stream_position(), 600);
}

#[test]
fn directories_list_what_they_hold() {
    let mut root = Root::open(full()).ok().unwrap();
    let mut inner = directory_at(&mut root, 3).open().ok().unwrap();
    assert_eq!(inner.len(), 1);
    match &mut inner[0] {
        FsElement::F(file) => {
            assert_eq!(file.name(), "inner");
            assert_eq!(contents(file, 3), b"deep".to_vec());
        },
        FsElement::D(_) => panic!("a directory"),
    }
}

#[test]
fn seek_within_a_file() {
    let mut root = Root::open(full()).ok().unwrap();
    let file = file_at(&mut root, 0);
    assert_eq!(file.seek(SeekFrom::Start(10)), Ok(10));
    assert_eq!(file.stream_position(), 10);
    let mut one = [0u8; 1];
    assert_eq!(file.read(&mut one), Ok(1));
    assert_eq!(one, [10]);
    assert_eq!(file.seek(SeekFrom::Current(-11)), Ok(0));
    assert_eq!(file.seek(SeekFrom::Current(-1)), Err(InvalidSeek));
    assert_eq!(file.stream_position(), 0);
    assert_eq!(file.seek(SeekFrom::Current(i64::MIN)), Err(InvalidSeek));
    assert_eq!(file.seek(SeekFrom::Current(i64::MAX)), Ok(600));
    assert_eq!(file.seek(SeekFrom::Current(0)), Ok(600));
    assert_eq!(file.seek(SeekFrom::End(-600)), Ok(0));
    assert_eq!(file.seek(SeekFrom::End(-601)), Err(InvalidSeek));
    assert_eq!(file.seek(SeekFrom::End(i64::MIN)), Err(InvalidSeek));
    assert_eq!(file.seek(SeekFrom::End(5)), Ok(600));
    assert_eq!(file.seek(SeekFrom::Start(u64::MAX)), Ok(600));
    file.rewind();
    assert_eq!(file.stream_position(), 0);
    assert_eq!(file.seek(SeekFrom::Start(0)), Ok(0));
}

#[test]
fn seek_in_a_file_without_clusters() {
    let mut root = Root::open(full()).ok().unwrap();
    let file = file_at(&mut root, 2);
    assert_eq!(file.seek(SeekFrom::Start(10)), Ok(0));
    assert_eq!(file.seek(SeekFrom::End(-10)), Ok(0));
    assert_eq!(file.seek(SeekFrom::Current(-10)), Ok(0));
    file.rewind();
    assert_eq!(file.stream_position(), 0);
    assert_eq!(file.read(&mut [0u8; 4]), Ok(0));
}

#[test]
fn clones_read_on_their_own() {
    let mut root = Root::open(full()).ok().unwrap();
    let file = file_at(&mut root, 0);
    assert_eq!(file.seek(SeekFrom::Start(100)), Ok(100));
    let mut copy = file.clone();
    assert_eq!(copy.name(), "linked");
    assert_eq!(copy.len(), 600);
    assert_eq!(copy.stream_position(), 100);
    assert_eq!(contents(&mut copy, 64).len(), 500);
    assert_eq!(file.stream_position(), 100);
    let mut none = file_at(&mut root, 2).clone();
    assert_eq!(none.read(&mut [0u8; 4]), Ok(0));
}

#[test]
fn device_errors_reach_the_reader() {
    let mut image = full();
    image.bad = 7;
    let mut root = Root::open(image).ok().unwrap();
    let file = file_at(&mut root, 0);
    let mut buffer = [0u8; 600];
    assert_eq!(file.read(&mut buffer), Ok(512));
    assert_eq!(file.read(&mut buffer), Err(DiskError::Broken));
    assert_eq!(file.stream_position(), 512);
}

#[test]
fn contiguous_clusters_can_leave_the_volume() {
    let mut entries = vec![bitmap(0), table()];
    entries.extend(item("long", 0, 3, 21, 600));
    let mut root = Root::open(Image::with_root(&entries)).ok().unwrap();
    let file = file_at(&mut root, 0);
    let mut buffer = [0u8; 600];
    assert_eq!(file.read(&mut buffer), Ok(512));
    assert_eq!(file.read(&mut buffer), Err(DiskError::NoCluster(22)));
}

#[test]
fn new_root_is_read_back() {
    let raw = RawRoot::new(label(), None, 3, 5).bytes();
    assert_eq!(raw.len(), 128);
    assert_eq!(raw[0], 0x83);
    assert_eq!(raw[32], 0x20);
    assert_eq!(raw[64], 0x81);
    assert_eq!(raw[96], 0x82);
    let mut image = Image::new();
    image.put(512 * 4, &raw);
    let mut root = Root::open(image).ok().unwrap();
    assert_eq!(root.label(), Some(&label()));
    assert_eq!(root.items().len(), 0);
}

#[test]
fn new_root_bytes() {
    let raw = RawRoot::new(label(), Some(0x0011_2233_4455_6677_8899_AABB_CCDD_EEFF), 3, 5).bytes();
    let mut expected = vec![0u8; 128];
    expected[0] = 0x83;
    expected[1] = 3;
    expected[2] = b'V';
    expected[4] = b'o';
    expected[6] = b'l';
    expected[32] = 0xA0;
    expected[34] = 0xFF;
    expected[35] = 0x7C;
    for i in 0..16 {
        expected[38 + i] = 0xFF - 0x11 * i as u8;
    }
    expected[64] = 0x81;
    expected[84] = 2;
    expected[88] = 3;
    expected[96] = 0x82;
    expected[100] = 0x0D;
    expected[101] = 0xD3;
    expected[102] = 0x19;
    expected[103] = 0xE6;
    expected[116] = 5;
    expected[120] = 0xCC;
    expected[121] = 0x16;
    assert_eq!(raw, expected);
}

#[test]
fn new_root_with_identifier_is_refused() {
    let mut image = Image::new();
    image.put(512 * 4, &RawRoot::new(label(), Some(1), 3, 5).bytes());
    assert_eq!(fault(image), RootError::UnexpectedRootEntry(0xA0));
}

#[test]
fn boot_sector_fields() {
    let image = Image::new();
    let boot = BootSector::parse(&image.bytes[..512]);
    assert_eq!(
        boot,
        BootSector {
            filesystem_name: *b"EXFAT   ",
            fat_offset: 1,
            fat_length: 1,
            cluster_heap_offset: 2,
            cluster_count: 20,
            first_cluster_of_root_directory: 4,
            volume_flags: 0,
            bytes_per_sector_shift: 9,
            sectors_per_cluster_shift: 0,
            number_of_fats: 1,
        }
    );
    let counting: Vec<u8> = (0..512).map(|i| i as u8).collect();
    let boot = BootSector::parse(&counting);
    assert_eq!(boot.filesystem_name, [3, 4, 5, 6, 7, 8, 9, 10]);
    assert_eq!(boot.fat_offset, 0x5352_5150);
    assert_eq!(boot.fat_length, 0x5756_5554);
    assert_eq!(boot.cluster_heap_offset, 0x5B5A_5958);
    assert_eq!(boot.cluster_count, 0x5F5E_5D5C);
    assert_eq!(boot.first_cluster_of_root_directory, 0x6362_6160);
    assert_eq!(boot.volume_flags, 0x6B6A);
    assert_eq!(boot.bytes_per_sector_shift, 0x6C);
    assert_eq!(boot.sectors_per_cluster_shift, 0x6D);
    assert_eq!(boot.number_of_fats, 0x6E);
}

#[test]
fn boot_sector_places() {
    let mut boot = BootSector::parse(&Image::new().bytes[..512]);
    assert_eq!(boot.cluster_bytes(), 512);
    assert_eq!(boot.cluster_offset(1), None);
    assert_eq!(boot.cluster_offset(2), Some(1024));
    assert_eq!(boot.cluster_offset(21), Some(512 * 21));
    assert_eq!(boot.cluster_offset(22), None);
    assert_eq!(boot.fat_byte_offset(), 512);
    boot.bytes_per_sector_shift = 12;
    boot.sectors_per_cluster_shift = 13;
    boot.cluster_count = u32::MAX;
    boot.volume_flags = 1;
    boot.fat_offset = u32::MAX;
    boot.fat_length = u32::MAX;
    assert_eq!(boot.cluster_bytes(), 33_554_432);
    assert_eq!(boot.cluster_offset(u32::MAX), Some(8192 + 33_554_432 * 4_294_967_293));
    assert_eq!(boot.fat_byte_offset(), 4096 * 2 * 4_294_967_295);
}

#[test]
fn boot_sector_faults() {
    let mut image = full();
    image.bad = 0;
    assert_eq!(fault(image), RootError::Io(DiskError::Broken));
    let mut image = full();
    image.bytes.truncate(511);
    assert_eq!(fault(image), RootError::Io(DiskError::Ended));
    let mut image = full();
    image.put(3, b"EXFAT  !");
    assert_eq!(fault(image), RootError::WrongFs);
    for shift in [0, 8, 13, 255] {
        let mut image = full();
        image.bytes[108] = shift;
        assert_eq!(fault(image), RootError::InvalidBytesPerSectorShift(shift));
    }
    let mut image = full();
    image.bytes[109] = 17;
    assert_eq!(fault(image), RootError::InvalidSectorsPerClusterShift(17));
    for (number, flags) in [(0, 0), (3, 0), (1, 1), (2, 0)] {
        let mut image = full();
        image.bytes[110] = number;
        image.bytes[106] = flags;
        assert_eq!(fault(image), RootError::InvalidNumberOfFats(number));
    }
}

#[test]
fn fat_and_root_cluster_faults() {
    let mut image = full();
    image.bad = 1;
    assert_eq!(fault(image), RootError::Fat(FatError::Io(DiskError::Broken)));
    let mut image = full();
    image.bytes.truncate(599);
    assert_eq!(fault(image), RootError::Fat(FatError::Io(DiskError::Ended)));
    for cluster in [0, 1, 22, END] {
        let mut image = full();
        image.put32(96, cluster);
        assert_eq!(fault(image), RootError::InvalidRootDirectoryClusterIndex(cluster));
    }
    let mut image = full();
    image.link(6, 4);
    assert_eq!(fault(image), RootError::ClusterChain(ClusterChainError::CyclicChain(4)));
}

#[test]
fn second_fat_is_used_where_it_is_active() {
    let entries = [bitmap(0), bitmap(1), table()];
    let mut image = Image::new();
    image.bytes[110] = 2;
    image.bytes[106] = 1;
    // the second FAT fills cluster 2
    image.put32(88, 2);
    image.put32(1024 + 4 * 4, END);
    image.link(4, 4);
    image.entries(4, &entries);
    let mut root = Root::open(image).ok().unwrap();
    assert_eq!(root.label(), None);
    assert_eq!(root.items().len(), 0);
    let mut image = Image::new();
    image.bytes[110] = 2;
    image.bytes[106] = 1;
    image.put32(1024 + 4 * 4, END);
    image.entries(4, &[bitmap(0), table()]);
    assert_eq!(fault(image), RootError::InvalidNumberOfAllocationBitmaps);
}

#[test]
fn root_entry_faults() {
    assert_eq!(root_fault(&[]), RootError::InvalidNumberOfAllocationBitmaps);
    assert_eq!(root_fault(&[table()]), RootError::InvalidNumberOfAllocationBitmaps);
    assert_eq!(root_fault(&[bitmap(0)]), RootError::InvalidNumberOfUpcaseTables);
    assert_eq!(
        root_fault(&[bitmap(0), bitmap(1), bitmap(0)]),
        RootError::InvalidNumberOfAllocationBitmaps
    );
    assert_eq!(root_fault(&[bitmap(1)]), RootError::InvalidAllocationBitmap);
    assert_eq!(root_fault(&[bitmap(0), bitmap(0)]), RootError::InvalidAllocationBitmap);
    let mut low = BitmapEntry::new(3);
    low.first_cluster = 1;
    assert_eq!(root_fault(&[DirEntry::Bitmap(low)]), RootError::InvalidAllocationBitmap);
    assert_eq!(root_fault(&[table(), table()]), RootError::InvalidNumberOfUpcaseTables);
    assert_eq!(
        root_fault(&[DirEntry::UpcaseTable(UpcaseTableEntry::new(1))]),
        RootError::InvalidUpcaseTable
    );
    assert_eq!(root_fault(&[label_entry(), label_entry()]), RootError::InvalidNumberOfVolumeLabels);
    assert_eq!(
        root_fault(&[DirEntry::VolumeLabel(VolumeLabelEntry::new(Label([0; 22], 12)))]),
        RootError::InvalidVolumeLabel
    );
    assert_eq!(
        root_fault(&[DirEntry::VendorExtension(VendorExtensionEntry::default())]),
        RootError::RootEntryNotPrimary(0xE0)
    );
    assert_eq!(
        root_fault(&[DirEntry::VolumeGuid(VolumeGuidEntry::new(1))]),
        RootError::UnexpectedRootEntry(0xA0)
    );
    // an invalid entry ends the list
    assert_eq!(
        root_fault(&[bitmap(0), DirEntry::Invalid, table()]),
        RootError::InvalidNumberOfUpcaseTables
    );
}

#[test]
fn root_reader_faults() {
    let mut image = Image::with_root(&[bitmap(0), table()]);
    image.bytes[512 * 4 + 64] = 0x84;
    assert_eq!(
        fault(image),
        RootError::Reader(EntryReaderError::Entry(DirEntryError::InvalidEntry(0x84)))
    );
    // a root directory without an end
    let image = Image::with_root(&[DirEntry::new_unused(0x85); 16]);
    assert_eq!(fault(image), RootError::Reader(EntryReaderError::Io(DiskError::Ended)));
    let mut image = full();
    image.bad = 6;
    assert_eq!(fault(image), RootError::Reader(EntryReaderError::Io(DiskError::Broken)));
}

#[test]
fn root_label_is_optional_and_second_bitmap_is_allowed() {
    let mut root = Root::open(Image::with_root(&[table(), bitmap(0), bitmap(1)])).ok().unwrap();
    assert_eq!(root.label(), None);
    assert_eq!(root.items().len(), 0);
}

#[test]
fn file_faults() {
    let parser = |e| RootError::FileParser(e);
    assert_eq!(root_fault(&[file_entry(0, 0)]), parser(FileParserError::NoStreamExtension));
    assert_eq!(root_fault(&[file_entry(1, 0)]), parser(FileParserError::NoFileName));
    assert_eq!(
        root_fault(&[file_entry(2, 0), name_entry("a")]),
        parser(FileParserError::NoStreamExtension)
    );
    let mut entries = item("a", 0, 1, 0, 0);
    entries[2] = table();
    assert_eq!(root_fault(&entries), parser(FileParserError::NoFileName));
    assert_eq!(
        root_fault(&item("a", 0, 1, 1, 0)),
        parser(FileParserError::InvalidStreamExtension)
    );
    let mut entries = item("a", 0x10, 1, 5, 9);
    let mut s = stream(1, 1, 5, 9);
    s.valid_data_length = 8;
    entries[1] = DirEntry::StreamExtension(s);
    assert_eq!(root_fault(&entries), parser(FileParserError::InvalidStreamExtension));
    let mut entries = item("a", 0, 1, 0, 0);
    entries[0] = file_entry(3, 0);
    entries.push(name_entry("b"));
    assert_eq!(root_fault(&entries), parser(FileParserError::WrongFileNameEntries));
    let mut entries = item("a", 0, 1, 0, 0);
    let mut claims = FileNameEntry::default();
    claims.general_secondary_flags = GeneralSecondaryFlags(1);
    entries[2] = DirEntry::FileName(claims);
    assert_eq!(root_fault(&entries), parser(FileParserError::InvalidFileName));
    let mut image = Image::with_root(&item("a", 0, 1, 0, 0));
    image.bytes[512 * 4 + 32] = 0xFF;
    assert_eq!(
        fault(image),
        parser(FileParserError::Reader(EntryReaderError::Entry(DirEntryError::InvalidEntry(0xFF))))
    );
}

#[test]
fn file_cluster_faults() {
    let chain = |e| RootError::ClusterChain(e);
    assert_eq!(
        root_fault(&item("a", 0, 1, 22, 1)),
        chain(ClusterChainError::InvalidFirstCluster(22))
    );
    assert_eq!(
        root_fault(&item("a", 0, 1, 5, 513)),
        chain(ClusterChainError::InvalidDataLength(513))
    );
    let mut image = Image::with_root(&item("a", 0, 1, 5, 5));
    image.link(5, 5);
    assert_eq!(fault(image), chain(ClusterChainError::CyclicChain(5)));
    let long = 512 * 0x1_0000_0000;
    assert_eq!(
        root_fault(&item("a", 0, 3, 5, long)),
        chain(ClusterChainError::InvalidDataLength(long))
    );
}

fn directory_fault(entries: &[DirEntry], first_cluster: u32, len: u64) -> DirectoryError<DiskError> {
    let mut root = vec![bitmap(0), table()];
    root.extend(item("dir", 0x10, 1, first_cluster, len));
    let mut image = Image::with_root(&root);
    image.entries(10, entries);
    let mut root = Root::open(image).ok().unwrap();
    match directory_at(&mut root, 0).open() {
        Ok(_) => panic!("the directory was opened"),
        Err(e) => e,
    }
}

#[test]
fn directory_faults() {
    assert_eq!(
        directory_fault(&[], 0, 0),
        DirectoryError::ClusterChain(ClusterChainError::InvalidFirstCluster(0))
    );
    assert_eq!(directory_fault(&[name_entry("a")], 10, 512), DirectoryError::NotPrimaryEntry(0xC1));
    assert_eq!(directory_fault(&[bitmap(0)], 10, 512), DirectoryError::NotFileEntry(0x81));
    assert_eq!(
        directory_fault(&[file_entry(1, 0)], 10, 512),
        DirectoryError::FileParser(FileParserError::NoFileName)
    );
    assert_eq!(
        directory_fault(&item("a", 0, 1, 30, 5), 10, 512),
        DirectoryError::ClusterChain(ClusterChainError::InvalidFirstCluster(30))
    );
    // the bytes of the directory end before the list does
    assert_eq!(
        directory_fault(&[DirEntry::new_unused(0x85)], 10, 40),
        DirectoryError::Reader(EntryReaderError::Io(DiskError::Ended))
    );
    assert_eq!(
        directory_fault(&[file_entry(2, 0)], 10, 32),
        DirectoryError::FileParser(FileParserError::Reader(EntryReaderError::Io(DiskError::Ended)))
    );
}

#[test]
fn chains_of_the_fat() {
    let mut image = full();
    image.link(14, 15);
    image.link(15, 14);
    let boot = BootSector::parse(&image.bytes[..512]);
    let fat = Fat::load(&image, &boot).unwrap();
    assert_eq!(fat.chain(5), Some(vec![5, 7]));
    assert_eq!(fat.chain(4), Some(vec![4, 6]));
    // free clusters have nothing behind them
    assert_eq!(fat.chain(20), Some(vec![20]));
    assert_eq!(fat.chain(14), None);
}

#[test]
fn cluster_readers() {
    let image = full();
    let boot = Arc::new(BootSector::parse(&image.bytes[..512]));
    let fat = Fat::load(&image, &boot).unwrap();
    let disk = Arc::new(image);
    let mut whole = ClusterChainReader::try_new(
        boot.clone(),
        &fat,
        5,
        ClusterChainOptions::default(),
        disk.clone(),
    )
    .ok()
    .unwrap();
    assert_eq!(whole.data_length(), 1024);
    assert!(whole.seek(1024));
    assert!(!whole.seek(1025));
    assert_eq!(whole.stream_position(), 1024);
    assert!(whole.seek(510));
    let mut buffer = [0u8; 4];
    assert_eq!(whole.read(&mut buffer), Ok(2));
    assert_eq!(buffer, [254, 255, 0, 0]);
    let mut copy = whole.clone();
    assert_eq!(copy.read(&mut buffer), Ok(4));
    assert_eq!(buffer, [200; 4]);
    whole.rewind();
    assert_eq!(whole.stream_position(), 0);
    assert_eq!(copy.stream_position(), 516);
}

#[test]
fn unused_entries_and_what_follows_the_end_are_ignored() {
    let unused = DirEntry::new_unused(0x85);
    let end = DirEntry::EndOfDirectory([7; 31]);
    let mut entries = vec![unused, bitmap(0), unused, unused, table()];
    entries.extend(item("a", 0, 1, 0, 0));
    entries.push(unused);
    entries.push(end);
    entries.push(name_entry("x"));
    let mut root = Root::open(Image::with_root(&entries)).ok().unwrap();
    assert_eq!(root.items().len(), 1);
    let mut top = vec![bitmap(0), table()];
    top.extend(item("dir", 0x10, 3, 10, 512));
    let mut image = Image::with_root(&top);
    image.entries(10, &[unused, unused, end, bitmap(0)]);
    let mut root = Root::open(image).ok().unwrap();
    assert_eq!(directory_at(&mut root, 0).open().ok().unwrap().len(), 0);
}

fn entry_reader(image: Image, first_cluster: u32, len: u64) -> DirEntryReader<Image> {
    let boot = Arc::new(BootSector::parse(&image.bytes[..512]));
    let fat = Fat::load(&image, &boot).unwrap();
    let options = ClusterChainOptions::Contiguous { data_length: len };
    let reader = ClusterChainReader::try_new(boot, &fat, first_cluster, options, Arc::new(image));
    DirEntryReader::from(reader.ok().unwrap())
}

#[test]
fn entries_are_read_on_after_one_that_is_none() {
    let mut image = Image::new();
    image.entries(10, &[bitmap(0), label_entry(), table()]);
    image.bytes[512 * 10 + 32] = 0x84;
    let mut reader = entry_reader(image, 10, 100);
    assert_eq!(reader.read(), Ok(bitmap(0)));
    let none = EntryReaderError::Entry(DirEntryError::InvalidEntry(0x84));
    assert_eq!(reader.read(), Err(none));
    assert_eq!(reader.read(), Ok(table()));
    // there is no room for another, however often it is asked for
    assert_eq!(reader.read(), Err(EntryReaderError::Io(DiskError::Ended)));
    assert_eq!(reader.read(), Err(EntryReaderError::Io(DiskError::Ended)));
}

#[test]
fn entries_that_cannot_be_read_are_not_passed_over() {
    let mut image = Image::new();
    image.entries(10, &[DirEntry::new_unused(0x85); 16]);
    image.bad = 11;
    let mut reader = entry_reader(image, 10, 2048);
    for _ in 0..16 {
        assert_eq!(reader.read(), Ok(DirEntry::new_unused(0x85)));
    }
    // the entries of cluster 11 fail, and those of cluster 12 are never come to
    for _ in 0..40 {
        assert_eq!(reader.read(), Err(EntryReaderError::Io(DiskError::Broken)));
    }
}
