use exfat_fs::entry::parsed::ParsedFileEntry;
use exfat_fs::entry::{
    BitmapEntry, ClusterAllocation, DirEntry, FileAttributes, FileEntry, FileNameEntry,
    GeneralSecondaryFlags, StreamExtensionEntry, UpcaseTableEntry, VendorAllocationEntry,
    VendorExtensionEntry, VolumeGuidEntry, VolumeLabelEntry,
};
use exfat_fs::error::{DirEntryError, FileParserError};
use exfat_fs::label::Label;
use exfat_fs::timestamp::{Timestamp, Timestamps};

fn stream(first_cluster: u32, data_len: u64) -> StreamExtensionEntry {
    StreamExtensionEntry {
        general_secondary_flags: GeneralSecondaryFlags(1),
        name_length: 1,
        valid_data_length: data_len,
        first_cluster,
        data_len,
        ..StreamExtensionEntry::default()
    }
}

#[test]
fn empty_stream_without_clusters_is_valid() {
    assert!(stream(0, 0).valid());
}

#[test]
fn non_empty_stream_without_clusters_is_invalid() {
    assert!(!stream(0, 1).valid());
}

#[test]
fn allocated_stream_is_valid() {
    assert!(stream(2, 1).valid());
}

#[test]
fn stream_validity_has_four_conditions() {
    assert!(!stream(1, 0).valid());
    assert!(stream(2, 0).valid());
    let mut s = stream(2, 5);
    s.general_secondary_flags = GeneralSecondaryFlags(2);
    assert!(!s.valid());
    let mut s = stream(2, 5);
    s.name_length = 0;
    assert!(!s.valid());
    let mut s = stream(2, 5);
    s.valid_data_length = 6;
    assert!(!s.valid());
    s.valid_data_length = 0;
    assert!(s.valid());
}

#[test]
fn bitmaps_and_tables_need_a_cluster() {
    let mut b = BitmapEntry::new(9);
    assert!(b.valid());
    b.first_cluster = 1;
    assert!(!b.valid());
    b.first_cluster = 0;
    b.data_len = 0;
    assert!(!b.valid());
    assert!(UpcaseTableEntry::new(2).valid());
    assert!(!UpcaseTableEntry::new(1).valid());
    assert!(!UpcaseTableEntry::new(0).valid());
}

fn raw(t: u8) -> [u8; 32] {
    let mut b = [0u8; 32];
    for i in 0..32 {
        b[i] = i as u8;
    }
    b[0] = t;
    b
}

#[test]
fn bytes_give_back_what_was_read() {
    for t in 0..=255u8 {
        let known = t <= 0x83 || t == 0x85 || t == 0xA0 || t == 0xC0 || t == 0xC1 || t == 0xE0
            || t == 0xE1;
        match DirEntry::try_from(raw(t)) {
            Ok(e) => {
                assert!(known);
                assert_eq!(e.entry_type(), t);
                assert_eq!(e.regular(), t >= 0x81);
                assert_eq!(e.primary(), t & 0x40 == 0);
                assert_eq!(e.unused(), t > 0 && t < 0x80);
                if t != 0x80 {
                    assert_eq!(e.bytes(), raw(t));
                }
                assert_eq!(DirEntry::try_from(e.bytes()), Ok(e));
            },
            Err(e) => {
                assert!(!known);
                assert_eq!(e, DirEntryError::InvalidEntry(t));
            },
        }
    }
}

#[test]
fn stream_extension_fields_are_little_endian() {
    let e = DirEntry::try_from(raw(0xC0));
    match e {
        Ok(DirEntry::StreamExtension(s)) => {
            assert_eq!(s.general_secondary_flags, GeneralSecondaryFlags(1));
            assert_eq!(s._reserved1, 2);
            assert_eq!(s.name_length, 3);
            assert_eq!(s.name_hash, 0x0504);
            assert_eq!(s._reserved2, 0x0706);
            assert_eq!(s.valid_data_length, 0x0F0E_0D0C_0B0A_0908);
            assert_eq!(s._reserved3, 0x1312_1110);
            assert_eq!(s.first_cluster, 0x1716_1514);
            assert_eq!(s.data_len, 0x1F1E_1D1C_1B1A_1918);
        },
        _ => panic!("no stream extension"),
    }
}

#[test]
fn file_fields_are_little_endian() {
    match DirEntry::try_from(raw(0x85)) {
        Ok(DirEntry::File(f)) => {
            assert_eq!(f.secondary_count, 1);
            assert_eq!(f.set_checksum, 0x0302);
            assert_eq!(f.file_attributes, FileAttributes(0x0504));
            assert_eq!(f.create_timestamp, 0x0B0A_0908);
            assert_eq!(f.last_modified_timestamp, 0x0F0E_0D0C);
            assert_eq!(f.last_accessed_timestamp, 0x1312_1110);
            assert_eq!(f.create_10ms_increment, 0x14);
            assert_eq!(f.last_modified_10ms_increment, 0x15);
            assert_eq!(f.create_utc_offset, 0x16);
            assert_eq!(f.last_modified_utc_offset, 0x17);
            assert_eq!(f.last_accessed_utc_offset, 0x18);
            assert_eq!(f._reserved2, [25, 26, 27, 28, 29, 30, 31]);
        },
        _ => panic!("no file"),
    }
}

#[test]
fn other_fields_are_little_endian() {
    match DirEntry::try_from(raw(0x81)) {
        Ok(DirEntry::Bitmap(e)) => {
            assert_eq!(e.flags, 1);
            assert_eq!(e.index(), 1);
            assert_eq!(e.first_cluster, 0x1716_1514);
            assert_eq!(e.data_len, 0x1F1E_1D1C_1B1A_1918);
        },
        _ => panic!("no bitmap"),
    }
    match DirEntry::try_from(raw(0x82)) {
        Ok(DirEntry::UpcaseTable(e)) => {
            assert_eq!(e.table_checksum, 0x0706_0504);
            assert_eq!(e.first_cluster, 0x1716_1514);
        },
        _ => panic!("no table"),
    }
    match DirEntry::try_from(raw(0x83)) {
        Ok(DirEntry::VolumeLabel(e)) => {
            assert_eq!(e.character_count, 1);
            assert_eq!(e.volume_label[0], 2);
            assert_eq!(e.volume_label[21], 23);
        },
        _ => panic!("no label"),
    }
    match DirEntry::try_from(raw(0xA0)) {
        Ok(DirEntry::VolumeGuid(e)) => {
            assert_eq!(e.set_checksum, 0x0302);
            assert_eq!(e.general_primary_flag, 0x0504);
            assert_eq!(e.volume_guid, 0x1514_1312_1110_0F0E_0D0C_0B0A_0908_0706);
        },
        _ => panic!("no identifier"),
    }
    match DirEntry::try_from(raw(0xE0)) {
        Ok(DirEntry::VendorExtension(e)) => {
            assert_eq!(e.general_secondary_flag, 1);
            assert_eq!(e.vendor_guid, 0x1110_0F0E_0D0C_0B0A_0908_0706_0504_0302);
            assert_eq!(e.vendor_defined[13], 31);
        },
        _ => panic!("no vendor extension"),
    }
    match DirEntry::try_from(raw(0xE1)) {
        Ok(DirEntry::VendorAllocation(e)) => {
            assert_eq!(e.vendor_defined, 0x1312);
            assert_eq!(e.first_cluster, 0x1716_1514);
            assert_eq!(e.data_len, 0x1F1E_1D1C_1B1A_1918);
        },
        _ => panic!("no vendor allocation"),
    }
}

#[test]
fn defaults_are_all_zero() {
    let zero = [0u8; 31];
    let entries = [
        DirEntry::Bitmap(BitmapEntry::default()),
        DirEntry::UpcaseTable(UpcaseTableEntry::default()),
        DirEntry::VolumeLabel(VolumeLabelEntry::default()),
        DirEntry::File(FileEntry::default()),
        DirEntry::VolumeGuid(VolumeGuidEntry::default()),
        DirEntry::StreamExtension(StreamExtensionEntry::default()),
        DirEntry::FileName(FileNameEntry::default()),
        DirEntry::VendorExtension(VendorExtensionEntry::default()),
        DirEntry::VendorAllocation(VendorAllocationEntry::default()),
    ];
    for e in entries.iter() {
        assert_eq!(e.bytes()[1..], zero);
    }
}

#[test]
fn unused_entries_lose_the_highest_bit() {
    let e = DirEntry::new_unused(0xA0);
    assert_eq!(e, DirEntry::Unused(0x20, [0; 31]));
    assert!(e.unused());
    assert_eq!(DirEntry::new_unused(0x80), DirEntry::EndOfDirectory([0; 31]));
    assert_eq!(DirEntry::new_unused(0x05), DirEntry::Unused(0x05, [0; 31]));
}

#[test]
fn checksum_of_entries() {
    let file = DirEntry::try_from(raw(0x85)).unwrap();
    assert_eq!(file.checksum(0), 0x0434);
    let stream = DirEntry::try_from(raw(0xC0)).unwrap();
    assert_eq!(stream.checksum(0x1234), 0x13F4);
}

#[test]
fn checksum_skips_itself_in_an_identifier() {
    let e = VolumeGuidEntry::new(0x0011_2233_4455_6677_8899_AABB_CCDD_EEFF);
    assert_eq!(e.set_checksum, 0x7CFF);
    assert_eq!(e.secondary_count, 0);
    assert_eq!(e.general_primary_flag, 0);
    assert_eq!(e.volume_guid, 0x0011_2233_4455_6677_8899_AABB_CCDD_EEFF);
    assert_eq!(DirEntry::VolumeGuid(e).checksum(0), e.set_checksum);
}

#[test]
fn checksum_leaves_out_itself_in_primary_entries_only() {
    for t in [0x81, 0x82, 0x83, 0x85, 0xA0, 0xC0, 0xC1, 0xE0, 0xE1] {
        let e = DirEntry::try_from(raw(t)).unwrap();
        for at in 1..32 {
            let mut changed = raw(t);
            changed[at] += 1;
            let c = DirEntry::try_from(changed).unwrap();
            let left_out = e.primary() && (at == 2 || at == 3);
            assert_eq!(e.checksum(9) == c.checksum(9), left_out);
        }
    }
}

#[test]
fn checksum_goes_on() {
    // both are secondary, so that every byte counts
    let a = DirEntry::try_from(raw(0xC0)).unwrap();
    let b = DirEntry::try_from(raw(0xC1)).unwrap();
    let mut sum: u16 = 7;
    for byte in raw(0xC0).iter().chain(raw(0xC1).iter()) {
        sum = sum.rotate_right(1).wrapping_add(*byte as u16);
    }
    assert_eq!(b.checksum(a.checksum(7)), sum);
}

#[test]
fn attributes_are_bits() {
    assert!(FileAttributes(0x01).is_read_only());
    assert!(FileAttributes(0x02).is_hidden());
    assert!(FileAttributes(0x04).is_system());
    assert!(FileAttributes(0x10).is_directory());
    assert!(FileAttributes(0x20).is_archive());
    let none = FileAttributes(0x08);
    assert!(!none.is_read_only() && !none.is_hidden() && !none.is_system());
    assert!(!none.is_directory() && !none.is_archive());
    assert!(GeneralSecondaryFlags(3).allocation_possible());
    assert!(GeneralSecondaryFlags(3).no_fat_chain());
    assert!(!GeneralSecondaryFlags(1).no_fat_chain());
    assert!(!GeneralSecondaryFlags(2).allocation_possible());
}

#[test]
fn new_entries() {
    let b = BitmapEntry::new(1234);
    assert_eq!((b.flags, b.first_cluster, b.data_len), (0, 2, 1234));
    let u = UpcaseTableEntry::new(7);
    assert_eq!((u.table_checksum, u.first_cluster, u.data_len), (0xE619_D30D, 7, 5836));
    let l = VolumeLabelEntry::new(Label([9; 22], 3));
    assert_eq!((l.character_count, l.volume_label, l._reserved), (3, [9; 22], 0));
}

fn name_entry(units: &[u16]) -> FileNameEntry {
    let mut e = FileNameEntry::default();
    for (i, unit) in units.iter().enumerate() {
        e.file_name[2 * i] = (*unit & 0xFF) as u8;
        e.file_name[2 * i + 1] = (*unit >> 8) as u8;
    }
    e
}

fn named(name_length: u8) -> StreamExtensionEntry {
    let mut s = stream(0, 0);
    s.name_length = name_length;
    s
}

fn assemble(
    file: &FileEntry,
    name_length: u8,
    names: Vec<FileNameEntry>,
) -> Result<ParsedFileEntry, FileParserError<()>> {
    ParsedFileEntry::assemble(file, &named(name_length), &names)
}

#[test]
fn names_are_utf16() {
    let file = FileEntry::default();
    let parsed = assemble(&file, 4, vec![name_entry(&[0x0061, 0x00E9, 0xD83D, 0xDE00])]).unwrap();
    assert_eq!(parsed.name, "a\u{E9}\u{1F600}");
    assert_eq!(parsed.stream_extension_entry, named(4));
    let long: Vec<u16> = "abcdefghijklmnopq".encode_utf16().collect();
    let parsed = assemble(&file, 17, vec![name_entry(&long[..15]), name_entry(&long[15..])]);
    assert_eq!(parsed.unwrap().name, "abcdefghijklmnopq");
    // what is behind the length does not count
    let parsed = assemble(&file, 2, vec![name_entry(&[0x61, 0x62, 0xD800])]);
    assert_eq!(parsed.unwrap().name, "ab");
}

#[test]
fn names_that_are_not_utf16_are_refused() {
    let file = FileEntry::default();
    let lone = assemble(&file, 1, vec![name_entry(&[0xD800])]);
    assert_eq!(lone.unwrap_err(), FileParserError::InvalidFileName);
    let lone = assemble(&file, 2, vec![name_entry(&[0xDC00, 0x61])]);
    assert_eq!(lone.unwrap_err(), FileParserError::InvalidFileName);
    // two units of one character in two entries
    let mut first = [0x61u16; 15];
    first[14] = 0xD83D;
    let split = assemble(&file, 16, vec![name_entry(&first), name_entry(&[0xDE00])]);
    assert_eq!(split.unwrap_err(), FileParserError::InvalidFileName);
}

#[test]
fn names_have_as_many_entries_as_they_need() {
    let file = FileEntry::default();
    let e = name_entry(&[0x61; 15]);
    assert_eq!(assemble(&file, 15, vec![e]).unwrap().name, "aaaaaaaaaaaaaaa");
    assert_eq!(assemble(&file, 15, vec![e, e]).unwrap_err(), FileParserError::WrongFileNameEntries);
    assert_eq!(assemble(&file, 16, vec![e]).unwrap_err(), FileParserError::WrongFileNameEntries);
    let many = assemble(&file, 255, vec![e; 17]).unwrap();
    assert_eq!(many.name.len(), 255);
    let mut claims = e;
    claims.general_secondary_flags = GeneralSecondaryFlags(1);
    assert_eq!(assemble(&file, 15, vec![claims]).unwrap_err(), FileParserError::InvalidFileName);
}

#[test]
fn times_of_a_file() {
    let mut file = FileEntry::default();
    file.file_attributes = FileAttributes(0x11);
    file.create_timestamp = 1;
    file.last_modified_timestamp = 2;
    file.last_accessed_timestamp = 3;
    file.create_10ms_increment = 4;
    file.last_modified_10ms_increment = 5;
    file.create_utc_offset = 0x84;
    file.last_modified_utc_offset = 0x04;
    file.last_accessed_utc_offset = 0xFF;
    let parsed = assemble(&file, 1, vec![name_entry(&[0x61])]).unwrap();
    assert_eq!(parsed.attributes, FileAttributes(0x11));
    let copy = parsed.clone();
    assert_eq!(copy.name, parsed.name);
    assert_eq!(copy.attributes, parsed.attributes);
    assert_eq!(copy.stream_extension_entry, parsed.stream_extension_entry);
    assert_eq!(copy.timestamps, parsed.timestamps);
    assert_eq!(
        parsed.timestamps,
        Timestamps::new(Timestamp::new(1, 4, 4), Timestamp::new(2, 5, 0), Timestamp::new(3, 0, 127))
    );
}
