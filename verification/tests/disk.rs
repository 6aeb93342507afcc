use std::sync::Arc;

use exfat_fs::disk::{write_zeroes, PartitionError, ReadOffset, SeekFrom, WriteSeek};

#[derive(Debug, PartialEq, Eq)]
enum DiskError {
    Ended,
    NoCluster(u32),
    Broken,
}

impl PartitionError for DiskError {
    fn unexpected_eop() -> Self {
        DiskError::Ended
    }

    fn cluster_not_found(cluster: u32) -> Self {
        DiskError::NoCluster(cluster)
    }
}

/// Hands over at most `step` bytes at a time.
struct Image {
    bytes: Vec<u8>,
    step: usize,
}

impl ReadOffset for Image {
    type Err = DiskError;

    fn read_at(&self, offset: u64, buffer: &mut [u8]) -> Result<usize, DiskError> {
        if offset >= self.bytes.len() as u64 {
            return Ok(0);
        }
        let start = offset as usize;
        let n = buffer.len().min(self.step).min(self.bytes.len() - start);
        buffer[..n].copy_from_slice(&self.bytes[start..start + n]);
        Ok(n)
    }
}

struct Broken;

impl ReadOffset for Broken {
    type Err = DiskError;

    fn read_at(&self, _offset: u64, _buffer: &mut [u8]) -> Result<usize, DiskError> {
        Err(DiskError::Broken)
    }
}

/// Gives a byte at every offset.
struct Endless;

impl ReadOffset for Endless {
    type Err = DiskError;

    fn read_at(&self, offset: u64, buffer: &mut [u8]) -> Result<usize, DiskError> {
        buffer[0] = offset as u8;
        Ok(1)
    }
}

fn image(step: usize) -> Image {
    Image { bytes: (0..100).collect(), step }
}

#[test]
fn read_exact_goes_on_after_short_reads() {
    for step in 1..12 {
        let mut buffer = [0u8; 10];
        assert_eq!(image(step).read_exact(5, &mut buffer), Ok(()));
        assert_eq!(buffer, [5, 6, 7, 8, 9, 10, 11, 12, 13, 14]);
    }
}

#[test]
fn read_exact_reports_the_end() {
    let mut buffer = [0u8; 10];
    assert_eq!(image(3).read_exact(90, &mut buffer), Ok(()));
    assert_eq!(image(3).read_exact(91, &mut buffer), Err(DiskError::Ended));
    assert_eq!(image(3).read_exact(1000, &mut buffer), Err(DiskError::Ended));
    assert_eq!(image(3).read_exact(1000, &mut []), Ok(()));
}

#[test]
fn read_exact_reports_errors_of_the_device() {
    let mut buffer = [0u8; 1];
    assert_eq!(Broken.read_exact(0, &mut buffer), Err(DiskError::Broken));
    assert_eq!(Broken.read_exact(0, &mut []), Ok(()));
}

#[test]
fn read_exact_ends_where_offsets_do() {
    let mut buffer = [0u8; 2];
    assert_eq!(Endless.read_exact(u64::MAX - 2, &mut buffer), Ok(()));
    assert_eq!(buffer, [0xFD, 0xFE]);
    assert_eq!(Endless.read_exact(u64::MAX - 1, &mut buffer), Err(DiskError::Ended));
    assert_eq!(Endless.read_exact(u64::MAX, &mut buffer), Err(DiskError::Ended));
}

#[test]
fn references_read_what_they_refer_to() {
    let device = image(100);
    let mut buffer = [0u8; 3];
    assert_eq!((&device).read_at(7, &mut buffer), Ok(3));
    assert_eq!(buffer, [7, 8, 9]);
    let shared = Arc::new(device);
    assert_eq!(shared.read_at(20, &mut buffer), Ok(3));
    assert_eq!(buffer, [20, 21, 22]);
}

#[derive(Debug, PartialEq, Eq)]
enum StoreError {
    Short,
    NoSeek,
    Full,
}

/// A file in memory that takes at most `step` bytes at a time and has room for
/// `room`.
struct Store {
    bytes: Vec<u8>,
    position: usize,
    step: usize,
    room: usize,
    writes: Vec<usize>,
}

impl WriteSeek for Store {
    type Err = StoreError;

    fn write(&mut self, buf: &[u8]) -> Result<usize, StoreError> {
        self.writes.push(buf.len());
        let n = buf.len().min(self.step);
        if self.position + n > self.room {
            return Err(StoreError::Full);
        }
        if self.bytes.len() < self.position + n {
            self.bytes.resize(self.position + n, 0);
        }
        self.bytes[self.position..self.position + n].copy_from_slice(&buf[..n]);
        self.position += n;
        Ok(n)
    }

    fn failed_to_write(&self) -> StoreError {
        StoreError::Short
    }

    fn write_all(&mut self, buf: &[u8]) -> Result<(), StoreError> {
        match self.write(buf) {
            Ok(_) => Ok(()),
            Err(e) => Err(e),
        }
    }

    fn seek(&mut self, pos: SeekFrom) -> Result<u64, StoreError> {
        match pos {
            SeekFrom::Start(o) if o < 1_000_000 => {
                self.position = o as usize;
                Ok(o)
            },
            _ => Err(StoreError::NoSeek),
        }
    }

    fn stream_position(&mut self) -> Result<u64, StoreError> {
        Ok(self.position as u64)
    }
}

fn store(len: usize) -> Store {
    Store { bytes: vec![1; len], position: 0, step: 1_000_000, room: 1_000_000, writes: vec![] }
}

#[test]
fn zeroes_land_at_the_offset() {
    let mut s = store(10_000);
    assert_eq!(write_zeroes(&mut s, 5000, 100), Ok(()));
    assert_eq!(s.writes, vec![4096, 904]);
    assert_eq!(s.bytes.len(), 10_000);
    for i in 0..10_000 {
        assert_eq!(s.bytes[i], if i >= 100 && i < 5100 { 0 } else { 1 });
    }
    assert_eq!(s.position, 5100);
}

#[test]
fn zeroes_come_in_whole_chunks() {
    let mut s = store(0);
    assert_eq!(write_zeroes(&mut s, 8192, 0), Ok(()));
    assert_eq!(s.writes, vec![4096, 4096]);
    assert_eq!(s.bytes, vec![0; 8192]);
}

#[test]
fn no_zeroes_only_seek() {
    let mut s = store(3);
    assert_eq!(write_zeroes(&mut s, 0, 2), Ok(()));
    assert_eq!(s.writes, Vec::<usize>::new());
    assert_eq!(s.position, 2);
    assert_eq!(s.bytes, vec![1, 1, 1]);
}

#[test]
fn short_writes_of_zeroes_fail() {
    let mut s = store(10_000);
    s.step = 4000;
    assert_eq!(write_zeroes(&mut s, 5000, 0), Err(StoreError::Short));
    assert_eq!(s.writes, vec![4096]);
}

#[test]
fn errors_end_the_writing_of_zeroes() {
    let mut s = store(0);
    s.room = 5000;
    assert_eq!(write_zeroes(&mut s, 10_000, 0), Err(StoreError::Full));
    assert_eq!(s.writes, vec![4096, 4096]);
    assert_eq!(write_zeroes(&mut s, 1, 1_000_000), Err(StoreError::NoSeek));
}
