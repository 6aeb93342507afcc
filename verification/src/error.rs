//! What can go wrong.
//!
//! `E` is the error of the device that is read.
use vstd::prelude::*;

verus! {

/// Why 32 bytes are no directory entry.
#[derive(Clone, Copy, Debug, PartialEq, Eq, Structural)]
pub enum DirEntryError {
    /// No entry has this type.
    InvalidEntry(u8),
}

/// Why the next entry of a directory cannot be had.
#[derive(Debug, PartialEq, Eq)]
pub enum EntryReaderError<E> {
    Io(E),
    Entry(DirEntryError),
}

/// Why the clusters of a file or directory cannot be listed.
#[derive(Clone, Copy, Debug, PartialEq, Eq, Structural)]
pub enum ClusterChainError {
    /// The first cluster is not one of the volume.
    InvalidFirstCluster(u32),
    /// The FAT leads from this cluster on in a circle.
    CyclicChain(u32),
    /// The clusters cannot hold this many bytes.
    InvalidDataLength(u64),
}

/// Why the entries of a file do not make one up.
#[derive(Debug, PartialEq, Eq)]
pub enum FileParserError<E> {
    Reader(EntryReaderError<E>),
    NoStreamExtension,
    NoFileName,
    InvalidStreamExtension,
    WrongFileNameEntries,
    InvalidFileName,
}

/// Why a file or directory cannot be had from its entries.
#[derive(Debug, PartialEq, Eq)]
pub enum ElementError<E> {
    FileParser(FileParserError<E>),
    ClusterChain(ClusterChainError),
}

/// Why a directory cannot be listed.
#[derive(Debug, PartialEq, Eq)]
pub enum DirectoryError<E> {
    ClusterChain(ClusterChainError),
    Reader(EntryReaderError<E>),
    FileParser(FileParserError<E>),
    NotPrimaryEntry(u8),
    NotFileEntry(u8),
}

/// A position before the first byte was asked for.
#[derive(Clone, Copy, Debug, PartialEq, Eq, Structural)]
pub struct InvalidSeek;

/// Why the FAT cannot be loaded.
#[derive(Debug, PartialEq, Eq)]
pub enum FatError<E> {
    Io(E),
    /// This many bytes do not fit in memory.
    TooLarge(u64),
}

/// Why a volume cannot be opened.
#[derive(Debug, PartialEq, Eq)]
pub enum RootError<E> {
    Io(E),
    WrongFs,
    InvalidBytesPerSectorShift(u8),
    InvalidSectorsPerClusterShift(u8),
    InvalidNumberOfFats(u8),
    Fat(FatError<E>),
    InvalidRootDirectoryClusterIndex(u32),
    ClusterChain(ClusterChainError),
    Reader(EntryReaderError<E>),
    FileParser(FileParserError<E>),
    RootEntryNotPrimary(u8),
    InvalidNumberOfAllocationBitmaps,
    InvalidAllocationBitmap,
    InvalidNumberOfUpcaseTables,
    InvalidUpcaseTable,
    InvalidNumberOfVolumeLabels,
    InvalidVolumeLabel,
    UnexpectedRootEntry(u8),
}

} // verus!
