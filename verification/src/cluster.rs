//! The clusters that a file or directory is made of, and reading through them.
use std::sync::Arc;
use vstd::arithmetic::div_mod::{lemma_fundamental_div_mod, lemma_fundamental_div_mod_converse};
use vstd::prelude::*;

use crate::boot_sector::BootSector;
use crate::disk::{
    delivers, fails, is_image, law_image_delivers, law_image_fails, outcome, PartitionError,
    ReadOffset, Replies,
};
use crate::error::ClusterChainError;
use crate::fat::{chain_of, is_chain, law_chain_has_no_repeats, Fat};

verus! {

/// How the clusters after the first are found, and how many bytes they hold.
#[derive(Clone, Copy, Debug, PartialEq, Eq, Structural)]
#[allow(inconsistent_fields)]
pub enum ClusterChainOptions {
    /// The clusters follow one another.
    Contiguous { data_length: u64 },
    /// The FAT lists the clusters. Without a length, they are all in use.
    Fat { data_length: Option<u64> },
}

impl Default for ClusterChainOptions {
    fn default() -> (r: Self)
        ensures
            r == (ClusterChainOptions::Fat { data_length: None }),
    {
        ClusterChainOptions::Fat { data_length: None }
    }
}

/// The bytes of a file or directory: its clusters in order, and how many of
/// their bytes belong to it.
#[verifier::ext_equal]
pub struct Extent {
    pub boot: BootSector,
    pub chain: Seq<u32>,
    pub data_length: u64,
}

impl Extent {
    /// The clusters are large enough for the bytes.
    pub open spec fn wf(self) -> bool {
        &&& self.boot.valid()
        &&& self.data_length <= self.chain.len() * self.boot.cluster_size()
    }

    /// The cluster that holds the byte at `position`.
    pub open spec fn cluster_at(self, position: int) -> u32 {
        self.chain[position / self.boot.cluster_size() as int]
    }

    /// Where on the device the byte at `position` lies.
    pub open spec fn device_offset(self, position: int) -> int {
        self.boot.cluster_start(self.cluster_at(position)) + position
            % self.boot.cluster_size() as int
    }

    /// How many bytes one read at `position` that asks for `want` gives: no more
    /// than are left, and none from beyond the cluster.
    pub open spec fn readable(self, position: int, want: nat) -> nat {
        let in_cluster = self.boot.cluster_size() - position % self.boot.cluster_size() as int;
        let left = self.data_length - position;
        if left <= 0 {
            0
        } else if want <= in_cluster && want <= left {
            want
        } else if in_cluster <= left {
            in_cluster as nat
        } else {
            left as nat
        }
    }

    /// Reading `want` bytes at `position` may come out as `r`.
    pub open spec fn reads<E: PartitionError>(
        self,
        replies: Replies<E>,
        position: int,
        want: nat,
        r: Result<Seq<u8>, E>,
    ) -> bool {
        let n = self.readable(position, want);
        let cluster = self.cluster_at(position);
        match r {
            Ok(data) => {
                &&& data.len() == n
                &&& n > 0 ==> self.boot.has_cluster(cluster) && delivers(
                    replies,
                    self.device_offset(position),
                    data,
                )
            },
            Err(e) => {
                &&& n > 0
                &&& if self.boot.has_cluster(cluster) {
                    fails(replies, self.device_offset(position), n, e)
                } else {
                    e.is_cluster_not_found(cluster)
                }
            },
        }
    }
}

impl Extent {
    /// The byte at every position lies in a cluster of the volume and within an
    /// image of `size` bytes.
    pub open spec fn intact(self, size: nat) -> bool {
        forall|p: int|
            0 <= p < self.data_length ==> self.boot.has_cluster(#[trigger] self.cluster_at(p))
                && self.device_offset(p) < size
    }

    /// The bytes of the file or directory, where the volume holds `image`.
    pub open spec fn contents(self, image: Seq<u8>) -> Seq<u8> {
        Seq::new(self.data_length as nat, |p: int| image[self.device_offset(p)])
    }

    /// A read goes no further than a cluster does.
    proof fn lemma_one_cluster(self, position: int, want: nat, i: int)
        requires
            self.wf(),
            0 <= position,
            0 <= i < self.readable(position, want),
        ensures
            self.cluster_at(position + i) == self.cluster_at(position),
            self.device_offset(position + i) == self.device_offset(position) + i,
            position + i < self.data_length,
    {
        self.boot.lemma_sizes();
        let size = self.boot.cluster_size() as int;
        lemma_fundamental_div_mod(position, size);
        assert(0 <= position % size < size) by (nonlinear_arith)
            requires
                size > 0,
        ;
        lemma_fundamental_div_mod_converse(
            position + i,
            size,
            position / size,
            position % size + i,
        );
    }

    /// What is read of an image is the part of the contents that begins at the
    /// position. A read fails only where the volume has no such cluster or the
    /// image has ended; where the image is complete, it does not.
    pub proof fn law_read_gives_contents<E: PartitionError>(
        self,
        replies: Replies<E>,
        image: Seq<u8>,
        position: int,
        want: nat,
        r: Result<Seq<u8>, E>,
    )
        requires
            self.wf(),
            is_image(replies, image),
            0 <= position <= self.data_length,
            self.reads(replies, position, want, r),
        ensures
            match r {
                Ok(data) => data == self.contents(image).subrange(
                    position,
                    position + self.readable(position, want),
                ),
                Err(e) => {
                    ||| !self.boot.has_cluster(self.cluster_at(position))
                        && e.is_cluster_not_found(self.cluster_at(position))
                    ||| self.device_offset(position) + self.readable(position, want) > image.len()
                        && e.is_unexpected_eop()
                },
            },
            self.intact(image.len()) ==> r is Ok,
    {
        let n = self.readable(position, want);
        let offset = self.device_offset(position);
        if n > 0 && self.boot.has_cluster(self.cluster_at(position)) {
            self.boot.lemma_sizes();
            self.boot.lemma_cluster_start(self.cluster_at(position));
            let size = self.boot.cluster_size() as int;
            assert(0 <= position % size < size) by (nonlinear_arith)
                requires
                    size > 0,
            ;
            match r {
                Ok(data) => {
                    law_image_delivers(replies, image, offset, data);
                },
                Err(e) => {
                    law_image_fails(replies, image, offset, n, e);
                    self.lemma_one_cluster(position, want, n - 1);
                },
            }
        }
        if r is Ok {
            let data = r->Ok_0;
            let part = self.contents(image).subrange(position, position + n);
            assert forall|i: int| 0 <= i < n implies data[i] == part[i] by {
                self.lemma_one_cluster(position, want, i);
            }
            assert(data =~= part);
        }
    }

    /// `parts` may be what is read from `position` on, one read behind the other,
    /// each of them for some bytes, up to the first that gives none.
    pub open spec fn reads_through<E: PartitionError>(
        self,
        replies: Replies<E>,
        position: int,
        parts: Seq<Seq<u8>>,
    ) -> bool
        decreases parts.len(),
    {
        &&& parts.len() > 0
        &&& exists|want: nat|
            want > 0 && #[trigger] self.reads(replies, position, want, Ok(parts[0]))
        &&& if parts[0].len() == 0 {
            parts.len() == 1
        } else {
            self.reads_through(replies, position + parts[0].len(), parts.drop_first())
        }
    }

    /// Reading on until nothing comes gives all the contents from the position on,
    /// however many bytes are asked for at a time.
    pub proof fn law_reads_through_contents<E: PartitionError>(
        self,
        replies: Replies<E>,
        image: Seq<u8>,
        position: int,
        parts: Seq<Seq<u8>>,
    )
        requires
            self.wf(),
            is_image(replies, image),
            0 <= position <= self.data_length,
            self.reads_through(replies, position, parts),
        ensures
            parts.flatten() == self.contents(image).skip(position),
        decreases parts.len(),
    {
        let want = choose|want: nat|
            want > 0 && #[trigger] self.reads(replies, position, want, Ok(parts[0]));
        let n = self.readable(position, want) as int;
        self.law_read_gives_contents(replies, image, position, want, Ok(parts[0]));
        self.boot.lemma_sizes();
        let size = self.boot.cluster_size() as int;
        assert(0 <= position % size < size) by (nonlinear_arith)
            requires
                size > 0,
        ;
        let rest = parts.drop_first();
        if n == 0 {
            assert(rest.flatten() =~= Seq::empty());
            assert(position == self.data_length);
            assert(parts.flatten() =~= self.contents(image).skip(position));
        } else {
            self.law_reads_through_contents(replies, image, position + n, rest);
            assert(parts.flatten() =~= self.contents(image).skip(position));
        }
    }
}

/// How many clusters of `size` bytes hold `len` bytes.
pub open spec fn clusters_for(len: nat, size: nat) -> nat {
    if len % size == 0 {
        len / size
    } else {
        len / size + 1
    }
}

/// The bytes that begin at the cluster `first`, or why there are none.
pub open spec fn extent_of(
    boot: BootSector,
    fat: Seq<u32>,
    first: u32,
    options: ClusterChainOptions,
) -> Result<Extent, ClusterChainError> {
    let size = boot.cluster_size();
    if !boot.has_cluster(first) {
        Err(ClusterChainError::InvalidFirstCluster(first))
    } else {
        match options {
            ClusterChainOptions::Contiguous { data_length } => {
                let count = clusters_for(data_length as nat, size);
                if first + count > 0x1_0000_0000 {
                    Err(ClusterChainError::InvalidDataLength(data_length))
                } else {
                    Ok(
                        Extent {
                            boot,
                            chain: Seq::new(count, |i: int| (first + i) as u32),
                            data_length,
                        },
                    )
                }
            },
            ClusterChainOptions::Fat { data_length } => match chain_of(fat, first) {
                None => Err(ClusterChainError::CyclicChain(first)),
                Some(chain) => match data_length {
                    None => Ok(
                        Extent { boot, chain, data_length: (chain.len() * size) as u64 },
                    ),
                    Some(data_length) => if data_length > chain.len() * size {
                        Err(ClusterChainError::InvalidDataLength(data_length))
                    } else {
                        Ok(Extent { boot, chain, data_length })
                    },
                },
            },
        }
    }
}

/// The bytes that begin at a cluster fit in the clusters.
pub proof fn lemma_extent_wf(
    boot: BootSector,
    fat: Seq<u32>,
    first: u32,
    options: ClusterChainOptions,
)
    requires
        boot.valid(),
        fat.len() == boot.cluster_count + 2,
        extent_of(boot, fat, first, options) is Ok,
    ensures
        extent_of(boot, fat, first, options)->Ok_0.wf(),
{
    boot.lemma_sizes();
    let size = boot.cluster_size() as int;
    match options {
        ClusterChainOptions::Contiguous { data_length } => {
            let count = clusters_for(data_length as nat, size as nat);
            lemma_fundamental_div_mod(data_length as int, size);
            assert(data_length <= count * size) by (nonlinear_arith)
                requires
                    size > 0,
                    data_length == size * (data_length as int / size) + data_length as int % size,
                    data_length as int % size < size,
                    data_length as int % size == 0 ==> count == data_length as int / size,
                    data_length as int % size != 0 ==> count == data_length as int / size + 1,
            ;
        },
        ClusterChainOptions::Fat { .. } => {
            let chain = chain_of(fat, first)->Some_0;
            assert(is_chain(fat, first, chain));
            law_chain_has_no_repeats(fat, first, chain);
            assert(chain.len() * size <= 0x1_0000_0000 * 0x200_0000) by (nonlinear_arith)
                requires
                    chain.len() <= 0x1_0000_0000,
                    0 <= size <= 0x200_0000,
            ;
        },
    }
}

/// The clusters of a reader.
#[derive(Debug)]
enum Chain {
    Contiguous { first: u32, count: u64 },
    Linked(Vec<u32>),
}

impl Chain {
    spec fn clusters(self) -> Seq<u32> {
        match self {
            Chain::Contiguous { first, count } => Seq::new(
                count as nat,
                |i: int| (first + i) as u32,
            ),
            Chain::Linked(list) => list@,
        }
    }

    /// The numbers of the clusters fit in 32 bits.
    spec fn wf(self) -> bool {
        self matches Chain::Contiguous { first, count } ==> first + count <= 0x1_0000_0000
    }

    fn get(&self, i: u64) -> (r: u32)
        requires
            self.wf(),
            i < self.clusters().len(),
        ensures
            r == self.clusters()[i as int],
    {
        match self {
            Chain::Contiguous { first, count } => (*first as u64 + i) as u32,
            Chain::Linked(list) => {
                assert(i < list.len());
                list[i as usize]
            },
        }
    }

    fn duplicate(&self) -> (r: Self)
        ensures
            r.clusters() == self.clusters(),
            r.wf() == self.wf(),
    {
        match self {
            Chain::Contiguous { first, count } => Chain::Contiguous {
                first: *first,
                count: *count,
            },
            Chain::Linked(list) => {
                let copy = list.clone();
                assert(copy@ =~= list@);
                Chain::Linked(copy)
            },
        }
    }
}

/// Reads the bytes of a file or directory one after the other.
#[derive(Debug)]
pub struct ClusterChainReader<O: ReadOffset> {
    disk: Arc<O>,
    boot: Arc<BootSector>,
    chain: Chain,
    data_length: u64,
    position: u64,
}

/// A second handle to what `a` holds: `Arc::clone`, which by its documentation
/// gives another pointer to the same allocation.
#[verifier::external_body]
pub(crate) fn share<T>(a: &Arc<T>) -> (r: Arc<T>)
    ensures
        r == *a,
{
    Arc::clone(a)
}

impl<O: ReadOffset> Clone for ClusterChainReader<O> {
    fn clone(&self) -> (r: Self)
        ensures
            r.extent() == self.extent(),
            r.pos() == self.pos(),
            r.device() == self.device(),
    {
        proof {
            use_type_invariant(self);
        }
        ClusterChainReader {
            disk: share(&self.disk),
            boot: share(&self.boot),
            chain: self.chain.duplicate(),
            data_length: self.data_length,
            position: self.position,
        }
    }
}

impl<O: ReadOffset> ClusterChainReader<O> {
    #[verifier::type_invariant]
    spec fn inv(self) -> bool {
        &&& self.chain.wf()
        &&& self.extent().wf()
        &&& self.position <= self.data_length
    }

    /// What is read.
    pub closed spec fn extent(self) -> Extent {
        Extent {
            boot: *self.boot,
            chain: self.chain.clusters(),
            data_length: self.data_length,
        }
    }

    /// Where the next read begins.
    pub closed spec fn pos(self) -> u64 {
        self.position
    }

    /// What is read from.
    pub closed spec fn device(self) -> O {
        *self.disk
    }

    pub fn try_new(
        boot: Arc<BootSector>,
        fat: &Fat,
        first_cluster: u32,
        options: ClusterChainOptions,
        disk: Arc<O>,
    ) -> (r: Result<Self, ClusterChainError>)
        requires
            boot.valid(),
            fat@.len() == boot.cluster_count + 2,
        ensures
            match (extent_of(*boot, fat@, first_cluster, options), r) {
                (Ok(extent), Ok(reader)) => {
                    &&& reader.extent() == extent
                    &&& reader.pos() == 0
                    &&& reader.device() == *disk
                },
                (Err(a), Err(b)) => a == b,
                _ => false,
            },
    {
        if boot.cluster_offset(first_cluster).is_none() {
            return Err(ClusterChainError::InvalidFirstCluster(first_cluster));
        }
        let size: u64 = boot.cluster_bytes();
        proof {
            boot.lemma_sizes();
        }
        match options {
            ClusterChainOptions::Contiguous { data_length } => {
                let full: u64 = data_length / size;
                assert(full < u64::MAX) by (nonlinear_arith)
                    requires
                        size >= 512,
                        full == data_length / size,
                ;
                let count: u64 = if data_length % size == 0 {
                    full
                } else {
                    full + 1
                };
                proof {
                    assert(data_length <= count * size) by (nonlinear_arith)
                        requires
                            size > 0,
                            full == data_length / size,
                            data_length % size == 0 ==> count == full,
                            data_length % size != 0 ==> count == full + 1,
                    ;
                }
                if count > 0x1_0000_0000 - first_cluster as u64 {
                    return Err(ClusterChainError::InvalidDataLength(data_length));
                }
                let chain = Chain::Contiguous { first: first_cluster, count };
                let r = ClusterChainReader { disk, boot, chain, data_length, position: 0 };
                assert(r.extent() =~= extent_of(*boot, fat@, first_cluster, options)->Ok_0);
                Ok(r)
            },
            ClusterChainOptions::Fat { data_length } => {
                let list = match fat.chain(first_cluster) {
                    None => return Err(ClusterChainError::CyclicChain(first_cluster)),
                    Some(list) => list,
                };
                proof {
                    assert(is_chain(fat@, first_cluster, list@));
                    law_chain_has_no_repeats(fat@, first_cluster, list@);
                    assert(list@.len() * size <= 0x1_0000_0000 * 0x200_0000) by (nonlinear_arith)
                        requires
                            list@.len() <= 0x1_0000_0000,
                            size <= 0x200_0000,
                    ;
                }
                let capacity: u64 = list.len() as u64 * size;
                let data_length: u64 = match data_length {
                    None => capacity,
                    Some(len) => {
                        if len > capacity {
                            return Err(ClusterChainError::InvalidDataLength(len));
                        }
                        len
                    },
                };
                let chain = Chain::Linked(list);
                let r = ClusterChainReader { disk, boot, chain, data_length, position: 0 };
                assert(r.extent() =~= extent_of(*boot, fat@, first_cluster, options)->Ok_0);
                Ok(r)
            },
        }
    }

    pub fn data_length(&self) -> (r: u64)
        ensures
            r == self.extent().data_length,
            self.extent().wf(),
    {
        proof {
            use_type_invariant(self);
        }
        self.data_length
    }

    pub fn stream_position(&self) -> (r: u64)
        ensures
            r == self.pos(),
            r <= self.extent().data_length,
            self.extent().wf(),
    {
        proof {
            use_type_invariant(self);
        }
        self.position
    }

    /// Moves to `offset` and says whether there is such a position. If there is
    /// none, the reader stays where it is.
    pub fn seek(&mut self, offset: u64) -> (r: bool)
        ensures
            r == (offset <= old(self).extent().data_length),
            final(self).pos() == (if r {
                offset
            } else {
                old(self).pos()
            }),
            final(self).extent() == old(self).extent(),
            final(self).device() == old(self).device(),
    {
        proof {
            use_type_invariant(&*self);
        }
        if offset > self.data_length {
            return false;
        }
        self.position = offset;
        true
    }

    pub fn rewind(&mut self)
        ensures
            final(self).pos() == 0,
            final(self).extent() == old(self).extent(),
            final(self).device() == old(self).device(),
    {
        proof {
            use_type_invariant(&*self);
        }
        self.position = 0;
    }

    /// Reads bytes to the front of `buf` and says how many they are. Only at the
    /// end, or where `buf` is empty, are there none.
    pub fn read(&mut self, buf: &mut [u8]) -> (r: Result<usize, O::Err>)
        ensures
            old(self).extent().wf(),
            old(self).pos() <= old(self).extent().data_length,
            final(buf)@.len() == old(buf)@.len(),
            old(self).extent().reads(
                old(self).device().replies(),
                old(self).pos() as int,
                old(buf)@.len(),
                outcome(r, final(buf)@),
            ),
            r matches Ok(n) ==> n <= old(buf)@.len() && final(buf)@.skip(n as int) == old(
                buf,
            )@.skip(n as int),
            final(self).pos() == old(self).pos() + match r {
                Ok(n) => n as int,
                Err(_) => 0,
            },
            final(self).extent() == old(self).extent(),
            final(self).device() == old(self).device(),
    {
        proof {
            use_type_invariant(&*self);
            self.boot.lemma_sizes();
        }
        let ghost extent = self.extent();
        let want: usize = buf.len();
        let left: u64 = self.data_length - self.position;
        if want == 0 || left == 0 {
            assert(buf@.take(0) =~= Seq::empty());
            return Ok(0);
        }
        let size: u64 = self.boot.cluster_bytes();
        let index: u64 = self.position / size;
        let within: u64 = self.position % size;
        proof {
            let p = self.position as int;
            let s = size as int;
            let n = self.chain.clusters().len() as int;
            assert(p / s < n) by (nonlinear_arith)
                requires
                    0 <= p < n * s,
                    s > 0,
            ;
            assert(0 <= p / s) by (nonlinear_arith)
                requires
                    0 <= p,
                    s > 0,
            ;
            assert(0 <= p % s < s) by (nonlinear_arith)
                requires
                    s > 0,
            ;
        }
        let cluster: u32 = self.chain.get(index);
        let mut amount: usize = want;
        if amount as u64 > size - within {
            amount = (size - within) as usize;
        }
        if amount as u64 > left {
            amount = left as usize;
        }
        let start: u64 = match self.boot.cluster_offset(cluster) {
            None => return Err(<O::Err as PartitionError>::cluster_not_found(cluster)),
            Some(start) => start,
        };
        proof {
            self.boot.lemma_cluster_start(cluster);
        }
        let ghost before = buf@;
        let (head, tail) = buf.split_at_mut(amount);
        match self.disk.read_exact(start + within, head) {
            Err(e) => return Err(e),
            Ok(()) => {},
        }
        assert(buf@.take(amount as int) =~= head@);
        assert(buf@.skip(amount as int) =~= before.skip(amount as int));
        self.position = self.position + amount as u64;
        Ok(amount)
    }
}

} // verus!
