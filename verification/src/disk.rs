use vstd::prelude::*;
use crate::constants::BLOCK_SIZE;
use crate::codec::zero_block;

verus! {

/// The contents of one stored block: a block that was never written reads as zeros.
pub open spec fn stored_block(b: Seq<u8>) -> Seq<u8> {
    if b.len() == BLOCK_SIZE {
        b
    } else {
        zero_block()
    }
}

/// A disk image of fixed-size blocks, held in memory.
pub struct Disk {
    image: Vec<Vec<u8>>,
    reads: usize,
    writes: usize,
    mounts: usize,
    path: String,
}

impl View for Disk {
    type V = Seq<Seq<u8>>;

    /// The contents of each block of the disk.
    closed spec fn view(&self) -> Seq<Seq<u8>> {
        Seq::new(self.image@.len(), |i: int| stored_block(self.image@[i]@))
    }
}

impl Disk {
    /// Number of bytes per block.
    pub const BLOCK_SIZE: usize = 4096;

    /// Number of times the disk is mounted.
    pub closed spec fn mount_count(&self) -> nat {
        self.mounts as nat
    }

    /// The path of the image that the disk was opened from.
    pub closed spec fn path_view(&self) -> Seq<char> {
        self.path@
    }

    /// A disk with no blocks.
    pub fn new() -> (r: Disk)
        ensures
            r@ == Seq::<Seq<u8>>::empty(),
            r.mount_count() == 0,
            r.path_view() == Seq::<char>::empty(),
    {
        let r = Disk { image: Vec::new(), reads: 0, writes: 0, mounts: 0, path: String::new() };
        assert(r@ =~= Seq::<Seq<u8>>::empty());
        r
    }

    /// A disk of `nblocks` zero blocks, named by `path`.
    pub fn from_file(path: String, nblocks: usize) -> (r: Disk)
        ensures
            r@ == Seq::new(nblocks as nat, |i: int| zero_block()),
            r.mount_count() == 0,
            r.path_view() == path@,
    {
        let mut disk = Self::new();
        disk.open(path, nblocks);
        disk
    }

    /// A disk with the same blocks as this one, not mounted.
    pub fn clone(&self) -> (r: Disk)
        ensures
            r@ == self@,
            r.mount_count() == 0,
            r.path_view() == self.path_view(),
    {
        let mut image: Vec<Vec<u8>> = Vec::new();
        let mut i: usize = 0;
        while i < self.image.len()
            invariant
                i <= self.image@.len(),
                image@.len() == i,
                forall|j: int| 0 <= j < i ==> (#[trigger] image@[j])@ == self.image@[j]@,
            decreases self.image@.len() - i,
        {
            let src = &self.image[i];
            let mut b: Vec<u8> = Vec::new();
            let mut k: usize = 0;
            while k < src.len()
                invariant
                    k <= src@.len(),
                    b@ == src@.subrange(0, k as int),
                decreases src@.len() - k,
            {
                b.push(src[k]);
                k += 1;
                assert(b@ =~= src@.subrange(0, k as int));
            }
            assert(b@ =~= src@);
            image.push(b);
            i += 1;
        }
        let r = Disk { image, reads: 0, writes: 0, mounts: 0, path: self.path.clone() };
        assert(r@ =~= self@);
        r
    }

    /// Opens the image at `path` with `nblocks` blocks: the disk then has `nblocks` zero blocks.
    pub fn open(&mut self, path: String, nblocks: usize)
        ensures
            final(self)@ == Seq::new(nblocks as nat, |i: int| zero_block()),
            final(self).mount_count() == old(self).mount_count(),
            final(self).path_view() == path@,
    {
        let mut image: Vec<Vec<u8>> = Vec::new();
        let mut i: usize = 0;
        while i < nblocks
            invariant
                i <= nblocks,
                image@.len() == i,
                forall|j: int| 0 <= j < i ==> (#[trigger] image@[j])@.len() == 0,
            decreases nblocks - i,
        {
            image.push(Vec::new());
            i += 1;
        }
        self.image = image;
        self.reads = 0;
        self.writes = 0;
        self.path = path;
        assert(self@ =~= Seq::new(nblocks as nat, |i: int| zero_block()));
    }

    /// Number of blocks of the disk.
    pub fn size(&self) -> (r: usize)
        ensures
            r == self@.len(),
    {
        self.image.len()
    }

    /// Counts one more mount of the disk.
    pub fn mount(&mut self)
        requires
            old(self).mount_count() < usize::MAX,
        ensures
            final(self)@ == old(self)@,
            final(self).mount_count() == old(self).mount_count() + 1,
            final(self).path_view() == old(self).path_view(),
    {
        self.mounts = self.mounts + 1;
    }

    /// Whether the disk is mounted at least once.
    pub fn mounted(&mut self) -> (r: bool)
        ensures
            r == (old(self).mount_count() > 0),
            final(self)@ == old(self)@,
            final(self).mount_count() == old(self).mount_count(),
            final(self).path_view() == old(self).path_view(),
    {
        self.mounts > 0
    }

    /// Counts one mount less, if the disk is mounted.
    pub fn unmount(&mut self)
        ensures
            final(self)@ == old(self)@,
            final(self).mount_count() == if old(self).mount_count() > 0 {
                old(self).mount_count() - 1
            } else {
                0
            },
            final(self).path_view() == old(self).path_view(),
    {
        if self.mounts > 0 {
            self.mounts = self.mounts - 1;
        }
    }

    /// Copies block `blocknum` into `data`.
    pub fn read(&mut self, blocknum: usize, data: &mut [u8; BLOCK_SIZE])
        requires
            blocknum < old(self)@.len(),
        ensures
            final(data)@ == old(self)@[blocknum as int],
            final(self)@ == old(self)@,
            final(self).mount_count() == old(self).mount_count(),
            final(self).path_view() == old(self).path_view(),
    {
        let src = &self.image[blocknum];
        if src.len() != BLOCK_SIZE {
            let mut k: usize = 0;
            while k < BLOCK_SIZE
                invariant
                    k <= BLOCK_SIZE,
                    data@.len() == BLOCK_SIZE,
                    forall|j: int| 0 <= j < k ==> #[trigger] data@[j] == 0u8,
                decreases BLOCK_SIZE - k,
            {
                data[k] = 0;
                k += 1;
            }
            assert(data@ =~= zero_block());
        } else {
            let mut k: usize = 0;
            while k < BLOCK_SIZE
                invariant
                    k <= BLOCK_SIZE,
                    src@.len() == BLOCK_SIZE,
                    data@.len() == BLOCK_SIZE,
                    forall|j: int| 0 <= j < k ==> #[trigger] data@[j] == src@[j],
                decreases BLOCK_SIZE - k,
            {
                data[k] = src[k];
                k += 1;
            }
            assert(data@ =~= src@);
        }
        self.reads = self.reads.wrapping_add(1);
    }

    /// Replaces block `blocknum` with `data`.
    pub fn write(&mut self, blocknum: usize, data: &[u8; BLOCK_SIZE])
        requires
            blocknum < old(self)@.len(),
        ensures
            final(self)@ == old(self)@.update(blocknum as int, data@),
            final(self).mount_count() == old(self).mount_count(),
            final(self).path_view() == old(self).path_view(),
    {
        let mut b: Vec<u8> = Vec::new();
        let mut k: usize = 0;
        while k < BLOCK_SIZE
            invariant
                k <= BLOCK_SIZE,
                b@ == data@.subrange(0, k as int),
            decreases BLOCK_SIZE - k,
        {
            b.push(data[k]);
            k += 1;
            assert(b@ =~= data@.subrange(0, k as int));
        }
        assert(b@ =~= data@);
        let ghost old_view = self@;
        self.image.set(blocknum, b);
        self.writes = self.writes.wrapping_add(1);
        assert(self@ =~= old_view.update(blocknum as int, data@));
    }
}

/// A block that is written reads back as written, and the other blocks stay as they were.
pub proof fn law_read_after_write(d: Seq<Seq<u8>>, blocknum: int, data: Seq<u8>, other: int)
    requires
        0 <= blocknum < d.len(),
        0 <= other < d.len(),
        other != blocknum,
    ensures
        d.update(blocknum, data)[blocknum] == data,
        d.update(blocknum, data)[other] == d[other],
{
}

} // verus!
