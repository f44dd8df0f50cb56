use vstd::prelude::*;
use crate::block::{Block, spec_pointers};
use crate::block::first_zero_from;
use crate::codec::{byte_of, le_u32, lemma_u32_bytes, zero_block};
use crate::constants::{BLOCK_SIZE, POINTERS_PER_BLOCK};
use crate::disk::Disk;

verus! {

/// 1024 to the power `k`.
pub open spec fn pow_ppb(k: nat) -> nat
    decreases k,
{
    if k == 0 {
        1
    } else {
        POINTERS_PER_BLOCK as nat * pow_ppb((k - 1) as nat)
    }
}

/// The largest `k` with 1024^k <= n, or 0 when n is 0: the number of pointer levels above `n` data blocks.
pub open spec fn log_ppb(n: nat) -> nat
    decreases n,
{
    if n < POINTERS_PER_BLOCK {
        0
    } else {
        1 + log_ppb(n / POINTERS_PER_BLOCK as nat)
    }
}

pub proof fn lemma_pow_ppb_log(n: nat)
    requires
        n >= 1,
    ensures
        pow_ppb(log_ppb(n)) <= n,
        n < pow_ppb(log_ppb(n) + 1),
    decreases n,
{
    if n >= POINTERS_PER_BLOCK {
        lemma_pow_ppb_log(n / POINTERS_PER_BLOCK as nat);
    }
}

pub proof fn lemma_pow_ppb_mono(a: nat, b: nat)
    requires
        a <= b,
    ensures
        1 <= pow_ppb(a) <= pow_ppb(b),
    decreases b,
{
    if b > 0 {
        if a < b {
            lemma_pow_ppb_mono(a, (b - 1) as nat);
        } else {
            lemma_pow_ppb_mono((b - 1) as nat, (b - 1) as nat);
        }
    }
}

/// A count that fits in a `usize` needs at most 6 pointer levels.
pub proof fn lemma_log_ppb_small(n: nat)
    requires
        n <= usize::MAX,
    ensures
        log_ppb(n) <= 6,
{
    if n >= 1 {
        lemma_pow_ppb_log(n);
        if log_ppb(n) > 6 {
            lemma_pow_ppb_mono(7, log_ppb(n));
            reveal_with_fuel(pow_ppb, 8);
            assert(pow_ppb(7) == 0x400000000000000000);
        }
    }
}

pub proof fn lemma_log_ppb_le(n: nat)
    ensures
        log_ppb(n) <= n,
    decreases n,
{
    if n >= POINTERS_PER_BLOCK {
        lemma_log_ppb_le(n / POINTERS_PER_BLOCK as nat);
    }
}

/// What an inode's data pointers hold: the data blocks, the levels of pointer blocks above
/// them, and the block the top level is stored in.
pub struct DataPointerView {
    pub direct: Seq<u32>,
    pub indirect: Seq<Seq<u32>>,
    pub root: u32,
}

/// The data blocks of an inode and the pointer blocks that lead to them.
pub struct InodeDataPointer {
    pub direct_ptrs: Vec<u32>,
    pub indirect_ptrs: Vec<Vec<u32>>,
    pub root_ptr: u32,
}

impl View for InodeDataPointer {
    type V = DataPointerView;

    open spec fn view(&self) -> DataPointerView {
        DataPointerView {
            direct: self.direct_ptrs@,
            indirect: self.indirect_ptrs@.map_values(|v: Vec<u32>| v@),
            root: self.root_ptr,
        }
    }
}

/// First level `k >= d` of `ind` that has fewer than `n / 1024^(depth - k) + 1` pointers, or `depth`.
pub open spec fn level_with_room(ind: Seq<Seq<u32>>, n: nat, depth: nat, d: int) -> int
    decreases depth - d,
{
    if d >= depth || d < 0 {
        depth as int
    } else if ind[d].len() <= n / pow_ppb((depth - d) as nat) {
        d
    } else {
        level_with_room(ind, n, depth, d + 1)
    }
}

pub proof fn lemma_level_with_room_bounds(ind: Seq<Seq<u32>>, n: nat, depth: nat, d: int)
    requires
        0 <= d <= depth,
    ensures
        d <= level_with_room(ind, n, depth, d) <= depth,
    decreases depth - d,
{
    if d < depth && !(ind[d].len() <= n / pow_ppb((depth - d) as nat)) {
        lemma_level_with_room_bounds(ind, n, depth, d + 1);
    }
}

/// The pointers after adding block `blk`, and the level it went to (0 for a data block).
pub open spec fn adds_block(v: DataPointerView, blk: u32, v2: DataPointerView, r: i64) -> bool {
    let n = v.direct.len();
    let depth = log_ppb(n);
    &&& v2.root == v.root
    &&& if v.indirect.len() < depth {
        &&& v2.indirect == v.indirect.push(seq![blk])
        &&& v2.direct == v.direct
        &&& r == v2.indirect.len()
    } else {
        let l = level_with_room(v.indirect, n, depth, 0);
        if l < depth {
            &&& v2.indirect == v.indirect.update(l, v.indirect[l].push(blk))
            &&& v2.direct == v.direct
            &&& r == l + 1
        } else {
            &&& v2.indirect == v.indirect
            &&& v2.direct == v.direct.push(blk)
            &&& r == 0
        }
    }
}

impl InodeDataPointer {
    /// No data blocks, stored from block `root_ptr`.
    pub fn new(root_ptr: u32) -> (r: Self)
        ensures
            r@ == (DataPointerView { direct: Seq::empty(), indirect: Seq::empty(), root: root_ptr }),
    {
        let r = InodeDataPointer { root_ptr, direct_ptrs: Vec::new(), indirect_ptrs: Vec::new() };
        assert(r@.indirect =~= Seq::<Seq<u32>>::empty());
        r
    }

    /// The root block, the number of data blocks and the number of pointer levels.
    pub fn debug(&self) -> (r: (u32, usize, usize))
        ensures
            r == (self.root_ptr, self@.direct.len() as usize, self@.indirect.len() as usize),
    {
        (self.root_ptr, self.direct_ptrs.len(), self.indirect_ptrs.len())
    }

    /// The data blocks.
    pub fn blocks(self) -> (r: Vec<u32>)
        ensures
            r@ == self@.direct,
    {
        self.direct_ptrs
    }

    /// The data blocks.
    pub fn direct_pointers(&self) -> (r: &Vec<u32>)
        ensures
            r@ == self@.direct,
    {
        &self.direct_ptrs
    }

    /// Number of pointer levels that the data blocks need.
    pub fn depth(&self) -> (r: usize)
        ensures
            r == log_ppb(self@.direct.len()),
    {
        let n = self.direct_ptrs.len();
        let mut m = n;
        let mut d: usize = 0;
        proof {
            lemma_log_ppb_le(n as nat);
        }
        while m >= POINTERS_PER_BLOCK
            invariant
                m <= n,
                log_ppb(n as nat) <= n,
                d + log_ppb(m as nat) == log_ppb(n as nat),
            decreases m,
        {
            m = m / POINTERS_PER_BLOCK;
            d = d + 1;
        }
        d
    }

    /// Records block `blk`: it opens a new pointer level, fills a pointer level that has room,
    /// or becomes a data block. Returns the level it went to (0 for a data block), or -1 when
    /// `blk` is not positive.
    pub fn add_data_block(&mut self, blk: i64) -> (r: i64)
        ensures
            blk <= 0 ==> r == -1 && final(self)@ == old(self)@,
            blk > 0 ==> adds_block(old(self)@, blk as u32, final(self)@, r) && r >= 0,
    {
        proof {
            lemma_level_with_room_bounds(old(self)@.indirect, old(self)@.direct.len(), log_ppb(old(self)@.direct.len()), 0);
        }
        if blk > 0 {
            let ptrs = self.direct_ptrs.len();
            let depth = self.depth();
            proof {
                lemma_log_ppb_small(ptrs as nat);
            }
            if self.indirect_ptrs.len() < depth {
                let ghost old_ind = self@.indirect;
                let mut v: Vec<u32> = Vec::new();
                v.push(blk as u32);
                self.indirect_ptrs.push(v);
                assert(self@.indirect =~= old_ind.push(seq![blk as u32]));
                return self.indirect_ptrs.len() as i64;
            }
            if ptrs > 0 {
                proof {
                    lemma_pow_ppb_log(ptrs as nat);
                }
            }
            let mut d: usize = 0;
            while d < depth
                invariant
                    blk > 0,
                    depth <= 6,
                    d <= depth,
                    depth == log_ppb(ptrs as nat),
                    ptrs == self.direct_ptrs@.len(),
                    depth <= self.indirect_ptrs@.len(),
                    self@ == old(self)@,
                    ptrs > 0 ==> pow_ppb(depth as nat) <= ptrs,
                    level_with_room(self@.indirect, ptrs as nat, depth as nat, 0)
                        == level_with_room(self@.indirect, ptrs as nat, depth as nat, d as int),
                decreases depth - d,
            {
                let mut pw: usize = 1;
                let mut e: usize = 0;
                let k = depth - d;
                proof {
                    lemma_pow_ppb_mono(k as nat, depth as nat);
                }
                while e < k
                    invariant
                        e <= k,
                        k <= depth,
                        pw == pow_ppb(e as nat),
                        pow_ppb(k as nat) <= pow_ppb(depth as nat),
                        ptrs > 0 ==> pow_ppb(depth as nat) <= ptrs,
                        depth > 0 ==> ptrs > 0,
                    decreases k - e,
                {
                    proof {
                        lemma_pow_ppb_mono((e + 1) as nat, k as nat);
                    }
                    pw = pw * POINTERS_PER_BLOCK;
                    e = e + 1;
                }
                let pos = ptrs / pw;
                if self.indirect_ptrs[d].len() <= pos {
                    let ghost old_ind = self@.indirect;
                    self.indirect_ptrs[d].push(blk as u32);
                    assert(self@.indirect =~= old_ind.update(d as int, old_ind[d as int].push(blk as u32)));
                    return (d + 1) as i64;
                }
                d += 1;
            }
            self.direct_ptrs.push(blk as u32);
            return 0;
        } else {
            return -1;
        }
    }
}


/// The pointers of the block bytes `s` up to their first null pointer.
#[verifier::opaque]
pub open spec fn zero_prefix(s: Seq<u8>) -> Seq<u32> {
    spec_pointers(s).take(first_zero_from(spec_pointers(s), 0))
}

/// Every pointer before the first null one, from `k` on, is not null.
proof fn lemma_first_zero_before(p: Seq<u32>, k: int, j: int)
    requires
        0 <= k <= j < first_zero_from(p, k),
        first_zero_from(p, k) <= p.len(),
    ensures
        p[j] != 0,
    decreases j - k,
{
    if k < j {
        lemma_first_zero_before(p, k + 1, j);
    }
}

/// The first null pointer from `k` on lies between `k` and the end of the block.
proof fn lemma_first_zero_bounds(p: Seq<u32>, k: int)
    requires
        0 <= k <= POINTERS_PER_BLOCK,
    ensures
        k <= first_zero_from(p, k) <= POINTERS_PER_BLOCK,
    decreases POINTERS_PER_BLOCK - k,
{
    if k < POINTERS_PER_BLOCK && p[k] != 0 {
        lemma_first_zero_bounds(p, k + 1);
    }
}

/// The pointers that a block holds before its first null one are not null.
pub proof fn lemma_zero_prefix_nonzero(s: Seq<u8>)
    ensures
        forall|i: int| 0 <= i < zero_prefix(s).len() ==> #[trigger] zero_prefix(s)[i] != 0,
        zero_prefix(s).len() <= POINTERS_PER_BLOCK,
{
    let p = spec_pointers(s);
    lemma_first_zero_bounds(p, 0);
    let n = first_zero_from(p, 0);
    reveal(zero_prefix);
    assert(p.len() == POINTERS_PER_BLOCK);
    assert(zero_prefix(s) == p.take(n));
    assert(zero_prefix(s).len() == n);
    assert forall|i: int| 0 <= i < zero_prefix(s).len() implies #[trigger] zero_prefix(s)[i] != 0 by {
        lemma_first_zero_before(p, 0, i);
        assert(zero_prefix(s)[i] == p[i]);
    }
}

/// First position at or after `k` of the pointer list `l` that is null or past the end of a
/// disk of `disk_len` blocks, or the length of `l`: the list ends there.
pub open spec fn list_end(l: Seq<u32>, disk_len: nat, k: int) -> int
    decreases l.len() - k,
{
    if k >= l.len() || k < 0 {
        l.len() as int
    } else if l[k] == 0 || l[k] >= disk_len {
        k
    } else {
        list_end(l, disk_len, k + 1)
    }
}

/// The pointers that the blocks named by `l` hold, one block after the other.
pub open spec fn expand_all(d: Seq<Seq<u8>>, l: Seq<u32>) -> Seq<u32>
    decreases l.len(),
{
    if l.len() == 0 {
        Seq::empty()
    } else {
        expand_all(d, l.drop_last()) + zero_prefix(d[l.last() as int])
    }
}

/// The pointers that the blocks of the list `l` hold, up to the end of the list.
pub open spec fn expand(d: Seq<Seq<u8>>, l: Seq<u32>) -> Seq<u32> {
    expand_all(d, l.take(list_end(l, d.len(), 0)))
}

/// The pointers that the block `root` holds, or none when it lies past the end of the disk.
pub open spec fn root_list(d: Seq<Seq<u8>>, root: u32) -> Seq<u32> {
    if root < d.len() {
        zero_prefix(d[root as int])
    } else {
        Seq::empty()
    }
}

/// The pointers `k` levels below the block `root`.
pub open spec fn level_list(d: Seq<Seq<u8>>, root: u32, k: nat) -> Seq<u32>
    decreases k,
{
    if k == 0 {
        root_list(d, root)
    } else {
        expand(d, level_list(d, root, (k - 1) as nat))
    }
}

/// The pointer list `l` cut in pieces of at most 1024 pointers; an empty list gives one empty piece.
pub open spec fn chunks(l: Seq<u32>) -> Seq<Seq<u32>>
    decreases l.len(),
{
    if l.len() <= POINTERS_PER_BLOCK {
        seq![l]
    } else {
        seq![l.take(POINTERS_PER_BLOCK as int)] + chunks(l.skip(POINTERS_PER_BLOCK as int))
    }
}

/// The pieces of the first `m` levels below the block `root`.
pub open spec fn level_chunks(d: Seq<Seq<u8>>, root: u32, m: nat) -> Seq<Seq<u32>>
    decreases m,
{
    if m == 0 {
        Seq::empty()
    } else {
        level_chunks(d, root, (m - 1) as nat) + chunks(level_list(d, root, (m - 1) as nat))
    }
}

/// The bytes of a block whose first pointers are `l` and whose other pointers are null.
pub open spec fn pointer_block(l: Seq<u32>) -> Seq<u8> {
    Seq::new(BLOCK_SIZE as nat, |b: int| if b / 4 < l.len() { byte_of(l[b / 4], b % 4) } else { 0u8 })
}

/// Copies the pointers `v[start..end]` into a vector.
fn sub_vec(v: &Vec<u32>, start: usize, end: usize) -> (r: Vec<u32>)
    requires
        start <= end <= v@.len(),
    ensures
        r@ == v@.subrange(start as int, end as int),
{
    let mut r: Vec<u32> = Vec::new();
    let mut k = start;
    while k < end
        invariant
            start <= k <= end,
            end <= v@.len(),
            r@ == v@.subrange(start as int, k as int),
        decreases end - k,
    {
        r.push(v[k]);
        k += 1;
        assert(r@ =~= v@.subrange(start as int, k as int));
    }
    r
}

/// The pointers of `block` up to its first null pointer.
fn index_zero(block: &Block) -> (r: Vec<u32>)
    ensures
        r@ == zero_prefix(block@),
{
    let p = block.pointers();
    let ghost sp = spec_pointers(block@);
    let mut i: usize = 0;
    loop
        invariant
            i <= POINTERS_PER_BLOCK,
            p@ == sp,
            first_zero_from(sp, 0) == first_zero_from(sp, i as int),
        ensures
            i <= POINTERS_PER_BLOCK,
            first_zero_from(sp, 0) == i,
        decreases POINTERS_PER_BLOCK - i,
    {
        if i == POINTERS_PER_BLOCK || p[i] == 0 {
            break;
        }
        i += 1;
    }
    let mut r: Vec<u32> = Vec::new();
    let mut k: usize = 0;
    while k < i
        invariant
            k <= i <= POINTERS_PER_BLOCK,
            p@ == sp,
            r@ == sp.take(k as int),
        decreases i - k,
    {
        r.push(p[k]);
        k += 1;
        assert(r@ =~= sp.take(k as int));
    }
    proof {
        reveal(zero_prefix);
    }
    r
}

/// The bytes of a block whose first pointers are `v[start..end]` and whose other pointers are null.
fn fill_zeros(v: &Vec<u32>, start: usize, end: usize) -> (r: [u8; BLOCK_SIZE])
    requires
        start <= end <= v@.len(),
        end - start <= POINTERS_PER_BLOCK,
    ensures
        r@ == pointer_block(v@.subrange(start as int, end as int)),
{
    let ghost l = v@.subrange(start as int, end as int);
    let mut block = Block::new();
    let mut i: usize = 0;
    assert(block@ =~= pointer_block(l.take(0)));
    while i < end - start
        invariant
            start <= end <= v@.len(),
            end - start <= POINTERS_PER_BLOCK,
            i <= end - start,
            l == v@.subrange(start as int, end as int),
            block@ == pointer_block(l.take(i as int)),
        decreases end - start - i,
    {
        block.set_pointer(i, v[start + i]);
        i += 1;
        assert(block@ =~= pointer_block(l.take(i as int)));
    }
    assert(l.take(i as int) =~= l);
    block.data()
}

impl InodeDataPointer {
    /// Replaces the data blocks by the next level down: at level 1 the pointers of the root
    /// block, at other levels the pointers that the blocks of the current list hold.
    pub fn to_depth(self, n: usize, disk: &mut Disk) -> (r: Self)
        ensures
            r@.direct == if n == 1 { root_list(old(disk)@, self@.root) } else { expand(old(disk)@, self@.direct) },
            r@.indirect == self@.indirect,
            r@.root == self@.root,
            final(disk)@ == old(disk)@,
            final(disk).mount_count() == old(disk).mount_count(),
            final(disk).path_view() == old(disk).path_view(),
    {
        let mut s = self;
        if n == 1 {
            if (s.root_ptr as usize) < disk.size() {
                let mut block = Block::new();
                disk.read(s.root_ptr as usize, block.data_as_mut());
                s.direct_ptrs = index_zero(&block);
            } else {
                s.direct_ptrs = Vec::new();
            }
        } else {
            let ghost d = disk@;
            let ghost l = s.direct_ptrs@;
            let mut data_blocks: Vec<u32> = Vec::new();
            let mut k: usize = 0;
            while k < s.direct_ptrs.len()
                invariant_except_break
                    k <= l.len(),
                    l == s.direct_ptrs@,
                    disk@ == d,
                    list_end(l, d.len(), 0) == list_end(l, d.len(), k as int),
                    data_blocks@ == expand_all(d, l.take(k as int)),
                    disk.mount_count() == old(disk).mount_count(),
                    disk.path_view() == old(disk).path_view(),
                ensures
                    disk@ == d,
                    l == s.direct_ptrs@,
                    data_blocks@ == expand(d, l),
                    disk.mount_count() == old(disk).mount_count(),
                    disk.path_view() == old(disk).path_view(),
                decreases l.len() - k,
            {
                let blk = s.direct_ptrs[k];
                if blk == 0 || blk as usize >= disk.size() {
                    break;
                }
                let mut block = Block::new();
                disk.read(blk as usize, block.data_as_mut());
                let more = index_zero(&block);
                let mut j: usize = 0;
                let ghost before = data_blocks@;
                while j < more.len()
                    invariant
                        j <= more@.len(),
                        data_blocks@ == before + more@.take(j as int),
                    decreases more@.len() - j,
                {
                    data_blocks.push(more[j]);
                    j += 1;
                    assert(data_blocks@ =~= before + more@.take(j as int));
                }
                proof {
                    assert(more@.take(j as int) =~= more@);
                    assert(l.take(k + 1).drop_last() =~= l.take(k as int));
                }
                k += 1;
            }
            s.direct_ptrs = data_blocks;
        }
        s
    }
}

/// Chunk `j` of `l`: the pointers `l[1024 j .. min(1024 (j + 1), len)]`.
pub open spec fn chunk_of(l: Seq<u32>, j: int) -> Seq<u32> {
    let a = POINTERS_PER_BLOCK as int * j;
    let b = POINTERS_PER_BLOCK as int * (j + 1);
    l.subrange(a, if b < l.len() { b } else { l.len() as int })
}

/// The disk after storing the chunks `j, j+1, ...` of `curr` in the blocks `prev[j], prev[j+1], ...`:
/// one chunk for each block of `prev`, up to the chunk that holds the end of `curr`.
pub open spec fn write_chunks(d: Seq<Seq<u8>>, curr: Seq<u32>, prev: Seq<u32>, j: int) -> Seq<Seq<u8>>
    decreases prev.len() - j,
{
    if j < 0 || j >= prev.len() || POINTERS_PER_BLOCK as int * j > curr.len() {
        d
    } else {
        write_chunks(d.update(prev[j] as int, pointer_block(chunk_of(curr, j))), curr, prev, j + 1)
    }
}

/// The disk after storing the levels `1 .. m` of the pointer levels `ind`, each in the blocks
/// that the level above names.
pub open spec fn write_levels(d: Seq<Seq<u8>>, ind: Seq<Seq<u32>>, m: int) -> Seq<Seq<u8>>
    decreases m,
{
    if m <= 1 {
        d
    } else {
        write_chunks(write_levels(d, ind, m - 1), ind[m - 1], ind[m - 2], 0)
    }
}

/// The disk after storing the pointers `v`: the top level in the root block, each lower level
/// in the blocks of the level above, the data blocks in the blocks of the last level.
pub open spec fn saved(d: Seq<Seq<u8>>, v: DataPointerView) -> Seq<Seq<u8>> {
    if v.indirect.len() == 0 {
        d.update(v.root as int, pointer_block(v.direct))
    } else {
        let n = v.indirect.len() as int;
        let d1 = write_levels(d.update(v.root as int, pointer_block(v.indirect[0])), v.indirect, n);
        write_chunks(d1, v.direct, v.indirect[n - 1], 0)
    }
}

/// The pointers `v` can be stored on a disk of `disk_len` blocks.
pub open spec fn can_save(v: DataPointerView, disk_len: nat) -> bool {
    &&& v.root < disk_len
    &&& v.indirect.len() == 0 ==> v.direct.len() <= POINTERS_PER_BLOCK
    &&& v.indirect.len() > 0 ==> v.indirect[0].len() <= POINTERS_PER_BLOCK
    &&& forall|i: int| 0 <= i < v.indirect.len() ==> (#[trigger] v.indirect[i]).len() > 0
    &&& forall|i: int, j: int| 0 <= i < v.indirect.len() && 0 <= j < v.indirect[i].len() ==> #[trigger] v.indirect[i][j] < disk_len
}

proof fn lemma_write_chunks_len(d: Seq<Seq<u8>>, curr: Seq<u32>, prev: Seq<u32>, j: int)
    requires
        forall|k: int| 0 <= k < prev.len() ==> #[trigger] prev[k] < d.len(),
    ensures
        write_chunks(d, curr, prev, j).len() == d.len(),
    decreases prev.len() - j,
{
    if !(j < 0 || j >= prev.len() || POINTERS_PER_BLOCK as int * j > curr.len()) {
        lemma_write_chunks_len(d.update(prev[j] as int, pointer_block(chunk_of(curr, j))), curr, prev, j + 1);
    }
}

/// Stores the chunks of `curr` in the blocks that `prev` names, as `write_chunks` says.
fn write_disk(curr: &Vec<u32>, prev: &Vec<u32>, disk: &mut Disk)
    requires
        prev@.len() > 0,
        forall|j: int| 0 <= j < prev@.len() ==> #[trigger] prev@[j] < old(disk)@.len(),
    ensures
        final(disk)@ == write_chunks(old(disk)@, curr@, prev@, 0),
        final(disk).mount_count() == old(disk).mount_count(),
        final(disk).path_view() == old(disk).path_view(),
{
    let mut j: usize = 0;
    let mut start: usize = 0;
    let ghost d0 = disk@;
    loop
        invariant_except_break
            j < prev@.len(),
            start == POINTERS_PER_BLOCK * j,
            start <= curr@.len(),
            forall|k: int| 0 <= k < prev@.len() ==> #[trigger] prev@[k] < disk@.len(),
            disk@.len() == d0.len(),
            write_chunks(d0, curr@, prev@, 0) == write_chunks(disk@, curr@, prev@, j as int),
            disk.mount_count() == old(disk).mount_count(),
            disk.path_view() == old(disk).path_view(),
        ensures
            disk@ == write_chunks(d0, curr@, prev@, 0),
            disk.mount_count() == old(disk).mount_count(),
            disk.path_view() == old(disk).path_view(),
        decreases prev@.len() - j,
    {
        let ghost before = disk@;
        if curr.len() - start < POINTERS_PER_BLOCK {
            let end = curr.len();
            let data = fill_zeros(curr, start, end);
            assert(curr@.subrange(start as int, end as int) =~= chunk_of(curr@, j as int));
            disk.write(prev[j] as usize, &data);
            assert(write_chunks(disk@, curr@, prev@, j + 1) == disk@);
            break;
        } else {
            let end = start + POINTERS_PER_BLOCK;
            let data = fill_zeros(curr, start, end);
            assert(curr@.subrange(start as int, end as int) =~= chunk_of(curr@, j as int));
            disk.write(prev[j] as usize, &data);
            start = end;
            j += 1;
        }
        if j == prev.len() {
            assert(write_chunks(disk@, curr@, prev@, j as int) == disk@);
            break;
        }
    }
}

impl InodeDataPointer {
    /// Reads the pointers `level` levels below the root: each level above the data blocks is
    /// added to the pointer levels in pieces of at most 1024 pointers.
    pub fn set_depth(self, level: usize, disk: &mut Disk) -> (r: Self)
        ensures
            r@.direct == level_list(old(disk)@, self@.root, level as nat),
            r@.indirect == self@.indirect + level_chunks(old(disk)@, self@.root, level as nat),
            r@.root == self@.root,
            final(disk)@ == old(disk)@,
            final(disk).mount_count() == old(disk).mount_count(),
            final(disk).path_view() == old(disk).path_view(),
    {
        let ghost d = disk@;
        let ghost ind0 = self@.indirect;
        let mut s = self.to_depth(1, disk);
        assert(s@.indirect =~= ind0 + level_chunks(d, self@.root, 0));
        let mut n: usize = 0;
        loop
            invariant
                n <= level,
                disk@ == d,
                s@.root == self@.root,
                s@.direct == level_list(d, self@.root, n as nat),
                s@.indirect == ind0 + level_chunks(d, self@.root, n as nat),
                disk.mount_count() == old(disk).mount_count(),
                disk.path_view() == old(disk).path_view(),
            ensures
                disk@ == d,
                s@.root == self@.root,
                s@.direct == level_list(d, self@.root, level as nat),
                s@.indirect == ind0 + level_chunks(d, self@.root, level as nat),
                disk.mount_count() == old(disk).mount_count(),
                disk.path_view() == old(disk).path_view(),
            decreases level - n,
        {
            if n == level {
                break;
            }
            let ghost base = s@.indirect;
            let ghost l = s@.direct;
            let ghost mut pushed: Seq<Seq<u32>> = Seq::empty();
            let mut start: usize = 0;
            assert(s@.indirect =~= base + pushed);
            assert(l.skip(0) =~= l);
            loop
                invariant_except_break
                    start <= l.len(),
                    l == s@.direct,
                    s@.root == self@.root,
                    s@.indirect == base + pushed,
                    pushed + chunks(l.skip(start as int)) == chunks(l),
                ensures
                    l == s@.direct,
                    s@.root == self@.root,
                    s@.indirect == base + chunks(l),
                decreases l.len() - start,
            {
                if s.direct_ptrs.len() - start <= POINTERS_PER_BLOCK {
                    let end = s.direct_ptrs.len();
                    let piece = sub_vec(&s.direct_ptrs, start, end);
                    let ghost oi = s@.indirect;
                    s.indirect_ptrs.push(piece);
                    assert(s@.indirect =~= oi.push(piece@));
                    proof {
                        assert(l.skip(start as int) =~= l.subrange(start as int, end as int));
                        assert(chunks(l.skip(start as int)) == seq![l.skip(start as int)]);
                        assert(s@.indirect =~= base + (pushed + seq![l.skip(start as int)]));
                    }
                    break;
                }
                let end = start + POINTERS_PER_BLOCK;
                let piece = sub_vec(&s.direct_ptrs, start, end);
                let ghost oi = s@.indirect;
                s.indirect_ptrs.push(piece);
                assert(s@.indirect =~= oi.push(piece@));
                proof {
                    let rest = l.skip(start as int);
                    assert(rest.take(POINTERS_PER_BLOCK as int) =~= l.subrange(start as int, end as int));
                    assert(rest.skip(POINTERS_PER_BLOCK as int) =~= l.skip(end as int));
                    assert(chunks(rest) == seq![rest.take(POINTERS_PER_BLOCK as int)] + chunks(rest.skip(POINTERS_PER_BLOCK as int)));
                    let p2 = pushed.push(l.subrange(start as int, end as int));
                    assert(s@.indirect =~= base + p2);
                    assert(p2 + chunks(l.skip(end as int)) =~= pushed + chunks(rest));
                    pushed = p2;
                }
                start = end;
            }
            proof {
                assert(level_chunks(d, self@.root, (n + 1) as nat) == level_chunks(d, self@.root, n as nat) + chunks(level_list(d, self@.root, n as nat)));
                assert(s@.indirect =~= ind0 + level_chunks(d, self@.root, (n + 1) as nat));
            }
            s = s.to_depth(2, disk);
            n += 1;
        }
        s
    }

    /// The pointers stored `depth` levels below the block `root_ptr`.
    pub fn with_depth(depth: usize, disk: &mut Disk, root_ptr: u32) -> (r: Self)
        ensures
            r@.direct == level_list(old(disk)@, root_ptr, depth as nat),
            r@.indirect == level_chunks(old(disk)@, root_ptr, depth as nat),
            r@.root == root_ptr,
            final(disk)@ == old(disk)@,
            final(disk).mount_count() == old(disk).mount_count(),
            final(disk).path_view() == old(disk).path_view(),
    {
        let d = Self::new(root_ptr);
        let r = d.set_depth(depth, disk);
        assert(r@.indirect =~= level_chunks(old(disk)@, root_ptr, depth as nat));
        r
    }

    /// Stores the pointers: the top level in the root block, each lower level in the blocks
    /// that the level above names, and the data blocks in the blocks of the last level.
    pub fn save(&mut self, disk: &mut Disk)
        requires
            can_save(old(self)@, old(disk)@.len()),
        ensures
            final(self)@ == old(self)@,
            final(disk)@ == saved(old(disk)@, old(self)@),
            final(disk).mount_count() == old(disk).mount_count(),
            final(disk).path_view() == old(disk).path_view(),
    {
        let ghost v = self@;
        let ghost d0 = disk@;
        let len = self.indirect_ptrs.len();
        let mut i: usize = 0;
        while i < len
            invariant
                self@ == v,
                len == v.indirect.len(),
                i <= len,
                can_save(v, d0.len()),
                disk@.len() == d0.len(),
                i > 0 ==> disk@ == write_levels(d0.update(v.root as int, pointer_block(v.indirect[0])), v.indirect, i as int),
                i == 0 ==> disk@ == d0,
                disk.mount_count() == old(disk).mount_count(),
                disk.path_view() == old(disk).path_view(),
            decreases len - i,
        {
            if i == 0 {
                let data = fill_zeros(&self.indirect_ptrs[0], 0, self.indirect_ptrs[0].len());
                assert(v.indirect[0].subrange(0, v.indirect[0].len() as int) =~= v.indirect[0]);
                disk.write(self.root_ptr as usize, &data);
            } else {
                proof {
                    assert forall|j: int| 0 <= j < v.indirect[i - 1].len() implies #[trigger] v.indirect[i - 1][j] < disk@.len() by {
                    }
                }
                write_disk(&self.indirect_ptrs[i], &self.indirect_ptrs[i - 1], disk);
                proof {
                    lemma_write_chunks_len(write_levels(d0.update(v.root as int, pointer_block(v.indirect[0])), v.indirect, i as int), v.indirect[i as int], v.indirect[i - 1], 0);
                }
            }
            i += 1;
        }
        if len == 0 {
            let data = fill_zeros(&self.direct_ptrs, 0, self.direct_ptrs.len());
            assert(v.direct.subrange(0, v.direct.len() as int) =~= v.direct);
            disk.write(self.root_ptr as usize, &data);
        } else {
            proof {
                assert forall|j: int| 0 <= j < v.indirect[len - 1].len() implies #[trigger] v.indirect[len - 1][j] < disk@.len() by {
                }
            }
            write_disk(&self.direct_ptrs, &self.indirect_ptrs[len - 1], disk);
        }
    }
}

/// The pointers `v` are shaped as adding blocks one by one leaves them with at most one
/// pointer level: no null pointer, the level names distinct blocks on the disk other than the
/// root, enough of them for the data blocks at 1024 to a block, with at most one to spare.
pub open spec fn reloadable(v: DataPointerView, disk_len: nat) -> bool {
    &&& v.root < disk_len
    &&& v.indirect.len() <= 1
    &&& forall|i: int| 0 <= i < v.direct.len() ==> #[trigger] v.direct[i] != 0
    &&& v.indirect.len() == 0 ==> v.direct.len() <= POINTERS_PER_BLOCK
    &&& v.indirect.len() == 1 ==> {
        let l0 = v.indirect[0];
        &&& 1 <= l0.len() <= POINTERS_PER_BLOCK
        &&& (l0.len() - 1) * POINTERS_PER_BLOCK <= v.direct.len() <= l0.len() * POINTERS_PER_BLOCK
        &&& forall|j: int| 0 <= j < l0.len() ==> #[trigger] l0[j] != 0 && l0[j] < disk_len && l0[j] != v.root
        &&& forall|j: int, k: int| 0 <= j < k < l0.len() ==> #[trigger] l0[j] != #[trigger] l0[k]
    }
}

proof fn lemma_first_zero_all(p: Seq<u32>, k: int, n: int)
    requires
        0 <= k <= n <= POINTERS_PER_BLOCK,
        p.len() == POINTERS_PER_BLOCK,
        forall|j: int| 0 <= j < n ==> #[trigger] p[j] != 0,
        n < POINTERS_PER_BLOCK ==> p[n] == 0,
    ensures
        first_zero_from(p, k) == n,
    decreases n - k,
{
    if k < n {
        lemma_first_zero_all(p, k + 1, n);
    }
}

/// A block made of the pointers `l` holds `l` followed by null pointers.
pub proof fn lemma_pointer_block(l: Seq<u32>)
    requires
        l.len() <= POINTERS_PER_BLOCK,
    ensures
        spec_pointers(pointer_block(l)) == l + Seq::new((POINTERS_PER_BLOCK - l.len()) as nat, |i: int| 0u32),
        (forall|i: int| 0 <= i < l.len() ==> #[trigger] l[i] != 0) ==> zero_prefix(pointer_block(l)) == l,
{
    let b = pointer_block(l);
    let z = l + Seq::new((POINTERS_PER_BLOCK - l.len()) as nat, |i: int| 0u32);
    assert forall|i: int| 0 <= i < POINTERS_PER_BLOCK implies #[trigger] spec_pointers(b)[i] == z[i] by {
        if i < l.len() {
            lemma_u32_bytes(l[i]);
            assert(b[4 * i] == byte_of(l[i], 0));
            assert(b[4 * i + 1] == byte_of(l[i], 1));
            assert(b[4 * i + 2] == byte_of(l[i], 2));
            assert(b[4 * i + 3] == byte_of(l[i], 3));
        } else {
            assert(b[4 * i] == 0);
            assert(b[4 * i + 1] == 0);
            assert(b[4 * i + 2] == 0);
            assert(b[4 * i + 3] == 0);
        }
    }
    assert(spec_pointers(b) =~= z);
    if forall|i: int| 0 <= i < l.len() ==> #[trigger] l[i] != 0 {
        lemma_first_zero_all(spec_pointers(b), 0, l.len() as int);
        reveal(zero_prefix);
        assert(zero_prefix(b) =~= l);
    }
}

/// A list whose pointers are all non-null and on the disk ends at its length.
proof fn lemma_list_end_full(l: Seq<u32>, disk_len: nat, k: int)
    requires
        0 <= k <= l.len(),
        forall|j: int| 0 <= j < l.len() ==> #[trigger] l[j] != 0 && l[j] < disk_len,
    ensures
        list_end(l, disk_len, k) == l.len(),
    decreases l.len() - k,
{
    if k < l.len() {
        lemma_list_end_full(l, disk_len, k + 1);
    }
}

/// Storing chunks leaves a block that no slot at or after `j` of `prev` names as it was.
proof fn lemma_write_chunks_other(d: Seq<Seq<u8>>, curr: Seq<u32>, prev: Seq<u32>, j: int, x: int)
    requires
        0 <= j,
        0 <= x < d.len(),
        forall|k: int| 0 <= k < prev.len() ==> #[trigger] prev[k] < d.len(),
        forall|k: int| j <= k < prev.len() ==> #[trigger] prev[k] != x,
    ensures
        write_chunks(d, curr, prev, j)[x] == d[x],
    decreases prev.len() - j,
{
    if !(j >= prev.len() || POINTERS_PER_BLOCK as int * j > curr.len()) {
        lemma_write_chunks_other(d.update(prev[j] as int, pointer_block(chunk_of(curr, j))), curr, prev, j + 1, x);
    }
}

/// Storing chunks leaves chunk `k` in the block that slot `k` of `prev` names.
proof fn lemma_write_chunks_at(d: Seq<Seq<u8>>, curr: Seq<u32>, prev: Seq<u32>, j: int, k: int)
    requires
        0 <= j <= k < prev.len(),
        POINTERS_PER_BLOCK as int * k <= curr.len(),
        forall|i: int| 0 <= i < prev.len() ==> #[trigger] prev[i] < d.len(),
        forall|a: int, b: int| 0 <= a < b < prev.len() ==> #[trigger] prev[a] != #[trigger] prev[b],
    ensures
        write_chunks(d, curr, prev, j)[prev[k] as int] == pointer_block(chunk_of(curr, k)),
    decreases prev.len() - j,
{
    let d1 = d.update(prev[j] as int, pointer_block(chunk_of(curr, j)));
    if j == k {
        assert forall|i: int| k + 1 <= i < prev.len() implies #[trigger] prev[i] != prev[k] by {
            assert(prev[k] != prev[i]);
        }
        lemma_write_chunks_other(d1, curr, prev, k + 1, prev[k] as int);
    } else {
        lemma_write_chunks_at(d1, curr, prev, j + 1, k);
    }
}

/// Chunk `m` of data blocks that are all non-null reads back from the block it is stored in.
proof fn lemma_chunk_reads_back(direct: Seq<u32>, m: int)
    requires
        0 <= m,
        POINTERS_PER_BLOCK * m <= direct.len(),
        forall|i: int| 0 <= i < direct.len() ==> #[trigger] direct[i] != 0,
    ensures
        zero_prefix(pointer_block(chunk_of(direct, m))) == chunk_of(direct, m),
        direct.take(POINTERS_PER_BLOCK * m) + chunk_of(direct, m) == direct.take(
            if POINTERS_PER_BLOCK * (m + 1) < direct.len() { POINTERS_PER_BLOCK * (m + 1) } else { direct.len() as int },
        ),
{
    let c = chunk_of(direct, m);
    let a = POINTERS_PER_BLOCK as int * m;
    let e = if POINTERS_PER_BLOCK * (m + 1) < direct.len() { POINTERS_PER_BLOCK * (m + 1) } else { direct.len() as int };
    assert(c == direct.subrange(a, e));
    assert(c.len() <= POINTERS_PER_BLOCK);
    assert(forall|i: int| 0 <= i < c.len() ==> #[trigger] c[i] != 0) by {
        assert forall|i: int| 0 <= i < c.len() implies #[trigger] c[i] != 0 by {
            assert(c[i] == direct[a + i]);
        }
    }
    assert(zero_prefix(pointer_block(c)) == c) by {
        lemma_pointer_block(c);
    }
    assert(direct.take(a) + c =~= direct.take(e));
}

/// The pieces stored in the blocks of `l0` read back, one after the other, as the data blocks.
proof fn lemma_expand_chunks(d: Seq<Seq<u8>>, direct: Seq<u32>, l0: Seq<u32>, m: int)
    requires
        0 <= m <= l0.len(),
        (l0.len() - 1) * POINTERS_PER_BLOCK <= direct.len(),
        forall|i: int| 0 <= i < direct.len() ==> #[trigger] direct[i] != 0,
        forall|j: int| 0 <= j < l0.len() ==> #[trigger] d[l0[j] as int] == pointer_block(chunk_of(direct, j)),
    ensures
        expand_all(d, l0.take(m)) == direct.take(
            if POINTERS_PER_BLOCK * m < direct.len() { POINTERS_PER_BLOCK * m } else { direct.len() as int },
        ),
    decreases m,
{
    if m == 0 {
        assert(l0.take(0) =~= Seq::<u32>::empty());
        assert(direct.take(0) =~= Seq::<u32>::empty());
    } else {
        lemma_expand_chunks(d, direct, l0, m - 1);
        assert(l0.take(m).drop_last() =~= l0.take(m - 1));
        assert(l0.take(m).last() == l0[m - 1]);
        assert(d[l0[m - 1] as int] == pointer_block(chunk_of(direct, m - 1)));
        lemma_chunk_reads_back(direct, m - 1);
    }
}

/// Fewer than 1024 data blocks need no pointer level, and fewer than 1024 * 1024 need one.
pub proof fn lemma_log_ppb_one(n: nat)
    ensures
        n < POINTERS_PER_BLOCK ==> log_ppb(n) == 0,
        POINTERS_PER_BLOCK <= n < POINTERS_PER_BLOCK * POINTERS_PER_BLOCK ==> log_ppb(n) == 1,
{
    if POINTERS_PER_BLOCK <= n < POINTERS_PER_BLOCK * POINTERS_PER_BLOCK {
        assert((n / (POINTERS_PER_BLOCK as nat)) < POINTERS_PER_BLOCK) by (nonlinear_arith)
            requires
                n < POINTERS_PER_BLOCK * POINTERS_PER_BLOCK,
        ;
        assert(log_ppb(n / POINTERS_PER_BLOCK as nat) == 0);
    }
}

/// Cutting a list in pieces gives at least one piece.
proof fn lemma_chunks_nonempty(l: Seq<u32>)
    ensures
        chunks(l).len() >= 1,
    decreases l.len(),
{
    if l.len() > POINTERS_PER_BLOCK {
        lemma_chunks_nonempty(l.skip(POINTERS_PER_BLOCK as int));
    }
}

/// A list that is cut in a single piece is that piece.
pub proof fn lemma_chunks_one(l: Seq<u32>, c: Seq<u32>)
    requires
        chunks(l) == seq![c],
    ensures
        l == c,
{
    if l.len() > POINTERS_PER_BLOCK {
        lemma_chunks_nonempty(l.skip(POINTERS_PER_BLOCK as int));
        assert(chunks(l).len() >= 2);
    } else {
        assert(chunks(l)[0] == l);
    }
}

/// Storing pointers with at most one pointer level leaves every block but the root and the
/// blocks of that level as it was.
pub proof fn lemma_saved_other(d: Seq<Seq<u8>>, v: DataPointerView, k: int)
    requires
        v.indirect.len() <= 1,
        can_save(v, d.len()),
        0 <= k < d.len(),
        k != v.root,
        v.indirect.len() == 1 ==> forall|j: int| 0 <= j < v.indirect[0].len() ==> #[trigger] v.indirect[0][j] != k,
    ensures
        saved(d, v)[k] == d[k],
        saved(d, v).len() == d.len(),
{
    if v.indirect.len() == 1 {
        let l0 = v.indirect[0];
        let d1 = d.update(v.root as int, pointer_block(l0));
        assert(write_levels(d1, v.indirect, 1) == d1);
        assert forall|j: int| 0 <= j < l0.len() implies #[trigger] l0[j] < d1.len() by {
            assert(v.indirect[0][j] < d.len());
        }
        lemma_write_chunks_other(d1, v.direct, l0, 0, k);
        lemma_write_chunks_len(d1, v.direct, l0, 0);
    }
}

/// A list ends at or after where the search starts, and at its length at the latest.
proof fn lemma_list_end_bounds(l: Seq<u32>, disk_len: nat, k: int)
    requires
        0 <= k <= l.len(),
    ensures
        k <= list_end(l, disk_len, k) <= l.len(),
    decreases l.len() - k,
{
    if k < l.len() && !(l[k] == 0 || l[k] >= disk_len) {
        lemma_list_end_bounds(l, disk_len, k + 1);
    }
}

/// The pointers that the blocks of `l` hold are the same on two disks that agree on those
/// blocks.
proof fn lemma_expand_all_same(d1: Seq<Seq<u8>>, d2: Seq<Seq<u8>>, l: Seq<u32>)
    requires
        forall|i: int| 0 <= i < l.len() ==> #[trigger] d1[l[i] as int] == d2[l[i] as int],
    ensures
        expand_all(d1, l) == expand_all(d2, l),
    decreases l.len(),
{
    if l.len() > 0 {
        assert forall|i: int| 0 <= i < l.drop_last().len() implies #[trigger] d1[l.drop_last()[i] as int] == d2[l.drop_last()[i] as int] by {
            assert(l.drop_last()[i] == l[i]);
        }
        lemma_expand_all_same(d1, d2, l.drop_last());
    }
}

/// Two disks of one length that agree on the root block and on the blocks it names read back
/// the same pointers, with no pointer level or with one.
pub proof fn lemma_level_list_same(d1: Seq<Seq<u8>>, d2: Seq<Seq<u8>>, root: u32, k: nat)
    requires
        k <= 1,
        d1.len() == d2.len(),
        root < d1.len(),
        d1[root as int] == d2[root as int],
        k == 1 ==> forall|i: int| 0 <= i < root_list(d1, root).len() ==>
            #[trigger] d1[root_list(d1, root)[i] as int] == d2[root_list(d1, root)[i] as int],
    ensures
        level_list(d2, root, k) == level_list(d1, root, k),
        level_chunks(d2, root, k) == level_chunks(d1, root, k),
{
    let l = root_list(d1, root);
    assert(root_list(d2, root) == l);
    if k == 1 {
        lemma_list_end_bounds(l, d1.len(), 0);
        let e = list_end(l, d1.len(), 0);
        let lt = l.take(e);
        assert forall|i: int| 0 <= i < lt.len() implies #[trigger] d1[lt[i] as int] == d2[lt[i] as int] by {
            assert(lt[i] == l[i]);
        }
        lemma_expand_all_same(d1, d2, lt);
        assert(level_list(d1, root, 0) == l);
        assert(level_list(d2, root, 0) == l);
        assert(level_chunks(d1, root, 1) == level_chunks(d1, root, 0) + chunks(l));
        assert(level_chunks(d2, root, 1) == level_chunks(d2, root, 0) + chunks(l));
    }
}

/// Adding a block that is not yet among the pointers, on the disk and not null, to pointers of
/// fewer than 1024 * 1024 - 1 data blocks shaped as adding blocks one by one leaves them (see
/// `reloadable`, with a pointer level only from 1024 data blocks on) keeps that shape: the
/// pointers saved after any number of additions read back the same.
pub proof fn law_add_keeps_reloadable(v: DataPointerView, blk: u32, v2: DataPointerView, r: i64, disk_len: nat)
    requires
        reloadable(v, disk_len),
        v.indirect.len() == 1 ==> POINTERS_PER_BLOCK <= v.direct.len(),
        v.direct.len() < POINTERS_PER_BLOCK * POINTERS_PER_BLOCK - 1,
        0 < blk < disk_len,
        blk != v.root,
        v.indirect.len() == 1 ==> forall|j: int| 0 <= j < v.indirect[0].len() ==> #[trigger] v.indirect[0][j] != blk,
        adds_block(v, blk, v2, r),
    ensures
        reloadable(v2, disk_len),
        v2.indirect.len() == 1 ==> POINTERS_PER_BLOCK <= v2.direct.len(),
        r == 0 ==> v2.direct == v.direct.push(blk) && v2.indirect == v.indirect,
        r != 0 ==> v2.direct == v.direct,
{
    let n = v.direct.len() as int;
    lemma_log_ppb_one(n as nat);
    assert(pow_ppb(1) == POINTERS_PER_BLOCK) by {
        reveal_with_fuel(pow_ppb, 2);
    }
    if v.indirect.len() == 0 && n < POINTERS_PER_BLOCK {
        assert(level_with_room(v.indirect, n as nat, 0, 0) == 0);
        assert(v2.direct == v.direct.push(blk));
        assert forall|i: int| 0 <= i < v2.direct.len() implies #[trigger] v2.direct[i] != 0 by {
            if i < n {
                assert(v2.direct[i] == v.direct[i]);
            }
        }
    } else if v.indirect.len() == 0 {
        assert(v2.indirect == seq![seq![blk]]);
        assert(v2.direct == v.direct);
    } else {
        let l0 = v.indirect[0];
        if l0.len() <= n / POINTERS_PER_BLOCK as int {
            assert(level_with_room(v.indirect, n as nat, 1, 0) == 0);
            let l1 = l0.push(blk);
            assert(v2.indirect == v.indirect.update(0, l1));
            assert(v2.indirect == seq![l1]);
            assert(v2.direct == v.direct);
            assert(l0.len() * POINTERS_PER_BLOCK <= n) by (nonlinear_arith)
                requires
                    l0.len() <= n / POINTERS_PER_BLOCK as int,
                    0 <= n,
            ;
            assert(l1.len() <= POINTERS_PER_BLOCK) by (nonlinear_arith)
                requires
                    l1.len() == l0.len() + 1,
                    l0.len() * POINTERS_PER_BLOCK <= n,
                    n < POINTERS_PER_BLOCK * POINTERS_PER_BLOCK - 1,
            ;
            assert forall|j: int| 0 <= j < l1.len() implies #[trigger] l1[j] != 0 && l1[j] < disk_len && l1[j] != v.root by {
                if j < l0.len() {
                    assert(l1[j] == l0[j]);
                }
            }
            assert forall|j: int, k: int| 0 <= j < k < l1.len() implies #[trigger] l1[j] != #[trigger] l1[k] by {
                if k < l0.len() {
                    assert(l1[j] == l0[j]);
                    assert(l1[k] == l0[k]);
                } else {
                    assert(l1[j] == l0[j]);
                }
            }
        } else {
            assert(level_with_room(v.indirect, n as nat, 1, 1) == 1);
            assert(level_with_room(v.indirect, n as nat, 1, 0) == 1);
            assert(v2.direct == v.direct.push(blk));
            assert(n < l0.len() * POINTERS_PER_BLOCK) by (nonlinear_arith)
                requires
                    l0.len() > n / POINTERS_PER_BLOCK as int,
                    0 <= n,
            ;
            assert forall|i: int| 0 <= i < v2.direct.len() implies #[trigger] v2.direct[i] != 0 by {
                if i < n {
                    assert(v2.direct[i] == v.direct[i]);
                }
            }
        }
    }
}

/// The shape that adding blocks one by one to no pointers gives: with no pointer level, at most
/// 1024 data blocks; with one, at least 1024 data blocks, and as many pointer blocks as they
/// need, 1024 to a block, or one more that waits for the next data block.
pub open spec fn pointer_shape(v: DataPointerView) -> bool {
    let n = v.direct.len() as int;
    ||| v.indirect.len() == 0 && n <= POINTERS_PER_BLOCK
    ||| v.indirect.len() == 1 && POINTERS_PER_BLOCK <= n && 1 <= v.indirect[0].len()
        && (v.indirect[0].len() - 1) * POINTERS_PER_BLOCK <= n <= v.indirect[0].len() * POINTERS_PER_BLOCK
}

/// Adding a block to pointers of fewer than 1024 * 1024 data blocks keeps their shape: the root
/// or the pointer blocks always have room for every data pointer. A data block is recorded
/// after the others, or else a pointer block is.
pub proof fn law_add_keeps_shape(v: DataPointerView, blk: u32, v2: DataPointerView, r: i64)
    requires
        pointer_shape(v),
        v.direct.len() < POINTERS_PER_BLOCK * POINTERS_PER_BLOCK,
        adds_block(v, blk, v2, r),
    ensures
        pointer_shape(v2),
        r == 0 ==> v2.direct == v.direct.push(blk) && v2.indirect == v.indirect,
        r != 0 ==> v2.direct == v.direct,
{
    let n = v.direct.len() as int;
    lemma_log_ppb_one(n as nat);
    assert(pow_ppb(1) == POINTERS_PER_BLOCK) by {
        reveal_with_fuel(pow_ppb, 2);
    }
    if v.indirect.len() == 0 && n < POINTERS_PER_BLOCK {
        assert(level_with_room(v.indirect, n as nat, 0, 0) == 0);
    } else if v.indirect.len() == 0 {
        assert(v2.indirect == seq![seq![blk]]);
    } else {
        let l0 = v.indirect[0];
        if l0.len() <= n / POINTERS_PER_BLOCK as int {
            assert(level_with_room(v.indirect, n as nat, 1, 0) == 0);
            let l1 = l0.push(blk);
            assert(v2.indirect == seq![l1]);
            assert(l0.len() * POINTERS_PER_BLOCK <= n) by (nonlinear_arith)
                requires
                    l0.len() <= n / POINTERS_PER_BLOCK as int,
                    0 <= n,
            ;
        } else {
            assert(level_with_room(v.indirect, n as nat, 1, 1) == 1);
            assert(level_with_room(v.indirect, n as nat, 1, 0) == 1);
            assert(n < l0.len() * POINTERS_PER_BLOCK) by (nonlinear_arith)
                requires
                    l0.len() > n / POINTERS_PER_BLOCK as int,
                    0 <= n,
            ;
        }
    }
}

/// Storing pointers with at most one pointer level and reading them back at that depth gives
/// the same data blocks and pointer levels.
pub proof fn law_save_then_reload(d: Seq<Seq<u8>>, v: DataPointerView)
    requires
        reloadable(v, d.len()),
    ensures
        level_list(saved(d, v), v.root, v.indirect.len()) == v.direct,
        level_chunks(saved(d, v), v.root, v.indirect.len()) == v.indirect,
        v.indirect.len() == 1 ==> root_list(saved(d, v), v.root) == v.indirect[0],
        saved(d, v).len() == d.len(),
{
    let d2 = saved(d, v);
    if v.indirect.len() == 0 {
        lemma_pointer_block(v.direct);
        assert(root_list(d2, v.root) == v.direct);
        assert(level_chunks(d2, v.root, 0) =~= v.indirect);
    } else {
        let l0 = v.indirect[0];
        let d1 = d.update(v.root as int, pointer_block(l0));
        assert(write_levels(d1, v.indirect, 1) == d1);
        assert(d2 == write_chunks(d1, v.direct, l0, 0));
        lemma_write_chunks_other(d1, v.direct, l0, 0, v.root as int);
        assert(d2[v.root as int] == pointer_block(l0));
        lemma_write_chunks_len(d1, v.direct, l0, 0);
        lemma_pointer_block(l0);
        assert(root_list(d2, v.root) == l0);
        assert(level_list(d2, v.root, 0) == l0);
        assert(chunks(l0) == seq![l0]);
        assert(level_chunks(d2, v.root, 0) == Seq::<Seq<u32>>::empty());
        assert(level_chunks(d2, v.root, 1) == Seq::<Seq<u32>>::empty() + chunks(level_list(d2, v.root, 0)));
        assert(level_chunks(d2, v.root, 1) =~= v.indirect);
        assert forall|j: int| 0 <= j < l0.len() implies #[trigger] d2[l0[j] as int] == pointer_block(chunk_of(v.direct, j)) by {
            lemma_write_chunks_at(d1, v.direct, l0, 0, j);
        }
        lemma_list_end_full(l0, d2.len(), 0);
        assert(l0.take(l0.len() as int) =~= l0);
        lemma_expand_chunks(d2, v.direct, l0, l0.len() as int);
        assert(v.direct.take(v.direct.len() as int) =~= v.direct);
        assert(level_list(d2, v.root, 1) == expand(d2, l0));
    }
}

impl InodeDataPointer {
    /// Whether the pointers can be stored on a disk of `disk_len` blocks.
    pub fn fits(&self, disk_len: usize) -> (r: bool)
        ensures
            r == can_save(self@, disk_len as nat),
    {
        if self.root_ptr as usize >= disk_len {
            return false;
        }
        let n = self.indirect_ptrs.len();
        if n == 0 {
            return self.direct_ptrs.len() <= POINTERS_PER_BLOCK;
        }
        if self.indirect_ptrs[0].len() > POINTERS_PER_BLOCK {
            return false;
        }
        let mut i: usize = 0;
        while i < n
            invariant
                i <= n,
                n == self@.indirect.len(),
                self.root_ptr < disk_len,
                n > 0,
                self@.indirect[0].len() <= POINTERS_PER_BLOCK,
                forall|a: int| 0 <= a < i ==> (#[trigger] self@.indirect[a]).len() > 0,
                forall|a: int, b: int| 0 <= a < i && 0 <= b < self@.indirect[a].len() ==> #[trigger] self@.indirect[a][b] < disk_len,
            decreases n - i,
        {
            let level = &self.indirect_ptrs[i];
            if level.len() == 0 {
                assert(self@.indirect[i as int].len() == 0);
                return false;
            }
            let mut j: usize = 0;
            while j < level.len()
                invariant
                    i < n,
                    n == self@.indirect.len(),
                    j <= level@.len(),
                    level@ == self@.indirect[i as int],
                    forall|b: int| 0 <= b < j ==> #[trigger] level@[b] < disk_len,
                decreases level@.len() - j,
            {
                if level[j] as usize >= disk_len {
                    assert(self@.indirect[i as int][j as int] >= disk_len);
                    return false;
                }
                j += 1;
            }
            i += 1;
        }
        true
    }
}

proof fn lemma_write_levels_len(d: Seq<Seq<u8>>, ind: Seq<Seq<u32>>, m: int)
    requires
        forall|i: int, j: int| 0 <= i < ind.len() && 0 <= j < ind[i].len() ==> #[trigger] ind[i][j] < d.len(),
        m <= ind.len(),
    ensures
        write_levels(d, ind, m).len() == d.len(),
    decreases m,
{
    if m > 1 {
        lemma_write_levels_len(d, ind, m - 1);
        let d1 = write_levels(d, ind, m - 1);
        assert forall|k: int| 0 <= k < ind[m - 2].len() implies #[trigger] ind[m - 2][k] < d1.len() by {
        }
        lemma_write_chunks_len(d1, ind[m - 1], ind[m - 2], 0);
    }
}

/// Storing pointers leaves the number of disk blocks as it was.
pub proof fn lemma_saved_len(d: Seq<Seq<u8>>, v: DataPointerView)
    requires
        can_save(v, d.len()),
    ensures
        saved(d, v).len() == d.len(),
{
    if v.indirect.len() > 0 {
        let n = v.indirect.len() as int;
        let d0 = d.update(v.root as int, pointer_block(v.indirect[0]));
        lemma_write_levels_len(d0, v.indirect, n);
        let d1 = write_levels(d0, v.indirect, n);
        assert forall|k: int| 0 <= k < v.indirect[n - 1].len() implies #[trigger] v.indirect[n - 1][k] < d1.len() by {
        }
        lemma_write_chunks_len(d1, v.direct, v.indirect[n - 1], 0);
    }
}
} // verus!
