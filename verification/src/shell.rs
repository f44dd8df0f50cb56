use vstd::prelude::*;
use vstd::string::StrSliceExecFns;
use crate::constants::BUFFER_SIZE;
use crate::fs::{FileSystem, appended_all, appends_cleanly, filled_with, grows_cleanly, lemma_copy_step, lemma_fill_step};
use crate::block::blocks_left;
use crate::inode::{in_table, inode_at};
use crate::read_iter::{can_read_at, file_blocks, file_byte};

verus! {

/// The characters with the Unicode property White_Space.
pub open spec fn white_space(c: char) -> bool {
    let n = c as u32;
    ||| 0x09 <= n <= 0x0D
    ||| n == 0x20
    ||| n == 0x85
    ||| n == 0xA0
    ||| n == 0x1680
    ||| 0x2000 <= n <= 0x200A
    ||| n == 0x2028
    ||| n == 0x2029
    ||| n == 0x202F
    ||| n == 0x205F
    ||| n == 0x3000
}

/// Whether `c` is white space.
pub fn is_white_space(c: char) -> (r: bool)
    ensures
        r == white_space(c),
{
    let n = c as u32;
    (0x09 <= n && n <= 0x0D) || n == 0x20 || n == 0x85 || n == 0xA0 || n == 0x1680 || (0x2000 <= n
        && n <= 0x200A) || n == 0x2028 || n == 0x2029 || n == 0x202F || n == 0x205F || n == 0x3000
}

/// The words of `s`: its longest runs of characters that are not white space, in order.
pub open spec fn words(s: Seq<char>) -> Seq<Seq<char>>
    decreases s.len(),
{
    if s.len() == 0 {
        Seq::empty()
    } else {
        let w = words(s.drop_last());
        let c = s.last();
        if white_space(c) {
            w
        } else if s.len() >= 2 && !white_space(s[s.len() - 2]) {
            w.update(w.len() - 1, w.last().push(c))
        } else {
            w.push(seq![c])
        }
    }
}

/// Splits a command line into its words.
pub fn parse_command(command: &str) -> (r: Vec<&str>)
    ensures
        r@.len() == words(command@).len(),
        forall|k: int| 0 <= k < r@.len() ==> (#[trigger] r@[k])@ == words(command@)[k],
{
    let n = command.unicode_len();
    let mut v: Vec<&str> = Vec::new();
    let mut start: usize = 0;
    let mut in_word = false;
    let mut i: usize = 0;
    proof {
        assert(command@.take(0) =~= Seq::<char>::empty());
    }
    while i < n
        invariant
            n == command@.len(),
            i <= n,
            start <= i,
            in_word ==> start < i && !white_space(command@[i - 1]),
            !in_word ==> i == 0 || white_space(command@[i - 1]),
            in_word ==> forall|k: int| start <= k < i ==> !white_space(#[trigger] command@[k]),
            in_word ==> start == 0 || white_space(command@[start - 1]),
            ({
                let w = words(command@.take(i as int));
                &&& w.len() == v@.len() + (if in_word { 1int } else { 0int })
                &&& forall|k: int| 0 <= k < v@.len() ==> (#[trigger] v@[k])@ == w[k]
                &&& in_word ==> w.last() == command@.subrange(start as int, i as int)
            }),
        decreases n - i,
    {
        let c = command.get_char(i);
        let ghost s = command@.take(i + 1);
        proof {
            assert(s.drop_last() =~= command@.take(i as int));
            assert(s.last() == c);
        }
        if is_white_space(c) {
            if in_word {
                let word = command.substring_char(start, i);
                v.push(word);
                in_word = false;
            }
        } else {
            if !in_word {
                start = i;
                in_word = true;
                proof {
                    assert(command@.subrange(i as int, i + 1) =~= seq![c]);
                }
            } else {
                proof {
                    assert(s[s.len() - 2] == command@[i - 1]);
                    assert(command@.subrange(start as int, i + 1) =~= command@.subrange(start as int, i as int).push(c));
                }
            }
        }
        i += 1;
    }
    if in_word {
        let word = command.substring_char(start, n);
        v.push(word);
    }
    proof {
        assert(command@.take(n as int) =~= command@);
    }
    v
}

/// The first position from `p` on where reading a file of `size` bytes whose data blocks are
/// `blocks` stops: its end, or the first byte whose block cannot be read.
pub open spec fn read_stop(d: Seq<Seq<u8>>, blocks: Seq<u32>, size: int, p: int) -> int
    decreases size - p,
{
    if p >= size || !can_read_at(d, blocks, size, p) {
        p
    } else {
        read_stop(d, blocks, size, p + 1)
    }
}

/// Reading stops at the same place from `p` as from `q` when every byte from `p` up to `q`
/// can be read.
proof fn lemma_read_stop_skip(d: Seq<Seq<u8>>, blocks: Seq<u32>, size: int, p: int, q: int)
    requires
        p <= q <= size,
        forall|k: int| p <= k < q ==> #[trigger] can_read_at(d, blocks, size, k),
    ensures
        read_stop(d, blocks, size, p) == read_stop(d, blocks, size, q),
    decreases q - p,
{
    if p < q {
        lemma_read_stop_skip(d, blocks, size, p + 1, q);
    }
}

/// The bytes of file `inumber`, read from its start in pieces of `BUFFER_SIZE` bytes until a
/// read gives none: what copying a file out writes.
pub fn copyout_data(fs: &mut FileSystem, inumber: usize) -> (r: Vec<u8>)
    requires
        old(fs).wf(),
    ensures
        final(fs).wf(),
        final(fs).meta_data == old(fs).meta_data,
        final(fs).inode_table == old(fs).inode_table,
        final(fs).disk is Some == old(fs).disk is Some,
        old(fs).disk is Some ==> final(fs).disk.unwrap()@ == old(fs).disk.unwrap()@,
        !(old(fs).is_mounted() && in_table(old(fs).inode_table.unwrap()@, inumber as int)) ==> r@.len() == 0,
        old(fs).is_mounted() && in_table(old(fs).inode_table.unwrap()@, inumber as int) ==> {
            let d = old(fs).disk.unwrap()@;
            let x = inode_at(old(fs).inode_table.unwrap()@, inumber as int);
            let blocks = file_blocks(d, x);
            &&& r@.len() == read_stop(d, blocks, x.size as int, 0)
            &&& forall|k: int| 0 <= k < r@.len() ==> #[trigger] r@[k] == file_byte(d, blocks, k)
        },
{
    let ghost fs0 = *fs;
    let mut out: Vec<u8> = Vec::new();
    let mut buffer: Vec<u8> = vec![0u8; BUFFER_SIZE];
    let mut offset: usize = 0;
    let ghost ok = fs0.is_mounted() && in_table(fs0.inode_table.unwrap()@, inumber as int);
    let ghost d = if ok { fs0.disk.unwrap()@ } else { Seq::empty() };
    let ghost x = if ok { inode_at(fs0.inode_table.unwrap()@, inumber as int) } else { crate::inode::Inode::blank_spec() };
    let ghost blocks = file_blocks(d, x);
    let ghost size = x.size as int;
    loop
        invariant
            fs.wf(),
            fs.meta_data == fs0.meta_data,
            fs.inode_table == fs0.inode_table,
            fs.disk is Some == fs0.disk is Some,
            fs0.disk is Some ==> fs.disk.unwrap()@ == fs0.disk.unwrap()@,
            buffer@.len() == BUFFER_SIZE,
            out@.len() == offset,
            !ok ==> offset == 0,
            ok ==> {
                &&& d == fs0.disk.unwrap()@
                &&& x == inode_at(fs0.inode_table.unwrap()@, inumber as int)
                &&& blocks == file_blocks(d, x)
                &&& size == x.size as int
                &&& offset <= size
                &&& forall|k: int| 0 <= k < offset ==> #[trigger] out@[k] == file_byte(d, blocks, k)
                &&& forall|k: int| 0 <= k < offset ==> #[trigger] can_read_at(d, blocks, size, k)
            },
            ok == (fs0.is_mounted() && in_table(fs0.inode_table.unwrap()@, inumber as int)),
        ensures
            out@.len() == offset,
            !ok ==> offset == 0,
            ok ==> {
                &&& offset == read_stop(d, blocks, size, 0)
                &&& forall|k: int| 0 <= k < offset ==> #[trigger] out@[k] == file_byte(d, blocks, k)
            },
            fs.meta_data == fs0.meta_data,
            fs.inode_table == fs0.inode_table,
            fs.disk is Some == fs0.disk is Some,
            fs0.disk is Some ==> fs.disk.unwrap()@ == fs0.disk.unwrap()@,
        decreases size - offset,
    {
        let result = fs.read(inumber, &mut buffer, BUFFER_SIZE, offset);
        if result <= 0 {
            proof {
                if ok {
                    lemma_read_stop_skip(d, blocks, size, 0, offset as int);
                }
            }
            break;
        }
        let n = result as usize;
        let mut k: usize = 0;
        while k < n
            invariant
                k <= n,
                n <= buffer@.len(),
                out@.len() == offset + k,
                ok ==> forall|j: int| 0 <= j < offset ==> #[trigger] out@[j] == file_byte(d, blocks, j),
                forall|j: int| 0 <= j < k ==> #[trigger] out@[offset + j] == buffer@[j],
            decreases n - k,
        {
            out.push(buffer[k]);
            k += 1;
        }
        proof {
            if ok {
                assert forall|j: int| 0 <= j < offset + n implies #[trigger] out@[j] == file_byte(d, blocks, j) by {
                    if j >= offset {
                        assert(out@[offset + (j - offset)] == buffer@[j - offset]);
                    }
                }
                assert forall|j: int| 0 <= j < offset + n implies #[trigger] can_read_at(d, blocks, size, j) by {
                    if j >= offset {
                        assert(can_read_at(d, blocks, size, offset + (j - offset)));
                    }
                }
            }
        }
        offset += n;
    }
    out
}

/// Writes `data` to the end of file `inumber` in pieces of `BUFFER_SIZE` bytes, as copying a
/// file in does: stops after a piece that fails or that is written only in part. Returns the
/// number of bytes in the pieces handed to `write` that did not fail. When the file can take
/// the bytes as `appends_cleanly` asks, it reads its earlier bytes followed by the first `k`
/// bytes of `data`, `k` being how much it grew; when `k` falls short of `data`, no block is
/// left, and either the first piece failed (nothing was counted) or the count runs to the end
/// of the piece that was written only in part. When blocks are left for all of `data`
/// (`grows_cleanly`), all of it is written.
#[verifier::spinoff_prover]
#[verifier::rlimit(40)]
pub fn copyin_data(fs: &mut FileSystem, inumber: usize, data: &Vec<u8>) -> (r: usize)
    requires
        old(fs).wf(),
    ensures
        final(fs).wf(),
        final(fs).is_mounted() == old(fs).is_mounted(),
        r <= data@.len(),
        r < data@.len() ==> r as int % BUFFER_SIZE as int == 0,
        !(old(fs).is_mounted() && in_table(old(fs).inode_table.unwrap()@, inumber as int)) ==> r == 0 && *final(fs) == *old(fs),
        old(fs).is_mounted() && appends_cleanly(*old(fs), inumber as int, data@.len() as int) ==> {
            let k = inode_at(final(fs).inode_table.unwrap()@, inumber as int).size - inode_at(old(fs).inode_table.unwrap()@, inumber as int).size;
            &&& 0 <= k <= r
            &&& appended_all(*old(fs), *final(fs), inumber as int, data@.take(k))
            &&& k < data@.len() ==> blocks_left(final(fs).meta_data.unwrap(), final(fs).disk.unwrap()@) == 0
                && ((r == 0 && k == 0) || r == piece_end(k, data@.len() as int))
        },
        old(fs).is_mounted() && grows_cleanly(*old(fs), inumber as int, data@.len() as int) ==>
            r == data@.len() && appended_all(*old(fs), *final(fs), inumber as int, data@),
{
    let mut len: usize = 0;
    let mut offset: usize = 0;
    let ghost fs0 = *fs;
    let ghost g = fs0.is_mounted() && grows_cleanly(fs0, inumber as int, data@.len() as int);
    let ghost c = fs0.is_mounted() && appends_cleanly(fs0, inumber as int, data@.len() as int);
    let ghost x0 = inode_at(fs0.inode_table.unwrap()@, inumber as int);
    let ghost d0 = fs0.disk.unwrap()@;
    let ghost b0 = file_blocks(d0, x0);
    let ghost mut k: int = 0;
    proof {
        assert(data@.take(0) =~= Seq::<u8>::empty());
    }
    while offset < data.len()
        invariant_except_break
            g ==> len == offset,
            g && offset < data@.len() ==> grows_cleanly(*fs, inumber as int, data@.len() - offset),
            g ==> filled_with(x0, d0, b0, *fs, inumber as int, data@.take(offset as int)),
            c ==> k == offset,
            c && offset < data@.len() ==> appends_cleanly(*fs, inumber as int, data@.len() - offset),
            c && offset > 0 ==> inode_at(fs.inode_table.unwrap()@, inumber as int).data_block != 0,
        invariant
            fs.wf(),
            fs.is_mounted() == fs0.is_mounted(),
            len <= offset <= data@.len(),
            len < data@.len() ==> len as int % BUFFER_SIZE as int == 0,
            len == offset,
            !(fs0.is_mounted() && in_table(fs0.inode_table.unwrap()@, inumber as int)) ==> len == 0 && *fs == fs0,
            fs0.is_mounted() ==> fs.inode_table.unwrap()@.len() == fs0.inode_table.unwrap()@.len(),
            g == (fs0.is_mounted() && grows_cleanly(fs0, inumber as int, data@.len() as int)),
            c == (fs0.is_mounted() && appends_cleanly(fs0, inumber as int, data@.len() as int)),
            x0 == inode_at(fs0.inode_table.unwrap()@, inumber as int),
            d0 == fs0.disk.unwrap()@,
            b0 == file_blocks(d0, x0),
            c ==> 0 <= k <= len,
            c ==> filled_with(x0, d0, b0, *fs, inumber as int, data@.take(k)),
        ensures
            fs.wf(),
            fs.is_mounted() == fs0.is_mounted(),
            len <= data@.len(),
            len < data@.len() ==> len as int % BUFFER_SIZE as int == 0,
            !(fs0.is_mounted() && in_table(fs0.inode_table.unwrap()@, inumber as int)) ==> len == 0 && *fs == fs0,
            g ==> len == data@.len() && filled_with(x0, d0, b0, *fs, inumber as int, data@.take(len as int)),
            c ==> 0 <= k <= len && filled_with(x0, d0, b0, *fs, inumber as int, data@.take(k)),
            c && k < data@.len() ==> blocks_left(fs.meta_data.unwrap(), fs.disk.unwrap()@) == 0
                && ((len == 0 && k == 0) || len == piece_end(k, data@.len() as int)),
        decreases data@.len() - offset,
    {
        let rest = data.len() - offset;
        let n = if rest < BUFFER_SIZE { rest } else { BUFFER_SIZE };
        let mut buffer: Vec<u8> = Vec::new();
        let mut j: usize = 0;
        while j < n
            invariant
                j <= n,
                offset + n <= data.len(),
                buffer@ == data@.subrange(offset as int, offset + j),
            decreases n - j,
        {
            buffer.push(data[offset + j]);
            j += 1;
            proof {
                assert(buffer@ =~= data@.subrange(offset as int, offset + j));
            }
        }
        let ghost fs1 = *fs;
        let actual = fs.write(inumber, &buffer, n, 0);
        proof {
            assert(buffer@.subrange(0, n as int) =~= data@.subrange(offset as int, offset + n));
            if g {
                lemma_fill_step(fs1, *fs, inumber as int, rest as int, n as int, actual as int, data@, x0, d0, b0);
            }
            if c {
                lemma_copy_step(fs1, *fs, inumber as int, rest as int, n as int, actual as int, data@, x0, d0, b0);
                if actual >= 0 {
                    k = offset + actual;
                }
            }
        }
        if actual < 0 {
            break;
        }
        proof {
            if n == BUFFER_SIZE && len < data@.len() {
                assert((len + n) as int % BUFFER_SIZE as int == 0) by (nonlinear_arith)
                    requires
                        len as int % BUFFER_SIZE as int == 0,
                        n == BUFFER_SIZE,
                ;
            }
            if c && (actual as usize) < n {
                assert(piece_end(k, data@.len() as int) == len + n) by (nonlinear_arith)
                    requires
                        k == offset + actual,
                        0 <= actual < n,
                        len == offset,
                        n == if data@.len() - offset < BUFFER_SIZE { data@.len() - offset } else { BUFFER_SIZE as int },
                        offset < data@.len() ==> offset as int % BUFFER_SIZE as int == 0,
                        offset < data@.len(),
                        piece_end(k, data@.len() as int) == (if (k / BUFFER_SIZE as int + 1) * BUFFER_SIZE as int > data@.len() { data@.len() as int } else { (k / BUFFER_SIZE as int + 1) * BUFFER_SIZE as int }),
                ;
            }
        }
        len += n;
        offset += n;
        if actual as usize != n {
            break;
        }
    }
    proof {
        assert(fs0 == *old(fs));
        if g {
            assert(data@.take(len as int) =~= data@);
        }
        if c && k == data@.len() {
            assert(data@.take(k) =~= data@);
        }
    }
    len
}

/// Where the piece of `BUFFER_SIZE` bytes that holds byte `k` ends, cut at the end `total` of the
/// data.
pub open spec fn piece_end(k: int, total: int) -> int {
    let e = (k / BUFFER_SIZE as int + 1) * BUFFER_SIZE as int;
    if e > total { total } else { e }
}

/// Copying bytes into an empty file and then copying the file out gives back those bytes: when
/// the file went from `fs0` to `fs1` by having `data` appended (as `copyin_data` does) and `out`
/// is what `copyout_data` gives for it in `fs1`, `out` is `data`.
pub proof fn law_copy_in_then_out(fs0: FileSystem, fs1: FileSystem, inumber: int, data: Seq<u8>, out: Seq<u8>)
    requires
        inode_at(fs0.inode_table.unwrap()@, inumber).size == 0,
        appended_all(fs0, fs1, inumber, data),
        ({
            let d = fs1.disk.unwrap()@;
            let x = inode_at(fs1.inode_table.unwrap()@, inumber);
            let blocks = file_blocks(d, x);
            &&& out.len() == read_stop(d, blocks, x.size as int, 0)
            &&& forall|k: int| 0 <= k < out.len() ==> #[trigger] out[k] == file_byte(d, blocks, k)
        }),
    ensures
        out == data,
{
    let d = fs1.disk.unwrap()@;
    let x = inode_at(fs1.inode_table.unwrap()@, inumber);
    let blocks = file_blocks(d, x);
    let size = x.size as int;
    assert(size == data.len());
    assert forall|k: int| 0 <= k < size implies #[trigger] can_read_at(d, blocks, size, k) by {
        assert(crate::fs::src_byte(d, blocks, size, 0, data, k));
    }
    lemma_read_stop_skip(d, blocks, size, 0, size);
    assert(out.len() == size);
    assert forall|k: int| 0 <= k < out.len() implies #[trigger] out[k] == data[k] by {
        assert(crate::fs::src_byte(d, blocks, size, 0, data, k));
    }
    assert(out =~= data);
}

} // verus!
