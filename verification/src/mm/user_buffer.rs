//! Handing bytes to a task.
//!
//! A value that the kernel gives to a task is laid out as bytes and cut
//! along the runs of bytes behind the task's buffer: one write for each
//! run, so that a value that straddles a page boundary arrives whole.

use vstd::prelude::*;
use crate::config::PAGE_SIZE;
use crate::mm::address::{page_floor, page_offset, PhysPageNum};
use crate::mm::page_table::{
    filled,
    lemma_segments_cover,
    lemma_segments_fill,
    segment_count,
    segments,
    ByteSegment,
    PageTableEntry,
};

verus! {

/// The `n` low bytes of `x`, the lowest first.
pub open spec fn le_bytes(x: int, n: nat) -> Seq<u8>
    decreases n,
{
    if n == 0 {
        Seq::empty()
    } else {
        seq![(x % 256) as u8] + le_bytes(x / 256, (n - 1) as nat)
    }
}

/// The number that `bytes` spell, the lowest byte first.
pub open spec fn le_value(bytes: Seq<u8>) -> int
    decreases bytes.len(),
{
    if bytes.len() == 0 {
        0
    } else {
        bytes[0] + 256 * le_value(bytes.skip(1))
    }
}

/// Whether `x` is a number of at most `n` bytes.
pub open spec fn fits_bytes(x: int, n: nat) -> bool
    decreases n,
{
    if n == 0 {
        x == 0
    } else {
        0 <= x && fits_bytes(x / 256, (n - 1) as nat)
    }
}

/// The bytes of a number have the asked length.
pub proof fn lemma_le_bytes_len(x: int, n: nat)
    ensures
        le_bytes(x, n).len() == n,
    decreases n,
{
    if n > 0 {
        lemma_le_bytes_len(x / 256, (n - 1) as nat);
    }
}

/// Laying a number out in enough bytes loses nothing: the bytes spell the
/// number again.
pub proof fn lemma_le_round_trip(x: int, n: nat)
    requires
        fits_bytes(x, n),
    ensures
        le_value(le_bytes(x, n)) == x,
    decreases n,
{
    if n > 0 {
        let rest = le_bytes(x / 256, (n - 1) as nat);
        let all = le_bytes(x, n);
        lemma_le_round_trip(x / 256, (n - 1) as nat);
        assert(all.skip(1) =~= rest);
        assert(all[0] == (x % 256) as u8);
    }
}

/// Every machine word of 64 bits is a number of at most 8 bytes, and
/// every one of 32 bits a number of at most 4.
pub proof fn lemma_words_fit(x: u64, y: u32)
    ensures
        fits_bytes(x as int, 8),
        fits_bytes(y as int, 4),
{
    reveal_with_fuel(fits_bytes, 9);
}

/// Appends the `n` low bytes of `x` to `out`, the lowest first.
pub fn push_le_bytes(out: &mut Vec<u8>, x: u64, n: usize)
    ensures
        final(out)@ == old(out)@ + le_bytes(x as int, n as nat),
{
    let ghost out0 = out@;
    let mut rest: u64 = x;
    let mut i: usize = 0;
    proof {
        assert(out@ + le_bytes(rest as int, n as nat) =~= out0 + le_bytes(x as int, n as nat));
    }
    while i < n
        invariant
            i <= n,
            out@ + le_bytes(rest as int, (n - i) as nat) == out0 + le_bytes(x as int, n as nat),
        decreases n - i,
    {
        let ghost before = out@;
        let byte = (rest % 256) as u8;
        out.push(byte);
        proof {
            let tail = le_bytes(rest as int / 256, (n - i - 1) as nat);
            assert(le_bytes(rest as int, (n - i) as nat) == seq![byte] + tail);
            assert(before.push(byte) + tail =~= before + (seq![byte] + tail));
        }
        rest = rest / 256;
        i = i + 1;
    }
    proof {
        assert(out@ + le_bytes(rest as int, 0) =~= out@);
    }
}

/// One write into a frame: `bytes` go to frame `ppn` from position
/// `offset` on.
pub struct UserWrite {
    pub ppn: PhysPageNum,
    pub offset: usize,
    pub bytes: Vec<u8>,
}

/// Whether every run of `segs` ends where or after it begins.
pub open spec fn segments_ordered(segs: Seq<ByteSegment>) -> bool {
    forall|k: int| 0 <= k < segs.len() ==> (#[trigger] segs[k]).start <= segs[k].end
}

/// The part of `bytes` that goes to the `k`-th run of `segs` when the
/// bytes are laid along the runs.
pub open spec fn chunk(segs: Seq<ByteSegment>, bytes: Seq<u8>, k: int) -> Seq<u8> {
    bytes.subrange(filled(segs, k), filled(segs, k + 1))
}

/// Whether `writes` lay `bytes` along the runs of `segs`: one write for
/// each run, in order, to where the run begins, with the bytes of that
/// run.
pub open spec fn is_scatter(writes: Seq<UserWrite>, segs: Seq<ByteSegment>, bytes: Seq<u8>) -> bool {
    &&& writes.len() == segs.len()
    &&& forall|k: int|
        0 <= k < segs.len() ==> (#[trigger] writes[k]).ppn == segs[k].ppn && writes[k].offset
            == segs[k].start && writes[k].bytes@ == chunk(segs, bytes, k)
}

/// The runs before the `k`-th hold no more bytes than all runs together.
pub proof fn lemma_filled_grows(segs: Seq<ByteSegment>, j: int, k: int)
    requires
        segments_ordered(segs),
        0 <= j <= k <= segs.len(),
    ensures
        0 <= filled(segs, j) <= filled(segs, k),
    decreases k,
{
    if j < k {
        lemma_filled_grows(segs, j, k - 1);
        assert(segs[k - 1].start <= segs[k - 1].end);
    } else if k > 0 {
        lemma_filled_grows(segs, j - 1, k - 1);
        assert(segs[k - 1].start <= segs[k - 1].end);
    }
}

/// Writes that lay a value along the runs behind a buffer put every byte
/// where the task will look for it: byte `i` of the value goes, with the
/// write for the page of address `ptr + i`, into the frame that `table`
/// maps that page to, at the position that the address has inside the
/// page.
pub proof fn lemma_scatter_places_bytes(
    table: Map<usize, PageTableEntry>,
    ptr: usize,
    bytes: Seq<u8>,
    writes: Seq<UserWrite>,
    i: int,
)
    requires
        ptr + bytes.len() <= usize::MAX,
        is_scatter(writes, segments(table, ptr as int, ptr + bytes.len()), bytes),
        0 <= i < bytes.len(),
    ensures
        ({
            let addr = ptr + i;
            let k = page_floor(addr) - page_floor(ptr as int);
            let at = page_offset(addr) - writes[k].offset;
            &&& 0 <= k < writes.len()
            &&& writes[k].ppn == table[page_floor(addr) as usize].ppn
            &&& 0 <= at < writes[k].bytes@.len()
            &&& writes[k].bytes@[at] == bytes[i]
        }),
{
    let end = ptr + bytes.len();
    let addr = ptr + i;
    let segs = segments(table, ptr as int, end);
    let k = page_floor(addr) - page_floor(ptr as int);
    lemma_segments_cover(table, ptr as int, end, addr);
    lemma_segments_fill(table, ptr as int, end, k);
    lemma_segments_fill(table, ptr as int, end, k + 1);
    assert(segs.len() == segment_count(ptr as int, end));
    assert(filled(segs, k + 1) == filled(segs, k) + segs[k].spec_len());
    assert(filled(segs, k + 1) <= bytes.len());
    assert(writes[k].bytes@ == chunk(segs, bytes, k));
}

/// Lays `bytes` along the runs of `segs`. There is a result where the
/// runs are in order and hold exactly as many bytes as there are.
pub fn scatter(segs: &Vec<ByteSegment>, bytes: &Vec<u8>) -> (res: Option<Vec<UserWrite>>)
    ensures
        res is Some <==> segments_ordered(segs@) && filled(segs@, segs@.len() as int)
            == bytes@.len(),
        res is Some ==> is_scatter(res->0@, segs@, bytes@),
{
    let mut writes: Vec<UserWrite> = Vec::new();
    let mut pos: usize = 0;
    let mut k: usize = 0;
    while k < segs.len()
        invariant
            k <= segs.len(),
            pos == filled(segs@, k as int),
            pos <= bytes.len(),
            forall|j: int| 0 <= j < k ==> (#[trigger] segs@[j]).start <= segs@[j].end,
            writes@.len() == k,
            forall|j: int|
                0 <= j < k ==> (#[trigger] writes@[j]).ppn == segs@[j].ppn && writes@[j].offset
                    == segs@[j].start && writes@[j].bytes@ == chunk(segs@, bytes@, j),
        decreases segs.len() - k,
    {
        let seg = segs[k];
        if seg.start > seg.end {
            return None;
        }
        let n = seg.end - seg.start;
        if n > bytes.len() - pos {
            proof {
                if segments_ordered(segs@) {
                    lemma_filled_grows(segs@, k + 1, segs@.len() as int);
                }
            }
            return None;
        }
        let mut part: Vec<u8> = Vec::new();
        let mut j: usize = 0;
        while j < n
            invariant
                j <= n,
                pos + n <= bytes.len(),
                part@ == bytes@.subrange(pos as int, pos + j),
            decreases n - j,
        {
            part.push(bytes[pos + j]);
            proof {
                assert(part@ =~= bytes@.subrange(pos as int, pos + j + 1));
            }
            j = j + 1;
        }
        writes.push(UserWrite { ppn: seg.ppn, offset: seg.start, bytes: part });
        pos = pos + n;
        k = k + 1;
    }
    if pos != bytes.len() {
        return None;
    }
    Some(writes)
}

} // verus!
