use vstd::prelude::*;

use crate::codec::copy_range;

verus! {

/// The suffix of `log` holding its last `max` records of width `log_size`;
/// all of `log` when fewer than `max` records are present.
pub open spec fn spec_tail(log: Seq<u8>, log_size: nat, max: nat) -> Seq<u8> {
    if log.len() <= log_size * max {
        log
    } else {
        log.skip(log.len() - log_size * max)
    }
}

/// Copies the last `max` records of width `log_size` out of `log`. An empty
/// log yields an empty buffer; a `max` beyond what is present yields exactly
/// what is present, never padding.
pub fn tail_bytes(log: &[u8], log_size: usize, max: usize) -> (r: Vec<u8>)
    ensures
        r@ == spec_tail(log@, log_size as nat, max as nat),
{
    let n = log.len();
    let start: usize = match log_size.checked_mul(max) {
        Some(w) => if w >= n {
            0
        } else {
            n - w
        },
        None => 0,
    };
    let out = copy_range(log, start, n);
    proof {
        if start == 0 {
            assert(out@ =~= log@);
        }
    }
    out
}

/// Where a tail read of `max` records of width `log_size` starts in a file
/// of `file_len` bytes: `log_size * max` bytes back from the end, clamped to
/// the start of the file.
pub fn tail_start(file_len: u64, log_size: u64, max: u64) -> (r: u64)
    ensures
        r as int == if file_len as int <= log_size as int * max as int {
            0int
        } else {
            file_len as int - log_size as int * max as int
        },
{
    match log_size.checked_mul(max) {
        Some(w) => if w >= file_len {
            0
        } else {
            file_len - w
        },
        None => 0,
    }
}

/// Per-counter handle for tail reads: the counter's id and its fixed record
/// width.
pub struct AtomicFd {
    pub id: i32,
    pub log_size: usize,
}

impl AtomicFd {
    pub fn new(id: i32, log_size: usize) -> (r: AtomicFd)
        ensures
            r.id == id,
            r.log_size == log_size,
    {
        AtomicFd { id, log_size }
    }

    /// The last `max` records of `log`, by the tail-read arithmetic.
    pub fn get_logs(&self, log: &[u8], max: usize) -> (r: Vec<u8>)
        ensures
            r@ == spec_tail(log@, self.log_size as nat, max as nat),
    {
        tail_bytes(log, self.log_size, max)
    }
}

// ---------------------------------------------------------------------------
// Alignment of tail reads with record boundaries
// ---------------------------------------------------------------------------

/// All chunks joined in order.
pub open spec fn concat_all(chunks: Seq<Seq<u8>>) -> Seq<u8>
    decreases chunks.len(),
{
    if chunks.len() == 0 {
        Seq::empty()
    } else {
        chunks.first() + concat_all(chunks.drop_first())
    }
}

pub proof fn lemma_concat_len(chunks: Seq<Seq<u8>>, width: nat)
    requires
        forall|i: int| 0 <= i < chunks.len() ==> (#[trigger] chunks[i]).len() == width,
    ensures
        concat_all(chunks).len() == chunks.len() * width,
    decreases chunks.len(),
{
    if chunks.len() == 0 {
        assert(chunks.len() * width == 0) by (nonlinear_arith)
            requires chunks.len() == 0;
    } else {
        lemma_concat_len(chunks.drop_first(), width);
        assert(chunks.len() * width == width + (chunks.len() - 1) * width) by (nonlinear_arith);
    }
}

pub proof fn lemma_concat_skip(chunks: Seq<Seq<u8>>, width: nat, k: int)
    requires
        0 <= k <= chunks.len(),
        forall|i: int| 0 <= i < chunks.len() ==> (#[trigger] chunks[i]).len() == width,
    ensures
        concat_all(chunks.skip(k)) == concat_all(chunks).skip(k * width),
    decreases k,
{
    lemma_concat_len(chunks, width);
    if k == 0 {
        assert(chunks.skip(0) =~= chunks);
        assert(concat_all(chunks).skip(0) =~= concat_all(chunks));
    } else {
        let rest = chunks.drop_first();
        lemma_concat_skip(rest, width, k - 1);
        lemma_concat_len(rest, width);
        assert(rest.skip(k - 1) =~= chunks.skip(k));
        assert(concat_all(chunks) == chunks.first() + concat_all(rest));
        assert(chunks.first().len() == width);
        assert(k * width == width + (k - 1) * width) by (nonlinear_arith);
        assert((k - 1) * width >= 0) by (nonlinear_arith)
            requires k >= 1, width >= 0;
        assert((k - 1) * width <= rest.len() * width) by (nonlinear_arith)
            requires 0 <= k - 1 <= rest.len(), width >= 0;
        assert(concat_all(chunks).skip(k * width) =~= concat_all(rest).skip((k - 1) * width));
        assert(concat_all(chunks.skip(k)) == concat_all(rest.skip(k - 1)));
    }
}

/// A tail read over whole records returns whole records: the last
/// `min(max, n)` of the `n` records joined in the log, nothing torn.
pub proof fn lemma_tail_aligned(chunks: Seq<Seq<u8>>, width: nat, max: nat)
    requires
        width > 0,
        forall|i: int| 0 <= i < chunks.len() ==> (#[trigger] chunks[i]).len() == width,
    ensures
        spec_tail(concat_all(chunks), width, max) == concat_all(
            chunks.skip(
                if chunks.len() <= max {
                    0int
                } else {
                    chunks.len() - max
                },
            ),
        ),
{
    lemma_concat_len(chunks, width);
    if chunks.len() <= max {
        assert(chunks.len() * width <= max * width) by (nonlinear_arith)
            requires chunks.len() <= max, width >= 0;
        assert(chunks.skip(0) =~= chunks);
        assert(concat_all(chunks).len() <= width * max);
    } else {
        let k = chunks.len() - max;
        assert(chunks.len() * width > max * width) by (nonlinear_arith)
            requires chunks.len() > max, width > 0;
        assert(concat_all(chunks).len() > width * max);
        lemma_concat_skip(chunks, width, k);
        assert(k * width == chunks.len() * width - max * width) by (nonlinear_arith)
            requires k == chunks.len() - max;
    }
}

/// Appending one more record extends the joined log by exactly that record.
pub proof fn lemma_concat_push(chunks: Seq<Seq<u8>>, c: Seq<u8>)
    ensures
        concat_all(chunks.push(c)) == concat_all(chunks) + c,
    decreases chunks.len(),
{
    if chunks.len() == 0 {
        assert(chunks.push(c).drop_first() =~= Seq::<Seq<u8>>::empty());
        assert(chunks.push(c).first() == c);
        assert(concat_all(chunks.push(c)) == c + concat_all(Seq::<Seq<u8>>::empty()));
        assert(concat_all(chunks.push(c)) =~= concat_all(chunks) + c);
    } else {
        let rest = chunks.drop_first();
        assert(chunks.push(c).first() == chunks.first());
        assert(chunks.push(c).drop_first() =~= rest.push(c));
        lemma_concat_push(rest, c);
        assert(concat_all(chunks.push(c)) == chunks.first() + (concat_all(rest) + c));
        assert(concat_all(chunks) == chunks.first() + concat_all(rest));
        assert(chunks.first() + (concat_all(rest) + c) =~= (chunks.first() + concat_all(rest))
            + c);
    }
}

/// Each record of a joined log can be cut back out at its offset.
pub proof fn lemma_concat_chunk(chunks: Seq<Seq<u8>>, width: nat, i: int)
    requires
        0 <= i < chunks.len(),
        forall|j: int| 0 <= j < chunks.len() ==> (#[trigger] chunks[j]).len() == width,
    ensures
        concat_all(chunks).subrange(i * width, i * width + width) == chunks[i],
    decreases i,
{
    lemma_concat_len(chunks, width);
    assert((i + 1) * width <= chunks.len() * width) by (nonlinear_arith)
        requires 0 <= i + 1 <= chunks.len(), width >= 0;
    assert((i + 1) * width == i * width + width) by (nonlinear_arith);
    if i == 0 {
        assert(concat_all(chunks) == chunks.first() + concat_all(chunks.drop_first()));
        assert(chunks.first().len() == width);
        assert(concat_all(chunks).subrange(0, width as int) =~= chunks.first());
        assert(i * width == 0) by (nonlinear_arith)
            requires i == 0;
        assert(chunks.first() == chunks[0]);
    } else {
        let rest = chunks.drop_first();
        lemma_concat_chunk(rest, width, i - 1);
        lemma_concat_len(rest, width);
        assert(concat_all(chunks) == chunks.first() + concat_all(rest));
        assert(chunks.first().len() == width);
        assert((i - 1) * width == i * width - width) by (nonlinear_arith);
        assert((i - 1) * width >= 0) by (nonlinear_arith)
            requires i >= 1, width >= 0;
        assert((i - 1) * width + width <= rest.len() * width) by (nonlinear_arith)
            requires 0 <= i <= rest.len(), width >= 0;
        assert(concat_all(chunks).subrange(i * width, i * width + width) =~= concat_all(
            rest,
        ).subrange((i - 1) * width, (i - 1) * width + width));
        assert(rest[i - 1] == chunks[i]);
    }
}

} // verus!
