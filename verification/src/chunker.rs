//! Content-defined chunking: chunk borders follow from the bytes around them, so that an
//! insertion moves only the borders near it.

use vstd::prelude::*;

verus! {

pub const MIN_CHUNK_SIZE: usize = 2048;

pub const AVG_CHUNK_SIZE: usize = 8192;

pub const MAX_CHUNK_SIZE: usize = 65536;

/// How many bytes before the search start the rolling hash looks at, at most.
pub const WINDOW_SIZE: usize = 64;

/// A run of the input, with where it stands in it.
pub struct Chunk {
    pub offset: u64,
    pub length: usize,
    pub data: Vec<u8>,
}

/// What decides where chunks end: no border before `min_size` bytes, one after `max_size` at
/// the latest, and between the two one wherever the rolling hash has no bit of `mask` set.
#[derive(Clone, Copy, Debug, PartialEq, Eq, Structural)]
pub struct ChunkSizes {
    pub min_size: usize,
    pub max_size: usize,
    pub mask: u64,
}

/// The largest power of two that divides `n`, less one.
pub open spec fn low_mask(n: nat) -> nat
    decreases n,
{
    if n == 0 || n % 2 == 1 {
        0
    } else {
        2 * low_mask(n / 2) + 1
    }
}

/// The sizes of chunks with `avg_size` bytes on average, where that is a power of two.
pub open spec fn sizes_for(min_size: usize, avg_size: usize, max_size: usize) -> ChunkSizes {
    ChunkSizes { min_size, max_size, mask: low_mask(avg_size as nat) as u64 }
}

pub open spec fn default_sizes() -> ChunkSizes {
    sizes_for(MIN_CHUNK_SIZE, AVG_CHUNK_SIZE, MAX_CHUNK_SIZE)
}

/// The fixed pseudo-random number of a byte.
pub open spec fn gear(byte: u8) -> u64 {
    let h0: u64 = byte as u64;
    let h1: u64 = h0 ^ (h0 << 13u64);
    let h2: u64 = h1 ^ (h1 >> 7u64);
    let h3: u64 = h2 ^ (h2 << 17u64);
    h3.wrapping_mul(0x27d4_eb2d_1655_67c5u64)
}

/// The gear hash of a run of bytes: each byte doubles what stands and adds its own number.
pub open spec fn gear_hash(data: Seq<u8>) -> u64
    decreases data.len(),
{
    if data.len() == 0 {
        0
    } else {
        (gear_hash(data.drop_last()) << 1u64).wrapping_add(gear(data.last()))
    }
}

/// How far back the rolling hash looks.
pub open spec fn window(sizes: ChunkSizes) -> nat {
    if sizes.min_size < WINDOW_SIZE {
        sizes.min_size as nat
    } else {
        WINDOW_SIZE as nat
    }
}

/// The rolling hash once the bytes before `pos` are absorbed; it starts at `min_size`.
pub open spec fn rolling_hash(data: Seq<u8>, sizes: ChunkSizes, pos: nat) -> u64
    decreases pos,
{
    let start = sizes.min_size as int;
    if pos <= start {
        gear_hash(data.subrange(start - window(sizes), start))
    } else {
        let before = rolling_hash(data, sizes, (pos - 1) as nat);
        let leaving = gear(data[pos - 1 - window(sizes)]);
        (before.wrapping_sub(leaving) << 1u64).wrapping_add(gear(data[pos - 1]))
    }
}

/// Whether a chunk may end behind the first `pos` bytes.
pub open spec fn is_border(data: Seq<u8>, sizes: ChunkSizes, pos: nat) -> bool {
    rolling_hash(data, sizes, pos) & sizes.mask == 0
}

/// The furthest that a chunk at the start of `data` can reach.
pub open spec fn reach(data: Seq<u8>, sizes: ChunkSizes) -> nat {
    if data.len() < sizes.max_size {
        data.len()
    } else {
        sizes.max_size as nat
    }
}

/// The first border behind `pos`, or the reach where there is none.
pub open spec fn border_after(data: Seq<u8>, sizes: ChunkSizes, pos: nat) -> nat
    decreases reach(data, sizes) - pos,
{
    if pos >= reach(data, sizes) {
        reach(data, sizes)
    } else if is_border(data, sizes, pos + 1) {
        pos + 1
    } else {
        border_after(data, sizes, pos + 1)
    }
}

/// The length of the first chunk of `data`.
pub open spec fn cut_point(data: Seq<u8>, sizes: ChunkSizes) -> nat {
    border_after(data, sizes, sizes.min_size as nat)
}

/// The chunks of `data`, in order.
pub open spec fn chunks(data: Seq<u8>, sizes: ChunkSizes) -> Seq<Seq<u8>>
    decreases data.len(),
{
    let cut = cut_point(data, sizes) as int;
    if data.len() == 0 || cut <= 0 || cut > data.len() {
        Seq::empty()
    } else {
        seq![data.take(cut)] + chunks(data.skip(cut), sizes)
    }
}

/// The number of bytes in all of `parts`.
pub open spec fn span(parts: Seq<Seq<u8>>) -> nat
    decreases parts.len(),
{
    if parts.len() == 0 {
        0
    } else {
        span(parts.drop_last()) + parts.last().len()
    }
}

proof fn lemma_border_after_bounds(data: Seq<u8>, sizes: ChunkSizes, pos: nat)
    ensures
        border_after(data, sizes, pos) <= reach(data, sizes),
        pos < reach(data, sizes) ==> border_after(data, sizes, pos) > pos,
        pos >= reach(data, sizes) ==> border_after(data, sizes, pos) == reach(data, sizes),
    decreases reach(data, sizes) - pos,
{
    if pos < reach(data, sizes) && !is_border(data, sizes, pos + 1) {
        lemma_border_after_bounds(data, sizes, pos + 1);
    }
}

/// The first chunk of a non-empty input is not empty, and no longer than `max_size`; it is
/// longer than `min_size` unless the input or `max_size` ends it.
pub proof fn lemma_cut_point_bounds(data: Seq<u8>, sizes: ChunkSizes)
    ensures
        cut_point(data, sizes) <= data.len(),
        cut_point(data, sizes) <= sizes.max_size,
        data.len() > 0 && sizes.max_size > 0 ==> cut_point(data, sizes) > 0,
        cut_point(data, sizes) > sizes.min_size || cut_point(data, sizes) == data.len()
            || cut_point(data, sizes) == sizes.max_size,
{
    lemma_border_after_bounds(data, sizes, sizes.min_size as nat);
}

proof fn lemma_rolling_hash_local(data: Seq<u8>, rest: Seq<u8>, sizes: ChunkSizes, pos: nat)
    requires
        pos <= data.len(),
        sizes.min_size <= data.len(),
    ensures
        rolling_hash(data + rest, sizes, pos) == rolling_hash(data, sizes, pos),
    decreases pos,
{
    let start = sizes.min_size as int;
    if pos <= start {
        assert((data + rest).subrange(start - window(sizes), start) =~= data.subrange(
            start - window(sizes),
            start,
        ));
    } else {
        lemma_rolling_hash_local(data, rest, sizes, (pos - 1) as nat);
    }
}

proof fn lemma_border_after_local(data: Seq<u8>, rest: Seq<u8>, sizes: ChunkSizes, pos: nat)
    requires
        data.len() >= sizes.max_size || rest.len() == 0,
        sizes.min_size <= pos,
    ensures
        border_after(data + rest, sizes, pos) == border_after(data, sizes, pos),
    decreases reach(data, sizes) - pos,
{
    if rest.len() == 0 {
        assert(data + rest =~= data);
    } else if pos < reach(data, sizes) {
        lemma_rolling_hash_local(data, rest, sizes, pos + 1);
        lemma_border_after_local(data, rest, sizes, pos + 1);
    }
}

/// The first chunk is decided by the first `max_size` bytes: what follows them is of no
/// account. So chunking can go on while input is still to come.
pub proof fn law_cut_point_is_local(data: Seq<u8>, rest: Seq<u8>, sizes: ChunkSizes)
    requires
        data.len() >= sizes.max_size,
    ensures
        cut_point(data + rest, sizes) == cut_point(data, sizes),
{
    lemma_border_after_local(data, rest, sizes, sizes.min_size as nat);
}

/// Taking the first chunk off what has been read leaves the chunks of the whole input as they
/// were, whatever is read later.
pub proof fn lemma_chunks_step(pending: Seq<u8>, rest: Seq<u8>, sizes: ChunkSizes)
    requires
        pending.len() > 0,
        sizes.max_size > 0,
        pending.len() >= sizes.max_size || rest.len() == 0,
    ensures
        chunks(pending + rest, sizes) == seq![pending.take(cut_point(pending, sizes) as int)]
            + chunks(pending.skip(cut_point(pending, sizes) as int) + rest, sizes),
{
    let cut = cut_point(pending, sizes) as int;
    lemma_border_after_local(pending, rest, sizes, sizes.min_size as nat);
    lemma_cut_point_bounds(pending, sizes);
    assert((pending + rest).take(cut) =~= pending.take(cut));
    assert((pending + rest).skip(cut) =~= pending.skip(cut) + rest);
}

/// Chunking loses nothing: the chunks, one after the other, are the input.
pub proof fn law_chunks_concatenate(data: Seq<u8>, sizes: ChunkSizes)
    requires
        sizes.max_size > 0,
    ensures
        chunks(data, sizes).flatten() == data,
    decreases data.len(),
{
    if data.len() > 0 {
        let cut = cut_point(data, sizes) as int;
        lemma_cut_point_bounds(data, sizes);
        law_chunks_concatenate(data.skip(cut), sizes);
        let rest = chunks(data.skip(cut), sizes);
        assert((seq![data.take(cut)] + rest).drop_first() =~= rest);
        assert(data.take(cut) + data.skip(cut) =~= data);
    }
}

/// Every chunk has between one and `max_size` bytes, and every chunk but the last is longer
/// than `min_size` or as long as `max_size` allows.
pub proof fn law_chunk_lengths(data: Seq<u8>, sizes: ChunkSizes, i: int)
    requires
        sizes.max_size > 0,
        0 <= i < chunks(data, sizes).len(),
    ensures
        0 < chunks(data, sizes)[i].len() <= sizes.max_size,
        i < chunks(data, sizes).len() - 1 ==> chunks(data, sizes)[i].len() > sizes.min_size
            || chunks(data, sizes)[i].len() == sizes.max_size,
    decreases data.len(),
{
    let cut = cut_point(data, sizes) as int;
    lemma_cut_point_bounds(data, sizes);
    let rest = chunks(data.skip(cut), sizes);
    assert(chunks(data, sizes) == seq![data.take(cut)] + rest);
    if i > 0 {
        law_chunk_lengths(data.skip(cut), sizes, i - 1);
        assert(chunks(data, sizes)[i] == rest[i - 1]);
    }
}

proof fn lemma_span_of_cons(first: Seq<u8>, rest: Seq<Seq<u8>>)
    ensures
        span(seq![first] + rest) == first.len() + span(rest),
    decreases rest.len(),
{
    let all = seq![first] + rest;
    if rest.len() == 0 {
        assert(all.drop_last() =~= Seq::empty());
        assert(span(all) == span(all.drop_last()) + all.last().len());
    } else {
        lemma_span_of_cons(first, rest.drop_last());
        assert(all.drop_last() =~= seq![first] + rest.drop_last());
    }
}

/// The chunks behind a border are the chunks of the input behind it.
proof fn lemma_chunks_behind(data: Seq<u8>, sizes: ChunkSizes, i: int)
    requires
        sizes.max_size > 0,
        0 <= i <= chunks(data, sizes).len(),
    ensures
        span(chunks(data, sizes).take(i)) <= data.len(),
        chunks(data, sizes).skip(i) == chunks(
            data.skip(span(chunks(data, sizes).take(i)) as int),
            sizes,
        ),
    decreases data.len(),
{
    let all = chunks(data, sizes);
    if i == 0 {
        assert(all.take(0) =~= Seq::empty());
        assert(all.skip(0) =~= all);
        assert(data.skip(0) =~= data);
    } else {
        let cut = cut_point(data, sizes) as int;
        lemma_cut_point_bounds(data, sizes);
        let rest = chunks(data.skip(cut), sizes);
        assert(all == seq![data.take(cut)] + rest);
        lemma_chunks_behind(data.skip(cut), sizes, i - 1);
        assert(all.take(i) =~= seq![data.take(cut)] + rest.take(i - 1));
        lemma_span_of_cons(data.take(cut), rest.take(i - 1));
        assert(all.skip(i) =~= rest.skip(i - 1));
        let at = span(rest.take(i - 1)) as int;
        assert(data.skip(cut).skip(at) =~= data.skip(cut + at));
    }
}

/// Where two inputs go on alike from a border of each, so do their chunks: past an edit the
/// chunks are the same again from the first border that the two have in common.
pub proof fn law_chunks_resynchronise(
    data: Seq<u8>,
    edited: Seq<u8>,
    sizes: ChunkSizes,
    i: int,
    j: int,
)
    requires
        sizes.max_size > 0,
        0 <= i <= chunks(data, sizes).len(),
        0 <= j <= chunks(edited, sizes).len(),
        data.skip(span(chunks(data, sizes).take(i)) as int) == edited.skip(
            span(chunks(edited, sizes).take(j)) as int,
        ),
    ensures
        chunks(data, sizes).skip(i) == chunks(edited, sizes).skip(j),
{
    lemma_chunks_behind(data, sizes, i);
    lemma_chunks_behind(edited, sizes, j);
}

/// A chunk is what the input holds at the place that the chunks before it end.
pub proof fn lemma_chunk_place(data: Seq<u8>, sizes: ChunkSizes, i: int)
    requires
        sizes.max_size > 0,
        0 <= i < chunks(data, sizes).len(),
    ensures
        span(chunks(data, sizes).take(i)) + chunks(data, sizes)[i].len() <= data.len(),
        chunks(data, sizes)[i] == data.subrange(
            span(chunks(data, sizes).take(i)) as int,
            (span(chunks(data, sizes).take(i)) + chunks(data, sizes)[i].len()) as int,
        ),
    decreases data.len(),
{
    let cut = cut_point(data, sizes) as int;
    let all = chunks(data, sizes);
    lemma_cut_point_bounds(data, sizes);
    let rest = chunks(data.skip(cut), sizes);
    assert(all == seq![data.take(cut)] + rest);
    if i == 0 {
        assert(all.take(0) =~= Seq::empty());
        assert(data.subrange(0, cut) =~= data.take(cut));
    } else {
        lemma_chunk_place(data.skip(cut), sizes, i - 1);
        assert(all.take(i) =~= seq![data.take(cut)] + rest.take(i - 1));
        lemma_span_of_cons(data.take(cut), rest.take(i - 1));
        let at = span(rest.take(i - 1)) as int;
        assert(data.skip(cut).subrange(at, at + all[i].len()) =~= data.subrange(
            cut + at,
            cut + at + all[i].len(),
        ));
    }
}

/// The chunks have as many bytes as the input.
pub proof fn lemma_span_of_chunks(data: Seq<u8>, sizes: ChunkSizes)
    requires
        sizes.max_size > 0,
    ensures
        span(chunks(data, sizes)) == data.len(),
    decreases data.len(),
{
    if data.len() > 0 {
        let cut = cut_point(data, sizes) as int;
        lemma_cut_point_bounds(data, sizes);
        lemma_span_of_chunks(data.skip(cut), sizes);
        lemma_span_of_cons(data.take(cut), chunks(data.skip(cut), sizes));
    }
}

/// The sizes in use: chunks have more than 2 KiB and at most 64 KiB, and between the two a chunk
/// ends at the places where the rolling hash is divisible by 8192.
pub proof fn law_default_sizes(data: Seq<u8>, pos: nat)
    ensures
        default_sizes().min_size == 2 * 1024,
        default_sizes().max_size == 64 * 1024,
        is_border(data, default_sizes(), pos) <==> rolling_hash(data, default_sizes(), pos) % 8192
            == 0,
{
    reveal_with_fuel(low_mask, 14);
    assert(default_sizes().mask == 8191);
    let hash = rolling_hash(data, default_sizes(), pos);
    assert(hash & 8191 == 0 <==> hash % 8192 == 0) by (bit_vector);
}

proof fn lemma_first_border(data: Seq<u8>, sizes: ChunkSizes, pos: nat)
    ensures
        ({
            let end = border_after(data, sizes, pos);
            &&& forall|p: nat|
                pos < p < end ==> #[trigger] rolling_hash(data, sizes, p) & sizes.mask != 0
            &&& end == reach(data, sizes) || rolling_hash(data, sizes, end) & sizes.mask == 0
        }),
    decreases reach(data, sizes) - pos,
{
    if pos < reach(data, sizes) && !is_border(data, sizes, pos + 1) {
        lemma_first_border(data, sizes, pos + 1);
        assert forall|p: nat| pos < p < border_after(data, sizes, pos) implies
            #[trigger] rolling_hash(data, sizes, p) & sizes.mask != 0 by {
            if p == pos + 1 {
                assert(!is_border(data, sizes, p));
            }
        }
    } else {
        lemma_border_after_bounds(data, sizes, pos);
    }
}

/// A chunk ends at the first place behind `min_size` bytes where the rolling hash has no bit of
/// the mask set, and where there is none, behind `max_size` bytes or with the input.
pub proof fn law_chunk_ends_at_first_border(data: Seq<u8>, sizes: ChunkSizes)
    ensures
        ({
            let end: int = if data.len() < sizes.max_size {
                data.len() as int
            } else {
                sizes.max_size as int
            };
            let cut = cut_point(data, sizes);
            &&& sizes.min_size >= end ==> cut == end
            &&& sizes.min_size < end ==> sizes.min_size < cut <= end
            &&& forall|p: nat|
                sizes.min_size < p < cut && sizes.min_size < end ==> #[trigger] rolling_hash(
                    data,
                    sizes,
                    p,
                ) & sizes.mask != 0
            &&& cut == end || rolling_hash(data, sizes, cut) & sizes.mask == 0
        }),
{
    lemma_border_after_bounds(data, sizes, sizes.min_size as nat);
    lemma_first_border(data, sizes, sizes.min_size as nat);
}

/// Every chunk is the first chunk of what the chunks before it leave.
pub proof fn law_chunks_follow_cuts(data: Seq<u8>, sizes: ChunkSizes, i: int)
    requires
        sizes.max_size > 0,
        0 <= i < chunks(data, sizes).len(),
    ensures
        ({
            let rest = data.skip(span(chunks(data, sizes).take(i)) as int);
            chunks(data, sizes)[i] == rest.take(cut_point(rest, sizes) as int)
        }),
{
    lemma_chunks_behind(data, sizes, i);
    let rest = data.skip(span(chunks(data, sizes).take(i)) as int);
    assert(chunks(data, sizes).skip(i)[0] == chunks(data, sizes)[i]);
    assert(chunks(rest, sizes)[0] == chunks(data, sizes)[i]);
}

/// A number that rolling on takes to another, without a limit to its bits.
proof fn lemma_roll_in_numbers(hash: u64, leaving: u64, entering: u64) -> (wraps: int)
    ensures
        (hash.wrapping_sub(leaving) << 1u64).wrapping_add(entering) == 2 * (hash - leaving)
            + entering + wraps * 0x1_0000_0000_0000_0000,
{
    let less = hash.wrapping_sub(leaving);
    assert(less << 1u64 == (if less < 0x8000_0000_0000_0000u64 {
        2 * less
    } else {
        2 * less - 0x1_0000_0000_0000_0000
    })) by (bit_vector);
    let twice = less << 1u64;
    let a: int = if hash >= leaving {
        0
    } else {
        2
    };
    let b: int = if less < 0x8000_0000_0000_0000u64 {
        0
    } else {
        1
    };
    let c: int = if twice + entering < 0x1_0000_0000_0000_0000 {
        0
    } else {
        1
    };
    a - b - c
}

/// What is between the rolling hashes of two inputs.
#[verifier::opaque]
spec fn gap(data: Seq<u8>, other: Seq<u8>, sizes: ChunkSizes, p: int, q: int) -> int {
    rolling_hash(data, sizes, p as nat) - rolling_hash(other, sizes, q as nat)
}

/// Rolling two hashes on over the same bytes doubles what is between them, but for whole wraps.
proof fn lemma_difference_doubles(
    data: Seq<u8>,
    other: Seq<u8>,
    sizes: ChunkSizes,
    p: int,
    q: int,
) -> (wraps: int)
    requires
        sizes.min_size >= WINDOW_SIZE,
        sizes.min_size < p <= data.len(),
        sizes.min_size < q <= other.len(),
        data[p - 65] == other[q - 65],
        data[p - 1] == other[q - 1],
    ensures
        gap(data, other, sizes, p, q) == 2 * gap(data, other, sizes, p - 1, q - 1) + wraps
            * 0x1_0000_0000_0000_0000,
{
    reveal(gap);
    let leaving = gear(data[p - 65]);
    let entering = gear(data[p - 1]);
    let m = lemma_roll_in_numbers(rolling_hash(data, sizes, (p - 1) as nat), leaving, entering);
    let n = lemma_roll_in_numbers(rolling_hash(other, sizes, (q - 1) as nat), leaving, entering);
    m - n
}

/// What is between two hashes is divisible by a further two once it is doubled.
proof fn lemma_factor_doubles(before: int, after: int, wraps: int, factor: int, k: nat)
    requires
        k < 64,
        before == factor * vstd::arithmetic::power2::pow2(k),
        after == 2 * before + wraps * 0x1_0000_0000_0000_0000,
    ensures
        after == (factor + wraps * vstd::arithmetic::power2::pow2((63 - k) as nat))
            * vstd::arithmetic::power2::pow2(k + 1),
{
    let half = vstd::arithmetic::power2::pow2(k) as int;
    let whole = vstd::arithmetic::power2::pow2(k + 1) as int;
    let rest = vstd::arithmetic::power2::pow2((63 - k) as nat) as int;
    vstd::arithmetic::power2::lemma_pow2_unfold(k + 1);
    vstd::arithmetic::power2::lemma_pow2_adds(k + 1, (63 - k) as nat);
    assert(vstd::arithmetic::power2::pow2(64) == 0x1_0000_0000_0000_0000) by {
        vstd::arithmetic::power2::lemma2_to64();
    }
    assert(whole * rest == 0x1_0000_0000_0000_0000);
    assert(after == (factor + wraps * rest) * whole) by (nonlinear_arith)
        requires
            after == 2 * before + wraps * 0x1_0000_0000_0000_0000,
            before == factor * half,
            whole == 2 * half,
            whole * rest == 0x1_0000_0000_0000_0000,
    ;
}

/// Where two inputs agree in the 64 bytes before the window and in the bytes behind them, each
/// byte brings the two rolling hashes together by one bit.
proof fn lemma_hashes_meet(
    data: Seq<u8>,
    other: Seq<u8>,
    sizes: ChunkSizes,
    p: int,
    q: int,
    k: nat,
) -> (factor: int)
    requires
        sizes.min_size >= WINDOW_SIZE,
        sizes.min_size + 64 <= p <= data.len(),
        sizes.min_size + 64 <= q <= other.len(),
        data.subrange(p - 128, p) == other.subrange(q - 128, q),
        k <= 64,
    ensures
        gap(data, other, sizes, p - 64 + k, q - 64 + k) == factor
            * vstd::arithmetic::power2::pow2(k),
    decreases k,
{
    if k == 0 {
        vstd::arithmetic::power2::lemma_pow2(0);
        vstd::arithmetic::power::lemma_pow0(2);
        gap(data, other, sizes, p - 64, q - 64)
    } else {
        let before = (k - 1) as nat;
        let factor = lemma_hashes_meet(data, other, sizes, p, q, before);
        assert(data.subrange(p - 128, p)[k - 1] == other.subrange(q - 128, q)[k - 1]);
        assert(data.subrange(p - 128, p)[64 + k - 1] == other.subrange(q - 128, q)[64 + k - 1]);
        assert(data[p - 64 + k - 65] == data.subrange(p - 128, p)[k - 1]);
        assert(other[q - 64 + k - 65] == other.subrange(q - 128, q)[k - 1]);
        assert(data[p - 64 + k - 1] == data.subrange(p - 128, p)[64 + k - 1]);
        assert(other[q - 64 + k - 1] == other.subrange(q - 128, q)[64 + k - 1]);
        let wraps = lemma_difference_doubles(data, other, sizes, p - 64 + k, q - 64 + k);
        lemma_factor_doubles(
            gap(data, other, sizes, p - 64 + k - 1, q - 64 + k - 1),
            gap(data, other, sizes, p - 64 + k, q - 64 + k),
            wraps,
            factor,
            before,
        );
        factor + wraps * vstd::arithmetic::power2::pow2((63 - before) as nat)
    }
}

/// Borders follow from content: far enough behind the start of a chunk, the rolling hash depends
/// on the last 128 bytes alone, wherever they stand and whatever is before or behind them. So an
/// edit leaves the borders alone that are further from it than that.
pub proof fn law_borders_follow_content(
    data: Seq<u8>,
    other: Seq<u8>,
    sizes: ChunkSizes,
    p: int,
    q: int,
)
    requires
        sizes.min_size >= 64,
        sizes.min_size + 64 <= p <= data.len(),
        sizes.min_size + 64 <= q <= other.len(),
        data.subrange(p - 128, p) == other.subrange(q - 128, q),
    ensures
        rolling_hash(data, sizes, p as nat) == rolling_hash(other, sizes, q as nat),
        is_border(data, sizes, p as nat) == is_border(other, sizes, q as nat),
{
    let factor = lemma_hashes_meet(data, other, sizes, p, q, 64);
    let x = rolling_hash(data, sizes, p as nat);
    let y = rolling_hash(other, sizes, q as nat);
    reveal(gap);
    assert(vstd::arithmetic::power2::pow2(64) == 0x1_0000_0000_0000_0000) by {
        vstd::arithmetic::power2::lemma2_to64();
    }
    assert(x - y == factor * 0x1_0000_0000_0000_0000);
}

/// The numbers of two bytes differ.
proof fn lemma_gear_differs(a: u8, b: u8)
    requires
        a != b,
    ensures
        gear(a) != gear(b),
{
    let x: u64 = a as u64;
    let y: u64 = b as u64;
    let x1: u64 = x ^ (x << 13u64);
    let y1: u64 = y ^ (y << 13u64);
    let x2: u64 = x1 ^ (x1 >> 7u64);
    let y2: u64 = y1 ^ (y1 >> 7u64);
    let x3: u64 = x2 ^ (x2 << 17u64);
    let y3: u64 = y2 ^ (y2 << 17u64);
    assert(x != y ==> x1 != y1) by (bit_vector)
        requires
            x1 == x ^ (x << 13u64),
            y1 == y ^ (y << 13u64),
    ;
    assert(x1 != y1 ==> x2 != y2) by (bit_vector)
        requires
            x2 == x1 ^ (x1 >> 7u64),
            y2 == y1 ^ (y1 >> 7u64),
    ;
    assert(x2 != y2 ==> x3 != y3) by (bit_vector)
        requires
            x3 == x2 ^ (x2 << 17u64),
            y3 == y2 ^ (y2 << 17u64),
    ;
    lemma_odd_factor(x3, y3);
}

/// Multiplying by an odd number loses nothing.
proof fn lemma_odd_factor(x: u64, y: u64)
    requires
        x != y,
    ensures
        x.wrapping_mul(0x27d4_eb2d_1655_67c5u64) != y.wrapping_mul(0x27d4_eb2d_1655_67c5u64),
{
    let m = 0x1_0000_0000_0000_0000int;
    let c = 0x27d4_eb2d_1655_67c5int;
    let inverse = 0x65379f78c6637f0dint;
    if x.wrapping_mul(0x27d4_eb2d_1655_67c5u64) == y.wrapping_mul(0x27d4_eb2d_1655_67c5u64) {
        assert((x * c) % m == (y * c) % m);
        vstd::arithmetic::div_mod::lemma_mul_mod_noop_left(x * c, inverse, m);
        vstd::arithmetic::div_mod::lemma_mul_mod_noop_left(y * c, inverse, m);
        assert(((x * c) * inverse) % m == ((y * c) * inverse) % m);
        assert((x * c) * inverse == x * (c * inverse)) by (nonlinear_arith);
        assert((y * c) * inverse == y * (c * inverse)) by (nonlinear_arith);
        assert((c * inverse) % m == 1);
        vstd::arithmetic::div_mod::lemma_mul_mod_noop_right(x as int, c * inverse, m);
        vstd::arithmetic::div_mod::lemma_mul_mod_noop_right(y as int, c * inverse, m);
        vstd::arithmetic::div_mod::lemma_small_mod(x as nat, m as nat);
        vstd::arithmetic::div_mod::lemma_small_mod(y as nat, m as nat);
    }
}

/// The number of a byte: the byte, mixed by three shifts, times a fixed odd number, in 64 bits.
pub proof fn law_number_of_a_byte(byte: u8, a: u64, b: u64, c: u64)
    requires
        a == byte as u64 ^ ((byte as u64) << 13u64),
        b == a ^ (a >> 7u64),
        c == b ^ (b << 17u64),
    ensures
        gear(byte) == (c * 0x27d4_eb2d_1655_67c5) % 0x1_0000_0000_0000_0000,
{
}

/// The rolling hash starts with the 64 bytes before the smallest size: each byte doubles what
/// stands and adds its own number. With every byte behind them the number of the byte that leaves
/// the 64 is taken off, what stands is doubled, and the number of the byte that enters is added. All
/// this is in 64 bits.
pub proof fn law_rolling_hash_moves(data: Seq<u8>, sizes: ChunkSizes, pos: nat)
    requires
        64 <= sizes.min_size <= pos < data.len(),
    ensures
        rolling_hash(data, sizes, sizes.min_size as nat) == gear_hash(
            data.subrange(sizes.min_size - 64, sizes.min_size as int),
        ),
        rolling_hash(data, sizes, pos + 1) == (2 * (rolling_hash(data, sizes, pos) - gear(
            data[pos - 64],
        )) + gear(data[pos as int])) % 0x1_0000_0000_0000_0000,
        gear_hash(Seq::empty()) == 0,
        gear_hash(data) == (2 * gear_hash(data.drop_last()) + gear(data.last()))
            % 0x1_0000_0000_0000_0000,
{
    let m = 0x1_0000_0000_0000_0000int;
    let leaving = gear(data[pos - 64]);
    let entering = gear(data[pos as int]);
    let before = rolling_hash(data, sizes, pos);
    let wraps = lemma_roll_in_numbers(before, leaving, entering);
    let after = rolling_hash(data, sizes, pos + 1);
    let number = 2 * (before - leaving) + entering;
    vstd::arithmetic::div_mod::lemma_mod_multiples_vanish(wraps, number, m);
    vstd::arithmetic::div_mod::lemma_small_mod(after as nat, m as nat);
    assert(after as int == m * wraps + number);
    let front = gear_hash(data.drop_last());
    let more = lemma_roll_in_numbers(front, 0, gear(data.last()));
    let total = 2 * front + gear(data.last());
    assert(front.wrapping_sub(0) == front);
    vstd::arithmetic::div_mod::lemma_mod_multiples_vanish(more, total, m);
    vstd::arithmetic::div_mod::lemma_small_mod(gear_hash(data) as nat, m as nat);
    assert(gear_hash(data) as int == m * more + total);
}

/// The mask and one more is the largest power of two that divides a number.
pub proof fn law_mask(n: nat) -> (k: nat)
    requires
        n > 0,
    ensures
        low_mask(n) + 1 == vstd::arithmetic::power2::pow2(k),
        n % (low_mask(n) + 1) == 0,
        (n / (low_mask(n) + 1)) % 2 == 1,
    decreases n,
{
    if n % 2 == 1 {
        vstd::arithmetic::power2::lemma_pow2(0);
        vstd::arithmetic::power::lemma_pow0(2);
        0
    } else {
        let k = law_mask(n / 2);
        let unit = low_mask(n / 2) + 1;
        vstd::arithmetic::power2::lemma_pow2_unfold(k + 1);
        vstd::arithmetic::div_mod::lemma_fundamental_div_mod((n / 2) as int, unit as int);
        let count = (n / 2) / unit;
        assert(n == count * (2 * unit)) by (nonlinear_arith)
            requires
                n == 2 * (n / 2),
                n / 2 == unit * count,
        ;
        vstd::arithmetic::div_mod::lemma_div_multiples_vanish(count as int, (2 * unit) as int);
        vstd::arithmetic::div_mod::lemma_mod_multiples_basic(count as int, (2 * unit) as int);
        assert(low_mask(n) + 1 == 2 * unit);
        assert(n == (2 * unit) * count) by (nonlinear_arith)
            requires
                n == count * (2 * unit),
        ;
        k + 1
    }
}

/// Sizes are kept as they are given, and the mask comes from the average.
pub proof fn law_sizes(min_size: usize, avg_size: usize, max_size: usize)
    ensures
        sizes_for(min_size, avg_size, max_size).min_size == min_size,
        sizes_for(min_size, avg_size, max_size).max_size == max_size,
        sizes_for(min_size, avg_size, max_size).mask == low_mask(avg_size as nat) as u64,
{
}

/// The number of a byte tells it apart from every other byte, and so do the rolling hashes of two
/// inputs that differ in the last byte alone.
pub proof fn law_hash_tells_bytes_apart(data: Seq<u8>, byte: u8, sizes: ChunkSizes)
    requires
        0 < sizes.min_size,
        sizes.min_size < data.len(),
        byte != data.last(),
    ensures
        gear(byte) != gear(data.last()),
        rolling_hash(data.drop_last().push(byte), sizes, data.len()) != rolling_hash(
            data,
            sizes,
            data.len(),
        ),
{
    let front = data.drop_last();
    let other = front.push(byte);
    let n = (data.len() - 1) as nat;
    lemma_rolling_hash_local(front, seq![data.last()], sizes, n);
    lemma_rolling_hash_local(front, seq![byte], sizes, n);
    assert(front + seq![data.last()] =~= data);
    assert(front + seq![byte] =~= other);
    lemma_gear_differs(data.last(), byte);
    assert(data[data.len() - 1 - window(sizes)] == other[data.len() - 1 - window(sizes)]);
}

/// The gear numbers of all bytes.
pub fn generate_gear_table() -> (table: Vec<u64>)
    ensures
        table@ == Seq::new(256, |i: int| gear(i as u8)),
{
    let mut table: Vec<u64> = Vec::new();
    let mut i: u64 = 0;
    while i < 256
        invariant
            i <= 256,
            table@.len() == i,
            forall|j: int| 0 <= j < i ==> table@[j] == #[trigger] gear(j as u8),
        decreases 256 - i,
    {
        let mut hash: u64 = i;
        hash = hash ^ (hash << 13u64);
        hash = hash ^ (hash >> 7u64);
        hash = hash ^ (hash << 17u64);
        hash = hash.wrapping_mul(0x27d4_eb2d_1655_67c5);
        table.push(hash);
        i = i + 1;
    }
    table
}

/// The mask under which one position in `avg_size` is a border, on average: `avg_size` counts
/// by the largest power of two that divides it.
pub fn compute_mask(avg_size: usize) -> (mask: u64)
    requires
        avg_size > 0,
    ensures
        mask == low_mask(avg_size as nat),
{
    let mut rest: usize = avg_size;
    let mut bit: u64 = 1;
    while rest % 2 == 0
        invariant
            0 < rest,
            bit * rest <= avg_size,
            bit > 0,
            bit * (low_mask(rest as nat) + 1) == low_mask(avg_size as nat) + 1,
        decreases rest,
    {
        let half: usize = rest / 2;
        proof {
            assert(low_mask(rest as nat) == 2 * low_mask(half as nat) + 1);
            assert(bit * (2 * (low_mask(half as nat) + 1)) == (2 * bit) * (low_mask(half as nat)
                + 1)) by (nonlinear_arith);
            assert(bit * (2 * half) == (2 * bit) * half) by (nonlinear_arith);
            assert(2 * bit <= (2 * bit) * half) by (nonlinear_arith)
                requires
                    half >= 1,
            ;
        }
        rest = half;
        bit = 2 * bit;
    }
    assert(bit * 1 == bit);
    bit - 1
}

fn gear_of(table: &Vec<u64>, byte: u8) -> (res: u64)
    requires
        table@ == Seq::new(256, |i: int| gear(i as u8)),
    ensures
        res == gear(byte),
{
    table[byte as usize]
}

/// Cuts a stream of bytes into chunks. The stream is handed over in reads of any size; chunks
/// come out as soon as what has been read decides them.
pub struct Chunker {
    buffer: Vec<u8>,
    current_offset: u64,
    sizes: ChunkSizes,
    eof: bool,
    gear_table: Vec<u64>,
    read: Ghost<Seq<u8>>,
    handed_out: Ghost<Seq<Seq<u8>>>,
}

/// Whatever is still to come behind `read`, its chunks are `done` and then those of `pending`
/// with what is to come; where the end has been seen, nothing is.
pub open spec fn settled(
    read: Seq<u8>,
    done: Seq<Seq<u8>>,
    pending: Seq<u8>,
    sizes: ChunkSizes,
    ended: bool,
) -> bool {
    forall|rest: Seq<u8>|
        (ended ==> rest.len() == 0) ==> #[trigger] chunks(read + rest, sizes) == done + chunks(
            pending + rest,
            sizes,
        )
}

/// The next chunk depends on bytes that have not been read yet.
#[derive(Clone, Copy, Debug, PartialEq, Eq, Structural)]
pub struct NeedsInput;

impl Chunker {
    /// The bytes that have been read and not yet handed out.
    pub closed spec fn pending(&self) -> Seq<u8> {
        self.buffer@
    }

    /// All that has been read.
    pub closed spec fn input(&self) -> Seq<u8> {
        self.read@
    }

    /// The chunks that came out so far.
    pub closed spec fn handed_out(&self) -> Seq<Seq<u8>> {
        self.handed_out@
    }

    pub closed spec fn sizes(&self) -> ChunkSizes {
        self.sizes
    }

    /// Whether the end of the stream has been seen.
    pub closed spec fn ended(&self) -> bool {
        self.eof
    }

    pub closed spec fn wf(&self) -> bool {
        &&& self.gear_table@ == Seq::new(256, |i: int| gear(i as u8))
        &&& self.current_offset + self.buffer@.len() == self.read@.len()
        &&& self.read@.len() <= u64::MAX
        &&& self.current_offset == span(self.handed_out@)
        &&& self.sizes.max_size > 0 ==> settled(
            self.read@,
            self.handed_out@,
            self.buffer@,
            self.sizes,
            self.eof,
        )
    }

    /// Whether a read has to come before the next chunk.
    pub open spec fn is_hungry(&self) -> bool {
        self.pending().len() < self.sizes().max_size && !self.ended()
    }

    pub proof fn lemma_counts(&self)
        requires
            self.wf(),
        ensures
            span(self.handed_out()) + self.pending().len() == self.input().len() <= u64::MAX,
    {
    }

    /// A read is needed exactly while what has been read and not handed out has fewer bytes than
    /// the largest chunk, and the end has not been seen.
    pub proof fn law_when_input_is_needed(&self)
        ensures
            self.is_hungry() <==> self.pending().len() < self.sizes().max_size && !self.ended(),
    {
    }

    /// Once the end has been seen and nothing is left, the chunks that came out are those of
    /// the whole input, however it was split into reads.
    pub proof fn law_all_handed_out(&self)
        requires
            self.wf(),
            self.sizes().max_size > 0,
            self.ended(),
            self.pending().len() == 0,
        ensures
            self.handed_out() == chunks(self.input(), self.sizes()),
    {
        let none = Seq::<u8>::empty();
        assert(chunks(self.read@ + none, self.sizes) == self.handed_out@ + chunks(
            self.buffer@ + none,
            self.sizes,
        ));
        assert(self.read@ + none =~= self.read@);
        assert(self.buffer@ + none =~= none);
        assert(self.handed_out@ + chunks(none, self.sizes) =~= self.handed_out@);
    }

    pub fn new() -> (res: Self)
        ensures
            res.wf(),
            res.sizes() == default_sizes(),
            res.input() == Seq::<u8>::empty(),
            res.pending() == Seq::<u8>::empty(),
            res.handed_out() == Seq::<Seq<u8>>::empty(),
            !res.ended(),
    {
        Self::with_sizes(MIN_CHUNK_SIZE, AVG_CHUNK_SIZE, MAX_CHUNK_SIZE)
    }

    pub fn with_sizes(min_size: usize, avg_size: usize, max_size: usize) -> (res: Self)
        requires
            avg_size > 0,
        ensures
            res.wf(),
            res.sizes() == sizes_for(min_size, avg_size, max_size),
            res.input() == Seq::<u8>::empty(),
            res.pending() == Seq::<u8>::empty(),
            res.handed_out() == Seq::<Seq<u8>>::empty(),
            !res.ended(),
    {
        let mask: u64 = compute_mask(avg_size);
        Chunker {
            buffer: Vec::new(),
            current_offset: 0,
            sizes: ChunkSizes { min_size, max_size, mask },
            eof: false,
            gear_table: generate_gear_table(),
            read: Ghost(Seq::empty()),
            handed_out: Ghost(Seq::empty()),
        }
    }

    /// Takes what a read of the stream gave; a read of nothing is the end of the stream, and
    /// behind the end nothing is taken any more.
    pub fn fill_buffer(&mut self, read: &[u8])
        requires
            old(self).wf(),
            old(self).input().len() + read@.len() <= u64::MAX,
        ensures
            final(self).wf(),
            final(self).sizes() == old(self).sizes(),
            final(self).handed_out() == old(self).handed_out(),
            final(self).ended() == (old(self).ended() || read@.len() == 0),
            final(self).input() == (if old(self).ended() {
                old(self).input()
            } else {
                old(self).input() + read@
            }),
            final(self).pending() == (if old(self).ended() {
                old(self).pending()
            } else {
                old(self).pending() + read@
            }),
    {
        if self.eof {
            return ;
        }
        if read.len() == 0 {
            self.eof = true;
        } else {
            self.buffer.extend_from_slice(read);
        }
        self.read = Ghost(self.read@ + read@);
        assert(self.buffer@ =~= old(self).buffer@ + read@);
        proof {
            if self.sizes.max_size > 0 {
                assert forall|rest: Seq<u8>| self.eof ==> rest.len() == 0 implies #[trigger] chunks(
                    self.read@ + rest,
                    self.sizes,
                ) == self.handed_out@ + chunks(self.buffer@ + rest, self.sizes) by {
                    assert(self.read@ + rest =~= old(self).read@ + (read@ + rest));
                    assert(self.buffer@ + rest =~= old(self).buffer@ + (read@ + rest));
                }
            }
        }
    }

    /// How many bytes have been read.
    pub fn taken(&self) -> (res: u64)
        requires
            self.wf(),
        ensures
            res == self.input().len(),
    {
        self.current_offset + self.buffer.len() as u64
    }

    /// Whether `next_chunk` has to wait for a read.
    pub fn needs_input(&self) -> (res: bool)
        ensures
            res == self.is_hungry(),
    {
        self.buffer.len() < self.sizes.max_size && !self.eof
    }

    /// The gear hash of a run of bytes.
    fn gear_hash(&self, data: &[u8]) -> (hash: u64)
        requires
            self.wf(),
        ensures
            hash == gear_hash(data@),
    {
        let mut hash: u64 = 0;
        let mut i: usize = 0;
        assert(data@.take(0) =~= Seq::empty());
        while i < data.len()
            invariant
                self.wf(),
                i <= data@.len(),
                hash == gear_hash(data@.take(i as int)),
            decreases data@.len() - i,
        {
            proof {
                let next = data@.take(i + 1);
                assert(next.drop_last() =~= data@.take(i as int));
            }
            hash = (hash << 1u64).wrapping_add(gear_of(&self.gear_table, data[i]));
            i = i + 1;
        }
        assert(data@.take(i as int) =~= data@);
        hash
    }

    /// The length of the first chunk of `data`.
    fn find_cut(&self, data: &[u8]) -> (cut: usize)
        requires
            self.wf(),
        ensures
            cut == cut_point(data@, self.sizes()),
    {
        let available: usize = data.len();
        let start: usize = self.sizes.min_size;
        let end: usize = if available < self.sizes.max_size {
            available
        } else {
            self.sizes.max_size
        };
        if start >= end {
            return end;
        }
        let window_size: usize = if start < WINDOW_SIZE {
            start
        } else {
            WINDOW_SIZE
        };
        let mut hash: u64 = self.gear_hash(vstd::slice::slice_subrange(data, start - window_size, start));
        let mut pos: usize = start;
        while pos < end
            invariant
                self.wf(),
                start == self.sizes.min_size,
                window_size == window(self.sizes),
                start <= pos <= end == reach(data@, self.sizes),
                hash == rolling_hash(data@, self.sizes, pos as nat),
                border_after(data@, self.sizes, pos as nat) == cut_point(data@, self.sizes),
            decreases end - pos,
        {
            let leaving: u64 = gear_of(&self.gear_table, data[pos - window_size]);
            let entering: u64 = gear_of(&self.gear_table, data[pos]);
            hash = (hash.wrapping_sub(leaving) << 1u64).wrapping_add(entering);
            if hash & self.sizes.mask == 0 {
                return pos + 1;
            }
            pos = pos + 1;
        }
        end
    }

    /// The next chunk of the stream, or nothing behind its end.
    pub fn next_chunk(&mut self) -> (res: Result<Option<Chunk>, NeedsInput>)
        requires
            old(self).wf(),
        ensures
            final(self).wf(),
            final(self).sizes() == old(self).sizes(),
            final(self).ended() == old(self).ended(),
            final(self).input() == old(self).input(),
            res is Err <==> old(self).is_hungry(),
            res matches Ok(Some(_)) <==> !old(self).is_hungry() && old(self).pending().len() > 0,
            match res {
                Ok(Some(chunk)) => {
                    let cut = cut_point(old(self).pending(), old(self).sizes());
                    &&& chunk.offset == span(old(self).handed_out())
                    &&& chunk.length == cut
                    &&& chunk.data@ == old(self).pending().take(cut as int)
                    &&& final(self).pending() == old(self).pending().skip(cut as int)
                    &&& final(self).handed_out() == old(self).handed_out().push(chunk.data@)
                },
                _ => final(self).pending() == old(self).pending() && final(self).handed_out()
                    == old(self).handed_out(),
            },
    {
        if self.needs_input() {
            return Err(NeedsInput);
        }
        if self.buffer.len() == 0 {
            return Ok(None);
        }
        let cut: usize = self.find_cut(self.buffer.as_slice());
        proof {
            lemma_cut_point_bounds(self.buffer@, self.sizes);
        }
        let mut data: Vec<u8> = self.buffer.split_off(cut);
        core::mem::swap(&mut data, &mut self.buffer);
        let offset: u64 = self.current_offset;
        self.current_offset = self.current_offset + cut as u64;
        assert(data@ =~= old(self).buffer@.take(cut as int));
        assert(self.buffer@ =~= old(self).buffer@.skip(cut as int));
        self.handed_out = Ghost(self.handed_out@.push(data@));
        proof {
            assert(self.handed_out@.drop_last() =~= old(self).handed_out@);
            if self.sizes.max_size > 0 {
                assert forall|rest: Seq<u8>| self.eof ==> rest.len() == 0 implies #[trigger] chunks(
                    self.read@ + rest,
                    self.sizes,
                ) == self.handed_out@ + chunks(self.buffer@ + rest, self.sizes) by {
                    lemma_chunks_step(old(self).buffer@, rest, self.sizes);
                    assert(old(self).handed_out@ + (seq![data@] + chunks(
                        self.buffer@ + rest,
                        self.sizes,
                    )) =~= self.handed_out@ + chunks(self.buffer@ + rest, self.sizes));
                }
            }
        }
        Ok(Some(Chunk { offset, length: cut, data }))
    }
}

} // verus!
