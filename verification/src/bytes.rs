//! Little-endian integers, as every file and frame of this library holds them.

use vstd::prelude::*;

verus! {

/// The `width` lowest bytes of `x`, lowest first.
pub open spec fn le_bytes(x: nat, width: nat) -> Seq<u8>
    decreases width,
{
    if width == 0 {
        Seq::empty()
    } else {
        seq![(x % 256) as u8] + le_bytes(x / 256, (width - 1) as nat)
    }
}

/// The number whose bytes are `s`, lowest first.
pub open spec fn le_value(s: Seq<u8>) -> nat
    decreases s.len(),
{
    if s.len() == 0 {
        0
    } else {
        s[0] as nat + 256 * le_value(s.skip(1))
    }
}

/// How many numbers `width` bytes can tell apart.
pub open spec fn le_range(width: nat) -> nat
    decreases width,
{
    if width == 0 {
        1
    } else {
        256 * le_range((width - 1) as nat)
    }
}

pub proof fn lemma_le_bytes_len(x: nat, width: nat)
    ensures
        le_bytes(x, width).len() == width,
    decreases width,
{
    if width > 0 {
        lemma_le_bytes_len(x / 256, (width - 1) as nat);
    }
}

/// Reading back a number that was written gives the number.
pub proof fn lemma_le_round_trip(x: nat, width: nat)
    requires
        x < le_range(width),
    ensures
        le_value(le_bytes(x, width)) == x,
    decreases width,
{
    if width > 0 {
        lemma_le_bytes_len(x / 256, (width - 1) as nat);
        lemma_le_round_trip(x / 256, (width - 1) as nat);
        assert(le_bytes(x, width).skip(1) =~= le_bytes(x / 256, (width - 1) as nat));
    }
}

pub proof fn lemma_le_value_bound(s: Seq<u8>)
    ensures
        le_value(s) < le_range(s.len()),
    decreases s.len(),
{
    if s.len() > 0 {
        lemma_le_value_bound(s.skip(1));
    }
}

pub proof fn lemma_le_ranges()
    ensures
        le_range(4) == u32::MAX + 1,
        le_range(8) == u64::MAX + 1,
{
    reveal_with_fuel(le_range, 9);
}

/// Appends `x` in eight bytes.
pub fn push_u64(out: &mut Vec<u8>, x: u64)
    ensures
        final(out)@ == old(out)@ + le_bytes(x as nat, 8),
{
    let mut rest: u64 = x;
    let mut done: usize = 0;
    assert(out@ + le_bytes(x as nat, 8) =~= old(out)@ + le_bytes(x as nat, 8));
    while done < 8
        invariant
            done <= 8,
            out@ + le_bytes(rest as nat, (8 - done) as nat) == old(out)@ + le_bytes(x as nat, 8),
        decreases 8 - done,
    {
        let ghost before = out@;
        out.push((rest % 256) as u8);
        proof {
            assert(before + le_bytes(rest as nat, (8 - done) as nat) =~= out@ + le_bytes(
                (rest / 256) as nat,
                (8 - done - 1) as nat,
            ));
        }
        rest = rest / 256;
        done = done + 1;
    }
    assert(out@ + le_bytes(rest as nat, 0) =~= out@);
}

/// Appends `x` in four bytes.
pub fn push_u32(out: &mut Vec<u8>, x: u32)
    ensures
        final(out)@ == old(out)@ + le_bytes(x as nat, 4),
{
    let mut rest: u32 = x;
    let mut done: usize = 0;
    assert(out@ + le_bytes(x as nat, 4) =~= old(out)@ + le_bytes(x as nat, 4));
    while done < 4
        invariant
            done <= 4,
            out@ + le_bytes(rest as nat, (4 - done) as nat) == old(out)@ + le_bytes(x as nat, 4),
        decreases 4 - done,
    {
        let ghost before = out@;
        out.push((rest % 256) as u8);
        proof {
            assert(before + le_bytes(rest as nat, (4 - done) as nat) =~= out@ + le_bytes(
                (rest / 256) as nat,
                (4 - done - 1) as nat,
            ));
        }
        rest = rest / 256;
        done = done + 1;
    }
    assert(out@ + le_bytes(rest as nat, 0) =~= out@);
}

/// The number in the eight bytes of `data` from `at` on.
pub fn read_u64(data: &[u8], at: usize) -> (res: u64)
    requires
        at + 8 <= data@.len(),
    ensures
        res == le_value(data@.subrange(at as int, at + 8)),
{
    let ghost field = data@.subrange(at as int, at + 8);
    let mut res: u64 = 0;
    let mut left: usize = 8;
    let size: usize = data.len();
    assert(field.skip(8) =~= Seq::empty());
    while left > 0
        invariant
            left <= 8,
            at + 8 <= size == data@.len(),
            field == data@.subrange(at as int, at + 8),
            res == le_value(field.skip(left as int)),
        decreases left,
    {
        left = left - 1;
        proof {
            let tail = field.skip(left as int);
            assert(tail.skip(1) =~= field.skip(left + 1));
            assert(tail[0] == data@[at + left]);
            lemma_le_value_bound(tail);
            lemma_le_ranges();
            lemma_le_range_grows(tail.len(), 8);
        }
        res = res * 256 + data[at + left] as u64;
    }
    assert(field.skip(0) =~= field);
    res
}

/// The number in the four bytes of `data` from `at` on.
pub fn read_u32(data: &[u8], at: usize) -> (res: u32)
    requires
        at + 4 <= data@.len(),
    ensures
        res == le_value(data@.subrange(at as int, at + 4)),
{
    let ghost field = data@.subrange(at as int, at + 4);
    let mut res: u32 = 0;
    let mut left: usize = 4;
    let size: usize = data.len();
    assert(field.skip(4) =~= Seq::empty());
    while left > 0
        invariant
            left <= 4,
            at + 4 <= size == data@.len(),
            field == data@.subrange(at as int, at + 4),
            res == le_value(field.skip(left as int)),
        decreases left,
    {
        left = left - 1;
        proof {
            let tail = field.skip(left as int);
            assert(tail.skip(1) =~= field.skip(left + 1));
            assert(tail[0] == data@[at + left]);
            lemma_le_value_bound(tail);
            lemma_le_ranges();
            lemma_le_range_grows(tail.len(), 4);
        }
        res = res * 256 + data[at + left] as u32;
    }
    assert(field.skip(0) =~= field);
    res
}

proof fn lemma_le_range_grows(a: nat, b: nat)
    requires
        a <= b,
    ensures
        le_range(a) <= le_range(b),
    decreases b,
{
    if a < b {
        lemma_le_range_grows(a, (b - 1) as nat);
    }
}

/// The lowest bytes of a number depend on its remainder alone.
pub proof fn lemma_le_bytes_truncate(x: nat, width: nat)
    ensures
        le_bytes(x % le_range(width), width) == le_bytes(x, width),
    decreases width,
{
    if width > 0 {
        let r = le_range((width - 1) as nat);
        lemma_le_range_grows(0, (width - 1) as nat);
        vstd::arithmetic::div_mod::lemma_mod_breakdown(x as int, 256, r as int);
        let y = x % (256 * r);
        assert(y == 256 * ((x / 256) % r) + x % 256);
        assert(y % 256 == x % 256);
        assert(y / 256 == (x / 256) % r);
        lemma_le_bytes_truncate(x / 256, (width - 1) as nat);
    }
}

/// Appends `more`.
pub fn push_all(out: &mut Vec<u8>, more: &[u8])
    ensures
        final(out)@ == old(out)@ + more@,
{
    out.extend_from_slice(more);
    assert(out@ =~= old(out)@ + more@);
}

/// The bytes of `data` from `start` on, up to `end`.
pub fn copy_range(data: &[u8], start: usize, end: usize) -> (res: Vec<u8>)
    requires
        start <= end <= data@.len(),
    ensures
        res@ == data@.subrange(start as int, end as int),
{
    let mut res: Vec<u8> = Vec::new();
    push_all(&mut res, vstd::slice::slice_subrange(data, start, end));
    assert(res@ =~= data@.subrange(start as int, end as int));
    res
}

pub fn copy_all(data: &[u8]) -> (res: Vec<u8>)
    ensures
        res@ == data@,
{
    let mut res: Vec<u8> = Vec::new();
    push_all(&mut res, data);
    assert(res@ =~= data@);
    res
}

/// Whether two runs of bytes are the same.
pub fn same_bytes(a: &[u8], b: &[u8]) -> (res: bool)
    ensures
        res == (a@ == b@),
{
    if a.len() != b.len() {
        return false;
    }
    let mut i: usize = 0;
    while i < a.len()
        invariant
            i <= a@.len() == b@.len(),
            a@.take(i as int) == b@.take(i as int),
        decreases a@.len() - i,
    {
        if a[i] != b[i] {
            return false;
        }
        proof {
            assert(a@.take(i + 1) =~= a@.take(i as int).push(a@[i as int]));
            assert(b@.take(i + 1) =~= b@.take(i as int).push(b@[i as int]));
        }
        i = i + 1;
    }
    assert(a@.take(i as int) =~= a@);
    assert(b@.take(i as int) =~= b@);
    true
}

/// The bytes of a number, lowest first: the `i`th counts in units of 256 to the power of `i`.
pub proof fn law_lowest_byte_first(x: nat, width: nat, i: nat)
    requires
        i < width,
    ensures
        le_bytes(x, width).len() == width,
        le_bytes(x, width)[i as int] == (x / (vstd::arithmetic::power::pow(256, i) as nat)) % 256,
    decreases width,
{
    lemma_le_bytes_len(x, width);
    if i == 0 {
        vstd::arithmetic::power::lemma_pow0(256);
        vstd::arithmetic::div_mod::lemma_div_basics(x as int);
        assert(le_bytes(x, width)[0] == (x % 256) as u8);
    } else {
        let before = (i - 1) as nat;
        law_lowest_byte_first(x / 256, (width - 1) as nat, before);
        lemma_le_bytes_len(x / 256, (width - 1) as nat);
        vstd::arithmetic::power::lemma_pow_positive(256, before);
        vstd::arithmetic::power::lemma_pow_positive(256, i);
        vstd::arithmetic::power::lemma_pow_adds(256, 1, before);
        vstd::arithmetic::power::lemma_pow1(256);
        vstd::arithmetic::div_mod::lemma_div_denominator(
            x as int,
            256,
            vstd::arithmetic::power::pow(256, before),
        );
        let unit = vstd::arithmetic::power::pow(256, before);
        assert(vstd::arithmetic::power::pow(256, i) == 256 * unit);
        assert((x / 256) / (unit as nat) == x / ((256 * unit) as nat));
        let rest = le_bytes(x / 256, (width - 1) as nat);
        assert(le_bytes(x, width) == seq![(x % 256) as u8] + rest);
        assert(le_bytes(x, width)[i as int] == rest[before as int]);
    }
}

} // verus!
