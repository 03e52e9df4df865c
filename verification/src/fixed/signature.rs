//! Signatures of chunks of one size, and the file that holds them.

use vstd::prelude::*;
use crate::bytes;
use crate::digest;
use crate::hexadecimal;
use crate::signature::{read_digest, UnexpectedEof};

verus! {

pub const CHUNK_SIZE: usize = 4096;

/// The largest prime below 2^16.
pub const ADLER_MOD: u32 = 65521;

/// What is known of a chunk without its bytes.
#[derive(Debug, Clone, Copy, PartialEq, Eq)]
pub struct ChunkSignature {
    pub index: u64,
    pub weak_hash: u32,
    pub strong_hash: [u8; 32],
}

/// A signature, with its digest as a sequence.
#[verifier::ext_equal]
pub struct SignatureView {
    pub index: u64,
    pub weak_hash: u32,
    pub strong_hash: Seq<u8>,
}

impl View for ChunkSignature {
    type V = SignatureView;

    open spec fn view(&self) -> SignatureView {
        SignatureView {
            index: self.index,
            weak_hash: self.weak_hash,
            strong_hash: self.strong_hash@,
        }
    }
}

pub open spec fn views(signatures: Seq<ChunkSignature>) -> Seq<SignatureView> {
    Seq::new(signatures.len(), |i: int| signatures[i]@)
}

impl ChunkSignature {
    pub fn new(index: u64, weak_hash: u32, strong_hash: [u8; 32]) -> (res: Self)
        ensures
            res == (ChunkSignature { index, weak_hash, strong_hash }),
    {
        ChunkSignature { index, weak_hash, strong_hash }
    }

    /// The digest in hexadecimal digits.
    pub fn strong_hash_hex(&self) -> (res: String)
        ensures
            res@ == hexadecimal::digits(self.strong_hash@),
    {
        hexadecimal::hex_encode(self.strong_hash.as_slice())
    }
}

/// The sum of the bytes.
pub open spec fn byte_sum(data: Seq<u8>) -> nat
    decreases data.len(),
{
    if data.len() == 0 {
        0
    } else {
        byte_sum(data.drop_last()) + data.last() as nat
    }
}

/// The sum of the bytes, each taken as often as there are bytes from it on.
pub open spec fn weighted_sum(data: Seq<u8>) -> nat
    decreases data.len(),
{
    if data.len() == 0 {
        0
    } else {
        weighted_sum(data.drop_last()) + byte_sum(data)
    }
}

/// The low half of the checksum.
pub open spec fn adler_low(data: Seq<u8>) -> nat {
    (1 + byte_sum(data)) % (ADLER_MOD as nat)
}

/// The high half of the checksum.
pub open spec fn adler_high(data: Seq<u8>) -> nat {
    (data.len() + weighted_sum(data)) % (ADLER_MOD as nat)
}

/// The Adler-32 checksum of `data`.
pub open spec fn adler32(data: Seq<u8>) -> nat {
    adler_high(data) * 65536 + adler_low(data)
}

/// An Adler-32 checksum in the making.
#[derive(Debug, Clone, Copy)]
pub struct Adler32 {
    a: u32,
    b: u32,
}

/// The low half once a byte has left the window and another has entered.
pub open spec fn rolled_low(low: nat, leaving: u8, entering: u8) -> nat {
    ((low + ADLER_MOD - leaving + entering) % (ADLER_MOD as int)) as nat
}

/// The high half once a byte has left a window of `n` bytes and another has entered.
pub open spec fn rolled_high(low: nat, high: nat, leaving: u8, entering: u8, n: nat) -> nat {
    ((high + 2 * ADLER_MOD - (n * leaving + 1) % (ADLER_MOD as int) + rolled_low(
        low,
        leaving,
        entering,
    )) % (ADLER_MOD as int)) as nat
}

proof fn lemma_byte_sum_skip(data: Seq<u8>)
    requires
        data.len() > 0,
    ensures
        byte_sum(data) == data[0] + byte_sum(data.skip(1)),
        weighted_sum(data) == data.len() * data[0] + weighted_sum(data.skip(1)),
    decreases data.len(),
{
    let rest = data.skip(1);
    if data.len() == 1 {
        assert(data.drop_last() =~= Seq::empty());
        assert(rest =~= Seq::empty());
        assert(byte_sum(data) == byte_sum(data.drop_last()) + data.last());
        assert(weighted_sum(data) == weighted_sum(data.drop_last()) + byte_sum(data));
    } else {
        lemma_byte_sum_skip(data.drop_last());
        assert(data.drop_last().skip(1) =~= rest.drop_last());
        assert(data.len() * data[0] == (data.len() - 1) * data[0] + data[0]) by (nonlinear_arith);
    }
}

/// Rolling the checksum of a window over one byte gives the checksum of the next window.
pub proof fn law_roll(window: Seq<u8>, entering: u8)
    requires
        window.len() > 0,
    ensures
        rolled_low(adler_low(window), window[0], entering) == adler_low(
            window.skip(1).push(entering),
        ),
        rolled_high(adler_low(window), adler_high(window), window[0], entering, window.len())
            == adler_high(window.skip(1).push(entering)),
{
    let next = window.skip(1).push(entering);
    let m = ADLER_MOD as int;
    lemma_byte_sum_skip(window);
    assert(next.drop_last() =~= window.skip(1));
    let leaving = window[0] as int;
    let product = (window.len() * window[0]) as int;
    // The low half: one byte less, one more.
    let low_sum = (1 + byte_sum(window)) as int;
    let low_next = (1 + byte_sum(next)) as int;
    lemma_same_remainder(
        low_sum % m + m - leaving + entering as int,
        low_next,
        1 - low_sum / m,
    );
    // The high half: each byte that stays counts once more.
    let high_sum = (window.len() + weighted_sum(window)) as int;
    let high_next = (next.len() + weighted_sum(next)) as int;
    assert(high_sum - (product + 1) + low_next == high_next);
    lemma_same_remainder(
        high_sum % m + 2 * m - (product + 1) % m + low_next % m,
        high_next,
        2 - high_sum / m + (product + 1) / m - low_next / m,
    );
}

proof fn lemma_same_remainder(x: int, y: int, k: int)
    requires
        x == y + k * ADLER_MOD,
    ensures
        x % (ADLER_MOD as int) == y % (ADLER_MOD as int),
{
    vstd::arithmetic::div_mod::lemma_mod_multiples_vanish(k, y, ADLER_MOD as int);
}

impl Adler32 {
    /// The two halves.
    pub closed spec fn low(&self) -> nat {
        self.a as nat
    }

    pub closed spec fn high(&self) -> nat {
        self.b as nat
    }

    pub open spec fn wf(&self) -> bool {
        self.low() < ADLER_MOD && self.high() < ADLER_MOD
    }

    /// Whether this is where taking in `data` leads.
    pub open spec fn is_at(&self, data: Seq<u8>) -> bool {
        self.low() == adler_low(data) && self.high() == adler_high(data)
    }

    pub fn new() -> (res: Self)
        ensures
            res.wf(),
            res.is_at(Seq::empty()),
    {
        Adler32 { a: 1, b: 0 }
    }

    /// The checksum of `data`.
    pub fn hash(data: &[u8]) -> (res: u32)
        ensures
            res == adler32(data@),
    {
        let mut hasher: Adler32 = Adler32::new();
        hasher.update(data);
        assert(Seq::<u8>::empty() + data@ =~= data@);
        hasher.finalize()
    }

    /// Takes in more bytes: the checksum of what was taken in before becomes that of it with
    /// `data` behind it.
    pub fn update(&mut self, data: &[u8])
        requires
            old(self).wf(),
        ensures
            final(self).wf(),
            final(self).low() == updated_low(old(self).low(), data@),
            final(self).high() == updated_high(old(self).low(), old(self).high(), data@),
            forall|before: Seq<u8>|
                #[trigger] old(self).is_at(before) ==> final(self).is_at(before + data@),
    {
        let ghost low = self.low();
        let ghost high = self.high();
        let mut i: usize = 0;
        proof {
            assert(data@.take(0) =~= Seq::empty());
            lemma_updated_by_none(low, high);
        }
        while i < data.len()
            invariant
                i <= data@.len(),
                self.wf(),
                self.low() == updated_low(low, data@.take(i as int)),
                self.high() == updated_high(low, high, data@.take(i as int)),
            decreases data@.len() - i,
        {
            proof {
                assert(data@.take(i + 1) =~= data@.take(i as int).push(data@[i as int]));
                lemma_updated_by_one(low, high, data@.take(i as int), data@[i as int]);
            }
            self.a = (self.a + data[i] as u32) % ADLER_MOD;
            self.b = (self.b + self.a) % ADLER_MOD;
            i = i + 1;
        }
        assert(data@.take(i as int) =~= data@);
        proof {
            assert forall|before: Seq<u8>| #[trigger] old(self).is_at(before) implies self.is_at(
                before + data@,
            ) by {
                lemma_low_concat(before, data@);
                lemma_high_concat(before, data@);
            }
        }
    }

    /// The checksum of what has been taken in.
    pub fn finalize(&self) -> (res: u32)
        requires
            self.wf(),
        ensures
            res == self.high() * 65536 + self.low(),
    {
        let a: u32 = self.a;
        let b: u32 = self.b;
        assert((b << 16u32) | a == b * 65536 + a) by (bit_vector)
            requires
                a < 65521,
                b < 65521,
        ;
        (self.b << 16u32) | self.a
    }

    /// Moves a window of `window_size` bytes on by one. The size counts in 32 bits.
    pub fn roll(&mut self, old_byte: u8, new_byte: u8, window_size: usize)
        requires
            old(self).wf(),
            (window_size as u32) * old_byte + 1 <= u32::MAX,
        ensures
            final(self).wf(),
            final(self).low() == rolled_low(old(self).low(), old_byte, new_byte),
            final(self).high() == rolled_high(
                old(self).low(),
                old(self).high(),
                old_byte,
                new_byte,
                (window_size as u32) as nat,
            ),
            forall|window: Seq<u8>|
                #[trigger] old(self).is_at(window) && window.len() == window_size && 0
                    < window_size <= u32::MAX && window[0] == old_byte ==> final(self).is_at(
                    window.skip(1).push(new_byte),
                ),
    {
        let leaving: u32 = old_byte as u32;
        let entering: u32 = new_byte as u32;
        let n: u32 = window_size as u32;
        self.a = (self.a + ADLER_MOD - leaving + entering) % ADLER_MOD;
        let b_remove: u32 = (n * leaving + 1) % ADLER_MOD;
        self.b = (self.b + ADLER_MOD * 2 - b_remove + self.a) % ADLER_MOD;
        proof {
            assert forall|window: Seq<u8>|
                #[trigger] old(self).is_at(window) && window.len() == window_size && 0
                    < window_size <= u32::MAX && window[0] == old_byte implies self.is_at(
                window.skip(1).push(new_byte),
            ) by {
                law_roll(window, new_byte);
            }
        }
    }

    /// Forgets what has been taken in.
    pub fn reset(&mut self)
        ensures
            final(self).wf(),
            final(self).is_at(Seq::empty()),
    {
        self.a = 1;
        self.b = 0;
    }
}

impl Default for Adler32 {
    fn default() -> (res: Self)
        ensures
            res.wf(),
            res.is_at(Seq::empty()),
    {
        Adler32::new()
    }
}

/// The low half once more bytes have been taken in.
#[verifier::opaque]
pub open spec fn updated_low(low: nat, data: Seq<u8>) -> nat {
    (low + byte_sum(data)) % (ADLER_MOD as nat)
}

/// The high half once more bytes have been taken in.
#[verifier::opaque]
pub open spec fn updated_high(low: nat, high: nat, data: Seq<u8>) -> nat {
    (high + data.len() * low + weighted_sum(data)) % (ADLER_MOD as nat)
}

proof fn lemma_updated_by_none(low: nat, high: nat)
    requires
        low < ADLER_MOD,
        high < ADLER_MOD,
    ensures
        updated_low(low, Seq::empty()) == low,
        updated_high(low, high, Seq::empty()) == high,
{
    reveal(updated_low);
    reveal(updated_high);
    let none = Seq::<u8>::empty();
    assert(none.len() * low == 0) by (nonlinear_arith)
        requires
            none.len() == 0,
    ;
}

proof fn lemma_updated_by_one(low: nat, high: nat, data: Seq<u8>, byte: u8)
    ensures
        updated_low(low, data.push(byte)) == (updated_low(low, data) + byte) % (ADLER_MOD as int),
        updated_high(low, high, data.push(byte)) == (updated_high(low, high, data) + updated_low(
            low,
            data.push(byte),
        )) % (ADLER_MOD as nat),
{
    reveal(updated_low);
    reveal(updated_high);
    let m = ADLER_MOD as int;
    let longer = data.push(byte);
    assert(longer.drop_last() =~= data);
    let sum = (low + byte_sum(data)) as int;
    lemma_same_remainder(sum % m + byte, sum + byte, -(sum / m));
    let next = (low + byte_sum(longer)) as int;
    let total = (high + data.len() * low + weighted_sum(data)) as int;
    assert(longer.len() * low == data.len() * low + low) by (nonlinear_arith)
        requires
            longer.len() == data.len() + 1,
    ;
    lemma_same_remainder(total % m + next % m, total + next, -(total / m) - next / m);
}

proof fn lemma_low_concat(front: Seq<u8>, back: Seq<u8>)
    ensures
        updated_low(adler_low(front), back) == adler_low(front + back),
{
    reveal(updated_low);
    lemma_sums_concat(front, back);
    let m = ADLER_MOD as int;
    let sum = (1 + byte_sum(front)) as int;
    lemma_same_remainder(sum % m + byte_sum(back), sum + byte_sum(back), -(sum / m));
}

proof fn lemma_high_concat(front: Seq<u8>, back: Seq<u8>)
    ensures
        updated_high(adler_low(front), adler_high(front), back) == adler_high(front + back),
{
    reveal(updated_high);
    lemma_sums_concat(front, back);
    let n = back.len() as int;
    let m = ADLER_MOD as int;
    let sum = (1 + byte_sum(front)) as int;
    let low = sum % m;
    let q = sum / m;
    let high_sum = (front.len() + weighted_sum(front)) as int;
    assert(n * sum == n * low + (n * q) * m) by (nonlinear_arith)
        requires
            sum == q * m + low,
    ;
    assert(n * sum == n + n * byte_sum(front)) by (nonlinear_arith)
        requires
            sum == 1 + byte_sum(front),
    ;
    lemma_same_remainder(
        high_sum % m + n * low + weighted_sum(back),
        high_sum + n * sum + weighted_sum(back),
        -(high_sum / m) - n * q,
    );
}

proof fn lemma_sums_concat(front: Seq<u8>, back: Seq<u8>)
    ensures
        byte_sum(front + back) == byte_sum(front) + byte_sum(back),
        weighted_sum(front + back) == weighted_sum(front) + back.len() * byte_sum(front)
            + weighted_sum(back),
    decreases back.len(),
{
    let all = front + back;
    if back.len() == 0 {
        assert(all =~= front);
    } else {
        lemma_sums_concat(front, back.drop_last());
        assert(all.drop_last() =~= front + back.drop_last());
        assert(back.len() * byte_sum(front) == (back.len() - 1) * byte_sum(front) + byte_sum(front))
            by (nonlinear_arith);
    }
}

/// How many chunks `size` bytes make.
pub open spec fn block_count(size: nat) -> nat {
    (size + CHUNK_SIZE - 1) as nat / (CHUNK_SIZE as nat)
}

/// The `i`th chunk of `data`: as many bytes as a chunk has, fewer at the end.
pub open spec fn block(data: Seq<u8>, i: int) -> Seq<u8> {
    let end = CHUNK_SIZE * (i + 1);
    data.subrange(
        CHUNK_SIZE * i,
        if end < data.len() {
            end
        } else {
            data.len() as int
        },
    )
}

/// The signature of the `i`th chunk of `data`.
pub open spec fn sign(data: Seq<u8>, i: int) -> SignatureView {
    SignatureView {
        index: i as u64,
        weak_hash: adler32(block(data, i)) as u32,
        strong_hash: digest::sha256_digest(block(data, i)),
    }
}

/// The signatures of the chunks of `data`.
pub open spec fn signatures_of(data: Seq<u8>) -> Seq<SignatureView> {
    Seq::new(block_count(data.len()), |i: int| sign(data, i))
}

pub fn compute_strong_hash(data: &[u8]) -> (hash: [u8; 32])
    ensures
        hash@ == digest::sha256_digest(data@),
{
    digest::sha256_hash(data)
}

/// The signatures of the chunks of a file.
pub fn generate_signature(old_data: &[u8]) -> (signatures: Vec<ChunkSignature>)
    ensures
        views(signatures@) == signatures_of(old_data@),
{
    let size: usize = old_data.len();
    let mut signatures: Vec<ChunkSignature> = Vec::new();
    let mut index: u64 = 0;
    let mut at: usize = 0;
    while at < size
        invariant
            size == old_data@.len(),
            at <= size,
            index <= block_count(size as nat),
            at == CHUNK_SIZE * index || at == size && index == block_count(size as nat),
            views(signatures@) == signatures_of(old_data@).take(index as int),
        decreases size - at,
    {
        let end: usize = if size - at < CHUNK_SIZE {
            size
        } else {
            at + CHUNK_SIZE
        };
        let data: &[u8] = vstd::slice::slice_subrange(old_data, at, end);
        assert(data@ =~= block(old_data@, index as int));
        let ghost before = signatures@;
        signatures.push(
            ChunkSignature::new(index, Adler32::hash(data), compute_strong_hash(data)),
        );
        proof {
            let all = signatures_of(old_data@);
            assert(signatures@.last()@ == all[index as int]);
            assert(views(signatures@) =~= views(before).push(signatures@.last()@));
            assert(all.take(index + 1) =~= all.take(index as int).push(all[index as int]));
        }
        index = index + 1;
        at = end;
    }
    assert(index == block_count(size as nat));
    assert(signatures_of(old_data@).take(index as int) =~= signatures_of(old_data@));
    signatures
}

/// The number of bytes that a signature takes in a file.
pub const ENTRY_SIZE: usize = 44;

/// A signature as a file holds it: the index in eight bytes, the checksum in four, the digest.
pub open spec fn entry_bytes(signature: SignatureView) -> Seq<u8> {
    bytes::le_bytes(signature.index as nat, 8) + bytes::le_bytes(signature.weak_hash as nat, 4)
        + signature.strong_hash
}

pub open spec fn entries_bytes(signatures: Seq<SignatureView>) -> Seq<u8>
    decreases signatures.len(),
{
    if signatures.len() == 0 {
        Seq::empty()
    } else {
        entries_bytes(signatures.drop_last()) + entry_bytes(signatures.last())
    }
}

/// A signature file: the number of signatures in eight bytes, then the signatures.
pub open spec fn file_bytes(signatures: Seq<SignatureView>) -> Seq<u8> {
    bytes::le_bytes(signatures.len(), 8) + entries_bytes(signatures)
}

/// The signature that stands at `at`.
pub open spec fn entry_at(data: Seq<u8>, at: int) -> SignatureView {
    SignatureView {
        index: bytes::le_value(data.subrange(at, at + 8)) as u64,
        weak_hash: bytes::le_value(data.subrange(at + 8, at + 12)) as u32,
        strong_hash: data.subrange(at + 12, at + 44),
    }
}

/// How many signatures a file says it holds.
pub open spec fn stated_count(data: Seq<u8>) -> nat {
    bytes::le_value(data.subrange(0, 8))
}

/// Whether a file holds as many signatures as it says.
pub open spec fn is_complete(data: Seq<u8>) -> bool {
    data.len() >= 8 && data.len() >= 8 + ENTRY_SIZE * stated_count(data)
}

/// The signatures that a complete file holds; what follows them is of no account.
pub open spec fn file_signatures(data: Seq<u8>) -> Seq<SignatureView> {
    Seq::new(stated_count(data), |i: int| entry_at(data, 8 + ENTRY_SIZE * i))
}

proof fn lemma_entry_bytes(signature: SignatureView)
    requires
        signature.strong_hash.len() == 32,
    ensures
        entry_bytes(signature).len() == ENTRY_SIZE,
        entry_at(entry_bytes(signature), 0) == signature,
{
    let all = entry_bytes(signature);
    bytes::lemma_le_bytes_len(signature.index as nat, 8);
    bytes::lemma_le_bytes_len(signature.weak_hash as nat, 4);
    bytes::lemma_le_ranges();
    bytes::lemma_le_round_trip(signature.index as nat, 8);
    bytes::lemma_le_round_trip(signature.weak_hash as nat, 4);
    assert(all.subrange(0, 8) =~= bytes::le_bytes(signature.index as nat, 8));
    assert(all.subrange(8, 12) =~= bytes::le_bytes(signature.weak_hash as nat, 4));
    assert(all.subrange(12, 44) =~= signature.strong_hash);
}

proof fn lemma_entry_at_shift(data: Seq<u8>, whole: Seq<u8>, shift: int, at: int)
    requires
        0 <= at,
        0 <= shift,
        at + ENTRY_SIZE <= data.len(),
        shift + data.len() <= whole.len(),
        whole.subrange(shift, shift + data.len()) == data,
    ensures
        entry_at(whole, shift + at) == entry_at(data, at),
{
    let inner = whole.subrange(shift, shift + data.len());
    assert(inner.subrange(at, at + 8) =~= whole.subrange(shift + at, shift + at + 8));
    assert(inner.subrange(at + 8, at + 12) =~= whole.subrange(shift + at + 8, shift + at + 12));
    assert(inner.subrange(at + 12, at + 44) =~= whole.subrange(shift + at + 12, shift + at + 44));
}

proof fn lemma_entries_bytes(signatures: Seq<SignatureView>)
    requires
        forall|i: int| 0 <= i < signatures.len() ==> (#[trigger] signatures[i]).strong_hash.len() == 32,
    ensures
        entries_bytes(signatures).len() == ENTRY_SIZE * signatures.len(),
        forall|i: int|
            0 <= i < signatures.len() ==> #[trigger] entry_at(
                entries_bytes(signatures),
                ENTRY_SIZE * i,
            ) == signatures[i],
    decreases signatures.len(),
{
    if signatures.len() > 0 {
        let front = signatures.drop_last();
        let front_bytes = entries_bytes(front);
        let all = entries_bytes(signatures);
        lemma_entries_bytes(front);
        lemma_entry_bytes(signatures.last());
        assert forall|i: int| 0 <= i < signatures.len() implies #[trigger] entry_at(
            all,
            ENTRY_SIZE * i,
        ) == signatures[i] by {
            if i < front.len() {
                assert(all.subrange(0, front_bytes.len() as int) =~= front_bytes);
                lemma_entry_at_shift(front_bytes, all, 0, ENTRY_SIZE * i);
                assert(entry_at(front_bytes, ENTRY_SIZE * i) == front[i]);
            } else {
                let last = entry_bytes(signatures.last());
                assert(all.subrange(
                    front_bytes.len() as int,
                    (front_bytes.len() + last.len()) as int,
                ) =~= last);
                lemma_entry_at_shift(last, all, front_bytes.len() as int, 0);
            }
        }
    }
}

/// A signature file has eight bytes and 44 for each signature.
pub proof fn law_signature_file_size(signatures: Seq<SignatureView>)
    requires
        forall|i: int| 0 <= i < signatures.len() ==> (#[trigger] signatures[i]).strong_hash.len() == 32,
    ensures
        file_bytes(signatures).len() == 8 + ENTRY_SIZE * signatures.len(),
{
    bytes::lemma_le_bytes_len(signatures.len(), 8);
    lemma_entries_bytes(signatures);
}

/// Reading back a signature file gives the signatures that were written.
pub proof fn law_signature_file_round_trip(signatures: Seq<SignatureView>)
    requires
        signatures.len() <= u64::MAX,
        forall|i: int| 0 <= i < signatures.len() ==> (#[trigger] signatures[i]).strong_hash.len() == 32,
    ensures
        is_complete(file_bytes(signatures)),
        file_signatures(file_bytes(signatures)) == signatures,
{
    let all = file_bytes(signatures);
    let entries = entries_bytes(signatures);
    bytes::lemma_le_bytes_len(signatures.len(), 8);
    bytes::lemma_le_ranges();
    bytes::lemma_le_round_trip(signatures.len(), 8);
    assert(all.subrange(0, 8) =~= bytes::le_bytes(signatures.len(), 8));
    lemma_entries_bytes(signatures);
    assert(all.subrange(8, (8 + entries.len()) as int) =~= entries);
    assert forall|i: int| 0 <= i < signatures.len() implies file_signatures(all)[i] == signatures[i] by {
        lemma_entry_at_shift(entries, all, 8, ENTRY_SIZE * i);
        assert(entry_at(entries, ENTRY_SIZE * i) == signatures[i]);
    }
    assert(file_signatures(all) =~= signatures);
}

/// The signatures of a file describe it from its start to its end in steps of 4096 bytes, of which
/// the last may have fewer: each has its number, and the checksum and the digest of what the file
/// holds there.
pub proof fn law_signatures_describe_the_file(data: Seq<u8>, i: int)
    requires
        data.len() <= u64::MAX,
        0 <= i < signatures_of(data).len(),
    ensures
        ({
            let all = signatures_of(data);
            let from = 4096 * i;
            let to = if from + 4096 <= data.len() {
                from + 4096
            } else {
                data.len() as int
            };
            &&& from < to <= data.len()
            &&& all[i].index == i
            &&& all[i].weak_hash == adler32(data.subrange(from, to))
            &&& all[i].strong_hash == digest::sha256_digest(data.subrange(from, to))
            &&& i == all.len() - 1 <==> to == data.len()
        }),
{
    let all = signatures_of(data);
    let from = 4096 * i;
    let to = if from + 4096 <= data.len() {
        from + 4096
    } else {
        data.len() as int
    };
    assert(block(data, i) =~= data.subrange(from, to));
    lemma_adler_bound(data.subrange(from, to));
}

/// Only an empty file has no signatures.
pub proof fn law_only_nothing_has_no_signatures(data: Seq<u8>)
    ensures
        signatures_of(data).len() == 0 <==> data.len() == 0,
{
}

proof fn lemma_adler_bound(data: Seq<u8>)
    ensures
        adler32(data) <= u32::MAX,
{
}

/// The checksum, byte by byte: its low half starts at 1 and adds each byte, its high half starts at
/// 0 and adds the low half at each byte, both modulo 65521.
pub proof fn law_checksum_step(data: Seq<u8>, byte: u8)
    ensures
        adler32(Seq::empty()) == 1,
        ({
            let low = (adler32(data) % 65536 + byte as nat) % 65521;
            let high = (adler32(data) / 65536 + low) % 65521;
            adler32(data.push(byte)) == high * 65536 + low
        }),
{
    let m = ADLER_MOD as int;
    let longer = data.push(byte);
    assert(longer.drop_last() =~= data);
    let sum = (1 + byte_sum(data)) as int;
    lemma_same_remainder(sum % m + byte, sum + byte, -(sum / m));
    let next = (1 + byte_sum(longer)) as int;
    let total = (data.len() + weighted_sum(data)) as int;
    lemma_same_remainder(total % m + next % m, total + next, -(total / m) - next / m);
    assert((longer.len() + weighted_sum(longer)) as int == total + next);
    assert(adler32(data) / 65536 == adler_high(data));
    assert(adler32(data) % 65536 == adler_low(data));
    assert(weighted_sum(Seq::<u8>::empty()) == 0);
    assert(byte_sum(Seq::<u8>::empty()) == 0);
}

/// A signature file: the number of signatures in eight bytes, then for each of them 44 bytes: its
/// index in eight, its checksum in four, and its digest.
pub proof fn law_signature_file_layout(signatures: Seq<SignatureView>, i: int)
    requires
        0 <= i < signatures.len() <= u64::MAX,
        forall|k: int| 0 <= k < signatures.len() ==> (#[trigger] signatures[k]).strong_hash.len() == 32,
    ensures
        ({
            let file = file_bytes(signatures);
            let at = 8 + 44 * i;
            &&& file.len() == 8 + 44 * signatures.len()
            &&& bytes::le_value(file.subrange(0, 8)) == signatures.len()
            &&& bytes::le_value(file.subrange(at, at + 8)) as u64 == signatures[i].index
            &&& bytes::le_value(file.subrange(at + 8, at + 12)) as u32 == signatures[i].weak_hash
            &&& file.subrange(at + 12, at + 44) == signatures[i].strong_hash
        }),
{
    law_signature_file_round_trip(signatures);
    law_signature_file_size(signatures);
    assert(file_signatures(file_bytes(signatures))[i] == signatures[i]);
}

/// A signature file is refused exactly where it ends before the last of the signatures that it says
/// it holds.
pub proof fn law_incomplete_signature_file(data: Seq<u8>)
    ensures
        is_complete(data) <==> data.len() >= 8 && data.len() >= 8 + 44 * bytes::le_value(
            data.subrange(0, 8),
        ),
        is_complete(data) ==> file_signatures(data).len() == bytes::le_value(data.subrange(0, 8)),
{
}

/// The signature file that holds `signatures`.
pub fn write_signature_file(signatures: &[ChunkSignature]) -> (file: Vec<u8>)
    ensures
        file@ == file_bytes(views(signatures@)),
{
    let mut file: Vec<u8> = Vec::new();
    bytes::push_u64(&mut file, signatures.len() as u64);
    let ghost all = views(signatures@);
    assert(all.take(0) =~= Seq::empty());
    assert(file@ =~= bytes::le_bytes(all.len(), 8) + entries_bytes(all.take(0)));
    let mut i: usize = 0;
    while i < signatures.len()
        invariant
            i <= signatures@.len(),
            all == views(signatures@),
            file@ == bytes::le_bytes(all.len(), 8) + entries_bytes(all.take(i as int)),
        decreases signatures@.len() - i,
    {
        let signature: &ChunkSignature = &signatures[i];
        let ghost before = file@;
        bytes::push_u64(&mut file, signature.index);
        bytes::push_u32(&mut file, signature.weak_hash);
        bytes::push_all(&mut file, signature.strong_hash.as_slice());
        proof {
            assert(all.take(i + 1).drop_last() =~= all.take(i as int));
            assert(file@ =~= before + entry_bytes(all[i as int]));
            assert(file@ =~= bytes::le_bytes(all.len(), 8) + entries_bytes(all.take(i + 1)));
        }
        i = i + 1;
    }
    assert(all.take(i as int) =~= all);
    file
}

/// The signatures in a signature file.
pub fn read_signature_file(file: &[u8]) -> (res: Result<Vec<ChunkSignature>, UnexpectedEof>)
    ensures
        res is Ok <==> is_complete(file@),
        res matches Ok(signatures) ==> views(signatures@) == file_signatures(file@),
{
    let size: usize = file.len();
    if size < 8 {
        return Err(UnexpectedEof);
    }
    let count: u64 = bytes::read_u64(file, 0);
    let room: usize = (size - 8) / ENTRY_SIZE;
    if count > room as u64 {
        return Err(UnexpectedEof);
    }
    let mut signatures: Vec<ChunkSignature> = Vec::new();
    let mut i: u64 = 0;
    let mut at: usize = 8;
    while i < count
        invariant
            i <= count == stated_count(file@),
            size == file@.len(),
            8 + ENTRY_SIZE * count <= size,
            at == 8 + ENTRY_SIZE * i,
            views(signatures@) == file_signatures(file@).take(i as int),
        decreases count - i,
    {
        let index: u64 = bytes::read_u64(file, at);
        let weak: u32 = bytes::read_u32(file, at + 8);
        let strong: [u8; 32] = read_digest(file, at + 12);
        let ghost before = signatures@;
        signatures.push(ChunkSignature::new(index, weak, strong));
        proof {
            assert(signatures@.last()@ == file_signatures(file@)[i as int]);
            assert(views(signatures@) =~= views(before).push(signatures@.last()@));
            assert(file_signatures(file@).take(i + 1) =~= file_signatures(file@).take(i as int).push(
                file_signatures(file@)[i as int],
            ));
        }
        i = i + 1;
        at = at + ENTRY_SIZE;
    }
    assert(file_signatures(file@).take(i as int) =~= file_signatures(file@));
    Ok(signatures)
}

/// What is known of a signature is what its fields hold, and a list is known one by one.
pub proof fn law_signatures_are_known(signatures: Seq<ChunkSignature>, i: int)
    requires
        0 <= i < signatures.len(),
    ensures
        views(signatures).len() == signatures.len(),
        views(signatures)[i].index == signatures[i].index,
        views(signatures)[i].weak_hash == signatures[i].weak_hash,
        views(signatures)[i].strong_hash == signatures[i].strong_hash@,
{
}

} // verus!
