//! Signatures of content-defined chunks, and the file that holds them.

use vstd::prelude::*;
use crate::bytes;
use crate::chunker;
use crate::chunker::{Chunk, Chunker};
use crate::digest;
use crate::hexadecimal;

verus! {

/// What is known of a chunk without its bytes.
#[derive(Debug, Clone, Copy, PartialEq, Eq)]
pub struct ChunkSignature {
    pub offset: u64,
    pub length: usize,
    pub weak_hash: u64,
    pub strong_hash: [u8; 32],
}

/// A signature, with its digest as a sequence.
#[verifier::ext_equal]
pub struct SignatureView {
    pub offset: u64,
    pub length: usize,
    pub weak_hash: u64,
    pub strong_hash: Seq<u8>,
}

impl View for ChunkSignature {
    type V = SignatureView;

    open spec fn view(&self) -> SignatureView {
        SignatureView {
            offset: self.offset,
            length: self.length,
            weak_hash: self.weak_hash,
            strong_hash: self.strong_hash@,
        }
    }
}

/// The views of a list of signatures.
pub open spec fn views(signatures: Seq<ChunkSignature>) -> Seq<SignatureView> {
    Seq::new(signatures.len(), |i: int| signatures[i]@)
}

/// A polynomial of the bytes at 31, in 64 bits.
pub open spec fn weak_hash(data: Seq<u8>) -> u64
    decreases data.len(),
{
    if data.len() == 0 {
        0
    } else {
        weak_hash(data.drop_last()).wrapping_mul(31).wrapping_add(data.last() as u64)
    }
}

/// The signature of a chunk that stands at `offset`.
pub open spec fn sign(chunk: Seq<u8>, offset: nat) -> SignatureView {
    SignatureView {
        offset: offset as u64,
        length: chunk.len() as usize,
        weak_hash: weak_hash(chunk),
        strong_hash: digest::blake3_digest(chunk),
    }
}

/// The signatures of chunks that stand one after the other.
pub open spec fn sign_all(parts: Seq<Seq<u8>>) -> Seq<SignatureView> {
    Seq::new(parts.len(), |i: int| sign(parts[i], chunker::span(parts.take(i))))
}

/// The signatures of the chunks of `data`.
pub open spec fn signatures_of(data: Seq<u8>) -> Seq<SignatureView> {
    sign_all(chunker::chunks(data, chunker::default_sizes()))
}

proof fn lemma_sign_all_push(parts: Seq<Seq<u8>>, chunk: Seq<u8>)
    ensures
        sign_all(parts.push(chunk)) == sign_all(parts).push(sign(chunk, chunker::span(parts))),
{
    let all = parts.push(chunk);
    assert(all.take(parts.len() as int) =~= parts);
    assert forall|i: int| 0 <= i < parts.len() implies sign_all(all)[i] == sign_all(parts)[i] by {
        assert(all.take(i) =~= parts.take(i));
    }
    assert(sign_all(all) =~= sign_all(parts).push(sign(chunk, chunker::span(parts))));
}

impl ChunkSignature {
    pub fn new(offset: u64, length: usize, weak_hash: u64, strong_hash: [u8; 32]) -> (res: Self)
        ensures
            res == (ChunkSignature { offset, length, weak_hash, strong_hash }),
    {
        ChunkSignature { offset, length, weak_hash, strong_hash }
    }

    /// The digest in hexadecimal digits.
    pub fn strong_hash_hex(&self) -> (res: String)
        ensures
            res@ == hexadecimal::digits(self.strong_hash@),
    {
        hexadecimal::hex_encode(self.strong_hash.as_slice())
    }
}

pub fn compute_weak_hash(data: &[u8]) -> (hash: u64)
    ensures
        hash == weak_hash(data@),
{
    let mut hash: u64 = 0;
    let mut i: usize = 0;
    assert(data@.take(0) =~= Seq::empty());
    while i < data.len()
        invariant
            i <= data@.len(),
            hash == weak_hash(data@.take(i as int)),
        decreases data@.len() - i,
    {
        assert(data@.take(i + 1).drop_last() =~= data@.take(i as int));
        hash = hash.wrapping_mul(31).wrapping_add(data[i] as u64);
        i = i + 1;
    }
    assert(data@.take(i as int) =~= data@);
    hash
}

pub fn compute_strong_hash(data: &[u8]) -> (hash: [u8; 32])
    ensures
        hash@ == digest::blake3_digest(data@),
{
    digest::blake3_hash(data)
}

/// The signature of a chunk.
pub fn sign_chunk(chunk: &Chunk) -> (res: ChunkSignature)
    ensures
        res.offset == chunk.offset,
        res.length == chunk.length,
        res.weak_hash == weak_hash(chunk.data@),
        res.strong_hash@ == digest::blake3_digest(chunk.data@),
{
    let weak: u64 = compute_weak_hash(chunk.data.as_slice());
    let strong: [u8; 32] = compute_strong_hash(chunk.data.as_slice());
    ChunkSignature::new(chunk.offset, chunk.length, weak, strong)
}

/// Signs a stream that is handed over in reads of any size.
pub struct SignatureGenerator {
    chunker: Chunker,
    signatures: Vec<ChunkSignature>,
}

impl SignatureGenerator {
    /// All that has been read.
    pub closed spec fn input(&self) -> Seq<u8> {
        self.chunker.input()
    }

    pub closed spec fn ended(&self) -> bool {
        self.chunker.ended()
    }

    pub closed spec fn wf(&self) -> bool {
        &&& self.chunker.wf()
        &&& self.chunker.sizes() == chunker::default_sizes()
        &&& views(self.signatures@) == sign_all(self.chunker.handed_out())
    }

    pub fn new() -> (res: Self)
        ensures
            res.wf(),
            res.input() == Seq::<u8>::empty(),
            !res.ended(),
    {
        let res = SignatureGenerator { chunker: Chunker::new(), signatures: Vec::new() };
        assert(views(res.signatures@) =~= sign_all(res.chunker.handed_out()));
        res
    }

    /// Takes what a read gave; a read of nothing is the end.
    pub fn feed(&mut self, read: &[u8])
        requires
            old(self).wf(),
            old(self).input().len() + read@.len() <= u64::MAX,
        ensures
            final(self).wf(),
            final(self).ended() == (old(self).ended() || read@.len() == 0),
            final(self).input() == (if old(self).ended() {
                old(self).input()
            } else {
                old(self).input() + read@
            }),
    {
        self.chunker.fill_buffer(read);
        self.drain();
    }

    fn drain(&mut self)
        requires
            old(self).wf(),
        ensures
            final(self).wf(),
            final(self).input() == old(self).input(),
            final(self).ended() == old(self).ended(),
            final(self).chunker.is_hungry() || final(self).chunker.pending().len() == 0,
    {
        let mut more: bool = true;
        while more
            invariant
                self.wf(),
                self.input() == old(self).input(),
                self.ended() == old(self).ended(),
                !more ==> self.chunker.is_hungry() || self.chunker.pending().len() == 0,
            decreases self.chunker.pending().len() + (if more { 1int } else { 0 }),
        {
            proof {
                self.chunker.lemma_counts();
                chunker::lemma_cut_point_bounds(self.chunker.pending(), self.chunker.sizes());
            }
            let ghost before = self.chunker.handed_out();
            match self.chunker.next_chunk() {
                Ok(Some(chunk)) => {
                    let ghost signed = self.signatures@;
                    let signature: ChunkSignature = sign_chunk(&chunk);
                    self.signatures.push(signature);
                    proof {
                        lemma_sign_all_push(before, chunk.data@);
                        assert(views(self.signatures@) =~= views(signed).push(signature@));
                    }
                },
                _ => {
                    more = false;
                },
            }
        }
    }

    /// The signatures of all that was read.
    pub fn finish(self) -> (signatures: Vec<ChunkSignature>)
        requires
            self.wf(),
        ensures
            views(signatures@) == signatures_of(self.input()),
    {
        let mut this: SignatureGenerator = self;
        let nothing: Vec<u8> = Vec::new();
        proof {
            this.chunker.lemma_counts();
        }
        assert(this.input() + nothing@ =~= this.input());
        this.chunker.fill_buffer(nothing.as_slice());
        this.drain();
        proof {
            this.chunker.law_all_handed_out();
        }
        this.signatures
    }
}

/// The signatures of the chunks of a file.
pub fn generate_signature(old_data: &[u8]) -> (signatures: Vec<ChunkSignature>)
    ensures
        views(signatures@) == signatures_of(old_data@),
{
    let mut generator: SignatureGenerator = SignatureGenerator::new();
    let _size: usize = old_data.len();
    assert(Seq::<u8>::empty() + old_data@ =~= old_data@);
    generator.feed(old_data);
    generator.finish()
}

/// The number of bytes that a signature takes in a file.
pub const ENTRY_SIZE: usize = 56;

/// A signature as a file holds it: offset, length and weak hash in eight bytes each, then the
/// digest.
pub open spec fn entry_bytes(signature: SignatureView) -> Seq<u8> {
    bytes::le_bytes(signature.offset as nat, 8) + bytes::le_bytes(signature.length as nat, 8)
        + bytes::le_bytes(signature.weak_hash as nat, 8) + signature.strong_hash
}

pub open spec fn entries_bytes(signatures: Seq<SignatureView>) -> Seq<u8>
    decreases signatures.len(),
{
    if signatures.len() == 0 {
        Seq::empty()
    } else {
        entries_bytes(signatures.drop_last()) + entry_bytes(signatures.last())
    }
}

/// A signature file: the number of signatures in eight bytes, then the signatures.
pub open spec fn file_bytes(signatures: Seq<SignatureView>) -> Seq<u8> {
    bytes::le_bytes(signatures.len(), 8) + entries_bytes(signatures)
}

/// The signature that stands at `at`.
pub open spec fn entry_at(data: Seq<u8>, at: int) -> SignatureView {
    SignatureView {
        offset: bytes::le_value(data.subrange(at, at + 8)) as u64,
        length: bytes::le_value(data.subrange(at + 8, at + 16)) as usize,
        weak_hash: bytes::le_value(data.subrange(at + 16, at + 24)) as u64,
        strong_hash: data.subrange(at + 24, at + 56),
    }
}

/// How many signatures a file says it holds.
pub open spec fn stated_count(data: Seq<u8>) -> nat {
    bytes::le_value(data.subrange(0, 8))
}

/// Whether a file holds as many signatures as it says.
pub open spec fn is_complete(data: Seq<u8>) -> bool {
    data.len() >= 8 && data.len() >= 8 + ENTRY_SIZE * stated_count(data)
}

/// The signatures that a complete file holds; what follows them is of no account.
pub open spec fn file_signatures(data: Seq<u8>) -> Seq<SignatureView> {
    Seq::new(stated_count(data), |i: int| entry_at(data, 8 + ENTRY_SIZE * i))
}

/// A signature file ends before it should.
#[derive(Clone, Copy, Debug, PartialEq, Eq, Structural)]
pub struct UnexpectedEof;

proof fn lemma_entry_bytes(signature: SignatureView)
    requires
        signature.strong_hash.len() == 32,
    ensures
        entry_bytes(signature).len() == ENTRY_SIZE,
        entry_at(entry_bytes(signature), 0) == signature,
{
    let all = entry_bytes(signature);
    bytes::lemma_le_bytes_len(signature.offset as nat, 8);
    bytes::lemma_le_bytes_len(signature.length as nat, 8);
    bytes::lemma_le_bytes_len(signature.weak_hash as nat, 8);
    bytes::lemma_le_ranges();
    bytes::lemma_le_round_trip(signature.offset as nat, 8);
    bytes::lemma_le_round_trip(signature.length as nat, 8);
    bytes::lemma_le_round_trip(signature.weak_hash as nat, 8);
    assert(all.subrange(0, 8) =~= bytes::le_bytes(signature.offset as nat, 8));
    assert(all.subrange(8, 16) =~= bytes::le_bytes(signature.length as nat, 8));
    assert(all.subrange(16, 24) =~= bytes::le_bytes(signature.weak_hash as nat, 8));
    assert(all.subrange(24, 56) =~= signature.strong_hash);
}

proof fn lemma_entry_at_shift(data: Seq<u8>, whole: Seq<u8>, shift: int, at: int)
    requires
        0 <= at,
        0 <= shift,
        at + ENTRY_SIZE <= data.len(),
        shift + data.len() <= whole.len(),
        whole.subrange(shift, shift + data.len()) == data,
    ensures
        entry_at(whole, shift + at) == entry_at(data, at),
{
    let inner = whole.subrange(shift, shift + data.len());
    assert(inner.subrange(at, at + 8) =~= whole.subrange(shift + at, shift + at + 8));
    assert(inner.subrange(at + 8, at + 16) =~= whole.subrange(shift + at + 8, shift + at + 16));
    assert(inner.subrange(at + 16, at + 24) =~= whole.subrange(shift + at + 16, shift + at + 24));
    assert(inner.subrange(at + 24, at + 56) =~= whole.subrange(shift + at + 24, shift + at + 56));
}

proof fn lemma_entries_bytes(signatures: Seq<SignatureView>)
    requires
        forall|i: int| 0 <= i < signatures.len() ==> (#[trigger] signatures[i]).strong_hash.len() == 32,
    ensures
        entries_bytes(signatures).len() == ENTRY_SIZE * signatures.len(),
        forall|i: int|
            0 <= i < signatures.len() ==> #[trigger] entry_at(
                entries_bytes(signatures),
                ENTRY_SIZE * i,
            ) == signatures[i],
    decreases signatures.len(),
{
    if signatures.len() > 0 {
        let front = signatures.drop_last();
        let front_bytes = entries_bytes(front);
        let all = entries_bytes(signatures);
        lemma_entries_bytes(front);
        lemma_entry_bytes(signatures.last());
        assert forall|i: int| 0 <= i < signatures.len() implies #[trigger] entry_at(
            all,
            ENTRY_SIZE * i,
        ) == signatures[i] by {
            if i < front.len() {
                assert(all.subrange(0, front_bytes.len() as int) =~= front_bytes);
                lemma_entry_at_shift(front_bytes, all, 0, ENTRY_SIZE * i);
                assert(entry_at(front_bytes, ENTRY_SIZE * i) == front[i]);
            } else {
                let last = entry_bytes(signatures.last());
                assert(all.subrange(
                    front_bytes.len() as int,
                    (front_bytes.len() + last.len()) as int,
                ) =~= last);
                lemma_entry_at_shift(last, all, front_bytes.len() as int, 0);
            }
        }
    }
}

/// Reading back a signature file gives the signatures that were written.
pub proof fn law_signature_file_round_trip(signatures: Seq<SignatureView>)
    requires
        signatures.len() <= u64::MAX,
        forall|i: int| 0 <= i < signatures.len() ==> (#[trigger] signatures[i]).strong_hash.len() == 32,
    ensures
        is_complete(file_bytes(signatures)),
        file_signatures(file_bytes(signatures)) == signatures,
{
    let all = file_bytes(signatures);
    let entries = entries_bytes(signatures);
    bytes::lemma_le_bytes_len(signatures.len(), 8);
    bytes::lemma_le_ranges();
    bytes::lemma_le_round_trip(signatures.len(), 8);
    assert(all.subrange(0, 8) =~= bytes::le_bytes(signatures.len(), 8));
    lemma_entries_bytes(signatures);
    assert(all.subrange(8, (8 + entries.len()) as int) =~= entries);
    assert forall|i: int| 0 <= i < signatures.len() implies file_signatures(all)[i] == signatures[i] by {
        lemma_entry_at_shift(entries, all, 8, ENTRY_SIZE * i);
        assert(entry_at(entries, ENTRY_SIZE * i) == signatures[i]);
    }
    assert(file_signatures(all) =~= signatures);
}

/// The signatures of a file describe it from its start to its end: each has the offset at which
/// the one before it ends, and the length, the weak hash and the digest of what the file holds
/// there.
pub proof fn law_signatures_describe_the_file(data: Seq<u8>, i: int)
    requires
        data.len() <= u64::MAX,
        0 <= i < signatures_of(data).len(),
    ensures
        ({
            let all = signatures_of(data);
            let from = all[i].offset as int;
            let to = from + all[i].length;
            &&& 0 < all[i].length <= 64 * 1024
            &&& to <= data.len()
            &&& all[i].weak_hash == weak_hash(data.subrange(from, to))
            &&& all[i].strong_hash == digest::blake3_digest(data.subrange(from, to))
            &&& i == 0 ==> from == 0
            &&& i > 0 ==> from == all[i - 1].offset + all[i - 1].length
            &&& i == all.len() - 1 ==> to == data.len()
        }),
{
    let sizes = chunker::default_sizes();
    let parts = chunker::chunks(data, sizes);
    chunker::lemma_chunk_place(data, sizes, i);
    chunker::law_chunk_lengths(data, sizes, i);
    if i == 0 {
        assert(parts.take(0) =~= Seq::empty());
    } else {
        chunker::lemma_chunk_place(data, sizes, i - 1);
        chunker::law_chunk_lengths(data, sizes, i - 1);
        assert(parts.take(i).drop_last() =~= parts.take(i - 1));
    }
    if i == parts.len() - 1 {
        chunker::lemma_span_of_chunks(data, sizes);
        assert(parts.take(i) =~= parts.drop_last());
    }
}

/// Only an empty file has no signatures.
pub proof fn law_only_nothing_has_no_signatures(data: Seq<u8>)
    ensures
        signatures_of(data).len() == 0 <==> data.len() == 0,
{
    let parts = chunker::chunks(data, chunker::default_sizes());
    chunker::lemma_span_of_chunks(data, chunker::default_sizes());
    chunker::lemma_cut_point_bounds(data, chunker::default_sizes());
}

/// The weak hash with one more byte: 31 times what stands, and the byte, in 64 bits.
pub proof fn law_weak_hash_step(data: Seq<u8>, byte: u8)
    ensures
        weak_hash(Seq::empty()) == 0,
        weak_hash(data.push(byte)) == weak_hash(data).wrapping_mul(31).wrapping_add(byte as u64),
{
    assert(data.push(byte).drop_last() =~= data);
}

/// A signature file: the number of signatures in eight bytes, then for each of them 56 bytes: its
/// offset, its length and its weak hash in eight each, and its digest.
pub proof fn law_signature_file_layout(signatures: Seq<SignatureView>, i: int)
    requires
        0 <= i < signatures.len() <= u64::MAX,
        forall|k: int| 0 <= k < signatures.len() ==> (#[trigger] signatures[k]).strong_hash.len() == 32,
    ensures
        ({
            let file = file_bytes(signatures);
            let at = 8 + 56 * i;
            &&& file.len() == 8 + 56 * signatures.len()
            &&& bytes::le_value(file.subrange(0, 8)) == signatures.len()
            &&& bytes::le_value(file.subrange(at, at + 8)) as u64 == signatures[i].offset
            &&& bytes::le_value(file.subrange(at + 8, at + 16)) as usize == signatures[i].length
            &&& bytes::le_value(file.subrange(at + 16, at + 24)) as u64 == signatures[i].weak_hash
            &&& file.subrange(at + 24, at + 56) == signatures[i].strong_hash
        }),
{
    law_signature_file_round_trip(signatures);
    lemma_entries_bytes(signatures);
    bytes::lemma_le_bytes_len(signatures.len(), 8);
    assert(file_signatures(file_bytes(signatures))[i] == signatures[i]);
}

/// A signature file is refused exactly where it ends before the last of the signatures that it says
/// it holds.
pub proof fn law_incomplete_signature_file(data: Seq<u8>)
    ensures
        is_complete(data) <==> data.len() >= 8 && data.len() >= 8 + 56 * bytes::le_value(
            data.subrange(0, 8),
        ),
        is_complete(data) ==> file_signatures(data).len() == bytes::le_value(data.subrange(0, 8)),
{
}

/// The signature file that holds `signatures`.
pub fn write_signature_file(signatures: &[ChunkSignature]) -> (file: Vec<u8>)
    ensures
        file@ == file_bytes(views(signatures@)),
{
    let mut file: Vec<u8> = Vec::new();
    bytes::push_u64(&mut file, signatures.len() as u64);
    let ghost all = views(signatures@);
    assert(all.take(0) =~= Seq::empty());
    assert(file@ =~= bytes::le_bytes(all.len(), 8) + entries_bytes(all.take(0)));
    let mut i: usize = 0;
    while i < signatures.len()
        invariant
            i <= signatures@.len(),
            all == views(signatures@),
            file@ == bytes::le_bytes(all.len(), 8) + entries_bytes(all.take(i as int)),
        decreases signatures@.len() - i,
    {
        let signature: &ChunkSignature = &signatures[i];
        let ghost before = file@;
        bytes::push_u64(&mut file, signature.offset);
        bytes::push_u64(&mut file, signature.length as u64);
        bytes::push_u64(&mut file, signature.weak_hash);
        bytes::push_all(&mut file, signature.strong_hash.as_slice());
        proof {
            assert(all.take(i + 1).drop_last() =~= all.take(i as int));
            assert(file@ =~= before + entry_bytes(all[i as int]));
            assert(file@ =~= bytes::le_bytes(all.len(), 8) + entries_bytes(all.take(i + 1)));
        }
        i = i + 1;
    }
    assert(all.take(i as int) =~= all);
    file
}

/// The 32 bytes of `data` from `at` on.
pub fn read_digest(data: &[u8], at: usize) -> (res: [u8; 32])
    requires
        at + 32 <= data@.len(),
    ensures
        res@ == data@.subrange(at as int, at + 32),
{
    let size: usize = data.len();
    let mut res: [u8; 32] = [0u8; 32];
    let mut i: usize = 0;
    while i < 32
        invariant
            i <= 32,
            at + 32 <= size == data@.len(),
            forall|j: int| 0 <= j < i ==> res@[j] == data@[at + j],
        decreases 32 - i,
    {
        res[i] = data[at + i];
        i = i + 1;
    }
    assert(res@ =~= data@.subrange(at as int, at + 32));
    res
}

/// The signatures in a signature file.
pub fn read_signature_file(file: &[u8]) -> (res: Result<Vec<ChunkSignature>, UnexpectedEof>)
    ensures
        res is Ok <==> is_complete(file@),
        res matches Ok(signatures) ==> views(signatures@) == file_signatures(file@),
{
    let size: usize = file.len();
    if size < 8 {
        return Err(UnexpectedEof);
    }
    let count: u64 = bytes::read_u64(file, 0);
    let room: usize = (size - 8) / ENTRY_SIZE;
    if count > room as u64 {
        return Err(UnexpectedEof);
    }
    let mut signatures: Vec<ChunkSignature> = Vec::new();
    let mut i: u64 = 0;
    let mut at: usize = 8;
    while i < count
        invariant
            i <= count == stated_count(file@),
            size == file@.len(),
            8 + ENTRY_SIZE * count <= size,
            at == 8 + ENTRY_SIZE * i,
            views(signatures@) == file_signatures(file@).take(i as int),
        decreases count - i,
    {
        let offset: u64 = bytes::read_u64(file, at);
        let length: usize = bytes::read_u64(file, at + 8) as usize;
        let weak: u64 = bytes::read_u64(file, at + 16);
        let strong: [u8; 32] = read_digest(file, at + 24);
        let ghost before = signatures@;
        signatures.push(ChunkSignature::new(offset, length, weak, strong));
        proof {
            assert(signatures@.last()@ == file_signatures(file@)[i as int]);
            assert(views(signatures@) =~= views(before).push(signatures@.last()@));
            assert(file_signatures(file@).take(i + 1) =~= file_signatures(file@).take(i as int).push(
                file_signatures(file@)[i as int],
            ));
        }
        i = i + 1;
        at = at + ENTRY_SIZE;
    }
    assert(file_signatures(file@).take(i as int) =~= file_signatures(file@));
    Ok(signatures)
}

/// What is known of a signature is what its fields hold, and a list is known one by one.
pub proof fn law_signatures_are_known(signatures: Seq<ChunkSignature>, i: int)
    requires
        0 <= i < signatures.len(),
    ensures
        views(signatures).len() == signatures.len(),
        views(signatures)[i].offset == signatures[i].offset,
        views(signatures)[i].length == signatures[i].length,
        views(signatures)[i].weak_hash == signatures[i].weak_hash,
        views(signatures)[i].strong_hash == signatures[i].strong_hash@,
{
}

} // verus!
