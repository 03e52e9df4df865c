//! Deltas against content-defined chunks: which parts of a new file stand in the old one, and
//! the instructions that follow from it.

use std::collections::HashMap;
use vstd::prelude::*;
pub use crate::instruction::{read_patch_file, write_patch_file, PatchFormatError, PatchInstruction};
use crate::bytes;
use crate::chunker;
use crate::chunker::Chunker;
use crate::compression;
use crate::digest;
use crate::instruction;
use crate::instruction::Instr;
use crate::optimize;
use crate::patch;
use crate::signature;
use crate::signature::{ChunkSignature, SignatureView};

verus! {

/// Whether a chunk with this signature is taken to be `data`.
pub open spec fn is_match(signature: SignatureView, data: Seq<u8>) -> bool {
    &&& signature.weak_hash == signature::weak_hash(data)
    &&& signature.strong_hash == digest::blake3_digest(data)
    &&& signature.length == data.len()
}

/// Where the first signature that matches `data` says that it stands, and its length.
pub open spec fn first_match(signatures: Seq<SignatureView>, data: Seq<u8>) -> Option<(u64, usize)>
    decreases signatures.len(),
{
    if signatures.len() == 0 {
        None
    } else {
        match first_match(signatures.drop_last(), data) {
            Some(found) => Some(found),
            None => if is_match(signatures.last(), data) {
                Some((signatures.last().offset, signatures.last().length))
            } else {
                None
            },
        }
    }
}

/// The signatures with this weak hash, in order.
pub open spec fn with_weak_hash(signatures: Seq<SignatureView>, weak: u64) -> Seq<SignatureView> {
    signatures.filter(|s: SignatureView| s.weak_hash == weak)
}

proof fn lemma_with_weak_hash_push(signatures: Seq<SignatureView>, last: SignatureView, weak: u64)
    ensures
        with_weak_hash(signatures.push(last), weak) == (if last.weak_hash == weak {
            with_weak_hash(signatures, weak).push(last)
        } else {
            with_weak_hash(signatures, weak)
        }),
{
    reveal(Seq::filter);
    assert(signatures.push(last).drop_last() =~= signatures);
}

/// Looking among the signatures with the right weak hash is enough.
proof fn lemma_first_match_in_bucket(signatures: Seq<SignatureView>, data: Seq<u8>)
    ensures
        first_match(with_weak_hash(signatures, signature::weak_hash(data)), data) == first_match(
            signatures,
            data,
        ),
    decreases signatures.len(),
{
    let weak = signature::weak_hash(data);
    reveal(Seq::filter);
    if signatures.len() > 0 {
        let front = signatures.drop_last();
        lemma_first_match_in_bucket(front, data);
        assert(front.push(signatures.last()) =~= signatures);
        lemma_with_weak_hash_push(front, signatures.last(), weak);
        if signatures.last().weak_hash == weak {
            assert(with_weak_hash(signatures, weak).drop_last() =~= with_weak_hash(front, weak));
        }
    }
}

/// Signatures, to be found by their weak hash.
pub struct SignatureMap {
    weak_hash_map: HashMap<u64, Vec<ChunkSignature>>,
    all: Ghost<Seq<SignatureView>>,
}

impl SignatureMap {
    /// The signatures, in order.
    pub closed spec fn signatures(&self) -> Seq<SignatureView> {
        self.all@
    }

    pub closed spec fn wf(&self) -> bool {
        holds_buckets(self.weak_hash_map@, self.all@)
    }

    pub fn new(signatures: Vec<ChunkSignature>) -> (res: Self)
        ensures
            res.wf(),
            res.signatures() == signature::views(signatures@),
    {
        broadcast use vstd::std_specs::hash::group_hash_axioms;

        let mut weak_hash_map: HashMap<u64, Vec<ChunkSignature>> = HashMap::new();
        let ghost all = signature::views(signatures@);
        let mut i: usize = 0;
        proof {
            reveal(Seq::filter);
            assert(all.take(0) =~= Seq::empty());
        }
        while i < signatures.len()
            invariant
                i <= signatures@.len(),
                all == signature::views(signatures@),
                holds_buckets(weak_hash_map@, all.take(i as int)),
            decreases signatures@.len() - i,
        {
            let signature: ChunkSignature = signatures[i];
            let weak: u64 = signature.weak_hash;
            let ghost before = weak_hash_map@;
            let mut bucket: Vec<ChunkSignature> = match weak_hash_map.remove(&weak) {
                Some(bucket) => bucket,
                None => Vec::new(),
            };
            let ghost old_bucket = bucket@;
            bucket.push(signature);
            weak_hash_map.insert(weak, bucket);
            proof {
                let done = all.take(i as int);
                let next = all.take(i + 1);
                assert(next =~= done.push(signature@));
                assert(signature::views(old_bucket) =~= with_weak_hash(done, weak));
                assert(signature::views(bucket@) =~= signature::views(old_bucket).push(signature@));
                assert forall|w: u64|
                    #![trigger weak_hash_map@.contains_key(w)]
                    #![trigger with_weak_hash(next, w)]
                    {
                        &&& weak_hash_map@.contains_key(w) <==> with_weak_hash(next, w).len() > 0
                        &&& weak_hash_map@.contains_key(w) ==> signature::views(
                            weak_hash_map@[w]@,
                        ) == with_weak_hash(next, w)
                    } by {
                    lemma_with_weak_hash_push(done, signature@, w);
                    assert(before.contains_key(w) <==> with_weak_hash(done, w).len() > 0);
                }
            }
            i = i + 1;
        }
        assert(all.take(i as int) =~= all);
        SignatureMap { weak_hash_map, all: Ghost(all) }
    }

    /// The signatures with this weak hash, where there are any.
    pub fn lookup(&self, weak_hash: u64) -> (res: Option<&Vec<ChunkSignature>>)
        requires
            self.wf(),
        ensures
            match res {
                Some(found) => found@.len() > 0 && signature::views(found@) == with_weak_hash(
                    self.signatures(),
                    weak_hash,
                ),
                None => with_weak_hash(self.signatures(), weak_hash).len() == 0,
            },
    {
        broadcast use vstd::std_specs::hash::group_hash_axioms;

        assert(self.weak_hash_map@.contains_key(weak_hash) <==> with_weak_hash(
            self.all@,
            weak_hash,
        ).len() > 0);
        self.weak_hash_map.get(&weak_hash)
    }
}

/// Every weak hash that occurs leads to the signatures that have it, and no other does.
pub open spec fn holds_buckets(
    buckets: Map<u64, Vec<ChunkSignature>>,
    signatures: Seq<SignatureView>,
) -> bool {
    forall|weak: u64|
        #![trigger buckets.contains_key(weak)]
        #![trigger with_weak_hash(signatures, weak)]
        {
            &&& buckets.contains_key(weak) <==> with_weak_hash(signatures, weak).len() > 0
            &&& buckets.contains_key(weak) ==> signature::views(buckets[weak]@) == with_weak_hash(
                signatures,
                weak,
            )
        }
}

/// Finds what of a new file stands in an old one.
pub struct DeltaGenerator {
    signature_map: SignatureMap,
}

impl DeltaGenerator {
    /// The signatures of the old file.
    pub closed spec fn signatures(&self) -> Seq<SignatureView> {
        self.signature_map.signatures()
    }

    pub closed spec fn wf(&self) -> bool {
        self.signature_map.wf()
    }

    pub fn new(signatures: Vec<ChunkSignature>) -> (res: Self)
        ensures
            res.wf(),
            res.signatures() == signature::views(signatures@),
    {
        DeltaGenerator { signature_map: SignatureMap::new(signatures) }
    }

    /// Where in the old file `data` stands, and its length: what the first signature says that
    /// has both its hashes and its length.
    pub fn find_match(&self, data: &[u8]) -> (res: Option<(u64, usize)>)
        requires
            self.wf(),
        ensures
            res == first_match(self.signatures(), data@),
    {
        let weak: u64 = signature::compute_weak_hash(data);
        proof {
            lemma_first_match_in_bucket(self.signatures(), data@);
        }
        let candidates: &Vec<ChunkSignature> = match self.signature_map.lookup(weak) {
            Some(candidates) => candidates,
            None => {
                return None;
            },
        };
        let strong: [u8; 32] = signature::compute_strong_hash(data);
        let ghost bucket = signature::views(candidates@);
        let mut i: usize = 0;
        assert(bucket.take(0) =~= Seq::empty());
        while i < candidates.len()
            invariant
                i <= candidates@.len(),
                bucket == signature::views(candidates@),
                bucket == with_weak_hash(self.signatures(), weak),
                weak == signature::weak_hash(data@),
                strong@ == digest::blake3_digest(data@),
                first_match(bucket.take(i as int), data@) == None::<(u64, usize)>,
                first_match(bucket, data@) == first_match(self.signatures(), data@),
            decreases candidates@.len() - i,
        {
            let candidate: &ChunkSignature = &candidates[i];
            proof {
                assert(bucket.take(i + 1).drop_last() =~= bucket.take(i as int));
                lemma_bucket_weak_hash(self.signatures(), weak, i as int);
            }
            if bytes::same_bytes(candidate.strong_hash.as_slice(), strong.as_slice())
                && candidate.length == data.len() {
                proof {
                    lemma_first_match_prefix(bucket, data@, i + 1);
                }
                return Some((candidate.offset, candidate.length));
            }
            i = i + 1;
        }
        assert(bucket.take(i as int) =~= bucket);
        None
    }
}

proof fn lemma_bucket_weak_hash(signatures: Seq<SignatureView>, weak: u64, i: int)
    requires
        0 <= i < with_weak_hash(signatures, weak).len(),
    ensures
        with_weak_hash(signatures, weak)[i].weak_hash == weak,
{
    signatures.lemma_filter_pred(|s: SignatureView| s.weak_hash == weak, i);
}

/// A match among the first signatures is the first match.
proof fn lemma_first_match_prefix(signatures: Seq<SignatureView>, data: Seq<u8>, n: int)
    requires
        0 <= n <= signatures.len(),
        first_match(signatures.take(n), data) is Some,
    ensures
        first_match(signatures, data) == first_match(signatures.take(n), data),
    decreases signatures.len(),
{
    if n < signatures.len() {
        assert(signatures.drop_last().take(n) =~= signatures.take(n));
        lemma_first_match_prefix(signatures.drop_last(), data, n);
    } else {
        assert(signatures.take(n) =~= signatures);
    }
}

/// Literals of fewer bytes are not compressed.
pub const COMPRESSION_THRESHOLD: usize = 64;

/// So many new bytes gather at most; then they are written out.
pub const MAX_LITERAL_BUFFER: usize = 8388608;

pub const COMPRESSION_LEVEL: i32 = 3;

/// A part of the new file: one that stands in the old file, or one that is new.
#[verifier::ext_equal]
pub enum Piece {
    Copy { offset: u64, length: usize },
    Data { data: Seq<u8> },
}

/// The pieces with the bytes that have gathered since behind them.
pub open spec fn flushed(pieces: Seq<Piece>, literal: Seq<u8>) -> Seq<Piece> {
    if literal.len() == 0 {
        pieces
    } else {
        pieces.push(Piece::Data { data: literal })
    }
}

/// The pieces with room behind them for a chunk of new bytes: what has gathered is written out
/// where it would be too much with the chunk.
pub open spec fn with_room(pieces: Seq<Piece>, literal: Seq<u8>, chunk: Seq<u8>) -> (
    Seq<Piece>,
    Seq<u8>,
) {
    if literal.len() + chunk.len() > MAX_LITERAL_BUFFER {
        (flushed(pieces, literal), Seq::empty())
    } else {
        (pieces, literal)
    }
}

/// The pieces that follow from chunks, and the new bytes that have gathered behind them: a
/// chunk that the signatures know is copied, others gather until one is known or there is no
/// room for more of them.
pub open spec fn plan_after(signatures: Seq<SignatureView>, parts: Seq<Seq<u8>>) -> (
    Seq<Piece>,
    Seq<u8>,
)
    decreases parts.len(),
{
    if parts.len() == 0 {
        (Seq::empty(), Seq::empty())
    } else {
        let (pieces, literal) = plan_after(signatures, parts.drop_last());
        match first_match(signatures, parts.last()) {
            Some((offset, length)) => (
                flushed(pieces, literal).push(Piece::Copy { offset, length }),
                Seq::empty(),
            ),
            None => {
                let (before, kept) = with_room(pieces, literal, parts.last());
                let longer = kept + parts.last();
                if longer.len() >= MAX_LITERAL_BUFFER {
                    (flushed(before, longer), Seq::empty())
                } else {
                    (before, longer)
                }
            },
        }
    }
}

/// The pieces of a new file against the signatures of an old one.
pub open spec fn plan(signatures: Seq<SignatureView>, new_data: Seq<u8>) -> Seq<Piece> {
    let (pieces, literal) = plan_after(
        signatures,
        chunker::chunks(new_data, chunker::default_sizes()),
    );
    flushed(pieces, literal)
}

/// The instruction for new bytes: a frame where they are many enough and it is smaller.
pub open spec fn literal_instr(data: Seq<u8>, encoded: Option<Seq<u8>>) -> Instr {
    match encoded {
        Some(frame) if data.len() >= COMPRESSION_THRESHOLD && frame.len() < data.len() =>
            Instr::CompressedLiteral { decompressed_len: data.len() as u64, compressed: frame },
        _ => Instr::Literal { data },
    }
}

/// The instruction for a piece.
pub open spec fn rendered(piece: Piece) -> Instr {
    match piece {
        Piece::Copy { offset, length } => Instr::Copy { offset, length },
        Piece::Data { data } => literal_instr(
            data,
            compression::zstd_encoded(data, COMPRESSION_LEVEL as int),
        ),
    }
}

pub open spec fn all_rendered(pieces: Seq<Piece>) -> Seq<Instr> {
    Seq::new(pieces.len(), |i: int| rendered(pieces[i]))
}

/// The instructions for a new file, one for each piece.
pub open spec fn raw_delta(signatures: Seq<SignatureView>, new_data: Seq<u8>) -> Seq<Instr> {
    all_rendered(plan(signatures, new_data))
}

/// The bytes that a piece stands for.
pub open spec fn piece_bytes(old_data: Seq<u8>, piece: Piece) -> Seq<u8> {
    match piece {
        Piece::Copy { offset, length } => old_data.subrange(offset as int, offset + length),
        Piece::Data { data } => data,
    }
}

pub open spec fn pieces_bytes(old_data: Seq<u8>, pieces: Seq<Piece>) -> Seq<u8>
    decreases pieces.len(),
{
    if pieces.len() == 0 {
        Seq::empty()
    } else {
        pieces_bytes(old_data, pieces.drop_last()) + piece_bytes(old_data, pieces.last())
    }
}

/// Whether the chunks of two files are equal wherever their hashes and lengths are.
pub open spec fn no_collision(old_data: Seq<u8>, new_data: Seq<u8>) -> bool {
    let old_parts = chunker::chunks(old_data, chunker::default_sizes());
    let new_parts = chunker::chunks(new_data, chunker::default_sizes());
    forall|i: int, j: int|
        0 <= i < old_parts.len() && 0 <= j < new_parts.len() && digest::blake3_digest(
            #[trigger] old_parts[i],
        ) == digest::blake3_digest(#[trigger] new_parts[j]) && signature::weak_hash(old_parts[i])
            == signature::weak_hash(new_parts[j]) && old_parts[i].len() == new_parts[j].len()
            ==> old_parts[i] == new_parts[j]
}

/// Whether the old file holds what a copy asks for.
pub open spec fn piece_fits(old_data: Seq<u8>, piece: Piece) -> bool {
    match piece {
        Piece::Copy { offset, length } => offset + length <= old_data.len(),
        Piece::Data { .. } => true,
    }
}

pub open spec fn pieces_fit(old_data: Seq<u8>, pieces: Seq<Piece>) -> bool {
    forall|i: int| 0 <= i < pieces.len() ==> piece_fits(old_data, #[trigger] pieces[i])
}

/// A match is one of the signatures.
proof fn lemma_first_match_found(signatures: Seq<SignatureView>, data: Seq<u8>) -> (i: int)
    requires
        first_match(signatures, data) is Some,
    ensures
        0 <= i < signatures.len(),
        is_match(signatures[i], data),
        first_match(signatures, data) == Some((signatures[i].offset, signatures[i].length)),
    decreases signatures.len(),
{
    if first_match(signatures.drop_last(), data) is Some {
        lemma_first_match_found(signatures.drop_last(), data)
    } else {
        signatures.len() - 1
    }
}

/// A chunk of the new file that the signatures of the old one know stands there.
proof fn lemma_match_is_right(old_data: Seq<u8>, new_data: Seq<u8>, j: int)
    requires
        old_data.len() <= u64::MAX,
        no_collision(old_data, new_data),
        0 <= j < chunker::chunks(new_data, chunker::default_sizes()).len(),
        first_match(
            signature::signatures_of(old_data),
            chunker::chunks(new_data, chunker::default_sizes())[j],
        ) is Some,
    ensures
        ({
            let chunk = chunker::chunks(new_data, chunker::default_sizes())[j];
            let (offset, length) = first_match(signature::signatures_of(old_data), chunk)->0;
            offset + length <= old_data.len() && old_data.subrange(offset as int, offset + length)
                == chunk
        }),
{
    let chunk = chunker::chunks(new_data, chunker::default_sizes())[j];
    let old_parts = chunker::chunks(old_data, chunker::default_sizes());
    let i = lemma_first_match_found(signature::signatures_of(old_data), chunk);
    chunker::lemma_chunk_place(old_data, chunker::default_sizes(), i);
    chunker::law_chunk_lengths(old_data, chunker::default_sizes(), i);
    assert(old_parts[i] == chunk);
}

/// The pieces, with what has gathered behind them, are the chunks.
proof fn lemma_plan_after(old_data: Seq<u8>, new_data: Seq<u8>, n: int)
    requires
        old_data.len() <= u64::MAX,
        no_collision(old_data, new_data),
        0 <= n <= chunker::chunks(new_data, chunker::default_sizes()).len(),
    ensures
        ({
            let parts = chunker::chunks(new_data, chunker::default_sizes()).take(n);
            let (pieces, literal) = plan_after(signature::signatures_of(old_data), parts);
            pieces_fit(old_data, pieces) && pieces_bytes(old_data, pieces) + literal
                == parts.flatten()
        }),
    decreases n,
{
    let all = chunker::chunks(new_data, chunker::default_sizes());
    let parts = all.take(n);
    let signatures = signature::signatures_of(old_data);
    if n == 0 {
        assert(parts =~= Seq::empty());
    } else {
        let chunk = parts.last();
        lemma_plan_after(old_data, new_data, n - 1);
        assert(parts.drop_last() =~= all.take(n - 1));
        assert(parts =~= parts.drop_last().push(chunk));
        parts.drop_last().lemma_flatten_push(chunk);
        let (pieces, literal) = plan_after(signatures, parts.drop_last());
        lemma_flushed_bytes(old_data, pieces, literal);
        let (before, kept) = with_room(pieces, literal, chunk);
        lemma_flushed_bytes(old_data, before, kept + chunk);
        if first_match(signatures, chunk) is Some {
            lemma_match_is_right(old_data, new_data, n - 1);
            let (offset, length) = first_match(signatures, chunk)->0;
            let copied = flushed(pieces, literal).push(Piece::Copy { offset, length });
            assert(copied.drop_last() =~= flushed(pieces, literal));
            assert(pieces_bytes(old_data, copied) + Seq::<u8>::empty() =~= parts.flatten());
        } else {
            assert(pieces_bytes(old_data, before) + kept =~= pieces_bytes(old_data, pieces)
                + literal);
            assert(pieces_bytes(old_data, before) + (kept + chunk) =~= parts.flatten());
            assert(parts.flatten() + Seq::<u8>::empty() =~= parts.flatten());
        }
    }
}

proof fn lemma_flushed_bytes(old_data: Seq<u8>, pieces: Seq<Piece>, literal: Seq<u8>)
    ensures
        pieces_bytes(old_data, flushed(pieces, literal)) == pieces_bytes(old_data, pieces) + literal,
        pieces_fit(old_data, pieces) ==> pieces_fit(old_data, flushed(pieces, literal)),
{
    if literal.len() == 0 {
        assert(pieces_bytes(old_data, pieces) + literal =~= pieces_bytes(old_data, pieces));
    } else {
        assert(flushed(pieces, literal).drop_last() =~= pieces);
    }
}

/// The pieces of a new file against the signatures of an old one make the new file.
pub proof fn law_plan_rebuilds(old_data: Seq<u8>, new_data: Seq<u8>)
    requires
        old_data.len() <= u64::MAX,
        no_collision(old_data, new_data),
    ensures
        pieces_fit(old_data, plan(signature::signatures_of(old_data), new_data)),
        pieces_bytes(old_data, plan(signature::signatures_of(old_data), new_data)) == new_data,
{
    let all = chunker::chunks(new_data, chunker::default_sizes());
    let (pieces, literal) = plan_after(signature::signatures_of(old_data), all);
    lemma_plan_after(old_data, new_data, all.len() as int);
    assert(all.take(all.len() as int) =~= all);
    chunker::law_chunks_concatenate(new_data, chunker::default_sizes());
    lemma_flushed_bytes(old_data, pieces, literal);
}

/// Where a signature matches there is a first that does.
proof fn lemma_match_is_found(signatures: Seq<SignatureView>, data: Seq<u8>, i: int)
    requires
        0 <= i < signatures.len(),
        is_match(signatures[i], data),
    ensures
        first_match(signatures, data) is Some,
    decreases signatures.len(),
{
    if i < signatures.len() - 1 {
        lemma_match_is_found(signatures.drop_last(), data, i);
    }
}

proof fn lemma_plan_of_same(data: Seq<u8>, n: int)
    requires
        data.len() <= u64::MAX,
        0 <= n <= chunker::chunks(data, chunker::default_sizes()).len(),
    ensures
        ({
            let parts = chunker::chunks(data, chunker::default_sizes()).take(n);
            let (pieces, literal) = plan_after(signature::signatures_of(data), parts);
            literal.len() == 0 && forall|i: int|
                0 <= i < pieces.len() ==> #[trigger] pieces[i] is Copy
        }),
    decreases n,
{
    let all = chunker::chunks(data, chunker::default_sizes());
    let signatures = signature::signatures_of(data);
    if n > 0 {
        let parts = all.take(n);
        lemma_plan_of_same(data, n - 1);
        assert(parts.drop_last() =~= all.take(n - 1));
        chunker::law_chunk_lengths(data, chunker::default_sizes(), n - 1);
        assert(is_match(signatures[n - 1], parts.last()));
        lemma_match_is_found(signatures, parts.last(), n - 1);
    }
}

/// A file against its own signatures is copied as a whole: nothing of it is sent.
pub proof fn law_same_file_is_copied(data: Seq<u8>, i: int)
    requires
        data.len() <= u64::MAX,
        0 <= i < raw_delta(signature::signatures_of(data), data).len(),
    ensures
        raw_delta(signature::signatures_of(data), data)[i] is Copy,
{
    let all = chunker::chunks(data, chunker::default_sizes());
    lemma_plan_of_same(data, all.len() as int);
    assert(all.take(all.len() as int) =~= all);
}

/// Whether the frame of the bytes of a piece, where there is one, decodes to them.
pub open spec fn decodes_back(piece: Piece) -> bool {
    piece matches Piece::Data { data } ==> data.len() <= u64::MAX && (data.len()
        >= COMPRESSION_THRESHOLD ==> (compression::zstd_encoded(
        data,
        COMPRESSION_LEVEL as int,
    ) matches Some(frame) ==> compression::zstd_decoded(frame) == Some(data)))
}

pub open spec fn all_decode_back(pieces: Seq<Piece>) -> bool {
    forall|i: int| 0 <= i < pieces.len() ==> decodes_back(#[trigger] pieces[i])
}

/// Applying the instructions for pieces gives the bytes of the pieces.
pub proof fn lemma_rendered_applies(old_data: Seq<u8>, pieces: Seq<Piece>)
    requires
        pieces_fit(old_data, pieces),
        all_decode_back(pieces),
    ensures
        patch::applied(old_data, all_rendered(pieces)) == Ok::<Seq<u8>, patch::PatchError>(
            pieces_bytes(old_data, pieces),
        ),
    decreases pieces.len(),
{
    let list = all_rendered(pieces);
    if pieces.len() > 0 {
        lemma_rendered_applies(old_data, pieces.drop_last());
        assert(list.drop_last() =~= all_rendered(pieces.drop_last()));
        assert(decodes_back(pieces.last()));
        assert(piece_fits(old_data, pieces.last()));
    }
}

/// How a delta came out.
#[derive(Debug, Clone, Copy, PartialEq, Eq, Structural)]
pub struct DeltaStats {
    pub new_file_size: usize,
    pub patch_file_size: usize,
    pub total_instructions: usize,
    pub copy_instructions: usize,
    pub literal_instructions: usize,
    pub copy_bytes: usize,
    pub literal_bytes: usize,
    pub matches_found: usize,
    pub compressed_instructions: usize,
    pub uncompressed_literal_bytes: usize,
    pub compressed_literal_bytes: usize,
}

pub open spec fn no_stats() -> DeltaStats {
    DeltaStats {
        new_file_size: 0,
        patch_file_size: 0,
        total_instructions: 0,
        copy_instructions: 0,
        literal_instructions: 0,
        copy_bytes: 0,
        literal_bytes: 0,
        matches_found: 0,
        compressed_instructions: 0,
        uncompressed_literal_bytes: 0,
        compressed_literal_bytes: 0,
    }
}

/// The statistics of a delta: those of an empty file are all zero; otherwise the instructions
/// are counted before copies are merged, and `total_instructions` after.
pub open spec fn stats_of(raw: Seq<Instr>, new_size: nat) -> DeltaStats {
    let parts = instruction::tally(raw);
    if new_size == 0 {
        no_stats()
    } else {
        DeltaStats {
            new_file_size: new_size as usize,
            patch_file_size: instruction::patch_bytes(optimize::optimized(raw)).len() as usize,
            total_instructions: optimize::optimized(raw).len() as usize,
            copy_instructions: parts.copies as usize,
            literal_instructions: parts.literals as usize,
            copy_bytes: parts.copy_bytes as usize,
            literal_bytes: (parts.plain_bytes + parts.compressed_bytes) as usize,
            matches_found: parts.copies as usize,
            compressed_instructions: parts.compressed as usize,
            uncompressed_literal_bytes: parts.plain_bytes as usize,
            compressed_literal_bytes: parts.compressed_bytes as usize,
        }
    }
}

impl DeltaStats {
    pub fn new() -> (res: Self)
        ensures
            res == no_stats(),
    {
        DeltaStats {
            new_file_size: 0,
            patch_file_size: 0,
            total_instructions: 0,
            copy_instructions: 0,
            literal_instructions: 0,
            copy_bytes: 0,
            literal_bytes: 0,
            matches_found: 0,
            compressed_instructions: 0,
            uncompressed_literal_bytes: 0,
            compressed_literal_bytes: 0,
        }
    }
}

impl Default for DeltaStats {
    fn default() -> (res: Self)
        ensures
            res == no_stats(),
    {
        DeltaStats::new()
    }
}

proof fn lemma_tally_copy_bytes(list: Seq<Instr>)
    ensures
        instruction::tally(list).copy_bytes == optimize::copy_total(list),
    decreases list.len(),
{
    if list.len() > 0 {
        lemma_tally_copy_bytes(list.drop_last());
    }
}

/// Counts instructions.
pub fn count_instructions(instructions: &[PatchInstruction]) -> (res: DeltaStats)
    requires
        ({
            let parts = instruction::tally(instruction::instrs(instructions@));
            parts.copy_bytes + parts.plain_bytes + parts.compressed_bytes <= usize::MAX
        }),
    ensures
        ({
            let parts = instruction::tally(instruction::instrs(instructions@));
            &&& res.new_file_size == 0
            &&& res.patch_file_size == 0
            &&& res.total_instructions == instructions@.len()
            &&& res.copy_instructions == parts.copies
            &&& res.literal_instructions == parts.literals
            &&& res.copy_bytes == parts.copy_bytes
            &&& res.literal_bytes == parts.plain_bytes + parts.compressed_bytes
            &&& res.matches_found == parts.copies
            &&& res.compressed_instructions == parts.compressed
            &&& res.uncompressed_literal_bytes == parts.plain_bytes
            &&& res.compressed_literal_bytes == parts.compressed_bytes
        }),
{
    let ghost all = instruction::instrs(instructions@);
    let mut stats: DeltaStats = DeltaStats::new();
    let mut i: usize = 0;
    assert(all.take(0) =~= Seq::empty());
    while i < instructions.len()
        invariant
            i <= instructions@.len(),
            all == instruction::instrs(instructions@),
            instruction::tally(all).copy_bytes + instruction::tally(all).plain_bytes + instruction::tally(all).compressed_bytes
                <= usize::MAX,
            stats.new_file_size == 0,
            stats.patch_file_size == 0,
            stats.copy_instructions == instruction::tally(all.take(i as int)).copies,
            stats.literal_instructions == instruction::tally(all.take(i as int)).literals,
            stats.copy_bytes == instruction::tally(all.take(i as int)).copy_bytes,
            stats.literal_bytes == instruction::tally(all.take(i as int)).plain_bytes + instruction::tally(
                all.take(i as int),
            ).compressed_bytes,
            stats.matches_found == instruction::tally(all.take(i as int)).copies,
            stats.compressed_instructions == instruction::tally(all.take(i as int)).compressed,
            stats.uncompressed_literal_bytes == instruction::tally(all.take(i as int)).plain_bytes,
            stats.compressed_literal_bytes == instruction::tally(all.take(i as int)).compressed_bytes,
        decreases instructions@.len() - i,
    {
        proof {
            instruction::lemma_tally_bounds(all, i + 1);
            assert(all.take(i + 1).drop_last() =~= all.take(i as int));
        }
        match &instructions[i] {
            PatchInstruction::Copy(_, length) => {
                stats.copy_bytes = stats.copy_bytes + *length;
                stats.copy_instructions = stats.copy_instructions + 1;
                stats.matches_found = stats.matches_found + 1;
            },
            PatchInstruction::Literal(data) => {
                stats.uncompressed_literal_bytes = stats.uncompressed_literal_bytes + data.len();
                stats.literal_bytes = stats.literal_bytes + data.len();
                stats.literal_instructions = stats.literal_instructions + 1;
            },
            PatchInstruction::CompressedLiteral { decompressed_len, .. } => {
                let len: usize = *decompressed_len as usize;
                stats.compressed_literal_bytes = stats.compressed_literal_bytes + len;
                stats.literal_bytes = stats.literal_bytes + len;
                stats.compressed_instructions = stats.compressed_instructions + 1;
                stats.literal_instructions = stats.literal_instructions + 1;
            },
        }
        i = i + 1;
    }
    assert(all.take(i as int) =~= all);
    stats.total_instructions = instructions.len();
    stats
}

/// How many bytes of the new file a piece makes.
pub open spec fn piece_len(piece: Piece) -> nat {
    match piece {
        Piece::Copy { length, .. } => length as nat,
        Piece::Data { data } => data.len(),
    }
}

pub open spec fn pieces_len(pieces: Seq<Piece>) -> nat
    decreases pieces.len(),
{
    if pieces.len() == 0 {
        0
    } else {
        pieces_len(pieces.drop_last()) + piece_len(pieces.last())
    }
}

proof fn lemma_flushed_len(pieces: Seq<Piece>, literal: Seq<u8>)
    ensures
        pieces_len(flushed(pieces, literal)) == pieces_len(pieces) + literal.len(),
{
    if literal.len() > 0 {
        assert(flushed(pieces, literal).drop_last() =~= pieces);
    }
}

/// The pieces and what has gathered behind them have as many bytes as the chunks.
proof fn lemma_plan_after_len(signatures: Seq<SignatureView>, parts: Seq<Seq<u8>>)
    ensures
        pieces_len(plan_after(signatures, parts).0) + plan_after(signatures, parts).1.len()
            == chunker::span(parts),
    decreases parts.len(),
{
    if parts.len() > 0 {
        let (pieces, literal) = plan_after(signatures, parts.drop_last());
        let chunk = parts.last();
        lemma_plan_after_len(signatures, parts.drop_last());
        lemma_flushed_len(pieces, literal);
        let (before, kept) = with_room(pieces, literal, chunk);
        lemma_flushed_len(before, kept + chunk);
        if first_match(signatures, chunk) is Some {
            let _ = lemma_first_match_found(signatures, chunk);
            let (offset, length) = first_match(signatures, chunk)->0;
            let copied = flushed(pieces, literal).push(Piece::Copy { offset, length });
            assert(copied.drop_last() =~= flushed(pieces, literal));
        }
    }
}

/// The instructions for pieces make as many bytes as the pieces.
proof fn lemma_rendered_tally(pieces: Seq<Piece>)
    requires
        pieces_len(pieces) <= u64::MAX,
    ensures
        ({
            let parts = instruction::tally(all_rendered(pieces));
            parts.copy_bytes + parts.plain_bytes + parts.compressed_bytes == pieces_len(pieces)
        }),
    decreases pieces.len(),
{
    if pieces.len() > 0 {
        lemma_rendered_tally(pieces.drop_last());
        assert(all_rendered(pieces).drop_last() =~= all_rendered(pieces.drop_last()));
    }
}

/// The instruction for new bytes, given the frame that compressing them gave.
pub fn literal_instruction(data: Vec<u8>, encoded: Option<Vec<u8>>) -> (res: PatchInstruction)
    ensures
        res@ == literal_instr(
            data@,
            match encoded {
                Some(frame) => Some(frame@),
                None => None,
            },
        ),
{
    match encoded {
        Some(frame) => {
            if data.len() >= COMPRESSION_THRESHOLD && frame.len() < data.len() {
                PatchInstruction::CompressedLiteral {
                    decompressed_len: data.len() as u64,
                    compressed_data: frame,
                }
            } else {
                PatchInstruction::Literal(data)
            }
        },
        None => PatchInstruction::Literal(data),
    }
}

/// The instruction for new bytes.
pub fn encode_literal(data: Vec<u8>) -> (res: PatchInstruction)
    ensures
        res@ == rendered(Piece::Data { data: data@ }),
        decodes_back(Piece::Data { data: data@ }),
{
    if data.len() < COMPRESSION_THRESHOLD {
        return literal_instruction(data, None);
    }
    match compression::zstd_encode(data.as_slice(), COMPRESSION_LEVEL) {
        Ok(frame) => literal_instruction(data, Some(frame)),
        Err(_) => literal_instruction(data, None),
    }
}

/// Makes a delta for a stream that is handed over in reads of any size.
pub struct DeltaSession<'a> {
    generator: &'a DeltaGenerator,
    chunker: Chunker,
    instructions: Vec<PatchInstruction>,
    literal: Vec<u8>,
}

impl<'a> DeltaSession<'a> {
    /// All that has been read.
    pub closed spec fn input(&self) -> Seq<u8> {
        self.chunker.input()
    }

    pub closed spec fn ended(&self) -> bool {
        self.chunker.ended()
    }

    pub closed spec fn signatures(&self) -> Seq<SignatureView> {
        self.generator.signatures()
    }

    pub closed spec fn wf(&self) -> bool {
        &&& self.generator.wf()
        &&& self.chunker.wf()
        &&& self.chunker.sizes() == chunker::default_sizes()
        &&& self.chunker.input().len() <= usize::MAX
        &&& self.holds(plan_after(self.signatures(), self.chunker.handed_out()))
    }

    spec fn holds(&self, state: (Seq<Piece>, Seq<u8>)) -> bool {
        &&& instruction::instrs(self.instructions@) == all_rendered(state.0)
        &&& self.literal@ == state.1
        &&& all_decode_back(state.0)
    }

    pub fn new(generator: &'a DeltaGenerator) -> (res: Self)
        requires
            generator.wf(),
        ensures
            res.wf(),
            res.signatures() == generator.signatures(),
            res.input() == Seq::<u8>::empty(),
            !res.ended(),
    {
        let res = DeltaSession {
            generator,
            chunker: Chunker::new(),
            instructions: Vec::new(),
            literal: Vec::new(),
        };
        assert(instruction::instrs(res.instructions@) =~= all_rendered(Seq::empty()));
        res
    }

    /// Writes out the new bytes that have gathered.
    fn flush(&mut self, state: Ghost<(Seq<Piece>, Seq<u8>)>)
        requires
            old(self).holds(state@),
        ensures
            final(self).generator == old(self).generator,
            final(self).chunker == old(self).chunker,
            final(self).holds((flushed(state@.0, state@.1), Seq::empty())),
    {
        if self.literal.len() == 0 {
            assert(self.literal@ =~= Seq::empty());
            return ;
        }
        let mut data: Vec<u8> = Vec::new();
        core::mem::swap(&mut data, &mut self.literal);
        let instruction: PatchInstruction = encode_literal(data);
        let ghost shown = instruction@;
        self.instructions.push(instruction);
        proof {
            let pieces = flushed(state@.0, state@.1);
            assert(instruction::instrs(self.instructions@) =~= instruction::instrs(
                old(self).instructions@,
            ).push(shown));
            assert(instruction::instrs(self.instructions@) =~= all_rendered(pieces));
            assert(self.literal@ =~= Seq::empty());
        }
    }

    /// Takes the next chunk of the new file.
    fn take_chunk(&mut self, data: &[u8], parts: Ghost<Seq<Seq<u8>>>)
        requires
            old(self).generator.wf(),
            old(self).holds(plan_after(old(self).generator.signatures(), parts@)),
        ensures
            final(self).generator == old(self).generator,
            final(self).chunker == old(self).chunker,
            final(self).holds(plan_after(final(self).generator.signatures(), parts@.push(data@))),
    {
        let ghost signatures = self.generator.signatures();
        let ghost state = plan_after(signatures, parts@);
        proof {
            assert(parts@.push(data@).drop_last() =~= parts@);
        }
        match self.generator.find_match(data) {
            Some((offset, length)) => {
                self.flush(Ghost(state));
                let ghost before = self.instructions@;
                let ghost pieces = flushed(state.0, state.1);
                self.instructions.push(PatchInstruction::Copy(offset, length));
                proof {
                    let copied = pieces.push(Piece::Copy { offset, length });
                    assert(instruction::instrs(self.instructions@) =~= instruction::instrs(
                        before,
                    ).push(Instr::Copy { offset, length }));
                    assert(instruction::instrs(self.instructions@) =~= all_rendered(copied));
                }
            },
            None => {
                let ghost (before, kept) = with_room(state.0, state.1, data@);
                if self.literal.len() >= MAX_LITERAL_BUFFER || data.len() > MAX_LITERAL_BUFFER
                    - self.literal.len() {
                    self.flush(Ghost(state));
                }
                bytes::push_all(&mut self.literal, data);
                if self.literal.len() >= MAX_LITERAL_BUFFER {
                    self.flush(Ghost((before, kept + data@)));
                }
            },
        }
    }

    fn drain(&mut self)
        requires
            old(self).wf(),
        ensures
            final(self).wf(),
            final(self).generator == old(self).generator,
            final(self).input() == old(self).input(),
            final(self).ended() == old(self).ended(),
            final(self).chunker.is_hungry() || final(self).chunker.pending().len() == 0,
    {
        let mut more: bool = true;
        while more
            invariant
                self.wf(),
                self.generator == old(self).generator,
                self.input() == old(self).input(),
                self.ended() == old(self).ended(),
                !more ==> self.chunker.is_hungry() || self.chunker.pending().len() == 0,
            decreases self.chunker.pending().len() + (if more { 1int } else { 0 }),
        {
            proof {
                chunker::lemma_cut_point_bounds(self.chunker.pending(), self.chunker.sizes());
            }
            let ghost before = self.chunker.handed_out();
            match self.chunker.next_chunk() {
                Ok(Some(chunk)) => {
                    self.take_chunk(chunk.data.as_slice(), Ghost(before));
                },
                _ => {
                    more = false;
                },
            }
        }
    }

    /// Takes what a read of the new file gave; a read of nothing is the end.
    pub fn feed(&mut self, read: &[u8])
        requires
            old(self).wf(),
            old(self).input().len() + read@.len() <= usize::MAX,
        ensures
            final(self).wf(),
            final(self).signatures() == old(self).signatures(),
            final(self).ended() == (old(self).ended() || read@.len() == 0),
            final(self).input() == (if old(self).ended() {
                old(self).input()
            } else {
                old(self).input() + read@
            }),
    {
        self.chunker.fill_buffer(read);
        self.drain();
    }

    /// The instructions for all that was read, one for each piece.
    pub fn finish_instructions(self) -> (res: Vec<PatchInstruction>)
        requires
            self.wf(),
        ensures
            instruction::instrs(res@) == raw_delta(self.signatures(), self.input()),
            all_decode_back(plan(self.signatures(), self.input())),
            rebuilds(self.signatures(), instruction::instrs(res@), self.input()),
    {
        let mut this: DeltaSession<'a> = self;
        let nothing: Vec<u8> = Vec::new();
        assert(this.input() + nothing@ =~= this.input());
        this.chunker.fill_buffer(nothing.as_slice());
        this.drain();
        proof {
            this.chunker.law_all_handed_out();
        }
        let ghost state = plan_after(this.signatures(), this.chunker.handed_out());
        this.flush(Ghost(state));
        proof {
            lemma_delta_rebuilds(this.signatures(), this.input());
        }
        this.instructions
    }

    /// The patch file for all that was read, and how it came out. Applied to a file with these
    /// signatures the patch makes what was read, unless two different chunks have the same
    /// hashes and length.
    pub fn finish(self) -> (res: (Vec<u8>, DeltaStats))
        requires
            self.wf(),
        ensures
            ({
                let raw = raw_delta(self.signatures(), self.input());
                &&& all_decode_back(plan(self.signatures(), self.input()))
                &&& res.0@ == instruction::patch_bytes(optimize::optimized(raw))
                &&& res.1 == stats_of(raw, self.input().len())
                &&& res.1.copy_bytes + res.1.literal_bytes == self.input().len()
                &&& res.1.literal_bytes == new_bytes(
                    self.signatures(),
                    chunker::chunks(self.input(), chunker::default_sizes()),
                )
                &&& restores(self.signatures(), res.0@, self.input())
            }),
    {
        let ghost signatures = self.signatures();
        let ghost input = self.input();
        let size: usize = self.chunker.taken() as usize;
        let instructions: Vec<PatchInstruction> = self.finish_instructions();
        finish_patch(instructions, size, Ghost(signatures), Ghost(input))
    }
}

/// The patch file for the instructions of a delta, and how it came out.
fn finish_patch(
    instructions: Vec<PatchInstruction>,
    size: usize,
    signatures: Ghost<Seq<SignatureView>>,
    input: Ghost<Seq<u8>>,
) -> (res: (Vec<u8>, DeltaStats))
    requires
        size == input@.len(),
        instruction::instrs(instructions@) == raw_delta(signatures@, input@),
        all_decode_back(plan(signatures@, input@)),
    ensures
        res.0@ == instruction::patch_bytes(
            optimize::optimized(raw_delta(signatures@, input@)),
        ),
        res.1 == stats_of(raw_delta(signatures@, input@), input@.len()),
        res.1.copy_bytes + res.1.literal_bytes == input@.len(),
        res.1.literal_bytes == new_bytes(
            signatures@,
            chunker::chunks(input@, chunker::default_sizes()),
        ),
        restores(signatures@, res.0@, input@),
{
    let ghost raw = raw_delta(signatures@, input@);
    proof {
        lemma_delta_len(signatures@, input@);
        law_literal_bytes(signatures@, input@);
        lemma_tally_copy_bytes(raw);
        optimize::lemma_total_bounds_runs(raw);
    }
    let mut stats: DeltaStats = count_instructions(instructions.as_slice());
    let kept: Vec<PatchInstruction> = optimize::optimize_instructions(instructions);
    let file: Vec<u8> = instruction::write_patch_file(kept.as_slice());
    let count: usize = kept.len();
    assert(instruction::instrs(kept@).len() == count);
    assert(restores(signatures@, file@, input@)) by {
        lemma_delta_restores(signatures@, input@);
    }
    if size == 0 {
        return (file, DeltaStats::new());
    }
    stats.total_instructions = count;
    stats.new_file_size = size;
    stats.patch_file_size = file.len();
    (file, stats)
}

/// Whether instructions make the new file out of every old file with these signatures, except
/// where different chunks of the two have the same hashes and length.
pub open spec fn rebuilds(
    signatures: Seq<SignatureView>,
    list: Seq<Instr>,
    new_data: Seq<u8>,
) -> bool {
    forall|old_data: Seq<u8>|
        old_data.len() <= u64::MAX && signatures == #[trigger] signature::signatures_of(old_data)
            && no_collision(old_data, new_data) ==> patch::applied(old_data, list) == Ok::<
            Seq<u8>,
            patch::PatchError,
        >(new_data)
}

proof fn lemma_delta_rebuilds(signatures: Seq<SignatureView>, new_data: Seq<u8>)
    requires
        all_decode_back(plan(signatures, new_data)),
    ensures
        rebuilds(signatures, raw_delta(signatures, new_data), new_data),
{
    assert forall|old_data: Seq<u8>|
        old_data.len() <= u64::MAX && signatures == #[trigger] signature::signatures_of(old_data)
            && no_collision(old_data, new_data) implies patch::applied(
        old_data,
        raw_delta(signatures, new_data),
    ) == Ok::<Seq<u8>, patch::PatchError>(new_data) by {
        law_plan_rebuilds(old_data, new_data);
        lemma_rendered_applies(old_data, plan(signatures, new_data));
    }
}

/// Whether a patch file makes the new file out of every old file with these signatures, except
/// where different chunks of the two have the same hashes and length.
pub open spec fn restores(
    signatures: Seq<SignatureView>,
    patch_file: Seq<u8>,
    new_data: Seq<u8>,
) -> bool {
    forall|old_data: Seq<u8>|
        old_data.len() <= u64::MAX && signatures == #[trigger] signature::signatures_of(old_data)
            && no_collision(old_data, new_data) ==> patch::patched(old_data, patch_file) == Ok::<
            Seq<u8>,
            patch::ApplyError,
        >(new_data)
}

/// Whether every piece of new bytes has some, and no more than gather before it is written out.
spec fn pieces_small(pieces: Seq<Piece>) -> bool {
    forall|i: int|
        0 <= i < pieces.len() ==> (#[trigger] pieces[i] matches Piece::Data { data } ==> 0
            < data.len() <= MAX_LITERAL_BUFFER)
}

proof fn lemma_plan_after_small(signatures: Seq<SignatureView>, parts: Seq<Seq<u8>>)
    requires
        forall|i: int|
            0 <= i < parts.len() ==> (#[trigger] parts[i]).len() <= chunker::MAX_CHUNK_SIZE,
    ensures
        pieces_small(plan_after(signatures, parts).0),
        plan_after(signatures, parts).1.len() < MAX_LITERAL_BUFFER,
    decreases parts.len(),
{
    if parts.len() > 0 {
        lemma_plan_after_small(signatures, parts.drop_last());
        assert(parts.last().len() <= chunker::MAX_CHUNK_SIZE);
    }
}

proof fn lemma_rendered_fits(pieces: Seq<Piece>, i: int)
    requires
        pieces_small(pieces),
        0 <= i < pieces.len(),
    ensures
        instruction::fits(all_rendered(pieces)[i]),
{
    assert(pieces[i] matches Piece::Data { data } ==> data.len() <= MAX_LITERAL_BUFFER);
}

proof fn lemma_plan_small(signatures: Seq<SignatureView>, new_data: Seq<u8>)
    ensures
        pieces_small(plan(signatures, new_data)),
{
    let parts = chunker::chunks(new_data, chunker::default_sizes());
    assert forall|i: int| 0 <= i < parts.len() implies (#[trigger] parts[i]).len()
        <= chunker::MAX_CHUNK_SIZE by {
        chunker::law_chunk_lengths(new_data, chunker::default_sizes(), i);
    }
    lemma_plan_after_small(signatures, parts);
}

/// The instructions of a delta fit where a file or a stream holds them.
pub proof fn lemma_delta_fits(signatures: Seq<SignatureView>, new_data: Seq<u8>, i: int)
    requires
        0 <= i < raw_delta(signatures, new_data).len(),
    ensures
        instruction::fits(raw_delta(signatures, new_data)[i]),
{
    lemma_plan_small(signatures, new_data);
    lemma_rendered_fits(plan(signatures, new_data), i);
}

/// However long a file is, no literal of its delta is empty, and none stands for more bytes than
/// the buffer holds.
pub proof fn law_literals_are_bounded(signatures: Seq<SignatureView>, new_data: Seq<u8>, i: int)
    requires
        0 <= i < raw_delta(signatures, new_data).len(),
        !(raw_delta(signatures, new_data)[i] is Copy),
    ensures
        0 < instruction::instr_len(raw_delta(signatures, new_data)[i]) <= MAX_LITERAL_BUFFER,
        MAX_LITERAL_BUFFER == 8 * 1024 * 1024,
{
    lemma_plan_small(signatures, new_data);
    assert(plan(signatures, new_data)[i] matches Piece::Data { data } ==> 0 < data.len()
        <= MAX_LITERAL_BUFFER);
}

proof fn lemma_span_grows(parts: Seq<Seq<u8>>, n: int)
    requires
        0 <= n <= parts.len(),
    ensures
        chunker::span(parts.take(n)) <= chunker::span(parts),
    decreases parts.len(),
{
    if n < parts.len() {
        assert(parts.drop_last().take(n) =~= parts.take(n));
        lemma_span_grows(parts.drop_last(), n);
    } else {
        assert(parts.take(n) =~= parts);
    }
}

/// One more chunk leaves the pieces that there are as they are.
proof fn lemma_plan_extends(signatures: Seq<SignatureView>, parts: Seq<Seq<u8>>)
    requires
        parts.len() > 0,
    ensures
        ({
            let before = plan_after(signatures, parts.drop_last()).0;
            let after = plan_after(signatures, parts).0;
            before.len() <= after.len() && after.take(before.len() as int) == before
        }),
{
    let before = plan_after(signatures, parts.drop_last()).0;
    let after = plan_after(signatures, parts).0;
    assert(after.take(before.len() as int) =~= before);
}

/// Whether piece `n` copies chunk `k`, as signature `i` says, which is the first to match it.
spec fn is_copied(
    signatures: Seq<SignatureView>,
    parts: Seq<Seq<u8>>,
    pieces: Seq<Piece>,
    k: int,
    n: int,
    i: int,
) -> bool {
    &&& 0 <= n < pieces.len()
    &&& 0 <= i < signatures.len()
    &&& pieces[n] == (Piece::Copy { offset: signatures[i].offset, length: signatures[i].length })
    &&& is_match(signatures[i], parts[k])
    &&& forall|j: int| 0 <= j < i ==> !is_match(#[trigger] signatures[j], parts[k])
    &&& pieces_len(pieces.take(n)) == chunker::span(parts.take(k))
}

/// Whether piece `n` is new data that holds chunk `k`.
spec fn is_sent_in(parts: Seq<Seq<u8>>, pieces: Seq<Piece>, k: int, n: int) -> bool {
    &&& 0 <= n < pieces.len()
    &&& pieces[n] is Data
    &&& pieces_len(pieces.take(n)) <= chunker::span(parts.take(k))
    &&& chunker::span(parts.take(k + 1)) <= pieces_len(pieces.take(n + 1))
}

/// The first signature that matches, and none before it does.
proof fn lemma_first_match_place(signatures: Seq<SignatureView>, data: Seq<u8>) -> (i: int)
    requires
        first_match(signatures, data) is Some,
    ensures
        0 <= i < signatures.len(),
        is_match(signatures[i], data),
        first_match(signatures, data) == Some((signatures[i].offset, signatures[i].length)),
        forall|j: int| 0 <= j < i ==> !is_match(#[trigger] signatures[j], data),
    decreases signatures.len(),
{
    let front = signatures.drop_last();
    if first_match(front, data) is Some {
        let i = lemma_first_match_place(front, data);
        assert forall|j: int| 0 <= j < i implies !is_match(#[trigger] signatures[j], data) by {
            assert(front[j] == signatures[j]);
        }
        i
    } else {
        assert forall|j: int| 0 <= j < signatures.len() - 1 implies !is_match(
            #[trigger] signatures[j],
            data,
        ) by {
            assert(front[j] == signatures[j]);
            if is_match(signatures[j], data) {
                lemma_match_is_found(front, data, j);
            }
        }
        signatures.len() - 1
    }
}

proof fn lemma_chunk_is_copied(signatures: Seq<SignatureView>, parts: Seq<Seq<u8>>, k: int) -> (res:
    (int, int))
    requires
        0 <= k < parts.len(),
        first_match(signatures, parts[k]) is Some,
    ensures
        is_copied(signatures, parts, plan_after(signatures, parts).0, k, res.0, res.1),
    decreases parts.len(),
{
    let front = parts.drop_last();
    let (pieces, literal) = plan_after(signatures, front);
    let after = plan_after(signatures, parts).0;
    if k == parts.len() - 1 {
        let i = lemma_first_match_place(signatures, parts[k]);
        let n = flushed(pieces, literal).len() as int;
        lemma_plan_after_len(signatures, front);
        lemma_flushed_len(pieces, literal);
        assert(after.take(n) =~= flushed(pieces, literal));
        assert(parts.take(k) =~= front);
        (n, i)
    } else {
        assert(front[k] == parts[k]);
        let (n, i) = lemma_chunk_is_copied(signatures, front, k);
        lemma_plan_extends(signatures, parts);
        assert(after.take(pieces.len() as int)[n] == pieces[n]);
        assert(after.take(n) =~= pieces.take(n));
        assert(front.take(k) =~= parts.take(k));
        (n, i)
    }
}

/// A piece that is there stays where it is.
proof fn lemma_stays_sent(
    signatures: Seq<SignatureView>,
    parts: Seq<Seq<u8>>,
    k: int,
    n: int,
)
    requires
        0 <= k < parts.len() - 1,
        is_sent_in(parts.drop_last(), plan_after(signatures, parts.drop_last()).0, k, n),
    ensures
        is_sent_in(parts, plan_after(signatures, parts).0, k, n),
{
    let front = parts.drop_last();
    let before = plan_after(signatures, front).0;
    let after = plan_after(signatures, parts).0;
    lemma_plan_extends(signatures, parts);
    assert(after.take(before.len() as int)[n] == before[n]);
    assert(after.take(n) =~= before.take(n));
    assert(after.take(n + 1) =~= before.take(n + 1));
    assert(front.take(k) =~= parts.take(k));
    assert(front.take(k + 1) =~= parts.take(k + 1));
}

/// A chunk that no signature matches is in a piece of new data, or has gathered behind the pieces.
proof fn lemma_chunk_is_sent(signatures: Seq<SignatureView>, parts: Seq<Seq<u8>>, k: int) -> (n: int)
    requires
        0 <= k < parts.len(),
        first_match(signatures, parts[k]) is None,
        forall|i: int| 0 <= i < parts.len() ==> (#[trigger] parts[i]).len() > 0,
    ensures
        is_sent_in(parts, plan_after(signatures, parts).0, k, n) || pieces_len(
            plan_after(signatures, parts).0,
        ) <= chunker::span(parts.take(k)),
    decreases parts.len(),
{
    let front = parts.drop_last();
    let chunk = parts.last();
    let (pieces, literal) = plan_after(signatures, front);
    let after = plan_after(signatures, parts).0;
    let (before, kept) = with_room(pieces, literal, chunk);
    lemma_plan_after_len(signatures, front);
    lemma_plan_after_len(signatures, parts);
    lemma_flushed_len(pieces, literal);
    lemma_flushed_len(before, kept + chunk);
    lemma_span_grows(parts, k + 1);
    assert(parts.take(k + 1).drop_last() =~= parts.take(k));
    assert(parts.take(k + 1).last() == parts[k]);
    if k == parts.len() - 1 {
        assert(parts.take(k) =~= front);
        let n = before.len() as int;
        assert(after.take(n) =~= before);
        assert(after.take(after.len() as int) =~= after);
        n
    } else {
        assert(front[k] == parts[k]);
        assert forall|i: int| 0 <= i < front.len() implies (#[trigger] front[i]).len() > 0 by {
            assert(front[i] == parts[i]);
        }
        let n = lemma_chunk_is_sent(signatures, front, k);
        assert(front.take(k) =~= parts.take(k));
        assert(front.take(k + 1) =~= parts.take(k + 1));
        lemma_span_grows(front, k + 1);
        if is_sent_in(front, pieces, k, n) {
            lemma_stays_sent(signatures, parts, k, n);
            n
        } else {
            assert(literal.len() > 0);
            let m = pieces.len() as int;
            if after.len() > m {
                assert(after.take(m) =~= pieces);
                if first_match(signatures, chunk) is Some || literal.len() + chunk.len()
                    > MAX_LITERAL_BUFFER {
                    assert(after.take(m + 1) =~= flushed(pieces, literal));
                } else {
                    assert(after.take(m + 1) =~= after);
                }
            }
            m
        }
    }
}

proof fn lemma_chunks_nonempty(new_data: Seq<u8>)
    ensures
        forall|i: int|
            0 <= i < chunker::chunks(new_data, chunker::default_sizes()).len() ==> 0 < (
            #[trigger] chunker::chunks(new_data, chunker::default_sizes())[i]).len()
                <= chunker::MAX_CHUNK_SIZE,
{
    let parts = chunker::chunks(new_data, chunker::default_sizes());
    assert forall|i: int| 0 <= i < parts.len() implies 0 < (#[trigger] parts[i]).len()
        <= chunker::MAX_CHUNK_SIZE by {
        chunker::law_chunk_lengths(new_data, chunker::default_sizes(), i);
    }
}

/// The first instructions make as many bytes as the first pieces.
proof fn lemma_rendered_len(pieces: Seq<Piece>, n: int)
    requires
        pieces_small(pieces),
        0 <= n <= pieces.len(),
    ensures
        instruction::total_len(all_rendered(pieces).take(n)) == pieces_len(pieces.take(n)),
    decreases n,
{
    let list = all_rendered(pieces);
    if n > 0 {
        lemma_rendered_len(pieces, n - 1);
        assert(list.take(n).drop_last() =~= list.take(n - 1));
        assert(pieces.take(n).drop_last() =~= pieces.take(n - 1));
        assert(pieces[n - 1] matches Piece::Data { data } ==> 0 < data.len()
            <= MAX_LITERAL_BUFFER);
        assert(list.take(n).last() == rendered(pieces[n - 1]));
    }
}

/// Every chunk of the new file whose weak hash, strong hash and length are those of a signature
/// is copied by an instruction of its own, whatever stands before it: the instructions before it
/// make what stands before the chunk, and it copies from where the first such signature says.
pub proof fn law_known_chunks_are_copied(
    signatures: Seq<SignatureView>,
    new_data: Seq<u8>,
    k: int,
    known: int,
) -> (res: (int, int))
    requires
        0 <= k < chunker::chunks(new_data, chunker::default_sizes()).len(),
        0 <= known < signatures.len(),
        ({
            let chunk = chunker::chunks(new_data, chunker::default_sizes())[k];
            &&& signatures[known].weak_hash == signature::weak_hash(chunk)
            &&& signatures[known].strong_hash == digest::blake3_digest(chunk)
            &&& signatures[known].length == chunk.len()
        }),
    ensures
        ({
            let parts = chunker::chunks(new_data, chunker::default_sizes());
            let list = raw_delta(signatures, new_data);
            let (n, i) = res;
            &&& 0 <= n < list.len()
            &&& instruction::total_len(list.take(n)) == chunker::span(parts.take(k))
            &&& 0 <= i <= known
            &&& list[n] == (Instr::Copy {
                offset: signatures[i].offset,
                length: signatures[i].length,
            })
            &&& signatures[i].weak_hash == signature::weak_hash(parts[k])
            &&& signatures[i].strong_hash == digest::blake3_digest(parts[k])
            &&& signatures[i].length == parts[k].len()
            &&& forall|j: int|
                0 <= j < i ==> !((#[trigger] signatures[j]).weak_hash == signature::weak_hash(
                    parts[k],
                ) && signatures[j].strong_hash == digest::blake3_digest(parts[k])
                    && signatures[j].length == parts[k].len())
        }),
{
    let parts = chunker::chunks(new_data, chunker::default_sizes());
    let (pieces, literal) = plan_after(signatures, parts);
    let all = plan(signatures, new_data);
    lemma_match_is_found(signatures, parts[k], known);
    let (n, i) = lemma_chunk_is_copied(signatures, parts, k);
    assert(all.take(n) =~= pieces.take(n));
    lemma_plan_small(signatures, new_data);
    lemma_rendered_len(all, n);
    if known < i {
        assert(!is_match(signatures[known], parts[k]));
    }
    assert forall|j: int| 0 <= j < i implies !((#[trigger] signatures[j]).weak_hash
        == signature::weak_hash(parts[k]) && signatures[j].strong_hash == digest::blake3_digest(
        parts[k],
    ) && signatures[j].length == parts[k].len()) by {
        assert(!is_match(signatures[j], parts[k]));
    }
    (n, i)
}

/// A chunk of the new file that no signature matches goes out with a literal, and is never copied.
pub proof fn law_new_chunks_are_sent(
    signatures: Seq<SignatureView>,
    new_data: Seq<u8>,
    k: int,
) -> (n: int)
    requires
        0 <= k < chunker::chunks(new_data, chunker::default_sizes()).len(),
        ({
            let chunk = chunker::chunks(new_data, chunker::default_sizes())[k];
            forall|i: int|
                0 <= i < signatures.len() ==> !((#[trigger] signatures[i]).weak_hash
                    == signature::weak_hash(chunk) && signatures[i].strong_hash
                    == digest::blake3_digest(chunk) && signatures[i].length == chunk.len())
        }),
    ensures
        ({
            let parts = chunker::chunks(new_data, chunker::default_sizes());
            let list = raw_delta(signatures, new_data);
            &&& 0 <= n < list.len()
            &&& !(list[n] is Copy)
            &&& instruction::total_len(list.take(n)) <= chunker::span(parts.take(k))
            &&& chunker::span(parts.take(k)) + parts[k].len() <= instruction::total_len(
                list.take(n + 1),
            )
        }),
{
    let parts = chunker::chunks(new_data, chunker::default_sizes());
    let (pieces, literal) = plan_after(signatures, parts);
    let all = plan(signatures, new_data);
    lemma_chunks_nonempty(new_data);
    if first_match(signatures, parts[k]) is Some {
        let i = lemma_first_match_found(signatures, parts[k]);
        assert(false);
    }
    let found = lemma_chunk_is_sent(signatures, parts, k);
    lemma_plan_after_len(signatures, parts);
    lemma_flushed_len(pieces, literal);
    lemma_span_grows(parts, k + 1);
    assert(parts.take(k + 1).drop_last() =~= parts.take(k));
    assert(parts.take(k + 1).last() == parts[k]);
    lemma_plan_small(signatures, new_data);
    let n = if is_sent_in(parts, pieces, k, found) {
        found
    } else {
        pieces.len() as int
    };
    if is_sent_in(parts, pieces, k, found) {
        assert(all.take(n) =~= pieces.take(n));
        assert(all.take(n + 1) =~= pieces.take(n + 1));
    } else {
        assert(literal.len() > 0);
        assert(all.take(n) =~= pieces);
        assert(all.take(n + 1) =~= all);
    }
    lemma_rendered_len(all, n);
    lemma_rendered_len(all, n + 1);
    n
}

/// How many bytes the chunks have that no signature matches.
pub open spec fn new_bytes(signatures: Seq<SignatureView>, parts: Seq<Seq<u8>>) -> nat
    decreases parts.len(),
{
    if parts.len() == 0 {
        0
    } else {
        new_bytes(signatures, parts.drop_last()) + (if exists|i: int|
            0 <= i < signatures.len() && (#[trigger] signatures[i]).weak_hash
                == signature::weak_hash(parts.last()) && signatures[i].strong_hash
                == digest::blake3_digest(parts.last()) && signatures[i].length
                == parts.last().len() {
            0
        } else {
            parts.last().len()
        })
    }
}

/// How many bytes of new data the pieces hold.
spec fn data_len(pieces: Seq<Piece>) -> nat
    decreases pieces.len(),
{
    if pieces.len() == 0 {
        0
    } else {
        data_len(pieces.drop_last()) + match pieces.last() {
            Piece::Copy { .. } => 0,
            Piece::Data { data } => data.len(),
        }
    }
}

proof fn lemma_flushed_data(pieces: Seq<Piece>, literal: Seq<u8>)
    ensures
        data_len(flushed(pieces, literal)) == data_len(pieces) + literal.len(),
{
    if literal.len() > 0 {
        assert(flushed(pieces, literal).drop_last() =~= pieces);
    }
}

proof fn lemma_new_bytes(signatures: Seq<SignatureView>, parts: Seq<Seq<u8>>)
    ensures
        data_len(plan_after(signatures, parts).0) + plan_after(signatures, parts).1.len()
            == new_bytes(signatures, parts),
    decreases parts.len(),
{
    if parts.len() > 0 {
        let chunk = parts.last();
        let (pieces, literal) = plan_after(signatures, parts.drop_last());
        lemma_new_bytes(signatures, parts.drop_last());
        lemma_flushed_data(pieces, literal);
        let (before, kept) = with_room(pieces, literal, chunk);
        lemma_flushed_data(before, kept + chunk);
        if first_match(signatures, chunk) is Some {
            let i = lemma_first_match_found(signatures, chunk);
            let (offset, length) = first_match(signatures, chunk)->0;
            let copied = flushed(pieces, literal).push(Piece::Copy { offset, length });
            assert(copied.drop_last() =~= flushed(pieces, literal));
        } else {
            assert forall|i: int| 0 <= i < signatures.len() implies !is_match(
                #[trigger] signatures[i],
                chunk,
            ) by {
                if is_match(signatures[i], chunk) {
                    lemma_match_is_found(signatures, chunk, i);
                }
            }
        }
    }
}

proof fn lemma_rendered_data(pieces: Seq<Piece>)
    requires
        pieces_small(pieces),
    ensures
        ({
            let parts = instruction::tally(all_rendered(pieces));
            parts.plain_bytes + parts.compressed_bytes == data_len(pieces)
        }),
    decreases pieces.len(),
{
    if pieces.len() > 0 {
        let front = pieces.drop_last();
        assert forall|i: int| 0 <= i < front.len() implies (#[trigger] front[i] matches Piece::Data {
            data,
        } ==> 0 < data.len() <= MAX_LITERAL_BUFFER) by {
            assert(front[i] == pieces[i]);
        }
        lemma_rendered_data(front);
        assert(pieces[pieces.len() - 1] matches Piece::Data { data } ==> 0 < data.len()
            <= MAX_LITERAL_BUFFER);
        assert(all_rendered(pieces).drop_last() =~= all_rendered(front));
    }
}

/// What goes out as literals has as many bytes as the chunks that no signature matches.
pub proof fn law_literal_bytes(signatures: Seq<SignatureView>, new_data: Seq<u8>)
    ensures
        ({
            let parts = instruction::tally(raw_delta(signatures, new_data));
            parts.plain_bytes + parts.compressed_bytes == new_bytes(
                signatures,
                chunker::chunks(new_data, chunker::default_sizes()),
            )
        }),
{
    let parts = chunker::chunks(new_data, chunker::default_sizes());
    let (pieces, literal) = plan_after(signatures, parts);
    lemma_new_bytes(signatures, parts);
    lemma_flushed_data(pieces, literal);
    lemma_plan_small(signatures, new_data);
    lemma_rendered_data(plan(signatures, new_data));
}

/// Whether every piece of new data is what a file holds at its place.
spec fn data_stands(file: Seq<u8>, pieces: Seq<Piece>) -> bool {
    forall|n: int|
        0 <= n < pieces.len() ==> ((#[trigger] pieces[n]) matches Piece::Data { data }
            ==> pieces_len(pieces.take(n)) + data.len() <= file.len() && data == file.subrange(
            pieces_len(pieces.take(n)) as int,
            (pieces_len(pieces.take(n)) + data.len()) as int,
        ))
}

proof fn lemma_stands_flushed(file: Seq<u8>, pieces: Seq<Piece>, literal: Seq<u8>)
    requires
        data_stands(file, pieces),
        pieces_len(pieces) + literal.len() <= file.len(),
        literal == file.subrange(
            pieces_len(pieces) as int,
            (pieces_len(pieces) + literal.len()) as int,
        ),
    ensures
        data_stands(file, flushed(pieces, literal)),
{
    let all = flushed(pieces, literal);
    assert forall|n: int| 0 <= n < all.len() implies ((#[trigger] all[n]) matches Piece::Data {
        data,
    } ==> pieces_len(all.take(n)) + data.len() <= file.len() && data == file.subrange(
        pieces_len(all.take(n)) as int,
        (pieces_len(all.take(n)) + data.len()) as int,
    )) by {
        if n < pieces.len() {
            assert(all[n] == pieces[n]);
            assert(all.take(n) =~= pieces.take(n));
        } else {
            assert(all.take(n) =~= pieces);
        }
    }
}

proof fn lemma_flatten_len(parts: Seq<Seq<u8>>)
    ensures
        parts.flatten().len() == chunker::span(parts),
    decreases parts.len(),
{
    if parts.len() > 0 {
        lemma_flatten_len(parts.drop_last());
        parts.drop_last().lemma_flatten_push(parts.last());
        assert(parts.drop_last().push(parts.last()) =~= parts);
    }
}

/// The new data in the pieces stands in the file at its place, and so does what has gathered.
proof fn lemma_data_stands(
    signatures: Seq<SignatureView>,
    parts: Seq<Seq<u8>>,
    file: Seq<u8>,
)
    requires
        chunker::span(parts) <= file.len(),
        file.take(chunker::span(parts) as int) == parts.flatten(),
    ensures
        ({
            let (pieces, literal) = plan_after(signatures, parts);
            &&& data_stands(file, pieces)
            &&& literal == file.subrange(
                pieces_len(pieces) as int,
                (pieces_len(pieces) + literal.len()) as int,
            )
        }),
    decreases parts.len(),
{
    lemma_plan_after_len(signatures, parts);
    if parts.len() > 0 {
        let front = parts.drop_last();
        let chunk = parts.last();
        let at = chunker::span(front) as int;
        front.lemma_flatten_push(chunk);
        assert(front.push(chunk) =~= parts);
        lemma_flatten_len(front);
        assert(file.take(at) =~= file.take(at + chunk.len()).take(at));
        assert((front.flatten() + chunk).take(at) =~= front.flatten());
        assert(chunk =~= (front.flatten() + chunk).skip(at));
        assert(file.subrange(at, at + chunk.len()) =~= file.take(at + chunk.len()).skip(at));
        lemma_data_stands(signatures, front, file);
        lemma_plan_after_len(signatures, front);
        let (pieces, literal) = plan_after(signatures, front);
        lemma_stands_flushed(file, pieces, literal);
        lemma_flushed_len(pieces, literal);
        let after = plan_after(signatures, parts).0;
        if first_match(signatures, chunk) is Some {
            let _ = lemma_first_match_found(signatures, chunk);
            let front_pieces = flushed(pieces, literal);
            assert forall|n: int| 0 <= n < after.len() implies ((#[trigger] after[n])
                matches Piece::Data { data } ==> pieces_len(after.take(n)) + data.len()
                <= file.len() && data == file.subrange(
                pieces_len(after.take(n)) as int,
                (pieces_len(after.take(n)) + data.len()) as int,
            )) by {
                if n < front_pieces.len() {
                    assert(after[n] == front_pieces[n]);
                    assert(after.take(n) =~= front_pieces.take(n));
                }
            }
            assert(plan_after(signatures, parts).1 =~= file.subrange(
                pieces_len(after) as int,
                pieces_len(after) as int,
            ));
        } else {
            let (before, kept) = with_room(pieces, literal, chunk);
            let longer = kept + chunk;
            let from = pieces_len(before) as int;
            assert(longer =~= file.subrange(from, from + longer.len()));
            lemma_stands_flushed(file, before, longer);
            if longer.len() >= MAX_LITERAL_BUFFER {
                assert(Seq::<u8>::empty() =~= file.subrange(
                    pieces_len(after) as int,
                    pieces_len(after) as int,
                ));
            }
        }
    } else {
        assert(Seq::<u8>::empty() =~= file.subrange(0, 0));
    }
}

proof fn lemma_plan_stands(signatures: Seq<SignatureView>, new_data: Seq<u8>)
    ensures
        data_stands(new_data, plan(signatures, new_data)),
        pieces_len(plan(signatures, new_data)) == new_data.len(),
{
    let parts = chunker::chunks(new_data, chunker::default_sizes());
    let (pieces, literal) = plan_after(signatures, parts);
    chunker::lemma_span_of_chunks(new_data, chunker::default_sizes());
    chunker::law_chunks_concatenate(new_data, chunker::default_sizes());
    assert(new_data.take(new_data.len() as int) =~= new_data);
    lemma_data_stands(signatures, parts, new_data);
    lemma_plan_after_len(signatures, parts);
    lemma_flushed_len(pieces, literal);
    lemma_stands_flushed(new_data, pieces, literal);
}

/// A literal of a delta is what the new file holds between what the instructions before it make
/// and what those behind it make. It goes out as a frame exactly where it has 64 bytes or more
/// and the frame has fewer bytes than it has.
pub proof fn law_literals_are_the_file(signatures: Seq<SignatureView>, new_data: Seq<u8>, n: int)
    requires
        0 <= n < raw_delta(signatures, new_data).len(),
    ensures
        ({
            let list = raw_delta(signatures, new_data);
            let from = instruction::total_len(list.take(n)) as int;
            let to = instruction::total_len(list.take(n + 1)) as int;
            let part = new_data.subrange(from, to);
            &&& 0 <= from <= to <= new_data.len()
            &&& match list[n] {
                Instr::Copy { length, .. } => length == to - from,
                Instr::Literal { data } => data == part && (data.len() < 64 || (
                compression::zstd_encoded(data, 3) matches Some(frame) ==> frame.len()
                    >= data.len())),
                Instr::CompressedLiteral { decompressed_len, compressed } => {
                    &&& compression::zstd_encoded(part, 3) == Some(compressed)
                    &&& decompressed_len == part.len()
                    &&& part.len() >= 64
                    &&& compressed.len() < part.len()
                },
            }
        }),
{
    let pieces = plan(signatures, new_data);
    let list = raw_delta(signatures, new_data);
    lemma_plan_small(signatures, new_data);
    lemma_plan_stands(signatures, new_data);
    lemma_rendered_len(pieces, n);
    lemma_rendered_len(pieces, n + 1);
    assert(pieces.take(n + 1).drop_last() =~= pieces.take(n));
    assert(pieces.take(n + 1).last() == pieces[n]);
    lemma_pieces_len_grows(pieces, n + 1);
    assert(pieces[n] matches Piece::Data { data } ==> 0 < data.len() <= MAX_LITERAL_BUFFER);
}

proof fn lemma_pieces_len_grows(pieces: Seq<Piece>, n: int)
    requires
        0 <= n <= pieces.len(),
    ensures
        pieces_len(pieces.take(n)) <= pieces_len(pieces),
    decreases pieces.len(),
{
    if n < pieces.len() {
        assert(pieces.drop_last().take(n) =~= pieces.take(n));
        lemma_pieces_len_grows(pieces.drop_last(), n);
    } else {
        assert(pieces.take(n) =~= pieces);
    }
}

/// Whether pieces of new data stand side by side only where one could not hold both, and the same
/// of the last piece and what has gathered behind it.
spec fn is_packed(pieces: Seq<Piece>, literal: Seq<u8>) -> bool {
    &&& forall|n: int|
        0 <= n < pieces.len() - 1 && #[trigger] pieces[n] is Data && pieces[n + 1] is Data
            ==> piece_len(pieces[n]) + piece_len(pieces[n + 1]) > MAX_LITERAL_BUFFER
    &&& pieces.len() > 0 && pieces.last() is Data && literal.len() > 0 ==> piece_len(pieces.last())
        + literal.len() > MAX_LITERAL_BUFFER
    &&& pieces.len() > 0 && pieces.last() is Data && literal.len() == 0 ==> piece_len(pieces.last())
        >= MAX_LITERAL_BUFFER
}

/// Nothing but the two pieces at its end is new in a flushed list.
proof fn lemma_flushed_packed(pieces: Seq<Piece>, literal: Seq<u8>, n: int)
    requires
        is_packed(pieces, literal),
        0 <= n < flushed(pieces, literal).len() - 1,
        flushed(pieces, literal)[n] is Data,
        flushed(pieces, literal)[n + 1] is Data,
    ensures
        piece_len(flushed(pieces, literal)[n]) + piece_len(flushed(pieces, literal)[n + 1])
            > MAX_LITERAL_BUFFER,
{
    let all = flushed(pieces, literal);
    assert(all[n] == pieces[n]);
    if n < pieces.len() - 1 {
        assert(all[n + 1] == pieces[n + 1]);
    }
}

proof fn lemma_packed_copy(pieces: Seq<Piece>, literal: Seq<u8>, copy: Piece)
    requires
        is_packed(pieces, literal),
        copy is Copy,
    ensures
        is_packed(flushed(pieces, literal).push(copy), Seq::empty()),
{
    let first = flushed(pieces, literal);
    let after = first.push(copy);
    assert forall|n: int|
        0 <= n < after.len() - 1 && #[trigger] after[n] is Data && after[n + 1] is Data implies
        piece_len(after[n]) + piece_len(after[n + 1]) > MAX_LITERAL_BUFFER by {
        assert(after[n] == first[n]);
        assert(n + 1 < first.len());
        assert(after[n + 1] == first[n + 1]);
        lemma_flushed_packed(pieces, literal, n);
    }
}

/// Making room for a chunk and taking it in.
proof fn lemma_packed_room(pieces: Seq<Piece>, literal: Seq<u8>, chunk: Seq<u8>)
    requires
        is_packed(pieces, literal),
        0 < chunk.len() <= MAX_LITERAL_BUFFER,
    ensures
        ({
            let (before, kept) = with_room(pieces, literal, chunk);
            is_packed(before, kept + chunk)
        }),
{
    let (before, kept) = with_room(pieces, literal, chunk);
    if literal.len() + chunk.len() > MAX_LITERAL_BUFFER {
        assert forall|n: int|
            0 <= n < before.len() - 1 && #[trigger] before[n] is Data && before[n + 1]
                is Data implies piece_len(before[n]) + piece_len(before[n + 1])
            > MAX_LITERAL_BUFFER by {
            lemma_flushed_packed(pieces, literal, n);
        }
        assert(before.last() == (Piece::Data { data: literal }));
    }
}

/// Writing out what is as much as is let gather.
proof fn lemma_packed_full(pieces: Seq<Piece>, literal: Seq<u8>)
    requires
        is_packed(pieces, literal),
        literal.len() >= MAX_LITERAL_BUFFER,
    ensures
        is_packed(flushed(pieces, literal), Seq::empty()),
{
    let after = flushed(pieces, literal);
    assert forall|n: int|
        0 <= n < after.len() - 1 && #[trigger] after[n] is Data && after[n + 1] is Data implies
        piece_len(after[n]) + piece_len(after[n + 1]) > MAX_LITERAL_BUFFER by {
        lemma_flushed_packed(pieces, literal, n);
    }
    assert(after.last() == (Piece::Data { data: literal }));
}

proof fn lemma_plan_packed(signatures: Seq<SignatureView>, parts: Seq<Seq<u8>>)
    requires
        forall|i: int|
            0 <= i < parts.len() ==> 0 < (#[trigger] parts[i]).len() <= chunker::MAX_CHUNK_SIZE,
    ensures
        is_packed(plan_after(signatures, parts).0, plan_after(signatures, parts).1),
    decreases parts.len(),
{
    if parts.len() > 0 {
        let front = parts.drop_last();
        let chunk = parts.last();
        assert(chunk == parts[parts.len() - 1]);
        assert forall|i: int| 0 <= i < front.len() implies 0 < (#[trigger] front[i]).len()
            <= chunker::MAX_CHUNK_SIZE by {
            assert(front[i] == parts[i]);
        }
        lemma_plan_packed(signatures, front);
        let (pieces, literal) = plan_after(signatures, front);
        match first_match(signatures, chunk) {
            Some((offset, length)) => {
                lemma_packed_copy(pieces, literal, Piece::Copy { offset, length });
            },
            None => {
                lemma_packed_room(pieces, literal, chunk);
                let (before, kept) = with_room(pieces, literal, chunk);
                if kept.len() + chunk.len() >= MAX_LITERAL_BUFFER {
                    lemma_packed_full(before, kept + chunk);
                }
            },
        }
    }
}

/// New bytes gather in one literal until a chunk is known or there is no room: two literals stand
/// side by side only where together they have more than eight MiB.
pub proof fn law_literals_are_gathered(signatures: Seq<SignatureView>, new_data: Seq<u8>, n: int)
    requires
        0 <= n < raw_delta(signatures, new_data).len() - 1,
        !(raw_delta(signatures, new_data)[n] is Copy),
        !(raw_delta(signatures, new_data)[n + 1] is Copy),
    ensures
        instruction::instr_len(raw_delta(signatures, new_data)[n]) + instruction::instr_len(
            raw_delta(signatures, new_data)[n + 1],
        ) > 8 * 1024 * 1024,
{
    let parts = chunker::chunks(new_data, chunker::default_sizes());
    let (pieces, literal) = plan_after(signatures, parts);
    let all = plan(signatures, new_data);
    lemma_chunks_nonempty(new_data);
    lemma_plan_packed(signatures, parts);
    lemma_plan_small(signatures, new_data);
    assert(all[n] is Data);
    assert(all[n + 1] is Data);
    lemma_flushed_packed(pieces, literal, n);
}

/// A delta, written to a file and applied to the old file, makes the new file.
proof fn lemma_delta_restores(signatures: Seq<SignatureView>, new_data: Seq<u8>)
    requires
        new_data.len() <= usize::MAX,
        all_decode_back(plan(signatures, new_data)),
        optimize::optimized(raw_delta(signatures, new_data)).len() <= u64::MAX,
    ensures
        restores(
            signatures,
            instruction::patch_bytes(optimize::optimized(raw_delta(signatures, new_data))),
            new_data,
        ),
{
    let raw = raw_delta(signatures, new_data);
    let kept = optimize::optimized(raw);
    assert forall|i: int| 0 <= i < raw.len() implies instruction::fits(#[trigger] raw[i]) by {
        lemma_delta_fits(signatures, new_data, i);
    }
    optimize::lemma_optimized_fits(raw);
    instruction::law_patch_file_round_trip(kept);
    lemma_delta_len(signatures, new_data);
    lemma_tally_copy_bytes(raw);
    optimize::lemma_total_bounds_runs(raw);
    assert forall|old_data: Seq<u8>|
        old_data.len() <= u64::MAX && signatures == #[trigger] signature::signatures_of(old_data)
            && no_collision(old_data, new_data) implies patch::patched(
        old_data,
        instruction::patch_bytes(kept),
    ) == Ok::<Seq<u8>, patch::ApplyError>(new_data) by {
        law_plan_rebuilds(old_data, new_data);
        lemma_rendered_applies(old_data, plan(signatures, new_data));
        optimize::law_optimized_applies(old_data, raw);
    }
}

/// A delta makes as many bytes as the new file has.
pub proof fn lemma_delta_len(signatures: Seq<SignatureView>, new_data: Seq<u8>)
    requires
        new_data.len() <= u64::MAX,
    ensures
        ({
            let parts = instruction::tally(raw_delta(signatures, new_data));
            parts.copy_bytes + parts.plain_bytes + parts.compressed_bytes == new_data.len()
        }),
{
    let parts = chunker::chunks(new_data, chunker::default_sizes());
    let (pieces, literal) = plan_after(signatures, parts);
    lemma_plan_after_len(signatures, parts);
    lemma_flushed_len(pieces, literal);
    chunker::lemma_span_of_chunks(new_data, chunker::default_sizes());
    lemma_rendered_tally(flushed(pieces, literal));
}

/// Where the new file goes on as the old one does, from a chunk border of each, all of it is copied,
/// whatever stands before: every chunk from there on has a copy of its own.
pub proof fn law_common_tail_is_copied(
    old_data: Seq<u8>,
    new_data: Seq<u8>,
    i: int,
    j: int,
    k: int,
) -> (n: int)
    requires
        old_data.len() <= u64::MAX,
        ({
            let old_parts = chunker::chunks(old_data, chunker::default_sizes());
            let new_parts = chunker::chunks(new_data, chunker::default_sizes());
            &&& 0 <= i <= old_parts.len()
            &&& 0 <= j <= k < new_parts.len()
            &&& old_data.skip(chunker::span(old_parts.take(i)) as int) == new_data.skip(
                chunker::span(new_parts.take(j)) as int,
            )
        }),
    ensures
        ({
            let new_parts = chunker::chunks(new_data, chunker::default_sizes());
            let list = raw_delta(signature::signatures_of(old_data), new_data);
            &&& 0 <= n < list.len()
            &&& instruction::total_len(list.take(n)) == chunker::span(new_parts.take(k))
            &&& list[n] matches Instr::Copy { length, .. } && length == new_parts[k].len()
        }),
{
    let sizes = chunker::default_sizes();
    let old_parts = chunker::chunks(old_data, sizes);
    let new_parts = chunker::chunks(new_data, sizes);
    let signatures = signature::signatures_of(old_data);
    chunker::law_chunks_resynchronise(old_data, new_data, sizes, i, j);
    let known = i + (k - j);
    assert(new_parts.skip(j)[k - j] == new_parts[k]);
    assert(old_parts.skip(i).len() == new_parts.skip(j).len());
    assert(old_parts.skip(i)[k - j] == old_parts[known]);
    chunker::law_chunk_lengths(old_data, sizes, known);
    let (n, first) = law_known_chunks_are_copied(signatures, new_data, k, known);
    n
}

/// What a delta is for: it makes the new file out of the old one, as instructions and as a patch
/// file, unless two different chunks of the two have the same hashes and length. That frames decode
/// to what was compressed is what compression promises.
pub proof fn law_delta_makes_the_new_file(old_data: Seq<u8>, new_data: Seq<u8>)
    requires
        old_data.len() <= usize::MAX,
        new_data.len() <= usize::MAX,
        ({
            let old_parts = chunker::chunks(old_data, chunker::default_sizes());
            let new_parts = chunker::chunks(new_data, chunker::default_sizes());
            forall|i: int, j: int|
                0 <= i < old_parts.len() && 0 <= j < new_parts.len() && digest::blake3_digest(
                    #[trigger] old_parts[i],
                ) == digest::blake3_digest(#[trigger] new_parts[j]) && signature::weak_hash(
                    old_parts[i],
                ) == signature::weak_hash(new_parts[j]) && old_parts[i].len() == new_parts[j].len()
                    ==> old_parts[i] == new_parts[j]
        }),
        forall|data: Seq<u8>|
            (#[trigger] compression::zstd_encoded(data, 3)) matches Some(frame)
                ==> compression::zstd_decoded(frame) == Some(data),
    ensures
        ({
            let list = raw_delta(signature::signatures_of(old_data), new_data);
            let file = instruction::patch_bytes(optimize::optimized(list));
            &&& patch::applied(old_data, list) == Ok::<Seq<u8>, patch::PatchError>(new_data)
            &&& patch::patched(old_data, file) == Ok::<Seq<u8>, patch::ApplyError>(new_data)
        }),
{
    let signatures = signature::signatures_of(old_data);
    let pieces = plan(signatures, new_data);
    lemma_plan_small(signatures, new_data);
    assert forall|i: int| 0 <= i < pieces.len() implies decodes_back(#[trigger] pieces[i]) by {
        assert(pieces[i] matches Piece::Data { data } ==> 0 < data.len() <= MAX_LITERAL_BUFFER);
    }
    lemma_delta_rebuilds(signatures, new_data);
    lemma_list_is_short(signatures, new_data);
    optimize::law_optimized_is_no_longer(raw_delta(signatures, new_data));
    lemma_delta_restores(signatures, new_data);
}

/// The statistics of a delta: how many instructions of each kind there are before copies are
/// merged and how many bytes each kind makes, how many instructions are left after, and the sizes
/// of the new file and of the patch file. Those of an empty file are zero.
pub proof fn law_delta_statistics(signatures: Seq<SignatureView>, new_data: Seq<u8>)
    requires
        new_data.len() <= usize::MAX,
    ensures
        ({
            let list = raw_delta(signatures, new_data);
            let stats = stats_of(list, new_data.len());
            let copies = list.filter(|i: Instr| i is Copy);
            let literals = list.filter(|i: Instr| !(i is Copy));
            let plain = list.filter(|i: Instr| i is Literal);
            let frames = list.filter(|i: Instr| i is CompressedLiteral);
            let merged = optimize::optimized(list);
            &&& stats.new_file_size == new_data.len()
            &&& stats.copy_instructions == copies.len()
            &&& stats.matches_found == copies.len()
            &&& stats.literal_instructions == literals.len()
            &&& stats.compressed_instructions == frames.len()
            &&& stats.copy_bytes == instruction::total_len(copies)
            &&& stats.literal_bytes == instruction::total_len(literals)
            &&& stats.uncompressed_literal_bytes == instruction::total_len(plain)
            &&& stats.compressed_literal_bytes == instruction::total_len(frames)
            &&& stats.copy_bytes + stats.literal_bytes == new_data.len()
            &&& stats.total_instructions == merged.len()
            &&& new_data.len() == 0 ==> stats.patch_file_size == 0
            &&& new_data.len() > 0 && instruction::patch_bytes(merged).len() <= usize::MAX
                ==> stats.patch_file_size == instruction::patch_bytes(merged).len()
        }),
{
    let list = raw_delta(signatures, new_data);
    lemma_delta_len(signatures, new_data);
    instruction::law_tally(list);
    instruction::lemma_kinds_add_up(list);
    instruction::lemma_total_len_tally(list);
    optimize::law_optimized_is_no_longer(list);
    lemma_list_is_short(signatures, new_data);
}

/// A delta has no more instructions than the new file has bytes.
proof fn lemma_list_is_short(signatures: Seq<SignatureView>, new_data: Seq<u8>)
    ensures
        raw_delta(signatures, new_data).len() <= new_data.len(),
{
    let parts = chunker::chunks(new_data, chunker::default_sizes());
    let (pieces, literal) = plan_after(signatures, parts);
    lemma_chunks_nonempty(new_data);
    lemma_plan_is_short(signatures, parts);
    chunker::lemma_span_of_chunks(new_data, chunker::default_sizes());
}

proof fn lemma_plan_is_short(signatures: Seq<SignatureView>, parts: Seq<Seq<u8>>)
    requires
        forall|i: int| 0 <= i < parts.len() ==> (#[trigger] parts[i]).len() > 0,
    ensures
        ({
            let (pieces, literal) = plan_after(signatures, parts);
            flushed(pieces, literal).len() <= chunker::span(parts)
        }),
    decreases parts.len(),
{
    if parts.len() > 0 {
        let front = parts.drop_last();
        assert forall|i: int| 0 <= i < front.len() implies (#[trigger] front[i]).len() > 0 by {
            assert(front[i] == parts[i]);
        }
        lemma_plan_is_short(signatures, front);
        assert(parts[parts.len() - 1].len() > 0);
    }
}

impl DeltaGenerator {
    /// The patch file that makes `new_data` out of the old file, and how it came out.
    pub fn generate_delta(&self, new_data: &[u8]) -> (res: (Vec<u8>, DeltaStats))
        requires
            self.wf(),
        ensures
            ({
                let raw = raw_delta(self.signatures(), new_data@);
                &&& all_decode_back(plan(self.signatures(), new_data@))
                &&& res.0@ == instruction::patch_bytes(optimize::optimized(raw))
                &&& res.1 == stats_of(raw, new_data@.len())
                &&& res.1.copy_bytes + res.1.literal_bytes == new_data@.len()
                &&& res.1.literal_bytes == new_bytes(
                    self.signatures(),
                    chunker::chunks(new_data@, chunker::default_sizes()),
                )
                &&& restores(self.signatures(), res.0@, new_data@)
            }),
    {
        let mut session: DeltaSession = DeltaSession::new(self);
        let _size: usize = new_data.len();
        assert(Seq::<u8>::empty() + new_data@ =~= new_data@);
        session.feed(new_data);
        session.finish()
    }

    /// The instructions that make `new_data` out of the old file, one for each piece.
    pub fn generate_delta_instructions(&self, new_data: &[u8]) -> (res: Vec<PatchInstruction>)
        requires
            self.wf(),
        ensures
            instruction::instrs(res@) == raw_delta(self.signatures(), new_data@),
            all_decode_back(plan(self.signatures(), new_data@)),
            rebuilds(self.signatures(), instruction::instrs(res@), new_data@),
    {
        let mut session: DeltaSession = DeltaSession::new(self);
        let _size: usize = new_data.len();
        assert(Seq::<u8>::empty() + new_data@ =~= new_data@);
        session.feed(new_data);
        session.finish_instructions()
    }
}

} // verus!
