//! Deltas of the fixed-size variant: at every position of the new file the next chunk's worth
//! of bytes is looked up among the chunks of the old one.

use std::collections::HashMap;
use vstd::prelude::*;
pub use crate::fixed::instruction::{read_patch_file, write_patch_file, PatchInstruction};
use crate::bytes;
use crate::digest;
use crate::fixed::instruction;
use crate::fixed::patch;
use crate::fixed::signature;
use crate::fixed::signature::{Adler32, ChunkSignature, SignatureView, CHUNK_SIZE};
use crate::instruction::Instr;

verus! {

/// Whether a chunk with this signature is taken to be `data`.
pub open spec fn is_match(signature: SignatureView, data: Seq<u8>) -> bool {
    &&& signature.weak_hash == signature::adler32(data)
    &&& signature.strong_hash == digest::sha256_digest(data)
}

/// The index in the first signature that matches `data`.
pub open spec fn first_match(signatures: Seq<SignatureView>, data: Seq<u8>) -> Option<u64>
    decreases signatures.len(),
{
    if signatures.len() == 0 {
        None
    } else {
        match first_match(signatures.drop_last(), data) {
            Some(found) => Some(found),
            None => if is_match(signatures.last(), data) {
                Some(signatures.last().index)
            } else {
                None
            },
        }
    }
}

/// The signatures with this checksum, in order.
pub open spec fn with_weak_hash(signatures: Seq<SignatureView>, weak: u32) -> Seq<SignatureView> {
    signatures.filter(|s: SignatureView| s.weak_hash == weak)
}

proof fn lemma_with_weak_hash_push(signatures: Seq<SignatureView>, last: SignatureView, weak: u32)
    ensures
        with_weak_hash(signatures.push(last), weak) == (if last.weak_hash == weak {
            with_weak_hash(signatures, weak).push(last)
        } else {
            with_weak_hash(signatures, weak)
        }),
{
    reveal(Seq::filter);
    assert(signatures.push(last).drop_last() =~= signatures);
}

/// Looking among the signatures with the right checksum is enough.
proof fn lemma_first_match_in_bucket(signatures: Seq<SignatureView>, data: Seq<u8>, weak: u32)
    requires
        weak == signature::adler32(data),
    ensures
        first_match(with_weak_hash(signatures, weak), data) == first_match(signatures, data),
    decreases signatures.len(),
{
    reveal(Seq::filter);
    if signatures.len() > 0 {
        let front = signatures.drop_last();
        lemma_first_match_in_bucket(front, data, weak);
        assert(front.push(signatures.last()) =~= signatures);
        lemma_with_weak_hash_push(front, signatures.last(), weak);
        if signatures.last().weak_hash == weak {
            assert(with_weak_hash(signatures, weak).drop_last() =~= with_weak_hash(front, weak));
        }
    }
}

proof fn lemma_bucket_weak_hash(signatures: Seq<SignatureView>, weak: u32, i: int)
    requires
        0 <= i < with_weak_hash(signatures, weak).len(),
    ensures
        with_weak_hash(signatures, weak)[i].weak_hash == weak,
{
    signatures.lemma_filter_pred(|s: SignatureView| s.weak_hash == weak, i);
}

/// A match among the first signatures is the first match.
proof fn lemma_first_match_prefix(signatures: Seq<SignatureView>, data: Seq<u8>, n: int)
    requires
        0 <= n <= signatures.len(),
        first_match(signatures.take(n), data) is Some,
    ensures
        first_match(signatures, data) == first_match(signatures.take(n), data),
    decreases signatures.len(),
{
    if n < signatures.len() {
        assert(signatures.drop_last().take(n) =~= signatures.take(n));
        lemma_first_match_prefix(signatures.drop_last(), data, n);
    } else {
        assert(signatures.take(n) =~= signatures);
    }
}

/// The checksums that occur.
pub open spec fn weak_hashes(signatures: Seq<SignatureView>) -> Set<u32> {
    signatures.map_values(|s: SignatureView| s.weak_hash).to_set()
}

proof fn lemma_bucket_occupied(signatures: Seq<SignatureView>, weak: u32)
    ensures
        with_weak_hash(signatures, weak).len() > 0 <==> weak_hashes(signatures).contains(weak),
{
    let pred = |s: SignatureView| s.weak_hash == weak;
    let mapped = signatures.map_values(|s: SignatureView| s.weak_hash);
    if with_weak_hash(signatures, weak).len() > 0 {
        let found = with_weak_hash(signatures, weak)[0];
        assert(with_weak_hash(signatures, weak).contains(found));
        signatures.lemma_filter_contains_rev(pred, found);
        signatures.lemma_filter_pred(pred, 0);
        let i = choose|i: int| 0 <= i < signatures.len() && signatures[i] == found;
        assert(mapped[i] == weak);
    }
    if weak_hashes(signatures).contains(weak) {
        let i = choose|i: int| 0 <= i < mapped.len() && mapped[i] == weak;
        signatures.lemma_filter_contains(pred, i);
    }
}

/// Every checksum that occurs leads to the signatures that have it, and no other does.
pub open spec fn holds_buckets(
    buckets: Map<u32, Vec<ChunkSignature>>,
    signatures: Seq<SignatureView>,
) -> bool {
    forall|weak: u32|
        #![trigger buckets.contains_key(weak)]
        #![trigger with_weak_hash(signatures, weak)]
        {
            &&& buckets.contains_key(weak) <==> with_weak_hash(signatures, weak).len() > 0
            &&& buckets.contains_key(weak) ==> signature::views(buckets[weak]@) == with_weak_hash(
                signatures,
                weak,
            )
        }
}

/// Signatures, to be found by their checksum.
pub struct SignatureMap {
    weak_hash_map: HashMap<u32, Vec<ChunkSignature>>,
    total: usize,
    all: Ghost<Seq<SignatureView>>,
}

impl SignatureMap {
    /// The signatures, in order.
    pub closed spec fn signatures(&self) -> Seq<SignatureView> {
        self.all@
    }

    pub closed spec fn wf(&self) -> bool {
        &&& holds_buckets(self.weak_hash_map@, self.all@)
        &&& self.total == self.all@.len()
    }

    pub fn new(signatures: Vec<ChunkSignature>) -> (res: Self)
        ensures
            res.wf(),
            res.signatures() == signature::views(signatures@),
    {
        broadcast use vstd::std_specs::hash::group_hash_axioms;

        let mut weak_hash_map: HashMap<u32, Vec<ChunkSignature>> = HashMap::new();
        let ghost all = signature::views(signatures@);
        let mut i: usize = 0;
        proof {
            reveal(Seq::filter);
            assert(all.take(0) =~= Seq::empty());
        }
        while i < signatures.len()
            invariant
                i <= signatures@.len(),
                all == signature::views(signatures@),
                holds_buckets(weak_hash_map@, all.take(i as int)),
            decreases signatures@.len() - i,
        {
            let signature: ChunkSignature = signatures[i];
            let weak: u32 = signature.weak_hash;
            let ghost before = weak_hash_map@;
            let mut bucket: Vec<ChunkSignature> = match weak_hash_map.remove(&weak) {
                Some(bucket) => bucket,
                None => Vec::new(),
            };
            let ghost old_bucket = bucket@;
            bucket.push(signature);
            weak_hash_map.insert(weak, bucket);
            proof {
                let done = all.take(i as int);
                let next = all.take(i + 1);
                assert(next =~= done.push(signature@));
                assert(signature::views(old_bucket) =~= with_weak_hash(done, weak));
                assert(signature::views(bucket@) =~= signature::views(old_bucket).push(signature@));
                assert forall|w: u32|
                    #![trigger weak_hash_map@.contains_key(w)]
                    #![trigger with_weak_hash(next, w)]
                    {
                        &&& weak_hash_map@.contains_key(w) <==> with_weak_hash(next, w).len() > 0
                        &&& weak_hash_map@.contains_key(w) ==> signature::views(
                            weak_hash_map@[w]@,
                        ) == with_weak_hash(next, w)
                    } by {
                    lemma_with_weak_hash_push(done, signature@, w);
                    assert(before.contains_key(w) <==> with_weak_hash(done, w).len() > 0);
                }
            }
            i = i + 1;
        }
        assert(all.take(i as int) =~= all);
        SignatureMap { weak_hash_map, total: signatures.len(), all: Ghost(all) }
    }

    /// The signatures with this checksum, where there are any.
    pub fn lookup(&self, weak_hash: u32) -> (res: Option<&Vec<ChunkSignature>>)
        requires
            self.wf(),
        ensures
            match res {
                Some(found) => found@.len() > 0 && signature::views(found@) == with_weak_hash(
                    self.signatures(),
                    weak_hash,
                ),
                None => with_weak_hash(self.signatures(), weak_hash).len() == 0,
            },
    {
        broadcast use vstd::std_specs::hash::group_hash_axioms;

        assert(self.weak_hash_map@.contains_key(weak_hash) <==> with_weak_hash(
            self.all@,
            weak_hash,
        ).len() > 0);
        self.weak_hash_map.get(&weak_hash)
    }

    /// How many different checksums there are.
    pub fn unique_weak_hashes(&self) -> (res: usize)
        requires
            self.wf(),
        ensures
            res == weak_hashes(self.signatures()).len(),
    {
        broadcast use vstd::std_specs::hash::group_hash_axioms;

        proof {
            assert forall|w: u32| self.weak_hash_map@.dom().contains(w) <==> #[trigger] weak_hashes(
                self.all@,
            ).contains(w) by {
                lemma_bucket_occupied(self.all@, w);
                assert(self.weak_hash_map@.contains_key(w) <==> with_weak_hash(self.all@, w).len()
                    > 0);
            }
            assert(self.weak_hash_map@.dom() =~= weak_hashes(self.all@));
        }
        self.weak_hash_map.len()
    }

    /// How many signatures there are.
    pub fn total_signatures(&self) -> (res: usize)
        requires
            self.wf(),
        ensures
            res == self.signatures().len(),
    {
        self.total
    }
}

/// The bytes from `pos` on that are looked up: a chunk's worth, fewer at the end.
pub open spec fn window(data: Seq<u8>, pos: int) -> Seq<u8> {
    data.subrange(
        pos,
        if pos + CHUNK_SIZE < data.len() {
            pos + CHUNK_SIZE
        } else {
            data.len() as int
        },
    )
}

/// The instruction for new bytes that have gathered, where there are any.
pub open spec fn flushed(literal: Seq<u8>) -> Seq<Instr> {
    if literal.len() == 0 {
        Seq::empty()
    } else {
        seq![Instr::Literal { data: literal }]
    }
}

/// The instructions for the new file from `pos` on, with new bytes that have gathered before:
/// a window that the signatures know is copied, otherwise one byte joins the new ones.
pub open spec fn delta_from(
    signatures: Seq<SignatureView>,
    data: Seq<u8>,
    pos: nat,
    literal: Seq<u8>,
) -> Seq<Instr>
    decreases data.len() - pos,
{
    if pos >= data.len() {
        flushed(literal)
    } else {
        let bytes = window(data, pos as int);
        match first_match(signatures, bytes) {
            Some(index) => flushed(literal) + (seq![
                Instr::Copy { offset: index, length: bytes.len() as usize },
            ] + delta_from(signatures, data, pos + bytes.len(), Seq::empty())),
            None => delta_from(signatures, data, pos + 1, literal.push(data[pos as int])),
        }
    }
}

/// The instructions for a new file against the signatures of an old one.
pub open spec fn delta(signatures: Seq<SignatureView>, new_data: Seq<u8>) -> Seq<Instr> {
    delta_from(signatures, new_data, 0, Seq::empty())
}

/// Whether no window of the new file has the checksum and the digest of a different chunk of the
/// old one.
pub open spec fn no_collision(old_data: Seq<u8>, new_data: Seq<u8>) -> bool {
    forall|i: int, pos: int|
        0 <= i < signature::block_count(old_data.len()) && 0 <= pos < new_data.len()
            && digest::sha256_digest(#[trigger] signature::block(old_data, i))
            == digest::sha256_digest(#[trigger] window(new_data, pos)) && signature::adler32(
            signature::block(old_data, i),
        ) == signature::adler32(window(new_data, pos)) ==> signature::block(old_data, i)
            == window(new_data, pos)
}

/// A match is one of the signatures.
proof fn lemma_first_match_found(signatures: Seq<SignatureView>, data: Seq<u8>) -> (i: int)
    requires
        first_match(signatures, data) is Some,
    ensures
        0 <= i < signatures.len(),
        is_match(signatures[i], data),
        first_match(signatures, data) == Some(signatures[i].index),
    decreases signatures.len(),
{
    if first_match(signatures.drop_last(), data) is Some {
        lemma_first_match_found(signatures.drop_last(), data)
    } else {
        signatures.len() - 1
    }
}

/// A window of the new file that the signatures of the old one know stands there.
proof fn lemma_match_is_right(
    mode: patch::Reading,
    old_data: Seq<u8>,
    new_data: Seq<u8>,
    pos: int,
)
    requires
        old_data.len() <= u64::MAX,
        no_collision(old_data, new_data),
        0 <= pos < new_data.len(),
        first_match(signature::signatures_of(old_data), window(new_data, pos)) is Some,
    ensures
        ({
            let data = window(new_data, pos);
            let index = first_match(signature::signatures_of(old_data), data)->0;
            let length = data.len() as usize;
            patch::produced(mode, old_data, Instr::Copy { offset: index, length }) == Ok::<
                Seq<u8>,
                patch::PatchError,
            >(data)
        }),
{
    let data = window(new_data, pos);
    let i = lemma_first_match_found(signature::signatures_of(old_data), data);
    assert(signature::block(old_data, i) == data);
    assert(data.len() <= CHUNK_SIZE);
    assert(i < signature::block_count(old_data.len()));
    assert(CHUNK_SIZE * i < old_data.len());
}

proof fn lemma_flushed(mode: patch::Reading, old_data: Seq<u8>, literal: Seq<u8>)
    ensures
        patch::applied(mode, old_data, flushed(literal)) == Ok::<Seq<u8>, patch::PatchError>(
            literal,
        ),
{
    if literal.len() == 0 {
        assert(literal =~= Seq::empty());
    } else {
        patch::lemma_applied_one(mode, old_data, Instr::Literal { data: literal });
    }
}

/// A literal, a copy and more instructions make their bytes one after the other.
proof fn lemma_three_parts(
    mode: patch::Reading,
    old_data: Seq<u8>,
    literal: Seq<u8>,
    copy: Instr,
    copied: Seq<u8>,
    rest: Seq<Instr>,
    left: Seq<u8>,
)
    requires
        patch::produced(mode, old_data, copy) == Ok::<Seq<u8>, patch::PatchError>(copied),
        patch::applied(mode, old_data, rest) == Ok::<Seq<u8>, patch::PatchError>(left),
    ensures
        patch::applied(mode, old_data, flushed(literal) + (seq![copy] + rest)) == Ok::<
            Seq<u8>,
            patch::PatchError,
        >(literal + (copied + left)),
{
    lemma_flushed(mode, old_data, literal);
    patch::lemma_applied_one(mode, old_data, copy);
    patch::lemma_applied_concat(mode, old_data, seq![copy], rest);
    patch::lemma_applied_concat(mode, old_data, flushed(literal), seq![copy] + rest);
}

/// The instructions from `pos` on make what has gathered and the file from `pos` on.
proof fn lemma_delta_from(
    mode: patch::Reading,
    old_data: Seq<u8>,
    new_data: Seq<u8>,
    pos: nat,
    literal: Seq<u8>,
)
    requires
        old_data.len() <= u64::MAX,
        no_collision(old_data, new_data),
        pos <= new_data.len(),
    ensures
        patch::applied(
            mode,
            old_data,
            delta_from(signature::signatures_of(old_data), new_data, pos, literal),
        ) == Ok::<Seq<u8>, patch::PatchError>(literal + new_data.skip(pos as int)),
    decreases new_data.len() - pos,
{
    let signatures = signature::signatures_of(old_data);
    if pos >= new_data.len() {
        lemma_flushed(mode, old_data, literal);
        assert(literal + new_data.skip(pos as int) =~= literal);
    } else {
        let bytes = window(new_data, pos as int);
        match first_match(signatures, bytes) {
            Some(index) => {
                let copy = Instr::Copy { offset: index, length: bytes.len() as usize };
                let next = pos + bytes.len();
                let left = new_data.skip(next as int);
                lemma_match_is_right(mode, old_data, new_data, pos as int);
                lemma_delta_from(mode, old_data, new_data, next, Seq::empty());
                assert(Seq::<u8>::empty() + left =~= left);
                lemma_three_parts(
                    mode,
                    old_data,
                    literal,
                    copy,
                    bytes,
                    delta_from(signatures, new_data, next, Seq::empty()),
                    left,
                );
                assert(literal + (bytes + left) =~= literal + new_data.skip(pos as int));
            },
            None => {
                let longer = literal.push(new_data[pos as int]);
                lemma_delta_from(mode, old_data, new_data, pos + 1, longer);
                assert(longer + new_data.skip((pos + 1) as int) =~= literal + new_data.skip(
                    pos as int,
                ));
            },
        }
    }
}

/// A delta against the signatures of an old file, applied to the old file, makes the new file,
/// however the old file is read.
pub proof fn law_delta_rebuilds(mode: patch::Reading, old_data: Seq<u8>, new_data: Seq<u8>)
    requires
        old_data.len() <= u64::MAX,
        no_collision(old_data, new_data),
    ensures
        patch::applied(mode, old_data, delta(signature::signatures_of(old_data), new_data)) == Ok::<
            Seq<u8>,
            patch::PatchError,
        >(new_data),
{
    lemma_delta_from(mode, old_data, new_data, 0, Seq::empty());
    assert(Seq::<u8>::empty() + new_data.skip(0) =~= new_data);
}

/// What the instructions from `pos` on look like: they make as many bytes as are left, and
/// their lengths fit where a file holds them.
proof fn lemma_delta_from_shape(
    signatures: Seq<SignatureView>,
    data: Seq<u8>,
    pos: nat,
    literal: Seq<u8>,
)
    requires
        pos <= data.len(),
        literal.len() + data.len() - pos <= usize::MAX,
    ensures
        crate::instruction::total_len(delta_from(signatures, data, pos, literal)) == literal.len() + data.len()
            - pos,
        forall|i: int|
            0 <= i < delta_from(signatures, data, pos, literal).len() ==> instruction::fits(
                #[trigger] delta_from(signatures, data, pos, literal)[i],
            ),
    decreases data.len() - pos,
{
    let front = flushed(literal);
    assert(crate::instruction::total_len(front) == literal.len()) by {
        if literal.len() > 0 {
            crate::instruction::lemma_total_len_one(Instr::Literal { data: literal });
        }
    }
    if pos < data.len() {
        let bytes = window(data, pos as int);
        match first_match(signatures, bytes) {
            Some(index) => {
                let copy = Instr::Copy { offset: index, length: bytes.len() as usize };
                let rest = delta_from(signatures, data, pos + bytes.len(), Seq::empty());
                lemma_delta_from_shape(signatures, data, pos + bytes.len(), Seq::empty());
                crate::instruction::lemma_total_len_one(copy);
                crate::instruction::lemma_total_len_concat(seq![copy], rest);
                crate::instruction::lemma_total_len_concat(front, seq![copy] + rest);
                let all = front + (seq![copy] + rest);
                assert forall|i: int| 0 <= i < all.len() implies instruction::fits(
                    #[trigger] all[i],
                ) by {
                    if i > front.len() {
                        assert(all[i] == rest[i - front.len() - 1]);
                    }
                }
            },
            None => {
                lemma_delta_from_shape(signatures, data, pos + 1, literal.push(data[pos as int]));
            },
        }
    }
}

/// Whether instruction `n` of a list that starts at `base` is the right one: a literal that the
/// file holds there, with no known window at any of its bytes and a copy behind it, or a copy of
/// the window there.
spec fn stands(
    signatures: Seq<SignatureView>,
    data: Seq<u8>,
    base: int,
    list: Seq<Instr>,
    n: int,
) -> bool {
    let at = base + crate::instruction::total_len(list.take(n));
    match list[n] {
        Instr::Literal { data: literal } => {
            &&& 0 < literal.len()
            &&& at + literal.len() <= data.len()
            &&& literal == data.subrange(at, at + literal.len())
            &&& forall|p: int|
                at <= p < at + literal.len() ==> first_match(
                    signatures,
                    #[trigger] window(data, p),
                ) is None
            &&& n + 1 < list.len() ==> list[n + 1] is Copy
        },
        Instr::Copy { offset, length } => {
            &&& 0 <= at < data.len()
            &&& length == window(data, at).len()
            &&& first_match(signatures, window(data, at)) == Some(offset)
        },
        Instr::CompressedLiteral { .. } => false,
    }
}

/// An instruction that is right in a list is right behind a copy, and behind what has gathered
/// before it.
proof fn lemma_stands_behind(
    signatures: Seq<SignatureView>,
    data: Seq<u8>,
    base: int,
    front: Seq<Instr>,
    rest: Seq<Instr>,
    n: int,
)
    requires
        0 <= n < rest.len(),
        stands(
            signatures,
            data,
            base + crate::instruction::total_len(front),
            rest,
            n,
        ),
    ensures
        stands(signatures, data, base, front + rest, front.len() + n),
{
    let all = front + rest;
    let m = front.len() + n;
    assert(all.take(m) =~= front + rest.take(n));
    crate::instruction::lemma_total_len_concat(front, rest.take(n));
    assert(all[m] == rest[n]);
    if n + 1 < rest.len() {
        assert(all[m + 1] == rest[n + 1]);
    }
}

proof fn lemma_delta_stands(
    signatures: Seq<SignatureView>,
    data: Seq<u8>,
    pos: nat,
    literal: Seq<u8>,
    n: int,
)
    requires
        literal.len() <= pos <= data.len(),
        literal == data.subrange(pos - literal.len(), pos as int),
        forall|p: int|
            pos - literal.len() <= p < pos ==> first_match(
                signatures,
                #[trigger] window(data, p),
            ) is None,
        0 <= n < delta_from(signatures, data, pos, literal).len(),
    ensures
        stands(
            signatures,
            data,
            pos - literal.len(),
            delta_from(signatures, data, pos, literal),
            n,
        ),
    decreases data.len() - pos,
{
    let base = pos - literal.len();
    let list = delta_from(signatures, data, pos, literal);
    let front = flushed(literal);
    if literal.len() > 0 {
        crate::instruction::lemma_total_len_one(Instr::Literal { data: literal });
    }
    if pos >= data.len() {
        assert(list.take(0) =~= Seq::empty());
    } else {
        let bytes = window(data, pos as int);
        match first_match(signatures, bytes) {
            Some(index) => {
                let copy = Instr::Copy { offset: index, length: bytes.len() as usize };
                let rest = delta_from(signatures, data, pos + bytes.len(), Seq::empty());
                crate::instruction::lemma_total_len_one(copy);
                crate::instruction::lemma_total_len_concat(front, seq![copy]);
                assert(list =~= (front + seq![copy]) + rest);
                if n < front.len() {
                    assert(list.take(0) =~= Seq::empty());
                    assert(list[1] == copy);
                } else if n == front.len() {
                    assert(list.take(n) =~= front);
                } else {
                    let m = n - front.len() - 1;
                    let next = pos + bytes.len();
                    assert(Seq::<u8>::empty() =~= data.subrange(next as int, next as int));
                    lemma_delta_stands(signatures, data, next, Seq::empty(), m);
                    lemma_stands_behind(signatures, data, base, front + seq![copy], rest, m);
                }
            },
            None => {
                let longer = literal.push(data[pos as int]);
                assert(longer =~= data.subrange(base, (pos + 1) as int));
                assert forall|p: int| base <= p < pos + 1 implies first_match(
                    signatures,
                    #[trigger] window(data, p),
                ) is None by {
                    if p == pos {
                        assert(window(data, p) == bytes);
                    }
                }
                lemma_delta_stands(signatures, data, pos + 1, longer, n);
            },
        }
    }
}

proof fn lemma_instruction_stands(signatures: Seq<SignatureView>, new_data: Seq<u8>, n: int)
    requires
        0 <= n < delta(signatures, new_data).len(),
    ensures
        stands(signatures, new_data, 0, delta(signatures, new_data), n),
{
    assert(Seq::<u8>::empty() =~= new_data.subrange(0, 0));
    lemma_delta_stands(signatures, new_data, 0, Seq::empty(), n);
}

/// Where a signature matches there is a first that does.
proof fn lemma_match_is_found(signatures: Seq<SignatureView>, data: Seq<u8>, i: int)
    requires
        0 <= i < signatures.len(),
        is_match(signatures[i], data),
    ensures
        first_match(signatures, data) is Some,
    decreases signatures.len(),
{
    if i < signatures.len() - 1 {
        lemma_match_is_found(signatures.drop_last(), data, i);
    }
}

/// The first signature that matches, and none before it does.
proof fn lemma_first_match_place(signatures: Seq<SignatureView>, data: Seq<u8>) -> (i: int)
    requires
        first_match(signatures, data) is Some,
    ensures
        0 <= i < signatures.len(),
        is_match(signatures[i], data),
        first_match(signatures, data) == Some(signatures[i].index),
        forall|j: int| 0 <= j < i ==> !is_match(#[trigger] signatures[j], data),
    decreases signatures.len(),
{
    let front = signatures.drop_last();
    if first_match(front, data) is Some {
        let i = lemma_first_match_place(front, data);
        assert forall|j: int| 0 <= j < i implies !is_match(#[trigger] signatures[j], data) by {
            assert(front[j] == signatures[j]);
        }
        i
    } else {
        assert forall|j: int| 0 <= j < signatures.len() - 1 implies !is_match(
            #[trigger] signatures[j],
            data,
        ) by {
            assert(front[j] == signatures[j]);
            if is_match(signatures[j], data) {
                lemma_match_is_found(front, data, j);
            }
        }
        signatures.len() - 1
    }
}

/// No literal of a delta runs over a known chunk: from none of its bytes on are the next 4096
/// bytes of the new file, or as many as are left, those that a signature has the checksum and the
/// digest of.
pub proof fn law_literals_hold_nothing_known(
    signatures: Seq<SignatureView>,
    new_data: Seq<u8>,
    n: int,
    p: int,
    i: int,
)
    requires
        0 <= n < delta(signatures, new_data).len(),
        !(delta(signatures, new_data)[n] is Copy),
        crate::instruction::total_len(delta(signatures, new_data).take(n)) <= p
            < crate::instruction::total_len(delta(signatures, new_data).take(n + 1)),
        0 <= i < signatures.len(),
    ensures
        ({
            let next = new_data.subrange(
                p,
                if p + 4096 <= new_data.len() {
                    p + 4096
                } else {
                    new_data.len() as int
                },
            );
            !(signatures[i].weak_hash == signature::adler32(next) && signatures[i].strong_hash
                == digest::sha256_digest(next))
        }),
{
    let list = delta(signatures, new_data);
    lemma_instruction_stands(signatures, new_data, n);
    assert(list.take(n + 1).drop_last() =~= list.take(n));
    assert(first_match(signatures, window(new_data, p)) is None);
    if is_match(signatures[i], window(new_data, p)) {
        lemma_match_is_found(signatures, window(new_data, p), i);
    }
}

/// What the instructions of a delta are: a literal has bytes, is what the new file holds at its
/// place, and has no other behind it; a copy is of the next 4096 bytes of the new file, or as
/// many as are left, and names the chunk of the first signature that has their checksum and their
/// digest; there is nothing else.
pub proof fn law_instructions_stand(signatures: Seq<SignatureView>, new_data: Seq<u8>, n: int) -> (
    i: int)
    requires
        0 <= n < delta(signatures, new_data).len(),
    ensures
        ({
            let list = delta(signatures, new_data);
            let at = crate::instruction::total_len(list.take(n)) as int;
            match list[n] {
                Instr::Literal { data } => {
                    &&& 0 < data.len()
                    &&& at + data.len() <= new_data.len()
                    &&& data == new_data.subrange(at, at + data.len())
                    &&& n + 1 < list.len() ==> list[n + 1] is Copy
                },
                Instr::Copy { offset, length } => {
                    let next = new_data.subrange(at, at + length);
                    &&& 0 < length
                    &&& at + length <= new_data.len()
                    &&& length == 4096 || length < 4096 && at + length == new_data.len()
                    &&& 0 <= i < signatures.len()
                    &&& offset == signatures[i].index
                    &&& signatures[i].weak_hash == signature::adler32(next)
                    &&& signatures[i].strong_hash == digest::sha256_digest(next)
                    &&& forall|j: int|
                        0 <= j < i ==> !((#[trigger] signatures[j]).weak_hash
                            == signature::adler32(next) && signatures[j].strong_hash
                            == digest::sha256_digest(next))
                },
                Instr::CompressedLiteral { .. } => false,
            }
        }),
{
    let list = delta(signatures, new_data);
    lemma_instruction_stands(signatures, new_data, n);
    let at = crate::instruction::total_len(list.take(n)) as int;
    if list[n] is Copy {
        let i = lemma_first_match_place(signatures, window(new_data, at));
        let next = new_data.subrange(at, at + list[n]->Copy_length);
        assert(next =~= window(new_data, at));
        assert forall|j: int| 0 <= j < i implies !((#[trigger] signatures[j]).weak_hash
            == signature::adler32(next) && signatures[j].strong_hash == digest::sha256_digest(
            next,
        )) by {
            assert(!is_match(signatures[j], next));
        }
        i
    } else {
        0
    }
}

/// Some instruction makes the byte at every place.
proof fn lemma_made_by(list: Seq<Instr>, p: int) -> (n: int)
    requires
        0 <= p < crate::instruction::total_len(list),
    ensures
        0 <= n < list.len(),
        crate::instruction::total_len(list.take(n)) <= p < crate::instruction::total_len(
            list.take(n + 1),
        ),
    decreases list.len(),
{
    let front = list.drop_last();
    if p < crate::instruction::total_len(front) {
        let n = lemma_made_by(front, p);
        assert(front.take(n) =~= list.take(n));
        assert(front.take(n + 1) =~= list.take(n + 1));
        n
    } else {
        let n = list.len() - 1;
        assert(list.take(n) =~= front);
        assert(list.take(n + 1) =~= list);
        n
    }
}

/// Wherever the next 4096 bytes of the new file, or as many as are left, have the checksum and
/// the digest of a signature, the byte there is copied, however many new bytes stand before it.
pub proof fn law_known_bytes_are_copied(
    signatures: Seq<SignatureView>,
    new_data: Seq<u8>,
    p: int,
    i: int,
) -> (n: int)
    requires
        new_data.len() <= usize::MAX,
        0 <= p < new_data.len(),
        0 <= i < signatures.len(),
        ({
            let next = new_data.subrange(
                p,
                if p + 4096 <= new_data.len() {
                    p + 4096
                } else {
                    new_data.len() as int
                },
            );
            signatures[i].weak_hash == signature::adler32(next) && signatures[i].strong_hash
                == digest::sha256_digest(next)
        }),
    ensures
        0 <= n < delta(signatures, new_data).len(),
        delta(signatures, new_data)[n] is Copy,
        crate::instruction::total_len(delta(signatures, new_data).take(n)) <= p
            < crate::instruction::total_len(delta(signatures, new_data).take(n + 1)),
{
    lemma_delta_from_shape(signatures, new_data, 0, Seq::empty());
    let n = lemma_made_by(delta(signatures, new_data), p);
    if !(delta(signatures, new_data)[n] is Copy) {
        law_literals_hold_nothing_known(signatures, new_data, n, p, i);
    }
    n
}

proof fn lemma_delta_of_same(data: Seq<u8>, k: nat, n: int)
    requires
        data.len() <= u64::MAX,
        0 <= n < delta_from(
            signature::signatures_of(data),
            data,
            CHUNK_SIZE as nat * k,
            Seq::empty(),
        ).len(),
    ensures
        delta_from(signature::signatures_of(data), data, CHUNK_SIZE as nat * k, Seq::empty())[n]
            is Copy,
    decreases data.len() - CHUNK_SIZE as nat * k,
{
    let signatures = signature::signatures_of(data);
    let pos = CHUNK_SIZE as nat * k;
    let list = delta_from(signatures, data, pos, Seq::empty());
    if pos < data.len() {
        let bytes = window(data, pos as int);
        assert(bytes =~= signature::block(data, k as int));
        assert(k < signature::block_count(data.len()));
        assert(is_match(signatures[k as int], bytes));
        lemma_match_is_found(signatures, bytes, k as int);
        let rest = delta_from(signatures, data, pos + bytes.len(), Seq::empty());
        if n > 0 {
            assert(list[n] == rest[n - 1]);
            if pos + CHUNK_SIZE <= data.len() {
                assert(pos + bytes.len() == CHUNK_SIZE as nat * (k + 1));
                lemma_delta_of_same(data, k + 1, n - 1);
            }
        }
    }
}

/// A file against its own signatures is copied as a whole: nothing of it is sent.
pub proof fn law_same_file_is_copied(data: Seq<u8>, n: int)
    requires
        data.len() <= u64::MAX,
        0 <= n < delta(signature::signatures_of(data), data).len(),
    ensures
        delta(signature::signatures_of(data), data)[n] is Copy,
{
    lemma_delta_of_same(data, 0, n);
}

/// How a delta came out.
#[derive(Debug, Clone, Copy, PartialEq, Eq, Structural)]
pub struct DeltaStats {
    pub new_file_size: usize,
    pub patch_file_size: usize,
    pub total_instructions: usize,
    pub copy_instructions: usize,
    pub literal_instructions: usize,
    pub copy_bytes: usize,
    pub literal_bytes: usize,
    pub matches_found: usize,
}

pub open spec fn no_stats() -> DeltaStats {
    DeltaStats {
        new_file_size: 0,
        patch_file_size: 0,
        total_instructions: 0,
        copy_instructions: 0,
        literal_instructions: 0,
        copy_bytes: 0,
        literal_bytes: 0,
        matches_found: 0,
    }
}

/// The statistics of a delta; those of an empty file are all zero.
pub open spec fn stats_of(list: Seq<Instr>, new_size: nat) -> DeltaStats {
    let parts = crate::instruction::tally(list);
    if new_size == 0 {
        no_stats()
    } else {
        DeltaStats {
            new_file_size: new_size as usize,
            patch_file_size: crate::instruction::patch_bytes(list).len() as usize,
            total_instructions: list.len() as usize,
            copy_instructions: parts.copies as usize,
            literal_instructions: parts.literals as usize,
            copy_bytes: parts.copy_bytes as usize,
            literal_bytes: parts.plain_bytes as usize,
            matches_found: parts.copies as usize,
        }
    }
}

impl DeltaStats {
    pub fn new() -> (res: Self)
        ensures
            res == no_stats(),
    {
        DeltaStats {
            new_file_size: 0,
            patch_file_size: 0,
            total_instructions: 0,
            copy_instructions: 0,
            literal_instructions: 0,
            copy_bytes: 0,
            literal_bytes: 0,
            matches_found: 0,
        }
    }
}

impl Default for DeltaStats {
    fn default() -> (res: Self)
        ensures
            res == no_stats(),
    {
        DeltaStats::new()
    }
}

/// Counts instructions.
fn count_instructions(instructions: &[PatchInstruction]) -> (res: DeltaStats)
    requires
        crate::instruction::total_len(instruction::instrs(instructions@)) <= usize::MAX,
    ensures
        ({
            let parts = crate::instruction::tally(instruction::instrs(instructions@));
            &&& res.new_file_size == 0
            &&& res.patch_file_size == 0
            &&& res.total_instructions == instructions@.len()
            &&& res.copy_instructions == parts.copies
            &&& res.literal_instructions == parts.literals
            &&& res.copy_bytes == parts.copy_bytes
            &&& res.literal_bytes == parts.plain_bytes
            &&& res.matches_found == parts.copies
        }),
{
    let ghost all = instruction::instrs(instructions@);
    let mut stats: DeltaStats = DeltaStats::new();
    let mut i: usize = 0;
    assert(all.take(0) =~= Seq::empty());
    proof {
        crate::instruction::lemma_total_len_tally(all);
    }
    while i < instructions.len()
        invariant
            i <= instructions@.len(),
            all == instruction::instrs(instructions@),
            crate::instruction::tally(all).copy_bytes + crate::instruction::tally(all).plain_bytes <= usize::MAX,
            stats.new_file_size == 0,
            stats.patch_file_size == 0,
            stats.copy_instructions == crate::instruction::tally(all.take(i as int)).copies,
            stats.literal_instructions == crate::instruction::tally(all.take(i as int)).literals,
            stats.copy_bytes == crate::instruction::tally(all.take(i as int)).copy_bytes,
            stats.literal_bytes == crate::instruction::tally(all.take(i as int)).plain_bytes,
            stats.matches_found == crate::instruction::tally(all.take(i as int)).copies,
        decreases instructions@.len() - i,
    {
        proof {
            crate::instruction::lemma_tally_bounds(all, i + 1);
            assert(all.take(i + 1).drop_last() =~= all.take(i as int));
        }
        match &instructions[i] {
            PatchInstruction::Copy(_, length) => {
                stats.copy_bytes = stats.copy_bytes + *length;
                stats.copy_instructions = stats.copy_instructions + 1;
                stats.matches_found = stats.matches_found + 1;
            },
            PatchInstruction::Literal(data) => {
                stats.literal_bytes = stats.literal_bytes + data.len();
                stats.literal_instructions = stats.literal_instructions + 1;
            },
        }
        i = i + 1;
    }
    assert(all.take(i as int) =~= all);
    stats.total_instructions = instructions.len();
    stats
}

/// Whether a patch file makes the new file out of every old file with these signatures, except
/// where a window of the new file has the checksum and the digest of a different chunk.
pub open spec fn restores(
    signatures: Seq<SignatureView>,
    patch_file: Seq<u8>,
    new_data: Seq<u8>,
) -> bool {
    forall|mode: patch::Reading, old_data: Seq<u8>|
        old_data.len() <= u64::MAX && signatures == signature::signatures_of(old_data)
            && no_collision(old_data, new_data) ==> #[trigger] patch::patched(
            mode,
            old_data,
            patch_file,
        ) == Ok::<Seq<u8>, patch::ApplyError>(new_data)
}

proof fn lemma_delta_restores(signatures: Seq<SignatureView>, new_data: Seq<u8>)
    requires
        new_data.len() <= usize::MAX,
        delta(signatures, new_data).len() <= u64::MAX,
    ensures
        restores(signatures, crate::instruction::patch_bytes(delta(signatures, new_data)), new_data),
{
    let list = delta(signatures, new_data);
    lemma_delta_from_shape(signatures, new_data, 0, Seq::empty());
    assert forall|i: int| 0 <= i < list.len() implies instruction::fits(#[trigger] list[i]) by {
        assert(instruction::fits(delta_from(signatures, new_data, 0, Seq::empty())[i]));
    }
    instruction::law_patch_file_round_trip(list);
    assert forall|mode: patch::Reading, old_data: Seq<u8>|
        old_data.len() <= u64::MAX && signatures == signature::signatures_of(old_data)
            && no_collision(old_data, new_data) implies #[trigger] patch::patched(
        mode,
        old_data,
        crate::instruction::patch_bytes(list),
    ) == Ok::<Seq<u8>, patch::ApplyError>(new_data) by {
        law_delta_rebuilds(mode, old_data, new_data);
    }
}

/// What a delta is for: it makes the new file out of the old one, as instructions and as a patch
/// file, however the old file is read, unless some next 4096 bytes of the new file, or as many as
/// are left, have the checksum and the digest of a different chunk of the old one.
pub proof fn law_delta_makes_the_new_file(
    mode: patch::Reading,
    old_data: Seq<u8>,
    new_data: Seq<u8>,
)
    requires
        old_data.len() <= usize::MAX,
        new_data.len() <= usize::MAX,
        forall|i: int, p: int|
            0 <= i < signature::block_count(old_data.len()) && 0 <= p < new_data.len()
                && signature::adler32(#[trigger] signature::block(old_data, i))
                == signature::adler32(#[trigger] window(new_data, p)) && digest::sha256_digest(
                signature::block(old_data, i),
            ) == digest::sha256_digest(window(new_data, p)) ==> signature::block(old_data, i)
                == window(new_data, p),
    ensures
        ({
            let list = delta(signature::signatures_of(old_data), new_data);
            &&& patch::applied(mode, old_data, list) == Ok::<Seq<u8>, patch::PatchError>(new_data)
            &&& patch::patched(mode, old_data, crate::instruction::patch_bytes(list)) == Ok::<
                Seq<u8>,
                patch::ApplyError,
            >(new_data)
        }),
{
    let signatures = signature::signatures_of(old_data);
    law_delta_rebuilds(mode, old_data, new_data);
    lemma_list_is_short(signatures, new_data);
    lemma_delta_restores(signatures, new_data);
}

/// A delta has no more instructions than the new file has bytes.
proof fn lemma_list_is_short(signatures: Seq<SignatureView>, new_data: Seq<u8>)
    requires
        new_data.len() <= usize::MAX,
    ensures
        delta(signatures, new_data).len() <= new_data.len(),
{
    let list = delta(signatures, new_data);
    lemma_delta_from_shape(signatures, new_data, 0, Seq::empty());
    assert forall|n: int| 0 <= n < list.len() implies crate::instruction::instr_len(
        #[trigger] list[n],
    ) > 0 by {
        lemma_instruction_stands(signatures, new_data, n);
    }
    lemma_count_below_len(list);
}

proof fn lemma_count_below_len(list: Seq<Instr>)
    requires
        forall|n: int|
            0 <= n < list.len() ==> crate::instruction::instr_len(#[trigger] list[n]) > 0,
    ensures
        list.len() <= crate::instruction::total_len(list),
    decreases list.len(),
{
    if list.len() > 0 {
        let front = list.drop_last();
        assert forall|n: int| 0 <= n < front.len() implies crate::instruction::instr_len(
            #[trigger] front[n],
        ) > 0 by {
            assert(front[n] == list[n]);
        }
        lemma_count_below_len(front);
        assert(crate::instruction::instr_len(list[list.len() - 1]) > 0);
    }
}

/// The statistics of a delta: how many instructions of each kind there are and how many bytes each
/// kind makes, and the sizes of the new file and of the patch file. Those of an empty file are zero.
pub proof fn law_delta_statistics(signatures: Seq<SignatureView>, new_data: Seq<u8>)
    requires
        new_data.len() <= usize::MAX,
    ensures
        ({
            let list = delta(signatures, new_data);
            let stats = stats_of(list, new_data.len());
            let copies = list.filter(|i: Instr| i is Copy);
            let literals = list.filter(|i: Instr| !(i is Copy));
            &&& stats.new_file_size == new_data.len()
            &&& stats.total_instructions == list.len()
            &&& stats.copy_instructions == copies.len()
            &&& stats.matches_found == copies.len()
            &&& stats.literal_instructions == literals.len()
            &&& stats.copy_bytes == crate::instruction::total_len(copies)
            &&& stats.literal_bytes == crate::instruction::total_len(literals)
            &&& stats.copy_bytes + stats.literal_bytes == new_data.len()
            &&& new_data.len() == 0 ==> stats.patch_file_size == 0
            &&& new_data.len() > 0 && crate::instruction::patch_bytes(list).len() <= usize::MAX
                ==> stats.patch_file_size == crate::instruction::patch_bytes(list).len()
        }),
{
    let list = delta(signatures, new_data);
    lemma_delta_from_shape(signatures, new_data, 0, Seq::empty());
    lemma_list_is_short(signatures, new_data);
    crate::instruction::law_tally(list);
    crate::instruction::lemma_kinds_add_up(list);
    crate::instruction::lemma_total_len_tally(list);
    lemma_no_frames(list);
}

/// The checksums that are told apart are those that signatures have.
pub proof fn law_weak_hashes(signatures: Seq<SignatureView>, weak: u32)
    ensures
        weak_hashes(signatures).contains(weak) <==> exists|i: int|
            0 <= i < signatures.len() && (#[trigger] signatures[i]).weak_hash == weak,
{
    let mapped = signatures.map_values(|s: SignatureView| s.weak_hash);
    if weak_hashes(signatures).contains(weak) {
        let i = choose|i: int| 0 <= i < mapped.len() && mapped[i] == weak;
        assert(signatures[i].weak_hash == weak);
    }
    if exists|i: int| 0 <= i < signatures.len() && (#[trigger] signatures[i]).weak_hash == weak {
        let i = choose|i: int|
            0 <= i < signatures.len() && (#[trigger] signatures[i]).weak_hash == weak;
        assert(mapped[i] == weak);
    }
}

/// Makes the checksum that of the window at `pos`.
fn reset_rolling_hasher(rolling_hasher: &mut Adler32, file_data: &[u8], pos: usize)
    requires
        pos <= file_data@.len(),
    ensures
        final(rolling_hasher).wf(),
        final(rolling_hasher).is_at(window(file_data@, pos as int)),
{
    let size: usize = file_data.len();
    let end: usize = if size - pos < CHUNK_SIZE {
        size
    } else {
        pos + CHUNK_SIZE
    };
    rolling_hasher.reset();
    rolling_hasher.update(vstd::slice::slice_subrange(file_data, pos, end));
    assert(Seq::<u8>::empty() + file_data@.subrange(pos as int, end as int) =~= window(
        file_data@,
        pos as int,
    ));
}

/// Finds what of a new file stands in an old one.
pub struct DeltaGenerator {
    signature_map: SignatureMap,
}

impl DeltaGenerator {
    /// The signatures of the old file.
    pub closed spec fn signatures(&self) -> Seq<SignatureView> {
        self.signature_map.signatures()
    }

    pub closed spec fn wf(&self) -> bool {
        self.signature_map.wf()
    }

    pub fn new(signatures: Vec<ChunkSignature>) -> (res: Self)
        ensures
            res.wf(),
            res.signatures() == signature::views(signatures@),
    {
        DeltaGenerator { signature_map: SignatureMap::new(signatures) }
    }

    /// The chunk of the old file that `data` is, by its checksum and its digest.
    fn find_match(&self, data: &[u8], weak_hash: u32) -> (res: Option<(u64, usize)>)
        requires
            self.wf(),
            weak_hash == signature::adler32(data@),
        ensures
            match res {
                Some((index, length)) => first_match(self.signatures(), data@) == Some(index)
                    && length == data@.len(),
                None => first_match(self.signatures(), data@) == None::<u64>,
            },
    {
        proof {
            lemma_first_match_in_bucket(self.signatures(), data@, weak_hash);
        }
        let candidates: &Vec<ChunkSignature> = match self.signature_map.lookup(weak_hash) {
            Some(candidates) => candidates,
            None => {
                return None;
            },
        };
        let strong: [u8; 32] = signature::compute_strong_hash(data);
        let ghost bucket = signature::views(candidates@);
        let mut i: usize = 0;
        assert(bucket.take(0) =~= Seq::empty());
        while i < candidates.len()
            invariant
                i <= candidates@.len(),
                bucket == signature::views(candidates@),
                bucket == with_weak_hash(self.signatures(), weak_hash),
                weak_hash == signature::adler32(data@),
                strong@ == digest::sha256_digest(data@),
                first_match(bucket.take(i as int), data@) == None::<u64>,
                first_match(bucket, data@) == first_match(self.signatures(), data@),
            decreases candidates@.len() - i,
        {
            let candidate: &ChunkSignature = &candidates[i];
            proof {
                assert(bucket.take(i + 1).drop_last() =~= bucket.take(i as int));
                lemma_bucket_weak_hash(self.signatures(), weak_hash, i as int);
            }
            if bytes::same_bytes(candidate.strong_hash.as_slice(), strong.as_slice()) {
                proof {
                    lemma_first_match_prefix(bucket, data@, i + 1);
                }
                return Some((candidate.index, data.len()));
            }
            i = i + 1;
        }
        assert(bucket.take(i as int) =~= bucket);
        None
    }

    /// The instructions that make `new_data` out of the old file.
    fn generate_instructions(&self, new_data: &[u8]) -> (res: Vec<PatchInstruction>)
        requires
            self.wf(),
        ensures
            instruction::instrs(res@) == delta(self.signatures(), new_data@),
    {
        let size: usize = new_data.len();
        let ghost signatures = self.signatures();
        let ghost data = new_data@;
        let mut instructions: Vec<PatchInstruction> = Vec::new();
        let mut literal: Vec<u8> = Vec::new();
        let mut hasher: Adler32 = Adler32::new();
        let mut pos: usize = 0;
        reset_rolling_hasher(&mut hasher, new_data, 0);
        assert(literal@ =~= Seq::empty());
        assert(instruction::instrs(instructions@) + delta(signatures, data) =~= delta(
            signatures,
            data,
        ));
        while pos < size
            invariant
                self.wf(),
                signatures == self.signatures(),
                data == new_data@,
                pos <= size == data.len(),
                hasher.wf(),
                hasher.is_at(window(data, pos as int)),
                instruction::instrs(instructions@) + delta_from(
                    signatures,
                    data,
                    pos as nat,
                    literal@,
                ) == delta(signatures, data),
            decreases size - pos,
        {
            let window_size: usize = if size - pos < CHUNK_SIZE {
                size - pos
            } else {
                CHUNK_SIZE
            };
            let current: &[u8] = vstd::slice::slice_subrange(new_data, pos, pos + window_size);
            assert(current@ =~= window(data, pos as int));
            let weak: u32 = hasher.finalize();
            let ghost before = instruction::instrs(instructions@);
            match self.find_match(current, weak) {
                Some((index, length)) => {
                    let ghost gathered = literal@;
                    let mut kept: Vec<u8> = Vec::new();
                    core::mem::swap(&mut kept, &mut literal);
                    if kept.len() > 0 {
                        instructions.push(PatchInstruction::Literal(kept));
                    }
                    assert(instruction::instrs(instructions@) =~= before + flushed(gathered));
                    instructions.push(PatchInstruction::Copy(index, length));
                    proof {
                        let copy = Instr::Copy { offset: index, length };
                        let rest = delta_from(
                            signatures,
                            data,
                            (pos + length) as nat,
                            Seq::empty(),
                        );
                        assert(instruction::instrs(instructions@) =~= before + flushed(gathered)
                            + seq![copy]);
                        assert(before + (flushed(gathered) + (seq![copy] + rest))
                            =~= instruction::instrs(instructions@) + rest);
                        assert(literal@ =~= Seq::empty());
                    }
                    pos = pos + length;
                    reset_rolling_hasher(&mut hasher, new_data, pos);
                },
                None => {
                    let leaving: u8 = new_data[pos];
                    literal.push(leaving);
                    pos = pos + 1;
                    if window_size == CHUNK_SIZE && size - pos >= CHUNK_SIZE {
                        let entering: u8 = new_data[pos + CHUNK_SIZE - 1];
                        proof {
                            assert(window(data, pos - 1).skip(1).push(entering) =~= window(
                                data,
                                pos as int,
                            ));
                            let n = CHUNK_SIZE as u32;
                            assert(n == 4096);
                            assert(n * leaving + 1 <= u32::MAX) by (nonlinear_arith)
                                requires
                                    n == 4096,
                                    leaving <= 255,
                            ;
                        }
                        hasher.roll(leaving, entering, CHUNK_SIZE);
                    } else {
                        reset_rolling_hasher(&mut hasher, new_data, pos);
                    }
                },
            }
        }
        let ghost before = instruction::instrs(instructions@);
        let ghost gathered = literal@;
        if literal.len() > 0 {
            instructions.push(PatchInstruction::Literal(literal));
        }
        assert(instruction::instrs(instructions@) =~= before + flushed(gathered));
        instructions
    }

    /// The patch file that makes `new_data` out of the old file, and how it came out.
    pub fn generate_delta(&self, new_data: &[u8]) -> (res: (Vec<u8>, DeltaStats))
        requires
            self.wf(),
        ensures
            res.0@ == crate::instruction::patch_bytes(delta(self.signatures(), new_data@)),
            res.1 == stats_of(delta(self.signatures(), new_data@), new_data@.len()),
            res.1.copy_bytes + res.1.literal_bytes == new_data@.len(),
            restores(self.signatures(), res.0@, new_data@),
    {
        let size: usize = new_data.len();
        let instructions: Vec<PatchInstruction> = self.generate_instructions(new_data);
        let count: usize = instructions.len();
        proof {
            let list = delta(self.signatures(), new_data@);
            assert(instruction::instrs(instructions@).len() == count);
            lemma_delta_from_shape(self.signatures(), new_data@, 0, Seq::empty());
            crate::instruction::lemma_total_len_tally(list);
            lemma_no_frames(list);
            lemma_delta_restores(self.signatures(), new_data@);
        }
        let mut stats: DeltaStats = count_instructions(instructions.as_slice());
        let file: Vec<u8> = instruction::write_patch_file(instructions.as_slice());
        if size == 0 {
            return (file, DeltaStats::new());
        }
        stats.new_file_size = size;
        stats.patch_file_size = file.len();
        (file, stats)
    }
}

proof fn lemma_no_frames(list: Seq<Instr>)
    requires
        forall|i: int| 0 <= i < list.len() ==> instruction::fits(#[trigger] list[i]),
    ensures
        crate::instruction::tally(list).compressed_bytes == 0,
    decreases list.len(),
{
    if list.len() > 0 {
        lemma_no_frames(list.drop_last());
        assert(instruction::fits(list[list.len() - 1]));
    }
}

/// Applies a patch file to an old file.
pub fn apply_patch(old_data: &[u8], patch_file: &[u8]) -> (res: Result<
    Vec<u8>,
    patch::ApplyError,
>)
    ensures
        match res {
            Ok(out) => patch::patched(patch::Reading::Whole, old_data@, patch_file@) == Ok::<
                Seq<u8>,
                patch::ApplyError,
            >(out@),
            Err(e) => patch::patched(patch::Reading::Whole, old_data@, patch_file@) == Err::<
                Seq<u8>,
                patch::ApplyError,
            >(e),
        },
{
    let instructions: Vec<PatchInstruction> = match instruction::read_patch_file(patch_file) {
        Ok(instructions) => instructions,
        Err(e) => {
            return Err(patch::ApplyError::Format(e));
        },
    };
    let size: usize = old_data.len();
    let ghost mode = patch::Reading::Whole;
    let ghost list = instruction::instrs(instructions@);
    let mut out: Vec<u8> = Vec::new();
    let mut i: usize = 0;
    assert(list.take(0) =~= Seq::empty());
    assert(out@ =~= Seq::empty());
    while i < instructions.len()
        invariant
            i <= instructions@.len(),
            size == old_data@.len(),
            mode == patch::Reading::Whole,
            list == instruction::instrs(instructions@),
            instruction::patch_instrs(patch_file@) == Ok::<
                Seq<Instr>,
                crate::instruction::PatchFormatError,
            >(list),
            patch::applied(mode, old_data@, list.take(i as int)) == Ok::<
                Seq<u8>,
                patch::PatchError,
            >(out@),
        decreases instructions@.len() - i,
    {
        let ghost next = list.take(i + 1);
        assert(next.drop_last() =~= list.take(i as int));
        match &instructions[i] {
            PatchInstruction::Copy(index, length) => match patch::locate(*index, *length, size) {
                Some(start) => {
                    bytes::push_all(
                        &mut out,
                        vstd::slice::slice_subrange(old_data, start, start + *length),
                    );
                },
                None => {
                    let error = patch::PatchError::RangeOutOfBounds {
                        index: *index,
                        length: *length,
                    };
                    proof {
                        patch::lemma_stops_at(
                            mode,
                            old_data@,
                            crate::assembly::no_patch_stats(),
                            list,
                            i + 1,
                        );
                    }
                    return Err(patch::ApplyError::Instruction(error));
                },
            },
            PatchInstruction::Literal(data) => {
                bytes::push_all(&mut out, data.as_slice());
            },
        }
        i = i + 1;
    }
    assert(list.take(i as int) =~= list);
    Ok(out)
}

} // verus!
