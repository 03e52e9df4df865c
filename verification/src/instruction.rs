//! The instructions that make a new file out of an old one, and the file that holds them.

use vstd::prelude::*;
use crate::bytes;

verus! {

pub const TAG_COPY: u8 = 0x01;

pub const TAG_LITERAL: u8 = 0x02;

pub const TAG_COMPRESSED_LITERAL: u8 = 0x03;

/// One step in making the new file.
#[derive(Debug, PartialEq, Eq)]
pub enum PatchInstruction {
    /// Copy so many bytes of the old file, from this offset on.
    Copy(u64, usize),
    /// Append these bytes.
    Literal(Vec<u8>),
    /// Append what this frame holds.
    CompressedLiteral { decompressed_len: u64, compressed_data: Vec<u8> },
}

/// An instruction, with its bytes as a sequence.
#[verifier::ext_equal]
pub enum Instr {
    Copy { offset: u64, length: usize },
    Literal { data: Seq<u8> },
    CompressedLiteral { decompressed_len: u64, compressed: Seq<u8> },
}

impl View for PatchInstruction {
    type V = Instr;

    open spec fn view(&self) -> Instr {
        match self {
            PatchInstruction::Copy(offset, length) => Instr::Copy {
                offset: *offset,
                length: *length,
            },
            PatchInstruction::Literal(data) => Instr::Literal { data: data@ },
            PatchInstruction::CompressedLiteral {
                decompressed_len,
                compressed_data,
            } => Instr::CompressedLiteral {
                decompressed_len: *decompressed_len,
                compressed: compressed_data@,
            },
        }
    }
}

/// The views of a list of instructions.
pub open spec fn instrs(instructions: Seq<PatchInstruction>) -> Seq<Instr> {
    Seq::new(instructions.len(), |i: int| instructions[i]@)
}

impl Clone for PatchInstruction {
    fn clone(&self) -> (res: Self)
        ensures
            res@ == self@,
    {
        match self {
            PatchInstruction::Copy(offset, length) => PatchInstruction::Copy(*offset, *length),
            PatchInstruction::Literal(data) => PatchInstruction::Literal(
                bytes::copy_all(data.as_slice()),
            ),
            PatchInstruction::CompressedLiteral {
                decompressed_len,
                compressed_data,
            } => PatchInstruction::CompressedLiteral {
                decompressed_len: *decompressed_len,
                compressed_data: bytes::copy_all(compressed_data.as_slice()),
            },
        }
    }
}

/// An instruction as a file holds it: a tag, the numbers, the bytes. The length of a frame
/// has four bytes, every other number eight.
pub open spec fn instr_bytes(instr: Instr) -> Seq<u8> {
    match instr {
        Instr::Copy { offset, length } => seq![TAG_COPY] + bytes::le_bytes(offset as nat, 8)
            + bytes::le_bytes(length as nat, 8),
        Instr::Literal { data } => seq![TAG_LITERAL] + bytes::le_bytes(data.len(), 8) + data,
        Instr::CompressedLiteral { decompressed_len, compressed } => seq![TAG_COMPRESSED_LITERAL]
            + bytes::le_bytes(decompressed_len as nat, 8) + bytes::le_bytes(compressed.len(), 4)
            + compressed,
    }
}

pub open spec fn all_bytes(list: Seq<Instr>) -> Seq<u8>
    decreases list.len(),
{
    if list.len() == 0 {
        Seq::empty()
    } else {
        instr_bytes(list[0]) + all_bytes(list.skip(1))
    }
}

/// A patch file: the number of instructions in eight bytes, then the instructions.
pub open spec fn patch_bytes(list: Seq<Instr>) -> Seq<u8> {
    bytes::le_bytes(list.len(), 8) + all_bytes(list)
}

/// What is wrong with a patch file.
#[derive(Clone, Copy, Debug, PartialEq, Eq, Structural)]
pub enum PatchFormatError {
    /// It ends before it should.
    UnexpectedEof,
    /// An instruction starts with a tag that stands for nothing.
    UnknownTag(u8),
}

/// How many bytes of numbers follow a tag; nothing for a tag that stands for nothing.
pub open spec fn spec_header_len(tag: u8) -> Option<nat> {
    if tag == TAG_COPY {
        Some(16)
    } else if tag == TAG_LITERAL {
        Some(8)
    } else if tag == TAG_COMPRESSED_LITERAL {
        Some(12)
    } else {
        None
    }
}

/// How many bytes of data the numbers behind a tag announce.
pub open spec fn spec_payload_len(tag: u8, header: Seq<u8>) -> usize {
    if tag == TAG_LITERAL {
        bytes::le_value(header.subrange(0, 8)) as usize
    } else if tag == TAG_COMPRESSED_LITERAL {
        bytes::le_value(header.subrange(8, 12)) as usize
    } else {
        0
    }
}

/// The instruction that a tag, its numbers and its data make.
pub open spec fn assembled(tag: u8, header: Seq<u8>, payload: Seq<u8>) -> Instr {
    if tag == TAG_COPY {
        Instr::Copy {
            offset: bytes::le_value(header.subrange(0, 8)) as u64,
            length: bytes::le_value(header.subrange(8, 16)) as usize,
        }
    } else if tag == TAG_LITERAL {
        Instr::Literal { data: payload }
    } else {
        Instr::CompressedLiteral {
            decompressed_len: bytes::le_value(header.subrange(0, 8)) as u64,
            compressed: payload,
        }
    }
}

/// The instruction behind a tag, and how many bytes it takes.
pub open spec fn decoded(tag: u8, data: Seq<u8>) -> Result<(Instr, nat), PatchFormatError> {
    match spec_header_len(tag) {
        None => Err(PatchFormatError::UnknownTag(tag)),
        Some(header_len) => {
            let header = data.take(header_len as int);
            let payload_len = spec_payload_len(tag, header);
            if data.len() < header_len || data.len() < header_len + payload_len {
                Err(PatchFormatError::UnexpectedEof)
            } else {
                let end = header_len + payload_len;
                Ok((assembled(tag, header, data.subrange(header_len as int, end)), end as nat))
            }
        },
    }
}

/// So many instructions from the start of `data`.
pub open spec fn all_decoded(data: Seq<u8>, count: nat) -> Result<Seq<Instr>, PatchFormatError>
    decreases count,
{
    if count == 0 {
        Ok(Seq::empty())
    } else if data.len() == 0 {
        Err(PatchFormatError::UnexpectedEof)
    } else {
        match decoded(data[0], data.skip(1)) {
            Err(e) => Err(e),
            Ok((first, used)) => prepend(
                seq![first],
                all_decoded(data.skip(1 + used as int), (count - 1) as nat),
            ),
        }
    }
}

pub open spec fn prepend(
    front: Seq<Instr>,
    rest: Result<Seq<Instr>, PatchFormatError>,
) -> Result<Seq<Instr>, PatchFormatError> {
    match rest {
        Ok(list) => Ok(front + list),
        Err(e) => Err(e),
    }
}

/// The instructions that a patch file holds; what follows them is of no account.
pub open spec fn patch_instrs(data: Seq<u8>) -> Result<Seq<Instr>, PatchFormatError> {
    if data.len() < 8 {
        Err(PatchFormatError::UnexpectedEof)
    } else {
        all_decoded(data.skip(8), bytes::le_value(data.subrange(0, 8)))
    }
}

/// Whether the lengths of an instruction fit where a file holds them.
pub open spec fn fits(instr: Instr) -> bool {
    match instr {
        Instr::Copy { .. } => true,
        Instr::Literal { data } => data.len() <= usize::MAX,
        Instr::CompressedLiteral { compressed, .. } => compressed.len() <= u32::MAX,
    }
}

pub proof fn lemma_instr_round_trip(instr: Instr, rest: Seq<u8>)
    requires
        fits(instr),
    ensures
        instr_bytes(instr).len() > 0,
        decoded(instr_bytes(instr)[0], instr_bytes(instr).skip(1) + rest) == Ok::<
            (Instr, nat),
            PatchFormatError,
        >((instr, (instr_bytes(instr).len() - 1) as nat)),
{
    let data = instr_bytes(instr).skip(1) + rest;
    bytes::lemma_le_ranges();
    match instr {
        Instr::Copy { offset, length } => {
            bytes::lemma_le_bytes_len(offset as nat, 8);
            bytes::lemma_le_bytes_len(length as nat, 8);
            bytes::lemma_le_round_trip(offset as nat, 8);
            bytes::lemma_le_round_trip(length as nat, 8);
            let header = data.take(16);
            assert(header.subrange(0, 8) =~= bytes::le_bytes(offset as nat, 8));
            assert(header.subrange(8, 16) =~= bytes::le_bytes(length as nat, 8));
        },
        Instr::Literal { data: literal } => {
            bytes::lemma_le_bytes_len(literal.len(), 8);
            bytes::lemma_le_round_trip(literal.len(), 8);
            let header = data.take(8);
            assert(header.subrange(0, 8) =~= bytes::le_bytes(literal.len(), 8));
            assert(data.subrange(8, (8 + literal.len()) as int) =~= literal);
        },
        Instr::CompressedLiteral { decompressed_len, compressed } => {
            bytes::lemma_le_bytes_len(decompressed_len as nat, 8);
            bytes::lemma_le_bytes_len(compressed.len(), 4);
            bytes::lemma_le_round_trip(decompressed_len as nat, 8);
            bytes::lemma_le_round_trip(compressed.len(), 4);
            let header = data.take(12);
            assert(header.subrange(0, 8) =~= bytes::le_bytes(decompressed_len as nat, 8));
            assert(header.subrange(8, 12) =~= bytes::le_bytes(compressed.len(), 4));
            assert(data.subrange(12, (12 + compressed.len()) as int) =~= compressed);
        },
    }
}

/// Reading back instructions gives those that were written, whatever follows them.
pub proof fn lemma_all_round_trip(list: Seq<Instr>, rest: Seq<u8>)
    requires
        forall|i: int| 0 <= i < list.len() ==> fits(#[trigger] list[i]),
    ensures
        all_decoded(all_bytes(list) + rest, list.len()) == Ok::<Seq<Instr>, PatchFormatError>(list),
    decreases list.len(),
{
    if list.len() > 0 {
        let first = instr_bytes(list[0]);
        let tail = all_bytes(list.skip(1)) + rest;
        let data = all_bytes(list) + rest;
        lemma_instr_round_trip(list[0], tail);
        lemma_all_round_trip(list.skip(1), rest);
        assert(data[0] == first[0]);
        assert(data.skip(1) =~= first.skip(1) + tail);
        assert(data.skip(first.len() as int) =~= tail);
        assert(seq![list[0]] + list.skip(1) =~= list);
    } else {
        assert(list =~= Seq::empty());
    }
}

/// Reading back a patch file gives the instructions that were written.
pub proof fn law_patch_file_round_trip(list: Seq<Instr>)
    requires
        list.len() <= u64::MAX,
        forall|i: int| 0 <= i < list.len() ==> fits(#[trigger] list[i]),
    ensures
        patch_instrs(patch_bytes(list)) == Ok::<Seq<Instr>, PatchFormatError>(list),
{
    let all = patch_bytes(list);
    bytes::lemma_le_bytes_len(list.len(), 8);
    bytes::lemma_le_ranges();
    bytes::lemma_le_round_trip(list.len(), 8);
    assert(all.subrange(0, 8) =~= bytes::le_bytes(list.len(), 8));
    assert(all.skip(8) =~= all_bytes(list) + Seq::<u8>::empty());
    lemma_all_round_trip(list, Seq::empty());
}

/// Appends the length of a frame, of which a file holds the four lowest bytes.
fn push_frame_len(out: &mut Vec<u8>, len: usize)
    ensures
        final(out)@ == old(out)@ + bytes::le_bytes(len as nat, 4),
{
    let wide: u64 = len as u64;
    let low: u32 = (wide % 0x1_0000_0000) as u32;
    proof {
        bytes::lemma_le_ranges();
        bytes::lemma_le_bytes_truncate(len as nat, 4);
    }
    bytes::push_u32(out, low);
}

/// How many bytes of numbers follow a tag.
pub fn header_len(tag: u8) -> (res: Option<usize>)
    ensures
        match res {
            Some(n) => spec_header_len(tag) == Some(n as nat),
            None => spec_header_len(tag) == None::<nat>,
        },
{
    if tag == TAG_COPY {
        Some(16)
    } else if tag == TAG_LITERAL {
        Some(8)
    } else if tag == TAG_COMPRESSED_LITERAL {
        Some(12)
    } else {
        None
    }
}

/// How many bytes of data the numbers behind a tag announce.
pub fn payload_len(tag: u8, header: &[u8]) -> (res: usize)
    requires
        spec_header_len(tag) == Some(header@.len()),
    ensures
        res == spec_payload_len(tag, header@),
{
    if tag == TAG_LITERAL {
        bytes::read_u64(header, 0) as usize
    } else if tag == TAG_COMPRESSED_LITERAL {
        bytes::read_u32(header, 8) as usize
    } else {
        0
    }
}

/// The instruction that a tag, its numbers and its data make.
pub fn assemble(tag: u8, header: &[u8], payload: Vec<u8>) -> (res: PatchInstruction)
    requires
        spec_header_len(tag) == Some(header@.len()),
    ensures
        res@ == assembled(tag, header@, payload@),
{
    if tag == TAG_COPY {
        PatchInstruction::Copy(bytes::read_u64(header, 0), bytes::read_u64(header, 8) as usize)
    } else if tag == TAG_LITERAL {
        PatchInstruction::Literal(payload)
    } else {
        PatchInstruction::CompressedLiteral {
            decompressed_len: bytes::read_u64(header, 0),
            compressed_data: payload,
        }
    }
}

impl PatchInstruction {
    /// The instruction as a file holds it.
    pub fn to_bytes(&self) -> (res: Vec<u8>)
        ensures
            res@ == instr_bytes(self@),
    {
        let mut res: Vec<u8> = Vec::new();
        match self {
            PatchInstruction::Copy(offset, length) => {
                res.push(TAG_COPY);
                bytes::push_u64(&mut res, *offset);
                bytes::push_u64(&mut res, *length as u64);
            },
            PatchInstruction::Literal(data) => {
                res.push(TAG_LITERAL);
                bytes::push_u64(&mut res, data.len() as u64);
                bytes::push_all(&mut res, data.as_slice());
            },
            PatchInstruction::CompressedLiteral { decompressed_len, compressed_data } => {
                res.push(TAG_COMPRESSED_LITERAL);
                bytes::push_u64(&mut res, *decompressed_len);
                push_frame_len(&mut res, compressed_data.len());
                bytes::push_all(&mut res, compressed_data.as_slice());
            },
        }
        assert(res@ =~= instr_bytes(self@));
        res
    }

    /// The instruction whose tag was read, out of the bytes behind the tag, and how many of
    /// them it takes.
    pub fn from_bytes(tag: u8, data: &[u8]) -> (res: Result<(Self, usize), PatchFormatError>)
        ensures
            match res {
                Ok((instruction, used)) => decoded(tag, data@) == Ok::<
                    (Instr, nat),
                    PatchFormatError,
                >((instruction@, used as nat)),
                Err(e) => decoded(tag, data@) == Err::<(Instr, nat), PatchFormatError>(e),
            },
    {
        let size: usize = data.len();
        let numbers: usize = match header_len(tag) {
            Some(n) => n,
            None => {
                return Err(PatchFormatError::UnknownTag(tag));
            },
        };
        if size < numbers {
            return Err(PatchFormatError::UnexpectedEof);
        }
        let header: Vec<u8> = bytes::copy_range(data, 0, numbers);
        assert(header@ =~= data@.take(numbers as int));
        let announced: usize = payload_len(tag, header.as_slice());
        if size - numbers < announced {
            return Err(PatchFormatError::UnexpectedEof);
        }
        let payload: Vec<u8> = bytes::copy_range(data, numbers, numbers + announced);
        Ok((assemble(tag, header.as_slice(), payload), numbers + announced))
    }
}

/// The patch file that holds `instructions`.
pub fn write_patch_file(instructions: &[PatchInstruction]) -> (file: Vec<u8>)
    ensures
        file@ == patch_bytes(instrs(instructions@)),
{
    let mut file: Vec<u8> = Vec::new();
    bytes::push_u64(&mut file, instructions.len() as u64);
    let ghost all = instrs(instructions@);
    assert(all.skip(0) =~= all);
    assert(file@ + all_bytes(all) =~= patch_bytes(all));
    let mut i: usize = 0;
    while i < instructions.len()
        invariant
            i <= instructions@.len(),
            all == instrs(instructions@),
            file@ + all_bytes(all.skip(i as int)) == patch_bytes(all),
        decreases instructions@.len() - i,
    {
        let ghost before = file@;
        let one: Vec<u8> = instructions[i].to_bytes();
        bytes::push_all(&mut file, one.as_slice());
        proof {
            assert(all.skip(i as int).skip(1) =~= all.skip(i + 1));
            assert(before + (one@ + all_bytes(all.skip(i + 1))) =~= file@ + all_bytes(
                all.skip(i + 1),
            ));
        }
        i = i + 1;
    }
    assert(file@ + all_bytes(all.skip(i as int)) =~= file@);
    file
}

/// The instructions in a patch file.
pub fn read_patch_file(file: &[u8]) -> (res: Result<Vec<PatchInstruction>, PatchFormatError>)
    ensures
        match res {
            Ok(list) => patch_instrs(file@) == Ok::<Seq<Instr>, PatchFormatError>(instrs(list@)),
            Err(e) => patch_instrs(file@) == Err::<Seq<Instr>, PatchFormatError>(e),
        },
{
    let size: usize = file.len();
    if size < 8 {
        return Err(PatchFormatError::UnexpectedEof);
    }
    let count: u64 = bytes::read_u64(file, 0);
    let mut list: Vec<PatchInstruction> = Vec::new();
    let mut at: usize = 8;
    let mut i: u64 = 0;
    proof {
        let all = all_decoded(file@.skip(8), count as nat);
        if all is Ok {
            assert(instrs(list@) + all->Ok_0 =~= all->Ok_0);
        }
    }
    while i < count
        invariant
            i <= count,
            8 <= at <= size == file@.len(),
            patch_instrs(file@) == prepend(
                instrs(list@),
                all_decoded(file@.skip(at as int), (count - i) as nat),
            ),
        decreases count - i,
    {
        if at == size {
            return Err(PatchFormatError::UnexpectedEof);
        }
        let tag: u8 = file[at];
        let rest: &[u8] = vstd::slice::slice_subrange(file, at + 1, size);
        let ghost data = file@.skip(at as int);
        assert(rest@ =~= data.skip(1));
        match PatchInstruction::from_bytes(tag, rest) {
            Err(e) => {
                return Err(e);
            },
            Ok((instruction, used)) => {
                let ghost before = instrs(list@);
                let ghost shown = instruction@;
                list.push(instruction);
                proof {
                    let tail = all_decoded(data.skip(1 + used as int), (count - i - 1) as nat);
                    assert(instrs(list@) =~= before.push(shown));
                    assert(data.skip(1 + used as int) =~= file@.skip(at + 1 + used));
                    if tail is Ok {
                        assert(before + (seq![shown] + tail->Ok_0) =~= instrs(list@) + tail->Ok_0);
                    }
                }
                at = at + 1 + used;
                i = i + 1;
            },
        }
    }
    assert(instrs(list@) + Seq::<Instr>::empty() =~= instrs(list@));
    Ok(list)
}

/// What a list of instructions consists of.
pub struct Tally {
    pub copies: nat,
    pub literals: nat,
    pub compressed: nat,
    pub copy_bytes: nat,
    pub plain_bytes: nat,
    pub compressed_bytes: nat,
}

/// What a list of instructions consists of: how many there are of each kind, and how many bytes
/// of the new file each kind makes.
pub open spec fn tally(list: Seq<Instr>) -> Tally
    decreases list.len(),
{
    if list.len() == 0 {
        Tally {
            copies: 0,
            literals: 0,
            compressed: 0,
            copy_bytes: 0,
            plain_bytes: 0,
            compressed_bytes: 0,
        }
    } else {
        let before = tally(list.drop_last());
        match list.last() {
            Instr::Copy { length, .. } => Tally {
                copies: before.copies + 1,
                copy_bytes: before.copy_bytes + length as nat,
                ..before
            },
            Instr::Literal { data } => Tally {
                literals: before.literals + 1,
                plain_bytes: before.plain_bytes + data.len(),
                ..before
            },
            Instr::CompressedLiteral { decompressed_len, .. } => Tally {
                literals: before.literals + 1,
                compressed: before.compressed + 1,
                compressed_bytes: before.compressed_bytes + decompressed_len as nat,
                ..before
            },
        }
    }
}

pub proof fn lemma_tally_bounds(list: Seq<Instr>, n: int)
    requires
        0 <= n <= list.len(),
    ensures
        tally(list.take(n)).copies + tally(list.take(n)).literals == n,
        tally(list.take(n)).compressed <= tally(list.take(n)).literals,
        tally(list.take(n)).copy_bytes <= tally(list).copy_bytes,
        tally(list.take(n)).plain_bytes <= tally(list).plain_bytes,
        tally(list.take(n)).compressed_bytes <= tally(list).compressed_bytes,
    decreases list.len(),
{
    if n == list.len() {
        assert(list.take(n) =~= list);
        if n > 0 {
            lemma_tally_bounds(list.drop_last(), n - 1);
            assert(list.drop_last().take(n - 1) =~= list.drop_last());
        }
    } else {
        lemma_tally_bounds(list.drop_last(), n);
        assert(list.drop_last().take(n) =~= list.take(n));
    }
}

/// How many bytes an instruction makes, where it can be carried out.
pub open spec fn instr_len(instr: Instr) -> nat {
    match instr {
        Instr::Copy { length, .. } => length as nat,
        Instr::Literal { data } => data.len(),
        Instr::CompressedLiteral { decompressed_len, .. } => decompressed_len as nat,
    }
}

/// How many bytes the instructions of a list make.
pub open spec fn total_len(list: Seq<Instr>) -> nat
    decreases list.len(),
{
    if list.len() == 0 {
        0
    } else {
        total_len(list.drop_last()) + instr_len(list.last())
    }
}

pub proof fn lemma_total_len_concat(front: Seq<Instr>, back: Seq<Instr>)
    ensures
        total_len(front + back) == total_len(front) + total_len(back),
    decreases back.len(),
{
    if back.len() == 0 {
        assert(front + back =~= front);
    } else {
        lemma_total_len_concat(front, back.drop_last());
        assert((front + back).drop_last() =~= front + back.drop_last());
    }
}

pub proof fn lemma_total_len_one(instr: Instr)
    ensures
        total_len(seq![instr]) == instr_len(instr),
{
    let one = seq![instr];
    assert(one.drop_last() =~= Seq::empty());
    assert(total_len(one) == total_len(one.drop_last()) + instr_len(one.last()));
}

/// The bytes of a list are those of its copies and of its literals.
pub proof fn lemma_total_len_tally(list: Seq<Instr>)
    ensures
        total_len(list) == tally(list).copy_bytes + tally(list).plain_bytes
            + tally(list).compressed_bytes,
    decreases list.len(),
{
    if list.len() > 0 {
        lemma_total_len_tally(list.drop_last());
    }
}

/// The copies of a list and all else in it are all that it holds.
pub proof fn lemma_kinds_add_up(list: Seq<Instr>)
    ensures
        list.filter(|i: Instr| i is Copy).len() + list.filter(|i: Instr| !(i is Copy)).len()
            == list.len(),
        total_len(list.filter(|i: Instr| i is Copy)) + total_len(
            list.filter(|i: Instr| !(i is Copy)),
        ) == total_len(list),
    decreases list.len(),
{
    let is_copy = |i: Instr| i is Copy;
    let is_literal = |i: Instr| !(i is Copy);
    reveal(Seq::filter);
    if list.len() > 0 {
        let front = list.drop_last();
        lemma_kinds_add_up(front);
        let copies = front.filter(is_copy);
        let literals = front.filter(is_literal);
        assert(copies.push(list.last()).drop_last() =~= copies);
        assert(literals.push(list.last()).drop_last() =~= literals);
    }
}

/// What is counted of a list: how many instructions of each kind there are, and how many bytes
/// those of each kind make.
pub proof fn law_tally(list: Seq<Instr>)
    ensures
        ({
            let copies = list.filter(|i: Instr| i is Copy);
            let literals = list.filter(|i: Instr| !(i is Copy));
            let plain = list.filter(|i: Instr| i is Literal);
            let frames = list.filter(|i: Instr| i is CompressedLiteral);
            let parts = tally(list);
            &&& parts.copies == copies.len()
            &&& parts.literals == literals.len()
            &&& parts.compressed == frames.len()
            &&& parts.copy_bytes == total_len(copies)
            &&& parts.plain_bytes == total_len(plain)
            &&& parts.compressed_bytes == total_len(frames)
        }),
    decreases list.len(),
{
    reveal(Seq::filter);
    if list.len() > 0 {
        let front = list.drop_last();
        let last = list.last();
        law_tally(front);
        let copies = front.filter(|i: Instr| i is Copy);
        let plain = front.filter(|i: Instr| i is Literal);
        let frames = front.filter(|i: Instr| i is CompressedLiteral);
        assert(copies.push(last).drop_last() =~= copies);
        assert(plain.push(last).drop_last() =~= plain);
        assert(frames.push(last).drop_last() =~= frames);
    }
}

/// How many bytes an instruction makes: as many as it copies, as it has, or as it says.
pub proof fn law_instruction_len(offset: u64, length: usize, data: Seq<u8>, decompressed_len: u64)
    ensures
        instr_len(Instr::Copy { offset, length }) == length,
        instr_len(Instr::Literal { data }) == data.len(),
        instr_len(Instr::CompressedLiteral { decompressed_len, compressed: data })
            == decompressed_len,
{
}

/// An instruction in a file: a tag, 1 for a copy, 2 for a literal and 3 for a frame; behind it the
/// offset and the length of a copy, the length of a literal, or how many bytes a frame holds, in
/// eight bytes each; the length of a frame in four; and the bytes of a literal or a frame.
pub proof fn law_instruction_layout(instr: Instr)
    requires
        fits(instr),
    ensures
        ({
            let file = instr_bytes(instr);
            match instr {
                Instr::Copy { offset, length } => {
                    &&& file.len() == 17
                    &&& file[0] == 1
                    &&& bytes::le_value(file.subrange(1, 9)) == offset
                    &&& bytes::le_value(file.subrange(9, 17)) == length
                },
                Instr::Literal { data } => {
                    &&& file.len() == 9 + data.len()
                    &&& file[0] == 2
                    &&& bytes::le_value(file.subrange(1, 9)) == data.len()
                    &&& file.skip(9) == data
                },
                Instr::CompressedLiteral { decompressed_len, compressed } => {
                    &&& file.len() == 13 + compressed.len()
                    &&& file[0] == 3
                    &&& bytes::le_value(file.subrange(1, 9)) == decompressed_len
                    &&& bytes::le_value(file.subrange(9, 13)) == compressed.len()
                    &&& file.skip(13) == compressed
                },
            }
        }),
{
    let file = instr_bytes(instr);
    bytes::lemma_le_ranges();
    match instr {
        Instr::Copy { offset, length } => {
            bytes::lemma_le_bytes_len(offset as nat, 8);
            bytes::lemma_le_bytes_len(length as nat, 8);
            bytes::lemma_le_round_trip(offset as nat, 8);
            bytes::lemma_le_round_trip(length as nat, 8);
            assert(file.subrange(1, 9) =~= bytes::le_bytes(offset as nat, 8));
            assert(file.subrange(9, 17) =~= bytes::le_bytes(length as nat, 8));
        },
        Instr::Literal { data } => {
            bytes::lemma_le_bytes_len(data.len(), 8);
            bytes::lemma_le_round_trip(data.len(), 8);
            assert(file.subrange(1, 9) =~= bytes::le_bytes(data.len(), 8));
            assert(file.skip(9) =~= data);
        },
        Instr::CompressedLiteral { decompressed_len, compressed } => {
            bytes::lemma_le_bytes_len(decompressed_len as nat, 8);
            bytes::lemma_le_bytes_len(compressed.len(), 4);
            bytes::lemma_le_round_trip(decompressed_len as nat, 8);
            bytes::lemma_le_round_trip(compressed.len(), 4);
            assert(file.subrange(1, 9) =~= bytes::le_bytes(decompressed_len as nat, 8));
            assert(file.subrange(9, 13) =~= bytes::le_bytes(compressed.len(), 4));
            assert(file.skip(13) =~= compressed);
        },
    }
}

proof fn lemma_all_bytes_concat(front: Seq<Instr>, back: Seq<Instr>)
    ensures
        all_bytes(front + back) == all_bytes(front) + all_bytes(back),
    decreases front.len(),
{
    let all = front + back;
    if front.len() == 0 {
        assert(all =~= back);
        assert(all_bytes(front) + all_bytes(back) =~= all_bytes(back));
    } else {
        lemma_all_bytes_concat(front.skip(1), back);
        assert(all.skip(1) =~= front.skip(1) + back);
        assert(all_bytes(all) =~= all_bytes(front) + all_bytes(back));
    }
}

/// A patch file: the number of instructions in eight bytes, then the instructions one after the
/// other.
pub proof fn law_patch_file_layout(front: Seq<Instr>, instr: Instr)
    requires
        front.len() < u64::MAX,
    ensures
        ({
            let before = patch_bytes(front);
            let after = patch_bytes(front.push(instr));
            &&& patch_bytes(Seq::empty()).len() == 8
            &&& bytes::le_value(before.take(8)) == front.len()
            &&& bytes::le_value(after.take(8)) == front.len() + 1
            &&& after.skip(8) == before.skip(8) + instr_bytes(instr)
        }),
{
    let list = front.push(instr);
    bytes::lemma_le_ranges();
    bytes::lemma_le_bytes_len(0, 8);
    bytes::lemma_le_bytes_len(front.len(), 8);
    bytes::lemma_le_bytes_len(list.len(), 8);
    bytes::lemma_le_round_trip(front.len(), 8);
    bytes::lemma_le_round_trip(list.len(), 8);
    assert(patch_bytes(front).take(8) =~= bytes::le_bytes(front.len(), 8));
    assert(patch_bytes(list).take(8) =~= bytes::le_bytes(list.len(), 8));
    assert(patch_bytes(front).skip(8) =~= all_bytes(front));
    assert(patch_bytes(list).skip(8) =~= all_bytes(list));
    let one = seq![instr];
    assert(list =~= front + one);
    lemma_all_bytes_concat(front, one);
    assert(one.skip(1) =~= Seq::empty());
    assert(all_bytes(one) == instr_bytes(one[0]) + all_bytes(one.skip(1)));
    assert(instr_bytes(instr) + Seq::<u8>::empty() =~= instr_bytes(instr));
}

/// A part of an instruction, from its tag on, is none.
pub proof fn lemma_part_of_instruction(instr: Instr, m: int)
    requires
        fits(instr),
        0 <= m < instr_bytes(instr).len() - 1,
    ensures
        decoded(instr_bytes(instr)[0], instr_bytes(instr).skip(1).take(m)) == Err::<
            (Instr, nat),
            PatchFormatError,
        >(PatchFormatError::UnexpectedEof),
{
    let data = instr_bytes(instr).skip(1);
    let part = data.take(m);
    lemma_instr_round_trip(instr, Seq::empty());
    assert(data + Seq::<u8>::empty() =~= data);
    let tag = instr_bytes(instr)[0];
    let header_len = spec_header_len(tag)->0 as int;
    if m >= header_len {
        assert(part.take(header_len) =~= data.take(header_len));
    }
}

proof fn lemma_part_of_list(list: Seq<Instr>, m: int)
    requires
        forall|i: int| 0 <= i < list.len() ==> fits(#[trigger] list[i]),
        0 <= m < all_bytes(list).len(),
    ensures
        all_decoded(all_bytes(list).take(m), list.len()) == Err::<Seq<Instr>, PatchFormatError>(
            PatchFormatError::UnexpectedEof,
        ),
    decreases list.len(),
{
    let all = all_bytes(list);
    let part = all.take(m);
    let first = instr_bytes(list[0]);
    let tail = all_bytes(list.skip(1));
    assert(fits(list[0]));
    if m > 0 {
        assert(part[0] == first[0]);
        if m < first.len() {
            lemma_part_of_instruction(list[0], m - 1);
            assert(part.skip(1) =~= first.skip(1).take(m - 1));
        } else {
            let left = tail.take(m - first.len());
            lemma_instr_round_trip(list[0], left);
            assert(part.skip(1) =~= first.skip(1) + left);
            assert(part.skip(first.len() as int) =~= left);
            lemma_part_of_list(list.skip(1), m - first.len());
        }
    }
}

/// A patch file that ends before its last instruction does is refused as a whole.
pub proof fn law_part_of_patch_file_is_refused(list: Seq<Instr>, m: int)
    requires
        list.len() <= u64::MAX,
        forall|i: int| 0 <= i < list.len() ==> fits(#[trigger] list[i]),
        0 <= m < patch_bytes(list).len(),
    ensures
        patch_instrs(patch_bytes(list).take(m)) == Err::<Seq<Instr>, PatchFormatError>(
            PatchFormatError::UnexpectedEof,
        ),
{
    let all = patch_bytes(list);
    let part = all.take(m);
    bytes::lemma_le_bytes_len(list.len(), 8);
    bytes::lemma_le_ranges();
    bytes::lemma_le_round_trip(list.len(), 8);
    if m >= 8 {
        assert(part.subrange(0, 8) =~= bytes::le_bytes(list.len(), 8));
        assert(part.skip(8) =~= all_bytes(list).take(m - 8));
        lemma_part_of_list(list, m - 8);
    }
}

proof fn lemma_unknown_tag(list: Seq<Instr>, tag: u8, rest: Seq<u8>, count: nat)
    requires
        forall|i: int| 0 <= i < list.len() ==> fits(#[trigger] list[i]),
        !(1 <= tag <= 3),
        list.len() < count,
    ensures
        all_decoded(all_bytes(list) + seq![tag] + rest, count) == Err::<
            Seq<Instr>,
            PatchFormatError,
        >(PatchFormatError::UnknownTag(tag)),
    decreases list.len(),
{
    let data = all_bytes(list) + seq![tag] + rest;
    if list.len() == 0 {
        assert(data[0] == tag);
    } else {
        let first = instr_bytes(list[0]);
        let tail = all_bytes(list.skip(1)) + seq![tag] + rest;
        assert(fits(list[0]));
        lemma_instr_round_trip(list[0], tail);
        lemma_unknown_tag(list.skip(1), tag, rest, (count - 1) as nat);
        assert(data[0] == first[0]);
        assert(data.skip(1) =~= first.skip(1) + tail);
        assert(data.skip(first.len() as int) =~= tail);
    }
}

/// A patch file with a tag that stands for nothing, where an instruction should start, is refused
/// as a whole.
pub proof fn law_unknown_tag_is_refused(list: Seq<Instr>, tag: u8, rest: Seq<u8>, count: u64)
    requires
        forall|i: int| 0 <= i < list.len() ==> fits(#[trigger] list[i]),
        tag == 0 || tag > 3,
        list.len() < count,
    ensures
        patch_instrs(
            bytes::le_bytes(count as nat, 8) + (all_bytes(list) + seq![tag] + rest),
        ) == Err::<Seq<Instr>, PatchFormatError>(PatchFormatError::UnknownTag(tag)),
{
    let file = bytes::le_bytes(count as nat, 8) + (all_bytes(list) + seq![tag] + rest);
    bytes::lemma_le_bytes_len(count as nat, 8);
    bytes::lemma_le_ranges();
    bytes::lemma_le_round_trip(count as nat, 8);
    assert(file.subrange(0, 8) =~= bytes::le_bytes(count as nat, 8));
    assert(file.skip(8) =~= all_bytes(list) + seq![tag] + rest);
    lemma_unknown_tag(list, tag, rest, count as nat);
}

/// What is known of an instruction is what it holds, and a list is known one by one.
pub proof fn law_instructions_are_known(instructions: Seq<PatchInstruction>, i: int)
    requires
        0 <= i < instructions.len(),
    ensures
        instrs(instructions).len() == instructions.len(),
        instrs(instructions)[i] == match instructions[i] {
            PatchInstruction::Copy(offset, length) => Instr::Copy { offset, length },
            PatchInstruction::Literal(data) => Instr::Literal { data: data@ },
            PatchInstruction::CompressedLiteral { decompressed_len, compressed_data } => {
                Instr::CompressedLiteral { decompressed_len, compressed: compressed_data@ }
            },
        },
{
}

} // verus!
