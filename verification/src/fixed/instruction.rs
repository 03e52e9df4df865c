//! The instructions of the fixed-size variant: a copy names a chunk by its index. A file holds
//! them as it holds those of the content-defined variant.

use vstd::prelude::*;
use crate::bytes;
use crate::instruction;
use crate::instruction::{Instr, PatchFormatError, TAG_COMPRESSED_LITERAL};

verus! {

/// One step in making the new file.
#[derive(Debug, PartialEq, Eq)]
pub enum PatchInstruction {
    /// Copy so many bytes of the old file, from the start of this chunk on.
    Copy(u64, usize),
    /// Append these bytes.
    Literal(Vec<u8>),
}

impl View for PatchInstruction {
    type V = Instr;

    /// The instruction as a file holds it; in place of an offset stands the index of a chunk.
    open spec fn view(&self) -> Instr {
        match self {
            PatchInstruction::Copy(index, length) => Instr::Copy {
                offset: *index,
                length: *length,
            },
            PatchInstruction::Literal(data) => Instr::Literal { data: data@ },
        }
    }
}

pub open spec fn instrs(instructions: Seq<PatchInstruction>) -> Seq<Instr> {
    Seq::new(instructions.len(), |i: int| instructions[i]@)
}

impl Clone for PatchInstruction {
    fn clone(&self) -> (res: Self)
        ensures
            res@ == self@,
    {
        match self {
            PatchInstruction::Copy(index, length) => PatchInstruction::Copy(*index, *length),
            PatchInstruction::Literal(data) => PatchInstruction::Literal(
                bytes::copy_all(data.as_slice()),
            ),
        }
    }
}

/// The instruction behind a tag, and how many bytes it takes; a frame has no tag here.
pub open spec fn decoded(tag: u8, data: Seq<u8>) -> Result<(Instr, nat), PatchFormatError> {
    if tag == TAG_COMPRESSED_LITERAL {
        Err(PatchFormatError::UnknownTag(tag))
    } else {
        instruction::decoded(tag, data)
    }
}

/// So many instructions from the start of `data`.
pub open spec fn all_decoded(data: Seq<u8>, count: nat) -> Result<Seq<Instr>, PatchFormatError>
    decreases count,
{
    if count == 0 {
        Ok(Seq::empty())
    } else if data.len() == 0 {
        Err(PatchFormatError::UnexpectedEof)
    } else {
        match decoded(data[0], data.skip(1)) {
            Err(e) => Err(e),
            Ok((first, used)) => instruction::prepend(
                seq![first],
                all_decoded(data.skip(1 + used as int), (count - 1) as nat),
            ),
        }
    }
}

/// The instructions that a patch file holds; what follows them is of no account.
pub open spec fn patch_instrs(data: Seq<u8>) -> Result<Seq<Instr>, PatchFormatError> {
    if data.len() < 8 {
        Err(PatchFormatError::UnexpectedEof)
    } else {
        all_decoded(data.skip(8), bytes::le_value(data.subrange(0, 8)))
    }
}

/// Whether an instruction is one of this variant, with lengths that a file has room for.
pub open spec fn fits(instr: Instr) -> bool {
    !(instr is CompressedLiteral) && instruction::fits(instr)
}

proof fn lemma_all_round_trip(list: Seq<Instr>, rest: Seq<u8>)
    requires
        forall|i: int| 0 <= i < list.len() ==> fits(#[trigger] list[i]),
    ensures
        all_decoded(instruction::all_bytes(list) + rest, list.len()) == Ok::<
            Seq<Instr>,
            PatchFormatError,
        >(list),
    decreases list.len(),
{
    if list.len() > 0 {
        let first = instruction::instr_bytes(list[0]);
        let tail = instruction::all_bytes(list.skip(1)) + rest;
        let data = instruction::all_bytes(list) + rest;
        assert(fits(list[0]));
        instruction::lemma_instr_round_trip(list[0], tail);
        lemma_all_round_trip(list.skip(1), rest);
        assert(data[0] == first[0]);
        assert(data.skip(1) =~= first.skip(1) + tail);
        assert(data.skip(first.len() as int) =~= tail);
        assert(seq![list[0]] + list.skip(1) =~= list);
    } else {
        assert(list =~= Seq::empty());
    }
}

/// Reading back a patch file gives the instructions that were written.
pub proof fn law_patch_file_round_trip(list: Seq<Instr>)
    requires
        list.len() <= u64::MAX,
        forall|i: int| 0 <= i < list.len() ==> fits(#[trigger] list[i]),
    ensures
        patch_instrs(instruction::patch_bytes(list)) == Ok::<Seq<Instr>, PatchFormatError>(list),
{
    let all = instruction::patch_bytes(list);
    bytes::lemma_le_bytes_len(list.len(), 8);
    bytes::lemma_le_ranges();
    bytes::lemma_le_round_trip(list.len(), 8);
    assert(all.subrange(0, 8) =~= bytes::le_bytes(list.len(), 8));
    assert(all.skip(8) =~= instruction::all_bytes(list) + Seq::<u8>::empty());
    lemma_all_round_trip(list, Seq::empty());
}

impl PatchInstruction {
    /// The instruction as a file holds it.
    pub fn to_bytes(&self) -> (res: Vec<u8>)
        ensures
            res@ == instruction::instr_bytes(self@),
    {
        let mut res: Vec<u8> = Vec::new();
        match self {
            PatchInstruction::Copy(index, length) => {
                res.push(instruction::TAG_COPY);
                bytes::push_u64(&mut res, *index);
                bytes::push_u64(&mut res, *length as u64);
            },
            PatchInstruction::Literal(data) => {
                res.push(instruction::TAG_LITERAL);
                bytes::push_u64(&mut res, data.len() as u64);
                bytes::push_all(&mut res, data.as_slice());
            },
        }
        assert(res@ =~= instruction::instr_bytes(self@));
        res
    }

    /// The instruction whose tag was read, out of the bytes behind the tag, and how many of
    /// them it takes.
    pub fn from_bytes(tag: u8, data: &[u8]) -> (res: Result<(Self, usize), PatchFormatError>)
        ensures
            match res {
                Ok((instruction, used)) => decoded(tag, data@) == Ok::<
                    (Instr, nat),
                    PatchFormatError,
                >((instruction@, used as nat)),
                Err(e) => decoded(tag, data@) == Err::<(Instr, nat), PatchFormatError>(e),
            },
    {
        if tag == TAG_COMPRESSED_LITERAL {
            return Err(PatchFormatError::UnknownTag(tag));
        }
        match instruction::PatchInstruction::from_bytes(tag, data) {
            Err(e) => Err(e),
            Ok((found, used)) => match found {
                instruction::PatchInstruction::Copy(index, length) => Ok(
                    (PatchInstruction::Copy(index, length), used),
                ),
                instruction::PatchInstruction::Literal(data) => Ok(
                    (PatchInstruction::Literal(data), used),
                ),
                _ => Err(PatchFormatError::UnknownTag(tag)),
            },
        }
    }
}

/// The patch file that holds `instructions`.
pub fn write_patch_file(instructions: &[PatchInstruction]) -> (file: Vec<u8>)
    ensures
        file@ == instruction::patch_bytes(instrs(instructions@)),
{
    let mut file: Vec<u8> = Vec::new();
    bytes::push_u64(&mut file, instructions.len() as u64);
    let ghost all = instrs(instructions@);
    assert(all.skip(0) =~= all);
    assert(file@ + instruction::all_bytes(all) =~= instruction::patch_bytes(all));
    let mut i: usize = 0;
    while i < instructions.len()
        invariant
            i <= instructions@.len(),
            all == instrs(instructions@),
            file@ + instruction::all_bytes(all.skip(i as int)) == instruction::patch_bytes(all),
        decreases instructions@.len() - i,
    {
        let ghost before = file@;
        let one: Vec<u8> = instructions[i].to_bytes();
        bytes::push_all(&mut file, one.as_slice());
        proof {
            assert(all.skip(i as int).skip(1) =~= all.skip(i + 1));
            assert(before + (one@ + instruction::all_bytes(all.skip(i + 1))) =~= file@
                + instruction::all_bytes(all.skip(i + 1)));
        }
        i = i + 1;
    }
    assert(file@ + instruction::all_bytes(all.skip(i as int)) =~= file@);
    file
}

/// The instructions in a patch file.
pub fn read_patch_file(file: &[u8]) -> (res: Result<Vec<PatchInstruction>, PatchFormatError>)
    ensures
        match res {
            Ok(list) => patch_instrs(file@) == Ok::<Seq<Instr>, PatchFormatError>(instrs(list@)),
            Err(e) => patch_instrs(file@) == Err::<Seq<Instr>, PatchFormatError>(e),
        },
{
    let size: usize = file.len();
    if size < 8 {
        return Err(PatchFormatError::UnexpectedEof);
    }
    let count: u64 = bytes::read_u64(file, 0);
    let mut list: Vec<PatchInstruction> = Vec::new();
    let mut at: usize = 8;
    let mut i: u64 = 0;
    proof {
        let all = all_decoded(file@.skip(8), count as nat);
        if all is Ok {
            assert(instrs(list@) + all->Ok_0 =~= all->Ok_0);
        }
    }
    while i < count
        invariant
            i <= count,
            8 <= at <= size == file@.len(),
            patch_instrs(file@) == instruction::prepend(
                instrs(list@),
                all_decoded(file@.skip(at as int), (count - i) as nat),
            ),
        decreases count - i,
    {
        if at == size {
            return Err(PatchFormatError::UnexpectedEof);
        }
        let tag: u8 = file[at];
        let rest: &[u8] = vstd::slice::slice_subrange(file, at + 1, size);
        let ghost data = file@.skip(at as int);
        assert(rest@ =~= data.skip(1));
        match PatchInstruction::from_bytes(tag, rest) {
            Err(e) => {
                return Err(e);
            },
            Ok((instruction, used)) => {
                let ghost before = instrs(list@);
                let ghost shown = instruction@;
                list.push(instruction);
                proof {
                    let tail = all_decoded(data.skip(1 + used as int), (count - i - 1) as nat);
                    assert(instrs(list@) =~= before.push(shown));
                    assert(data.skip(1 + used as int) =~= file@.skip(at + 1 + used));
                    if tail is Ok {
                        assert(before + (seq![shown] + tail->Ok_0) =~= instrs(list@) + tail->Ok_0);
                    }
                }
                at = at + 1 + used;
                i = i + 1;
            },
        }
    }
    assert(instrs(list@) + Seq::<Instr>::empty() =~= instrs(list@));
    Ok(list)
}

proof fn lemma_part_of_list(list: Seq<Instr>, m: int)
    requires
        forall|i: int| 0 <= i < list.len() ==> fits(#[trigger] list[i]),
        0 <= m < instruction::all_bytes(list).len(),
    ensures
        all_decoded(instruction::all_bytes(list).take(m), list.len()) == Err::<
            Seq<Instr>,
            PatchFormatError,
        >(PatchFormatError::UnexpectedEof),
    decreases list.len(),
{
    let all = instruction::all_bytes(list);
    let part = all.take(m);
    let first = instruction::instr_bytes(list[0]);
    let tail = instruction::all_bytes(list.skip(1));
    assert(fits(list[0]));
    if m > 0 {
        assert(part[0] == first[0]);
        if m < first.len() {
            instruction::lemma_part_of_instruction(list[0], m - 1);
            assert(part.skip(1) =~= first.skip(1).take(m - 1));
        } else {
            let left = tail.take(m - first.len());
            instruction::lemma_instr_round_trip(list[0], left);
            assert(part.skip(1) =~= first.skip(1) + left);
            assert(part.skip(first.len() as int) =~= left);
            lemma_part_of_list(list.skip(1), m - first.len());
        }
    }
}

/// A patch file that ends before its last instruction does is refused as a whole.
pub proof fn law_part_of_patch_file_is_refused(list: Seq<Instr>, m: int)
    requires
        list.len() <= u64::MAX,
        forall|i: int| 0 <= i < list.len() ==> fits(#[trigger] list[i]),
        0 <= m < instruction::patch_bytes(list).len(),
    ensures
        patch_instrs(instruction::patch_bytes(list).take(m)) == Err::<Seq<Instr>, PatchFormatError>(
            PatchFormatError::UnexpectedEof,
        ),
{
    let all = instruction::patch_bytes(list);
    let part = all.take(m);
    bytes::lemma_le_bytes_len(list.len(), 8);
    bytes::lemma_le_ranges();
    bytes::lemma_le_round_trip(list.len(), 8);
    if m >= 8 {
        assert(part.subrange(0, 8) =~= bytes::le_bytes(list.len(), 8));
        assert(part.skip(8) =~= instruction::all_bytes(list).take(m - 8));
        lemma_part_of_list(list, m - 8);
    }
}

proof fn lemma_unknown_tag(list: Seq<Instr>, tag: u8, rest: Seq<u8>, count: nat)
    requires
        forall|i: int| 0 <= i < list.len() ==> fits(#[trigger] list[i]),
        !(1 <= tag <= 2),
        list.len() < count,
    ensures
        all_decoded(instruction::all_bytes(list) + seq![tag] + rest, count) == Err::<
            Seq<Instr>,
            PatchFormatError,
        >(PatchFormatError::UnknownTag(tag)),
    decreases list.len(),
{
    let data = instruction::all_bytes(list) + seq![tag] + rest;
    if list.len() == 0 {
        assert(data[0] == tag);
    } else {
        let first = instruction::instr_bytes(list[0]);
        let tail = instruction::all_bytes(list.skip(1)) + seq![tag] + rest;
        assert(fits(list[0]));
        instruction::lemma_instr_round_trip(list[0], tail);
        lemma_unknown_tag(list.skip(1), tag, rest, (count - 1) as nat);
        assert(data[0] == first[0]);
        assert(data.skip(1) =~= first.skip(1) + tail);
        assert(data.skip(first.len() as int) =~= tail);
    }
}

/// A patch file with a tag that stands for nothing in this variant, where an instruction should
/// start, is refused as a whole; the tag of a frame is one.
pub proof fn law_unknown_tag_is_refused(list: Seq<Instr>, tag: u8, rest: Seq<u8>, count: u64)
    requires
        forall|i: int| 0 <= i < list.len() ==> fits(#[trigger] list[i]),
        tag == 0 || tag > 2,
        list.len() < count,
    ensures
        patch_instrs(
            bytes::le_bytes(count as nat, 8) + (instruction::all_bytes(list) + seq![tag] + rest),
        ) == Err::<Seq<Instr>, PatchFormatError>(PatchFormatError::UnknownTag(tag)),
{
    let data = instruction::all_bytes(list) + seq![tag] + rest;
    let file = bytes::le_bytes(count as nat, 8) + data;
    bytes::lemma_le_bytes_len(count as nat, 8);
    bytes::lemma_le_ranges();
    bytes::lemma_le_round_trip(count as nat, 8);
    assert(file.subrange(0, 8) =~= bytes::le_bytes(count as nat, 8));
    assert(file.skip(8) =~= data);
    lemma_unknown_tag(list, tag, rest, count as nat);
}

/// What is known of an instruction is what it holds, and a list is known one by one.
pub proof fn law_instructions_are_known(instructions: Seq<PatchInstruction>, i: int)
    requires
        0 <= i < instructions.len(),
    ensures
        instrs(instructions).len() == instructions.len(),
        instrs(instructions)[i] == match instructions[i] {
            PatchInstruction::Copy(index, length) => Instr::Copy { offset: index, length },
            PatchInstruction::Literal(data) => Instr::Literal { data: data@ },
        },
{
}

} // verus!
