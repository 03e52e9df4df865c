//! Applying the instructions of the fixed-size variant.

use vstd::prelude::*;
pub use crate::assembly::PatchStats;
use crate::assembly;
use crate::assembly::Assembly;
use crate::bytes;
use crate::fixed::instruction;
use crate::fixed::instruction::PatchInstruction;
use crate::fixed::signature::CHUNK_SIZE;
use crate::instruction::{Instr, PatchFormatError};

verus! {

/// How the old file is at hand, which decides what becomes of a copy at or behind its end.
#[derive(Clone, Copy, Debug, PartialEq, Eq, Structural)]
pub enum Reading {
    /// As a whole: the range has to end within the file.
    Whole,
    /// As a whole, and the chunk has to start within the file too.
    Checked,
    /// In reads: nothing is read, and nothing can fail, for a range of no bytes.
    Streamed,
}

/// Why an instruction cannot be carried out.
#[derive(Clone, Copy, Debug, PartialEq, Eq, Structural)]
pub enum PatchError {
    /// A copy names a chunk that the old file does not have.
    ChunkOutOfBounds { index: u64 },
    /// A copy reaches behind the end of the old file.
    RangeOutOfBounds { index: u64, length: usize },
}

/// Where a chunk starts.
pub open spec fn chunk_start(index: u64) -> int {
    index * CHUNK_SIZE
}

/// What one instruction appends; compressed literals do not occur in this variant.
pub open spec fn produced(mode: Reading, old_data: Seq<u8>, instr: Instr) -> Result<
    Seq<u8>,
    PatchError,
> {
    match instr {
        Instr::Copy { offset: index, length } => {
            let start = chunk_start(index);
            if mode == Reading::Streamed && length == 0 {
                Ok(Seq::empty())
            } else if mode == Reading::Checked && start >= old_data.len() {
                Err(PatchError::ChunkOutOfBounds { index })
            } else if start + length > old_data.len() {
                Err(PatchError::RangeOutOfBounds { index, length })
            } else {
                Ok(old_data.subrange(start, start + length))
            }
        },
        Instr::Literal { data } => Ok(data),
        Instr::CompressedLiteral { .. } => Ok(Seq::empty()),
    }
}

/// One result behind another; the first error stands.
pub open spec fn joined(
    front: Result<Seq<u8>, PatchError>,
    back: Result<Seq<u8>, PatchError>,
) -> Result<Seq<u8>, PatchError> {
    match (front, back) {
        (Err(e), _) => Err(e),
        (Ok(_), Err(e)) => Err(e),
        (Ok(a), Ok(b)) => Ok(a + b),
    }
}

/// The file that instructions make out of an old one, or the first error among them.
pub open spec fn applied(mode: Reading, old_data: Seq<u8>, list: Seq<Instr>) -> Result<
    Seq<u8>,
    PatchError,
>
    decreases list.len(),
{
    if list.len() == 0 {
        Ok(Seq::empty())
    } else {
        joined(applied(mode, old_data, list.drop_last()), produced(mode, old_data, list.last()))
    }
}

pub proof fn lemma_applied_concat(
    mode: Reading,
    old_data: Seq<u8>,
    front: Seq<Instr>,
    back: Seq<Instr>,
)
    ensures
        applied(mode, old_data, front + back) == joined(applied(mode, old_data, front), applied(mode, old_data, back)),
    decreases back.len(),
{
    let all = front + back;
    if back.len() == 0 {
        assert(all =~= front);
        if applied(mode, old_data, front) is Ok {
            let out = applied(mode, old_data, front)->Ok_0;
            assert(out + Seq::<u8>::empty() =~= out);
        }
    } else {
        lemma_applied_concat(mode, old_data, front, back.drop_last());
        assert(all.drop_last() =~= front + back.drop_last());
        let a = applied(mode, old_data, front);
        let b = applied(mode, old_data, back.drop_last());
        let c = produced(mode, old_data, back.last());
        if a is Ok && b is Ok && c is Ok {
            assert((a->Ok_0 + b->Ok_0) + c->Ok_0 =~= a->Ok_0 + (b->Ok_0 + c->Ok_0));
        }
    }
}

pub proof fn lemma_applied_one(mode: Reading, old_data: Seq<u8>, instr: Instr)
    ensures
        applied(mode, old_data, seq![instr]) == produced(mode, old_data, instr),
{
    let one = seq![instr];
    assert(one.drop_last() =~= Seq::empty());
    reveal_with_fuel(applied, 2);
    if produced(mode, old_data, instr) is Ok {
        let out = produced(mode, old_data, instr)->Ok_0;
        assert(Seq::<u8>::empty() + out =~= out);
    }
}

/// Why a patch cannot be applied.
#[derive(Clone, Copy, Debug, PartialEq, Eq, Structural)]
pub enum ApplyError {
    /// The patch file cannot be read.
    Format(PatchFormatError),
    /// An instruction cannot be carried out.
    Instruction(PatchError),
}

/// The file that a patch file makes out of an old one.
pub open spec fn patched(mode: Reading, old_data: Seq<u8>, patch_file: Seq<u8>) -> Result<
    Seq<u8>,
    ApplyError,
> {
    match instruction::patch_instrs(patch_file) {
        Err(e) => Err(ApplyError::Format(e)),
        Ok(list) => match applied(mode, old_data, list) {
            Err(e) => Err(ApplyError::Instruction(e)),
            Ok(out) => Ok(out),
        },
    }
}

/// Applying a patch file is applying the instructions that were written to it.
pub proof fn law_patch_file_applies(mode: Reading, old_data: Seq<u8>, list: Seq<Instr>)
    requires
        list.len() <= u64::MAX,
        forall|i: int| 0 <= i < list.len() ==> instruction::fits(#[trigger] list[i]),
    ensures
        patched(mode, old_data, crate::instruction::patch_bytes(list)) == match applied(
            mode,
            old_data,
            list,
        ) {
            Ok(out) => Ok::<Seq<u8>, ApplyError>(out),
            Err(e) => Err::<Seq<u8>, ApplyError>(ApplyError::Instruction(e)),
        },
{
    instruction::law_patch_file_round_trip(list);
}

/// A patch file that cannot be read is not applied.
pub proof fn law_bad_patch_file_is_refused(
    mode: Reading,
    old_data: Seq<u8>,
    patch_file: Seq<u8>,
    error: PatchFormatError,
)
    requires
        instruction::patch_instrs(patch_file) == Err::<Seq<Instr>, PatchFormatError>(error),
    ensures
        patched(mode, old_data, patch_file) == Err::<Seq<u8>, ApplyError>(
            ApplyError::Format(error),
        ),
{
}

/// Statistics with one more instruction, carried out or not.
pub open spec fn counted(
    mode: Reading,
    stats: PatchStats,
    old_data: Seq<u8>,
    instr: Instr,
) -> PatchStats {
    match produced(mode, old_data, instr) {
        Err(_) => assembly::with_begun(stats),
        Ok(out) => if instr is Copy {
            assembly::with_copy(assembly::with_begun(stats), out.len())
        } else {
            assembly::with_literal(assembly::with_begun(stats), out.len())
        },
    }
}

/// Statistics with the instructions of a list up to the first that cannot be carried out.
pub open spec fn all_counted(
    mode: Reading,
    stats: PatchStats,
    old_data: Seq<u8>,
    list: Seq<Instr>,
) -> PatchStats
    decreases list.len(),
{
    if list.len() == 0 {
        stats
    } else {
        let before = all_counted(mode, stats, old_data, list.drop_last());
        if applied(mode, old_data, list.drop_last()) is Ok {
            counted(mode, before, old_data, list.last())
        } else {
            before
        }
    }
}

/// What the instructions of a list make up to the first that cannot be carried out.
pub open spec fn salvaged(mode: Reading, old_data: Seq<u8>, list: Seq<Instr>) -> Seq<u8>
    decreases list.len(),
{
    match applied(mode, old_data, list) {
        Ok(out) => out,
        Err(_) => if list.len() == 0 {
            Seq::empty()
        } else {
            salvaged(mode, old_data, list.drop_last())
        },
    }
}

/// Behind an error nothing more happens.
pub proof fn lemma_stops_at(
    mode: Reading,
    old_data: Seq<u8>,
    stats: PatchStats,
    list: Seq<Instr>,
    n: int,
)
    requires
        0 <= n <= list.len(),
        applied(mode, old_data, list.take(n)) is Err,
    ensures
        applied(mode, old_data, list) == applied(mode, old_data, list.take(n)),
        salvaged(mode, old_data, list) == salvaged(mode, old_data, list.take(n)),
        all_counted(mode, stats, old_data, list) == all_counted(
            mode,
            stats,
            old_data,
            list.take(n),
        ),
    decreases list.len(),
{
    if n < list.len() {
        assert(list.drop_last().take(n) =~= list.take(n));
        lemma_stops_at(mode, old_data, stats, list.drop_last(), n);
    } else {
        assert(list.take(n) =~= list);
    }
}

/// Instructions can be carried out exactly where the range of every copy, from 4096 times its index
/// on, lies within the old file; a copy of nothing can, where the old file is read in steps, and
/// has to start before its end, where that is checked.
pub proof fn law_when_instructions_apply(mode: Reading, old_data: Seq<u8>, list: Seq<Instr>)
    ensures
        applied(mode, old_data, list) is Ok <==> forall|n: int|
            0 <= n < list.len() ==> match #[trigger] list[n] {
                Instr::Copy { offset: index, length } => {
                    ||| mode == Reading::Streamed && length == 0
                    ||| 4096 * index + length <= old_data.len() && (mode == Reading::Checked
                        ==> 4096 * index < old_data.len())
                },
                _ => true,
            },
    decreases list.len(),
{
    if list.len() > 0 {
        let front = list.drop_last();
        law_when_instructions_apply(mode, old_data, front);
        let last = list[list.len() - 1];
        if applied(mode, old_data, list) is Ok {
            assert forall|n: int| 0 <= n < list.len() implies match #[trigger] list[n] {
                Instr::Copy { offset: index, length } => {
                    ||| mode == Reading::Streamed && length == 0
                    ||| 4096 * index + length <= old_data.len() && (mode == Reading::Checked
                        ==> 4096 * index < old_data.len())
                },
                _ => true,
            } by {
                if n < front.len() {
                    assert(front[n] == list[n]);
                }
            }
        } else if applied(mode, old_data, front) is Err {
            let n = choose|n: int|
                0 <= n < front.len() && !(match #[trigger] front[n] {
                    Instr::Copy { offset: index, length } => {
                        ||| mode == Reading::Streamed && length == 0
                        ||| 4096 * index + length <= old_data.len() && (mode == Reading::Checked
                            ==> 4096 * index < old_data.len())
                    },
                    _ => true,
                });
            assert(front[n] == list[n]);
        }
    }
}

/// What instructions make, one after the other: a copy makes what the old file holds from the
/// start of its chunk on, and a literal its bytes.
pub proof fn law_what_instructions_make(
    mode: Reading,
    old_data: Seq<u8>,
    list: Seq<Instr>,
    n: int,
)
    requires
        applied(mode, old_data, list) is Ok,
        forall|i: int| 0 <= i < list.len() ==> !(#[trigger] list[i] is CompressedLiteral),
        0 <= n < list.len(),
    ensures
        ({
            let out = applied(mode, old_data, list)->Ok_0;
            let from = crate::instruction::total_len(list.take(n)) as int;
            let to = crate::instruction::total_len(list.take(n + 1)) as int;
            &&& out.len() == crate::instruction::total_len(list)
            &&& 0 <= from <= to <= out.len()
            &&& match list[n] {
                Instr::Copy { offset: index, length } => to - from == length && (length > 0
                    ==> out.subrange(from, to) == old_data.subrange(
                    4096 * index,
                    4096 * index + length,
                )),
                Instr::Literal { data } => out.subrange(from, to) == data,
                Instr::CompressedLiteral { .. } => false,
            }
        }),
    decreases list.len(),
{
    let front = list.drop_last();
    let out = applied(mode, old_data, list)->Ok_0;
    let before = applied(mode, old_data, front)->Ok_0;
    let last = produced(mode, old_data, list.last())->Ok_0;
    assert forall|i: int| 0 <= i < front.len() implies !(#[trigger] front[i]
        is CompressedLiteral) by {
        assert(front[i] == list[i]);
    }
    assert(!(list[list.len() - 1] is CompressedLiteral));
    lemma_applied_len(mode, old_data, front);
    lemma_applied_len(mode, old_data, list);
    assert(out == before + last);
    if n < list.len() - 1 {
        law_what_instructions_make(mode, old_data, front, n);
        assert(front.take(n) =~= list.take(n));
        assert(front.take(n + 1) =~= list.take(n + 1));
        let from = crate::instruction::total_len(list.take(n)) as int;
        let to = crate::instruction::total_len(list.take(n + 1)) as int;
        assert(out.subrange(from, to) =~= before.subrange(from, to));
    } else {
        assert(list.take(n) =~= front);
        assert(list.take(n + 1) =~= list);
        assert(out.subrange(before.len() as int, out.len() as int) =~= last);
    }
}

proof fn lemma_applied_len(mode: Reading, old_data: Seq<u8>, list: Seq<Instr>)
    requires
        applied(mode, old_data, list) is Ok,
        forall|i: int| 0 <= i < list.len() ==> !(#[trigger] list[i] is CompressedLiteral),
    ensures
        applied(mode, old_data, list)->Ok_0.len() == crate::instruction::total_len(list),
    decreases list.len(),
{
    if list.len() > 0 {
        let front = list.drop_last();
        assert forall|i: int| 0 <= i < front.len() implies !(#[trigger] front[i]
            is CompressedLiteral) by {
            assert(front[i] == list[i]);
        }
        assert(!(list[list.len() - 1] is CompressedLiteral));
        lemma_applied_len(mode, old_data, front);
    }
}

/// Where instructions cannot be carried out, the first that cannot be is a copy and says why, and
/// what those before it make is what is there.
pub proof fn law_first_bad_instruction(mode: Reading, old_data: Seq<u8>, list: Seq<Instr>) -> (n: int)
    requires
        applied(mode, old_data, list) is Err,
    ensures
        0 <= n < list.len(),
        applied(mode, old_data, list.take(n)) == Ok::<Seq<u8>, PatchError>(
            salvaged(mode, old_data, list),
        ),
        list[n] matches Instr::Copy { offset: index, length } && (4096 * index + length
            > old_data.len() || mode == Reading::Checked && 4096 * index >= old_data.len())
            && applied(mode, old_data, list) == Err::<Seq<u8>, PatchError>(
            if mode == Reading::Checked && 4096 * index >= old_data.len() {
                PatchError::ChunkOutOfBounds { index }
            } else {
                PatchError::RangeOutOfBounds { index, length }
            },
        ),
    decreases list.len(),
{
    let front = list.drop_last();
    assert(list.len() > 0);
    if applied(mode, old_data, front) is Err {
        let n = law_first_bad_instruction(mode, old_data, front);
        assert(front.take(n) =~= list.take(n));
        n
    } else {
        reveal_with_fuel(salvaged, 2);
        let n = list.len() - 1;
        assert(list.take(n) =~= front);
        n
    }
}

/// Once all instructions have been carried out the statistics say how many there were of each
/// kind, and how many bytes each kind made; together they made the new file.
pub proof fn law_patch_statistics(mode: Reading, old_data: Seq<u8>, list: Seq<Instr>)
    requires
        applied(mode, old_data, list) is Ok,
        forall|i: int| 0 <= i < list.len() ==> !(#[trigger] list[i] is CompressedLiteral),
        list.len() <= usize::MAX,
        crate::instruction::total_len(list) <= usize::MAX,
    ensures
        ({
            let stats = all_counted(
                mode,
                PatchStats {
                    total_instructions: 0,
                    copy_instructions: 0,
                    literal_instructions: 0,
                    bytes_written: 0,
                    bytes_copied: 0,
                    bytes_literal: 0,
                },
                old_data,
                list,
            );
            let is_copy = |i: Instr| i is Copy;
            let is_literal = |i: Instr| !(i is Copy);
            &&& stats.total_instructions == list.len()
            &&& stats.copy_instructions == list.filter(is_copy).len()
            &&& stats.literal_instructions == list.filter(is_literal).len()
            &&& stats.bytes_written == applied(mode, old_data, list)->Ok_0.len()
            &&& stats.bytes_copied == crate::instruction::total_len(list.filter(is_copy))
            &&& stats.bytes_literal == crate::instruction::total_len(list.filter(is_literal))
        }),
    decreases list.len(),
{
    let is_copy = |i: Instr| i is Copy;
    let is_literal = |i: Instr| !(i is Copy);
    reveal(Seq::filter);
    crate::instruction::lemma_kinds_add_up(list);
    lemma_applied_len(mode, old_data, list);
    if list.len() > 0 {
        let front = list.drop_last();
        assert forall|i: int| 0 <= i < front.len() implies !(#[trigger] front[i]
            is CompressedLiteral) by {
            assert(front[i] == list[i]);
        }
        assert(!(list[list.len() - 1] is CompressedLiteral));
        law_patch_statistics(mode, old_data, front);
        lemma_applied_len(mode, old_data, front);
        crate::instruction::lemma_kinds_add_up(front);
        let copies = front.filter(is_copy);
        let literals = front.filter(is_literal);
        assert(copies.push(list.last()).drop_last() =~= copies);
        assert(literals.push(list.last()).drop_last() =~= literals);
    }
}

/// Where a range of the old file starts, where it lies within `size` bytes.
pub fn locate(index: u64, length: usize, size: usize) -> (res: Option<usize>)
    ensures
        match res {
            Some(start) => start == chunk_start(index) && start + length <= size,
            None => chunk_start(index) + length > size,
        },
{
    if length > size {
        return None;
    }
    if index > ((size - length) / CHUNK_SIZE) as u64 {
        return None;
    }
    Some(index as usize * CHUNK_SIZE)
}

/// Applies instructions to an old file that is at hand.
pub struct PatchBuilder {
    old_file_data: Vec<u8>,
    output: Vec<u8>,
    stats: PatchStats,
}

impl PatchBuilder {
    pub closed spec fn old_data(&self) -> Seq<u8> {
        self.old_file_data@
    }

    /// What has been made so far.
    pub closed spec fn made(&self) -> Seq<u8> {
        self.output@
    }

    pub closed spec fn spec_stats(&self) -> PatchStats {
        self.stats
    }

    pub closed spec fn wf(&self) -> bool {
        &&& assembly::adds_up(self.stats)
        &&& self.stats.bytes_written == self.output@.len()
    }

    pub fn new(old_file_data: Vec<u8>) -> (res: Self)
        ensures
            res.wf(),
            res.old_data() == old_file_data@,
            res.made() == Seq::<u8>::empty(),
            res.spec_stats() == assembly::no_patch_stats(),
    {
        PatchBuilder { old_file_data, output: Vec::new(), stats: PatchStats::new() }
    }

    fn process_copy(&mut self, index: u64, length: usize) -> (res: Result<(), PatchError>)
        requires
            old(self).wf(),
            old(self).stats.copy_instructions + old(self).stats.literal_instructions
                < old(self).stats.total_instructions,
        ensures
            final(self).wf(),
            final(self).old_data() == old(self).old_data(),
            match produced(
                Reading::Checked,
                old(self).old_data(),
                Instr::Copy { offset: index, length },
            ) {
                Ok(out) => res is Ok && final(self).made() == old(self).made() + out
                    && final(self).stats == assembly::with_copy(old(self).stats, out.len()),
                Err(e) => res == Err::<(), PatchError>(e) && final(self).made() == old(self).made()
                    && final(self).stats == old(self).stats,
            },
    {
        let size: usize = self.old_file_data.len();
        match locate(index, 1, size) {
            Some(_) => {},
            None => {
                return Err(PatchError::ChunkOutOfBounds { index });
            },
        }
        match locate(index, length, size) {
            Some(start) => {
                let part: &[u8] = vstd::slice::slice_subrange(
                    self.old_file_data.as_slice(),
                    start,
                    start + length,
                );
                bytes::push_all(&mut self.output, part);
                let _total: usize = self.output.len();
                self.stats.record_copy(length);
                Ok(())
            },
            None => Err(PatchError::RangeOutOfBounds { index, length }),
        }
    }

    fn process_literal(&mut self, data: &[u8])
        requires
            old(self).wf(),
            old(self).stats.copy_instructions + old(self).stats.literal_instructions
                < old(self).stats.total_instructions,
        ensures
            final(self).wf(),
            final(self).old_data() == old(self).old_data(),
            final(self).made() == old(self).made() + data@,
            final(self).stats == assembly::with_literal(old(self).stats, data@.len()),
    {
        bytes::push_all(&mut self.output, data);
        let _total: usize = self.output.len();
        self.stats.record_literal(data.len());
    }

    /// Carries out an instruction. One that cannot be carried out is counted all the same, and
    /// makes nothing.
    pub fn apply_instruction(&mut self, instruction: &PatchInstruction) -> (res: Result<
        (),
        PatchError,
    >)
        requires
            old(self).wf(),
            old(self).spec_stats().total_instructions < usize::MAX,
        ensures
            final(self).wf(),
            final(self).old_data() == old(self).old_data(),
            final(self).spec_stats() == counted(
                Reading::Checked,
                old(self).spec_stats(),
                old(self).old_data(),
                instruction@,
            ),
            match produced(Reading::Checked, old(self).old_data(), instruction@) {
                Ok(out) => res is Ok && final(self).made() == old(self).made() + out,
                Err(e) => res == Err::<(), PatchError>(e) && final(self).made() == old(self).made(),
            },
    {
        self.stats.record_instruction();
        match instruction {
            PatchInstruction::Copy(index, length) => self.process_copy(*index, *length),
            PatchInstruction::Literal(data) => {
                self.process_literal(data.as_slice());
                Ok(())
            },
        }
    }

    /// Carries out instructions up to the first that cannot be.
    pub fn apply_instructions(&mut self, instructions: &[PatchInstruction]) -> (res: Result<
        (),
        PatchError,
    >)
        requires
            old(self).wf(),
            old(self).spec_stats().total_instructions + instructions@.len() <= usize::MAX,
        ensures
            final(self).wf(),
            final(self).old_data() == old(self).old_data(),
            ({
                let list = instruction::instrs(instructions@);
                let old_data = old(self).old_data();
                &&& final(self).made() == old(self).made() + salvaged(
                    Reading::Checked,
                    old_data,
                    list,
                )
                &&& final(self).spec_stats() == all_counted(
                    Reading::Checked,
                    old(self).spec_stats(),
                    old_data,
                    list,
                )
                &&& match applied(Reading::Checked, old_data, list) {
                    Ok(_) => res is Ok,
                    Err(e) => res == Err::<(), PatchError>(e),
                }
            }),
    {
        let ghost list = instruction::instrs(instructions@);
        let ghost old_data = self.old_data();
        let ghost mode = Reading::Checked;
        let mut i: usize = 0;
        proof {
            assert(list.take(0) =~= Seq::empty());
            assert(self.made() + Seq::<u8>::empty() =~= self.made());
        }
        while i < instructions.len()
            invariant
                i <= instructions@.len(),
                mode == Reading::Checked,
                list == instruction::instrs(instructions@),
                self.wf(),
                old_data == old(self).old_data(),
                old_data == self.old_data(),
                old(self).spec_stats().total_instructions + instructions@.len() <= usize::MAX,
                applied(mode, old_data, list.take(i as int)) is Ok,
                self.made() == old(self).made() + applied(
                    mode,
                    old_data,
                    list.take(i as int),
                )->Ok_0,
                self.spec_stats() == all_counted(
                    mode,
                    old(self).spec_stats(),
                    old_data,
                    list.take(i as int),
                ),
                self.spec_stats().total_instructions == old(self).spec_stats().total_instructions
                    + i,
            decreases instructions@.len() - i,
        {
            let ghost next = list.take(i + 1);
            proof {
                assert(next.drop_last() =~= list.take(i as int));
            }
            match self.apply_instruction(&instructions[i]) {
                Ok(()) => {
                    proof {
                        let done = applied(mode, old_data, list.take(i as int))->Ok_0;
                        let out = produced(mode, old_data, list[i as int])->Ok_0;
                        assert((old(self).made() + done) + out =~= old(self).made() + (done + out));
                    }
                },
                Err(e) => {
                    proof {
                        lemma_stops_at(mode, old_data, old(self).spec_stats(), list, i + 1);
                        reveal_with_fuel(salvaged, 2);
                    }
                    return Err(e);
                },
            }
            i = i + 1;
        }
        assert(list.take(i as int) =~= list);
        Ok(())
    }

    pub fn stats(&self) -> (res: &PatchStats)
        ensures
            *res == self.spec_stats(),
    {
        &self.stats
    }

    /// The file that was made, and how it came out.
    pub fn finalize(self) -> (res: (Vec<u8>, PatchStats))
        ensures
            res.0@ == self.made(),
            res.1 == self.spec_stats(),
    {
        (self.output, self.stats)
    }
}

/// Applies a patch file to an old file.
pub fn apply_patch(old_file_data: Vec<u8>, patch_file: &[u8]) -> (res: Result<
    (Vec<u8>, PatchStats),
    ApplyError,
>)
    ensures
        match res {
            Ok((out, stats)) => {
                &&& patched(Reading::Checked, old_file_data@, patch_file@) == Ok::<
                    Seq<u8>,
                    ApplyError,
                >(out@)
                &&& stats == all_counted(
                    Reading::Checked,
                    assembly::no_patch_stats(),
                    old_file_data@,
                    instruction::patch_instrs(patch_file@)->Ok_0,
                )
            },
            Err(e) => patched(Reading::Checked, old_file_data@, patch_file@) == Err::<
                Seq<u8>,
                ApplyError,
            >(e),
        },
{
    let instructions: Vec<PatchInstruction> = match instruction::read_patch_file(patch_file) {
        Ok(instructions) => instructions,
        Err(e) => {
            return Err(ApplyError::Format(e));
        },
    };
    let mut builder: PatchBuilder = PatchBuilder::new(old_file_data);
    let _count: usize = instructions.len();
    match builder.apply_instructions(instructions.as_slice()) {
        Ok(()) => {
            proof {
                let out = salvaged(
                    Reading::Checked,
                    old_file_data@,
                    instruction::instrs(instructions@),
                );
                assert(Seq::<u8>::empty() + out =~= out);
            }
            Ok(builder.finalize())
        },
        Err(e) => Err(ApplyError::Instruction(e)),
    }
}

/// What an instruction that fails leaves behind while the old file is read in steps: of a copy
/// what there is of its range, as far as a file can reach.
pub open spec fn left_behind(old_data: Seq<u8>, instr: Instr) -> Seq<u8> {
    match instr {
        Instr::Copy { offset, length } => if chunk_start(offset) + length > u64::MAX {
            Seq::empty()
        } else {
            assembly::tail_from(old_data, chunk_start(offset))
        },
        _ => Seq::empty(),
    }
}

/// What the instructions of a list make while the old file is read in steps: all up to the first
/// that cannot be carried out, and what that one leaves behind.
pub open spec fn streamed(old_data: Seq<u8>, list: Seq<Instr>) -> Seq<u8>
    decreases list.len(),
{
    if list.len() == 0 {
        Seq::empty()
    } else if applied(Reading::Streamed, old_data, list.drop_last()) is Err {
        streamed(old_data, list.drop_last())
    } else {
        applied(Reading::Streamed, old_data, list.drop_last())->Ok_0 + match produced(
            Reading::Streamed,
            old_data,
            list.last(),
        ) {
            Ok(out) => out,
            Err(_) => left_behind(old_data, list.last()),
        }
    }
}

/// While the old file is read in steps, instructions make what those before the first that cannot
/// be carried out make, and what that one leaves behind; where all can be, they make the new file.
pub proof fn law_streamed(old_data: Seq<u8>, list: Seq<Instr>) -> (n: int)
    ensures
        match applied(Reading::Streamed, old_data, list) {
            Ok(out) => streamed(old_data, list) == out,
            Err(_) => {
                &&& 0 <= n < list.len()
                &&& produced(Reading::Streamed, old_data, list[n]) is Err
                &&& applied(Reading::Streamed, old_data, list.take(n)) matches Ok(out)
                    && streamed(old_data, list) == out + left_behind(old_data, list[n])
            },
        },
    decreases list.len(),
{
    if applied(Reading::Streamed, old_data, list) is Ok {
        0
    } else {
        let front = list.drop_last();
        if applied(Reading::Streamed, old_data, front) is Err {
            let n = law_streamed(old_data, front);
            assert(front.take(n) =~= list.take(n));
            n
        } else {
            assert(list.take(list.len() - 1) =~= front);
            list.len() - 1
        }
    }
}

proof fn lemma_streamed(old_data: Seq<u8>, list: Seq<Instr>)
    requires
        applied(Reading::Streamed, old_data, list) is Ok,
    ensures
        applied(Reading::Streamed, old_data, list) == Ok::<Seq<u8>, PatchError>(
            streamed(old_data, list),
        ),
{
}

proof fn lemma_streamed_stops_at(old_data: Seq<u8>, list: Seq<Instr>, n: int)
    requires
        0 <= n <= list.len(),
        applied(Reading::Streamed, old_data, list.take(n)) is Err,
    ensures
        streamed(old_data, list) == streamed(old_data, list.take(n)),
    decreases list.len(),
{
    if n < list.len() {
        assert(list.drop_last().take(n) =~= list.take(n));
        lemma_stops_at(
            Reading::Streamed,
            old_data,
            assembly::no_patch_stats(),
            list.drop_last(),
            n,
        );
        lemma_streamed_stops_at(old_data, list.drop_last(), n);
    } else {
        assert(list.take(n) =~= list);
    }
}

/// While the old file is read in steps, a copy that reaches behind its end leaves behind what the
/// file holds of its range; one that no file could hold leaves nothing behind, and nor does
/// anything else that fails.
pub proof fn law_what_is_left_behind(old_data: Seq<u8>, instr: Instr)
    ensures
        left_behind(old_data, instr) == match instr {
            Instr::Copy { offset, length } => if 4096 * offset + length <= u64::MAX && 4096 * offset
                <= old_data.len() {
                old_data.subrange(4096 * offset, old_data.len() as int)
            } else {
                Seq::empty()
            },
            _ => Seq::empty(),
        },
{
    if let Instr::Copy { offset, length } = instr {
        if 4096 * offset <= old_data.len() {
            assert(old_data.skip(4096 * offset) =~= old_data.subrange(
                4096 * offset,
                old_data.len() as int,
            ));
        }
    }
}

/// Applies instructions while the old file is read in small steps and what is made is taken
/// away. A copy waits for the reads that `next_read` asks for.
pub struct StreamingPatchBuilder {
    assembly: Assembly,
    index: u64,
}

impl StreamingPatchBuilder {
    /// The file in the making.
    pub closed spec fn assembly(&self) -> Assembly {
        self.assembly
    }

    /// The chunk that the range in hand starts with.
    pub closed spec fn index(&self) -> u64 {
        self.index
    }

    pub closed spec fn wf(&self) -> bool {
        self.assembly.wf()
    }

    pub fn new() -> (res: Self)
        ensures
            res.wf(),
            res.assembly().made() == Seq::<u8>::empty(),
            res.assembly().waiting() == Seq::<u8>::empty(),
            res.assembly().remaining() == 0,
            res.assembly().stats() == assembly::no_patch_stats(),
    {
        StreamingPatchBuilder { assembly: Assembly::new(), index: 0 }
    }

    /// Whether another instruction, and what it appends at once, can still be counted.
    pub fn can_take(&self, instruction: &PatchInstruction) -> (res: bool)
        requires
            self.wf(),
        ensures
            res == (self.assembly().stats().total_instructions < usize::MAX
                && self.assembly().made().len() + crate::patch::direct_len(instruction@)
                <= usize::MAX),
    {
        let length: usize = match instruction {
            PatchInstruction::Copy(_, _) => 0,
            PatchInstruction::Literal(data) => data.len(),
        };
        self.assembly.get_stats().total_instructions < usize::MAX && self.assembly.can_take(
            length,
        )
    }

    /// Whether so many bytes of the old file can still be counted.
    pub fn can_take_read(&self, count: usize) -> (res: bool)
        requires
            self.wf(),
        ensures
            res == (self.assembly().made().len() + count <= usize::MAX),
    {
        self.assembly.can_take(count)
    }

    /// Begins an instruction: literals are appended, a copy waits for its reads. A copy that
    /// would reach behind what any file can hold fails at once.
    pub fn apply_instruction(&mut self, instruction: &PatchInstruction) -> (res: Result<
        (),
        PatchError,
    >)
        requires
            old(self).wf(),
            old(self).assembly().remaining() == 0,
            old(self).assembly().stats().total_instructions < usize::MAX,
            old(self).assembly().has_room(crate::patch::direct_len(instruction@)),
        ensures
            final(self).wf(),
            ({
                let before = old(self).assembly();
                let after = final(self).assembly();
                match *instruction {
                    PatchInstruction::Copy(index, length) => if length > 0 && chunk_start(index)
                        + length > u64::MAX {
                        &&& res == Err::<(), PatchError>(
                            PatchError::RangeOutOfBounds { index, length },
                        )
                        &&& after.made() == before.made()
                        &&& after.waiting() == before.waiting()
                        &&& after.remaining() == 0
                        &&& after.stats() == assembly::with_begun(before.stats())
                    } else {
                        &&& res is Ok
                        &&& after.made() == before.made()
                        &&& after.waiting() == before.waiting()
                        &&& after.remaining() == length
                        &&& length > 0 ==> after.position() == chunk_start(index)
                            && after.copying() == length && final(self).index() == index
                            && after.stats() == assembly::with_begun(before.stats())
                        &&& length == 0 ==> after.stats() == assembly::with_copy(
                            assembly::with_begun(before.stats()),
                            0,
                        )
                    },
                    PatchInstruction::Literal(data) => {
                        &&& res is Ok
                        &&& after.made() == before.made() + data@
                        &&& after.waiting() == before.waiting() + data@
                        &&& after.remaining() == 0
                        &&& after.stats() == assembly::with_literal(
                            assembly::with_begun(before.stats()),
                            data@.len(),
                        )
                    },
                }
            }),
    {
        match instruction {
            PatchInstruction::Copy(index, length) => {
                if *length == 0 {
                    self.assembly.begin_copy(0, 0);
                    return Ok(());
                }
                let start: Option<u64> = index.checked_mul(CHUNK_SIZE as u64);
                match start {
                    Some(start) => {
                        if start.checked_add(*length as u64).is_some() {
                            self.index = *index;
                            self.assembly.begin_copy(start, *length);
                            return Ok(());
                        }
                    },
                    None => {},
                }
                self.assembly.begin_failed();
                Err(PatchError::RangeOutOfBounds { index: *index, length: *length })
            },
            PatchInstruction::Literal(data) => {
                self.assembly.append(data.as_slice());
                Ok(())
            },
        }
    }

    /// What to read of the old file next: from where, and how many bytes at most.
    pub fn next_read(&self) -> (res: Option<(u64, usize)>)
        ensures
            match res {
                Some((position, length)) => self.assembly().remaining() > 0 && position
                    == self.assembly().position() && length == (if self.assembly().remaining()
                    < assembly::READ_SIZE {
                    self.assembly().remaining()
                } else {
                    assembly::READ_SIZE
                }),
                None => self.assembly().remaining() == 0,
            },
    {
        self.assembly.next_read()
    }

    /// Takes what reading the old file gave; reading nothing means that the old file has ended
    /// inside the range, which is then given up.
    pub fn supply(&mut self, read: &[u8]) -> (res: Result<(), PatchError>)
        requires
            old(self).wf(),
            0 < old(self).assembly().remaining(),
            read@.len() <= old(self).assembly().remaining(),
            old(self).assembly().has_room(read@.len()),
        ensures
            final(self).wf(),
            final(self).index() == old(self).index(),
            ({
                let before = old(self).assembly();
                let after = final(self).assembly();
                &&& after.copying() == before.copying()
                &&& after.made() == before.made() + read@
                &&& after.waiting() == before.waiting() + read@
                &&& after.position() == before.position() + read@.len()
                &&& if read@.len() == 0 {
                    &&& res == Err::<(), PatchError>(
                        PatchError::RangeOutOfBounds {
                            index: old(self).index(),
                            length: before.copying(),
                        },
                    )
                    &&& after.remaining() == 0
                    &&& after.stats() == before.stats()
                } else {
                    &&& res is Ok
                    &&& after.remaining() == before.remaining() - read@.len()
                    &&& after.stats() == (if after.remaining() == 0 {
                        assembly::with_copy(before.stats(), before.copying() as nat)
                    } else {
                        before.stats()
                    })
                }
            }),
    {
        match self.assembly.supply(read) {
            Ok(()) => Ok(()),
            Err(_) => Err(
                PatchError::RangeOutOfBounds {
                    index: self.index,
                    length: self.assembly.get_copying(),
                },
            ),
        }
    }

    /// Takes away what has been made.
    pub fn take_output(&mut self) -> (res: Vec<u8>)
        requires
            old(self).wf(),
        ensures
            final(self).wf(),
            res@ == old(self).assembly().waiting(),
            final(self).index() == old(self).index(),
            ({
                let before = old(self).assembly();
                let after = final(self).assembly();
                &&& after.waiting() == Seq::<u8>::empty()
                &&& after.made() == before.made()
                &&& after.position() == before.position()
                &&& after.remaining() == before.remaining()
                &&& after.copying() == before.copying()
                &&& after.stats() == before.stats()
            }),
    {
        self.assembly.take_output()
    }

    pub fn stats(&self) -> (res: PatchStats)
        ensures
            res == self.assembly().stats(),
    {
        self.assembly.get_stats()
    }

    /// What is left to take away, and how it came out.
    pub fn finalize(self) -> (res: (Vec<u8>, PatchStats))
        requires
            self.wf(),
        ensures
            res.0@ == self.assembly().waiting(),
            res.1 == self.assembly().stats(),
    {
        let mut this: StreamingPatchBuilder = self;
        let stats: PatchStats = this.assembly.get_stats();
        (this.assembly.take_output(), stats)
    }

    /// Carries out an instruction on an old file that is at hand, read by read, while nothing is
    /// taken away.
    pub fn apply_to(&mut self, old_data: &[u8], instruction: &PatchInstruction) -> (res: Result<
        (),
        PatchError,
    >)
        requires
            old(self).wf(),
            old(self).assembly().remaining() == 0,
            old(self).assembly().stats().total_instructions < usize::MAX,
            old(self).assembly().made() == old(self).assembly().waiting(),
        ensures
            final(self).wf(),
            final(self).assembly().remaining() == 0,
            final(self).assembly().made() == final(self).assembly().waiting(),
            final(self).assembly().stats() == counted(
                Reading::Streamed,
                old(self).assembly().stats(),
                old_data@,
                instruction@,
            ),
            match produced(Reading::Streamed, old_data@, instruction@) {
                Ok(out) => {
                    &&& res is Ok
                    &&& final(self).assembly().made() == old(self).assembly().made() + out
                },
                Err(e) => {
                    &&& res == Err::<(), PatchError>(e)
                    &&& final(self).assembly().made() == old(self).assembly().made()
                        + left_behind(old_data@, instruction@)
                },
            },
    {
        let _size: usize = old_data.len();
        let begun: Result<(), PatchError> = self.apply_instruction(instruction);
        proof {
            let none = Seq::<u8>::empty();
            assert(old(self).assembly().made() + none =~= old(self).assembly().made());
            assert(old(self).assembly().waiting() + none =~= old(self).assembly().waiting());
        }
        if begun.is_ok() && self.assembly.next_read().is_some() {
            let length: usize = self.assembly.get_copying();
            match self.assembly.copy_from(old_data) {
                Ok(()) => Ok(()),
                Err(_) => Err(PatchError::RangeOutOfBounds { index: self.index, length }),
            }
        } else {
            begun
        }
    }

    /// Carries out instructions on an old file that is at hand, read by read, up to the first
    /// that cannot be, while nothing is taken away.
    pub fn apply_instructions(&mut self, old_data: &[u8], instructions: &[PatchInstruction]) -> (
        res: Result<(), PatchError>)
        requires
            old(self).wf(),
            old(self).assembly().remaining() == 0,
            old(self).assembly().made() == old(self).assembly().waiting(),
            old(self).assembly().stats().total_instructions + instructions@.len() <= usize::MAX,
        ensures
            final(self).wf(),
            final(self).assembly().remaining() == 0,
            final(self).assembly().made() == final(self).assembly().waiting(),
            ({
                let list = instruction::instrs(instructions@);
                &&& final(self).assembly().made() == old(self).assembly().made() + streamed(
                    old_data@,
                    list,
                )
                &&& final(self).assembly().stats() == all_counted(
                    Reading::Streamed,
                    old(self).assembly().stats(),
                    old_data@,
                    list,
                )
                &&& match applied(Reading::Streamed, old_data@, list) {
                    Ok(_) => res is Ok,
                    Err(e) => res == Err::<(), PatchError>(e),
                }
            }),
    {
        let ghost list = instruction::instrs(instructions@);
        let ghost mode = Reading::Streamed;
        let ghost first = self.assembly();
        let mut i: usize = 0;
        proof {
            assert(list.take(0) =~= Seq::empty());
            assert(first.made() + Seq::<u8>::empty() =~= first.made());
        }
        while i < instructions.len()
            invariant
                i <= instructions@.len(),
                mode == Reading::Streamed,
                list == instruction::instrs(instructions@),
                first == old(self).assembly(),
                self.wf(),
                self.assembly().remaining() == 0,
                self.assembly().made() == self.assembly().waiting(),
                first.stats().total_instructions + instructions@.len() <= usize::MAX,
                applied(mode, old_data@, list.take(i as int)) is Ok,
                self.assembly().made() == first.made() + applied(
                    mode,
                    old_data@,
                    list.take(i as int),
                )->Ok_0,
                self.assembly().stats() == all_counted(
                    mode,
                    first.stats(),
                    old_data@,
                    list.take(i as int),
                ),
                self.assembly().stats().total_instructions == first.stats().total_instructions
                    + i,
            decreases instructions@.len() - i,
        {
            let ghost next = list.take(i + 1);
            let ghost done = applied(mode, old_data@, list.take(i as int))->Ok_0;
            proof {
                assert(next.drop_last() =~= list.take(i as int));
            }
            match self.apply_to(old_data, &instructions[i]) {
                Ok(()) => {
                    proof {
                        let out = produced(mode, old_data@, list[i as int])->Ok_0;
                        assert((first.made() + done) + out =~= first.made() + (done + out));
                    }
                },
                Err(e) => {
                    proof {
                        let out = left_behind(old_data@, list[i as int]);
                        assert((first.made() + done) + out =~= first.made() + (done + out));
                        lemma_stops_at(mode, old_data@, first.stats(), list, i + 1);
                        lemma_streamed_stops_at(old_data@, list, i + 1);
                    }
                    return Err(e);
                },
            }
            i = i + 1;
        }
        proof {
            assert(list.take(i as int) =~= list);
            lemma_streamed(old_data@, list);
        }
        Ok(())
    }
}

/// Applies a patch file to an old file that is read in small steps.
pub fn apply_patch_streaming(old_data: &[u8], patch_file: &[u8]) -> (res: Result<
    (Vec<u8>, PatchStats),
    ApplyError,
>)
    ensures
        match res {
            Ok((out, stats)) => {
                &&& patched(Reading::Streamed, old_data@, patch_file@) == Ok::<
                    Seq<u8>,
                    ApplyError,
                >(out@)
                &&& stats == all_counted(
                    Reading::Streamed,
                    assembly::no_patch_stats(),
                    old_data@,
                    instruction::patch_instrs(patch_file@)->Ok_0,
                )
            },
            Err(e) => patched(Reading::Streamed, old_data@, patch_file@) == Err::<
                Seq<u8>,
                ApplyError,
            >(e),
        },
{
    let instructions: Vec<PatchInstruction> = match instruction::read_patch_file(patch_file) {
        Ok(instructions) => instructions,
        Err(e) => {
            return Err(ApplyError::Format(e));
        },
    };
    let mut builder: StreamingPatchBuilder = StreamingPatchBuilder::new();
    let _count: usize = instructions.len();
    match builder.apply_instructions(old_data, instructions.as_slice()) {
        Ok(()) => {
            proof {
                let list = instruction::instrs(instructions@);
                lemma_streamed(old_data@, list);
                let out = streamed(old_data@, list);
                assert(Seq::<u8>::empty() + out =~= out);
            }
            Ok(builder.finalize())
        },
        Err(e) => Err(ApplyError::Instruction(e)),
    }
}

} // verus!
