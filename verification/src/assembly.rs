//! Putting a new file together piece by piece, from literals and from ranges of an old file
//! that is read in small steps.

use vstd::prelude::*;
use crate::bytes;

verus! {

/// At most so many bytes of the old file are asked for at once.
pub const READ_SIZE: usize = 8192;

/// How applying a patch came out.
#[derive(Debug, Clone, Copy, PartialEq, Eq, Structural)]
pub struct PatchStats {
    pub total_instructions: usize,
    pub copy_instructions: usize,
    pub literal_instructions: usize,
    pub bytes_written: usize,
    pub bytes_copied: usize,
    pub bytes_literal: usize,
}

pub open spec fn no_patch_stats() -> PatchStats {
    PatchStats {
        total_instructions: 0,
        copy_instructions: 0,
        literal_instructions: 0,
        bytes_written: 0,
        bytes_copied: 0,
        bytes_literal: 0,
    }
}

/// Statistics with one more instruction begun.
pub open spec fn with_begun(stats: PatchStats) -> PatchStats {
    PatchStats { total_instructions: (stats.total_instructions + 1) as usize, ..stats }
}

/// Statistics with a copy of so many bytes done.
pub open spec fn with_copy(stats: PatchStats, length: nat) -> PatchStats {
    PatchStats {
        copy_instructions: (stats.copy_instructions + 1) as usize,
        bytes_copied: (stats.bytes_copied + length) as usize,
        bytes_written: (stats.bytes_written + length) as usize,
        ..stats
    }
}

/// Statistics with a literal of so many bytes done.
pub open spec fn with_literal(stats: PatchStats, length: nat) -> PatchStats {
    PatchStats {
        literal_instructions: (stats.literal_instructions + 1) as usize,
        bytes_literal: (stats.bytes_literal + length) as usize,
        bytes_written: (stats.bytes_written + length) as usize,
        ..stats
    }
}

/// Whether the numbers of instructions and of bytes add up.
pub open spec fn adds_up(stats: PatchStats) -> bool {
    &&& stats.copy_instructions + stats.literal_instructions <= stats.total_instructions
    &&& stats.bytes_copied + stats.bytes_literal == stats.bytes_written
}

impl PatchStats {
    pub fn new() -> (res: Self)
        ensures
            res == no_patch_stats(),
    {
        PatchStats {
            total_instructions: 0,
            copy_instructions: 0,
            literal_instructions: 0,
            bytes_written: 0,
            bytes_copied: 0,
            bytes_literal: 0,
        }
    }

    /// Counts an instruction that is begun.
    pub fn record_instruction(&mut self)
        requires
            old(self).total_instructions < usize::MAX,
        ensures
            *final(self) == with_begun(*old(self)),
    {
        self.total_instructions = self.total_instructions + 1;
    }

    /// Counts a copy that is done.
    pub fn record_copy(&mut self, length: usize)
        requires
            adds_up(*old(self)),
            old(self).copy_instructions < usize::MAX,
            old(self).bytes_written + length <= usize::MAX,
        ensures
            *final(self) == with_copy(*old(self), length as nat),
    {
        self.copy_instructions = self.copy_instructions + 1;
        self.bytes_copied = self.bytes_copied + length;
        self.bytes_written = self.bytes_written + length;
    }

    /// Counts a literal that is done.
    pub fn record_literal(&mut self, length: usize)
        requires
            adds_up(*old(self)),
            old(self).literal_instructions < usize::MAX,
            old(self).bytes_written + length <= usize::MAX,
        ensures
            *final(self) == with_literal(*old(self), length as nat),
    {
        self.literal_instructions = self.literal_instructions + 1;
        self.bytes_literal = self.bytes_literal + length;
        self.bytes_written = self.bytes_written + length;
    }
}

impl Default for PatchStats {
    fn default() -> (res: Self)
        ensures
            res == no_patch_stats(),
    {
        PatchStats::new()
    }
}

/// What a file holds from an offset on.
pub open spec fn tail_from(data: Seq<u8>, start: int) -> Seq<u8> {
    if start <= data.len() {
        data.skip(start)
    } else {
        Seq::empty()
    }
}

/// The old file ends inside a range that is to be copied.
#[derive(Clone, Copy, Debug, PartialEq, Eq, Structural)]
pub struct EndOfOldFile;

/// A new file in the making. Literals are appended at once; a range of the old file is
/// announced, asked for in reads, and appended as they come. What has been made can be taken
/// away at any time.
pub struct Assembly {
    output: Vec<u8>,
    position: u64,
    remaining: usize,
    copying: usize,
    /// How many bytes copies that failed have left behind; they are in no count.
    stray: usize,
    stats: PatchStats,
    made: Ghost<Seq<u8>>,
}

impl Assembly {
    /// All that has been made so far, taken away or not.
    pub closed spec fn made(&self) -> Seq<u8> {
        self.made@
    }

    /// What has been made and not taken away.
    pub closed spec fn waiting(&self) -> Seq<u8> {
        self.output@
    }

    /// Where in the old file the range in hand goes on.
    pub closed spec fn position(&self) -> u64 {
        self.position
    }

    /// How much of the range in hand is still to come; nothing where there is none.
    pub closed spec fn remaining(&self) -> usize {
        self.remaining
    }

    /// How long the range in hand is.
    pub closed spec fn copying(&self) -> usize {
        self.copying
    }

    pub closed spec fn stats(&self) -> PatchStats {
        self.stats
    }

    pub closed spec fn wf(&self) -> bool {
        &&& adds_up(self.stats())
        &&& self.position() + self.remaining() <= u64::MAX
        &&& self.remaining() <= self.copying()
        &&& self.made().len() == self.stats().bytes_written + self.stray + (if self.remaining()
            > 0 {
            self.copying() - self.remaining()
        } else {
            0
        })
        &&& self.remaining() > 0 ==> self.stats().copy_instructions
            + self.stats().literal_instructions < self.stats().total_instructions
    }

    /// Whether so many more bytes can still be counted. Where nothing has been taken away they
    /// can: all that has been made is in memory.
    pub open spec fn has_room(&self, length: nat) -> bool {
        self.made() == self.waiting() || self.made().len() + length <= usize::MAX
    }

    pub fn new() -> (res: Self)
        ensures
            res.wf(),
            res.made() == Seq::<u8>::empty(),
            res.waiting() == Seq::<u8>::empty(),
            res.remaining() == 0,
            res.stats() == no_patch_stats(),
    {
        Assembly {
            output: Vec::new(),
            position: 0,
            remaining: 0,
            copying: 0,
            stray: 0,
            stats: PatchStats::new(),
            made: Ghost(Seq::empty()),
        }
    }

    /// Whether the number of all bytes, with so many more, is still a number.
    pub fn can_take(&self, length: usize) -> (res: bool)
        requires
            self.wf(),
        ensures
            res == (self.made().len() + length <= usize::MAX),
    {
        let partial: usize = if self.remaining > 0 {
            self.copying - self.remaining
        } else {
            0
        };
        match self.stats.bytes_written.checked_add(self.stray) {
            Some(settled) => match settled.checked_add(partial) {
                Some(made) => made <= usize::MAX - length,
                None => false,
            },
            None => false,
        }
    }

    /// Counts an instruction that cannot be carried out.
    pub fn begin_failed(&mut self)
        requires
            old(self).wf(),
            old(self).remaining() == 0,
            old(self).stats().total_instructions < usize::MAX,
        ensures
            final(self).wf(),
            final(self).made() == old(self).made(),
            final(self).waiting() == old(self).waiting(),
            final(self).remaining() == 0,
            final(self).stats() == with_begun(old(self).stats()),
    {
        self.stats.record_instruction();
    }

    /// Appends a literal.
    pub fn append(&mut self, data: &[u8])
        requires
            old(self).wf(),
            old(self).remaining() == 0,
            old(self).stats().total_instructions < usize::MAX,
            old(self).has_room(data@.len()),
        ensures
            final(self).wf(),
            final(self).made() == old(self).made() + data@,
            final(self).waiting() == old(self).waiting() + data@,
            final(self).remaining() == 0,
            final(self).stats() == with_literal(with_begun(old(self).stats()), data@.len()),
    {
        self.stats.record_instruction();
        bytes::push_all(&mut self.output, data);
        self.made = Ghost(self.made@ + data@);
        let _in_memory: usize = self.output.len();
        self.stats.record_literal(data.len());
    }

    /// Announces a range of the old file; one of no bytes is done at once.
    pub fn begin_copy(&mut self, start: u64, length: usize)
        requires
            old(self).wf(),
            old(self).remaining() == 0,
            old(self).stats().total_instructions < usize::MAX,
            length > 0 ==> start + length <= u64::MAX,
        ensures
            final(self).wf(),
            final(self).made() == old(self).made(),
            final(self).waiting() == old(self).waiting(),
            final(self).remaining() == length,
            length > 0 ==> final(self).position() == start && final(self).copying() == length
                && final(self).stats() == with_begun(old(self).stats()),
            length == 0 ==> final(self).stats() == with_copy(with_begun(old(self).stats()), 0),
    {
        self.stats.record_instruction();
        if length == 0 {
            self.stats.record_copy(0);
        } else {
            self.position = start;
            self.remaining = length;
            self.copying = length;
        }
    }

    /// What to read of the old file next: from where, and how many bytes at most.
    pub fn next_read(&self) -> (res: Option<(u64, usize)>)
        ensures
            match res {
                Some((position, length)) => self.remaining() > 0 && position == self.position()
                    && length == (if self.remaining() < READ_SIZE {
                    self.remaining()
                } else {
                    READ_SIZE
                }),
                None => self.remaining() == 0,
            },
    {
        if self.remaining == 0 {
            None
        } else if self.remaining < READ_SIZE {
            Some((self.position, self.remaining))
        } else {
            Some((self.position, READ_SIZE))
        }
    }

    /// Takes what reading the old file gave; reading nothing means that the old file has ended
    /// inside the range, which is then given up.
    pub fn supply(&mut self, read: &[u8]) -> (res: Result<(), EndOfOldFile>)
        requires
            old(self).wf(),
            0 < old(self).remaining(),
            read@.len() <= old(self).remaining(),
            old(self).has_room(read@.len()),
        ensures
            final(self).wf(),
            res is Err <==> read@.len() == 0,
            final(self).copying() == old(self).copying(),
            final(self).made() == old(self).made() + read@,
            final(self).waiting() == old(self).waiting() + read@,
            final(self).position() == old(self).position() + read@.len(),
            res is Ok ==> final(self).remaining() == old(self).remaining() - read@.len(),
            res is Err ==> final(self).remaining() == 0,
            final(self).stats() == (if res is Ok && final(self).remaining() == 0 {
                with_copy(old(self).stats(), old(self).copying() as nat)
            } else {
                old(self).stats()
            }),
    {
        let count: usize = read.len();
        if count == 0 {
            assert(self.made() + read@ =~= self.made());
            assert(self.waiting() + read@ =~= self.waiting());
            let _in_memory: usize = self.output.len();
            self.stray = self.stray + (self.copying - self.remaining);
            self.remaining = 0;
            return Err(EndOfOldFile);
        }
        bytes::push_all(&mut self.output, read);
        self.made = Ghost(self.made@ + read@);
        let _in_memory: usize = self.output.len();
        self.position = self.position + count as u64;
        self.remaining = self.remaining - count;
        if self.remaining == 0 {
            self.stats.record_copy(self.copying);
        }
        Ok(())
    }

    /// Takes away what has been made.
    pub fn take_output(&mut self) -> (res: Vec<u8>)
        requires
            old(self).wf(),
        ensures
            final(self).wf(),
            res@ == old(self).waiting(),
            final(self).waiting() == Seq::<u8>::empty(),
            final(self).made() == old(self).made(),
            final(self).position() == old(self).position(),
            final(self).remaining() == old(self).remaining(),
            final(self).copying() == old(self).copying(),
            final(self).stats() == old(self).stats(),
    {
        let mut res: Vec<u8> = Vec::new();
        core::mem::swap(&mut res, &mut self.output);
        res
    }

    pub fn get_copying(&self) -> (res: usize)
        ensures
            res == self.copying(),
    {
        self.copying
    }

    pub fn get_stats(&self) -> (res: PatchStats)
        ensures
            res == self.stats(),
    {
        self.stats
    }

    /// Copies the range in hand out of an old file that is at hand, read by read, while nothing
    /// is taken away. Where the old file ends inside the range, what there is of it is copied.
    pub fn copy_from(&mut self, old_data: &[u8]) -> (res: Result<(), EndOfOldFile>)
        requires
            old(self).wf(),
            old(self).remaining() > 0,
            old(self).made() == old(self).waiting(),
        ensures
            final(self).wf(),
            final(self).copying() == old(self).copying(),
            final(self).remaining() == 0,
            ({
                let start = old(self).position() as int;
                let end = start + old(self).remaining();
                &&& res is Ok <==> end <= old_data@.len()
                &&& res is Ok ==> {
                    &&& final(self).made() == old(self).made() + old_data@.subrange(start, end)
                    &&& final(self).waiting() == old(self).waiting() + old_data@.subrange(
                        start,
                        end,
                    )
                    &&& final(self).stats() == with_copy(
                        old(self).stats(),
                        old(self).copying() as nat,
                    )
                }
                &&& res is Err ==> {
                    &&& final(self).made() == old(self).made() + tail_from(old_data@, start)
                    &&& final(self).waiting() == old(self).waiting() + tail_from(
                        old_data@,
                        start,
                    )
                    &&& final(self).stats() == old(self).stats()
                }
            }),
    {
        let size: usize = old_data.len();
        let ghost start = self.position() as int;
        let ghost end = start + self.remaining();
        if self.position > size as u64 {
            assert(self.made() + Seq::<u8>::empty() =~= self.made());
            assert(self.waiting() + Seq::<u8>::empty() =~= self.waiting());
            let nothing: Vec<u8> = Vec::new();
            return self.supply(nothing.as_slice());
        }
        proof {
            let none = old_data@.subrange(start, start);
            assert(self.made() + none =~= self.made());
            assert(self.waiting() + none =~= self.waiting());
        }
        while self.remaining > 0
            invariant
                self.wf(),
                size == old_data@.len(),
                self.copying() == old(self).copying(),
                old(self).remaining() > 0,
                start == old(self).position(),
                end == start + old(self).remaining(),
                start <= self.position() <= size,
                old(self).made() == old(self).waiting(),
                0 <= start,
                self.position() + self.remaining() == end,
                self.made() == old(self).made() + old_data@.subrange(
                    start,
                    self.position() as int,
                ),
                self.waiting() == old(self).waiting() + old_data@.subrange(
                    start,
                    self.position() as int,
                ),
                self.stats() == (if self.remaining() == 0 {
                    with_copy(old(self).stats(), old(self).copying() as nat)
                } else {
                    old(self).stats()
                }),
            decreases self.remaining(),
        {
            let wanted: usize = if self.remaining < READ_SIZE {
                self.remaining
            } else {
                READ_SIZE
            };
            let ghost at = self.position() as int;
            let from: usize = self.position as usize;
            let count: usize = if size - from < wanted {
                size - from
            } else {
                wanted
            };
            let read: &[u8] = vstd::slice::slice_subrange(old_data, from, from + count);
            proof {
                assert((old(self).made() + old_data@.subrange(start, at)) + read@ =~= old(
                    self,
                ).made() + old_data@.subrange(start, at + count));
                assert((old(self).waiting() + old_data@.subrange(start, at)) + read@ =~= old(
                    self,
                ).waiting() + old_data@.subrange(start, at + count));
            }
            match self.supply(read) {
                Ok(()) => {},
                Err(e) => {
                    assert(old_data@.subrange(start, size as int) =~= tail_from(old_data@, start));
                    return Err(e);
                },
            }
        }
        Ok(())
    }
}

} // verus!
