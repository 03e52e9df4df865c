//! Comparing two files byte by byte.

use vstd::prelude::*;

verus! {

/// Files are compared in steps of so many bytes.
pub const BUFFER_SIZE: usize = 65536;

/// How two files compare.
#[derive(Debug, Clone, Copy, PartialEq, Eq, Structural)]
pub struct VerificationResult {
    pub are_equal: bool,
    pub file_a_size: u64,
    pub file_b_size: u64,
    pub first_mismatch_offset: Option<u64>,
}

/// The first place from `from` on where two runs of one length differ.
pub open spec fn first_difference(a: Seq<u8>, b: Seq<u8>, from: nat) -> Option<nat>
    decreases a.len() - from,
{
    if from >= a.len() {
        None
    } else if a[from as int] != b[from as int] {
        Some(from)
    } else {
        first_difference(a, b, from + 1)
    }
}

/// How two files compare: files of different sizes differ nowhere in particular.
pub open spec fn verdict(a: Seq<u8>, b: Seq<u8>) -> VerificationResult {
    VerificationResult {
        are_equal: a == b,
        file_a_size: a.len() as u64,
        file_b_size: b.len() as u64,
        first_mismatch_offset: if a.len() != b.len() {
            None
        } else {
            match first_difference(a, b, 0) {
                Some(at) => Some(at as u64),
                None => None,
            }
        },
    }
}

/// Without a difference two runs of one length are the same; a difference tells them apart.
pub proof fn lemma_first_difference(a: Seq<u8>, b: Seq<u8>, from: nat)
    requires
        a.len() == b.len(),
        from <= a.len(),
        a.take(from as int) == b.take(from as int),
    ensures
        match first_difference(a, b, from) {
            None => a == b,
            Some(at) => from <= at < a.len() && a[at as int] != b[at as int] && a.take(at as int)
                == b.take(at as int),
        },
    decreases a.len() - from,
{
    if from < a.len() {
        if a[from as int] == b[from as int] {
            assert(a.take((from + 1) as int) =~= a.take(from as int).push(a[from as int]));
            assert(b.take((from + 1) as int) =~= b.take(from as int).push(b[from as int]));
            lemma_first_difference(a, b, from + 1);
        }
    } else {
        assert(a.take(from as int) =~= a);
        assert(b.take(from as int) =~= b);
    }
}

/// Two files are equal exactly where no difference is found and their sizes agree; at the place
/// of the first difference they differ, and before it they agree.
pub proof fn law_verdict(a: Seq<u8>, b: Seq<u8>)
    requires
        a.len() <= u64::MAX,
        b.len() <= u64::MAX,
    ensures
        verdict(a, b).are_equal <==> verdict(a, b).file_a_size == verdict(a, b).file_b_size
            && verdict(a, b).first_mismatch_offset is None,
        match verdict(a, b).first_mismatch_offset {
            Some(at) => at < a.len() && a[at as int] != b[at as int] && a.take(at as int)
                == b.take(at as int),
            None => true,
        },
{
    if a.len() == b.len() {
        assert(a.take(0) =~= b.take(0));
        lemma_first_difference(a, b, 0);
    }
}

/// What is said of two files: their sizes, whether they are the same, and, for different files of
/// one size, the first place where they differ.
pub proof fn law_verdict_is_right(a: Seq<u8>, b: Seq<u8>)
    requires
        a.len() <= u64::MAX,
        b.len() <= u64::MAX,
    ensures
        ({
            let found = verdict(a, b);
            &&& found.are_equal <==> a == b
            &&& found.file_a_size == a.len()
            &&& found.file_b_size == b.len()
            &&& found.first_mismatch_offset is Some <==> a.len() == b.len() && a != b
            &&& found.first_mismatch_offset matches Some(at) ==> at < a.len() && a[at as int]
                != b[at as int] && forall|i: int| 0 <= i < at ==> #[trigger] a[i] == b[i]
        }),
{
    law_verdict(a, b);
    if let Some(at) = verdict(a, b).first_mismatch_offset {
        assert forall|i: int| 0 <= i < at implies #[trigger] a[i] == b[i] by {
            assert(a.take(at as int)[i] == b.take(at as int)[i]);
        }
    }
    if a.len() == b.len() {
        assert(a.take(0) =~= b.take(0));
        lemma_first_difference(a, b, 0);
    }
}

/// Compares two files that are read side by side.
pub struct Comparison {
    size_a: u64,
    size_b: u64,
    offset: u64,
}

impl Comparison {
    pub closed spec fn sizes(&self) -> (u64, u64) {
        (self.size_a, self.size_b)
    }

    /// How many bytes have been found equal.
    pub closed spec fn offset(&self) -> u64 {
        self.offset
    }

    pub fn new(size_a: u64, size_b: u64) -> (res: Self)
        ensures
            res.sizes() == (size_a, size_b),
            res.offset() == 0,
    {
        Comparison { size_a, size_b, offset: 0 }
    }

    /// The result that the sizes decide: files of different sizes differ.
    pub fn by_size(&self) -> (res: Option<VerificationResult>)
        ensures
            res == (if self.sizes().0 != self.sizes().1 {
                Some(
                    VerificationResult {
                        are_equal: false,
                        file_a_size: self.sizes().0,
                        file_b_size: self.sizes().1,
                        first_mismatch_offset: None,
                    },
                )
            } else {
                None
            }),
    {
        if self.size_a != self.size_b {
            Some(
                VerificationResult {
                    are_equal: false,
                    file_a_size: self.size_a,
                    file_b_size: self.size_b,
                    first_mismatch_offset: None,
                },
            )
        } else {
            None
        }
    }

    /// Takes what a read of each file gave. The result is there once the reads differ, in
    /// length or in a byte, or both files have ended.
    pub fn step(&mut self, read_a: &[u8], read_b: &[u8]) -> (res: Option<VerificationResult>)
        requires
            old(self).offset() + read_a@.len() <= u64::MAX,
        ensures
            final(self).sizes() == old(self).sizes(),
            ({
                let (size_a, size_b) = old(self).sizes();
                let done = |are_equal: bool, at: Option<u64>|
                    Some(
                        VerificationResult {
                            are_equal,
                            file_a_size: size_a,
                            file_b_size: size_b,
                            first_mismatch_offset: at,
                        },
                    );
                if read_a@.len() != read_b@.len() {
                    res == done(false, Some(old(self).offset()))
                } else if read_a@.len() == 0 {
                    res == done(true, None)
                } else {
                    match first_difference(read_a@, read_b@, 0) {
                        Some(at) => res == done(false, Some((old(self).offset() + at) as u64)),
                        None => res is None && final(self).offset() == old(self).offset()
                            + read_a@.len(),
                    }
                }
            }),
    {
        let size_a: u64 = self.size_a;
        let size_b: u64 = self.size_b;
        let count: usize = read_a.len();
        if count != read_b.len() {
            return Some(
                VerificationResult {
                    are_equal: false,
                    file_a_size: size_a,
                    file_b_size: size_b,
                    first_mismatch_offset: Some(self.offset),
                },
            );
        }
        if count == 0 {
            return Some(
                VerificationResult {
                    are_equal: true,
                    file_a_size: size_a,
                    file_b_size: size_b,
                    first_mismatch_offset: None,
                },
            );
        }
        let mut i: usize = 0;
        while i < count
            invariant
                i <= count == read_a@.len() == read_b@.len(),
                first_difference(read_a@, read_b@, 0) == first_difference(
                    read_a@,
                    read_b@,
                    i as nat,
                ),
                self.offset() + read_a@.len() <= u64::MAX,
                self.offset() == old(self).offset(),
                self.sizes() == old(self).sizes(),
                (size_a, size_b) == old(self).sizes(),
            decreases count - i,
        {
            if read_a[i] != read_b[i] {
                return Some(
                    VerificationResult {
                        are_equal: false,
                        file_a_size: size_a,
                        file_b_size: size_b,
                        first_mismatch_offset: Some(self.offset + i as u64),
                    },
                );
            }
            i = i + 1;
        }
        self.offset = self.offset + count as u64;
        None
    }
}

/// Compares two files, step by step.
pub fn verify_files(file_a: &[u8], file_b: &[u8]) -> (res: VerificationResult)
    ensures
        res == verdict(file_a@, file_b@),
{
    let size: usize = file_a.len();
    let mut comparison: Comparison = Comparison::new(size as u64, file_b.len() as u64);
    if let Some(result) = comparison.by_size() {
        return result;
    }
    let mut at: usize = 0;
    loop
        invariant
            at <= size == file_a@.len() == file_b@.len(),
            comparison.sizes() == (size as u64, size as u64),
            comparison.offset() == at,
            file_a@.take(at as int) == file_b@.take(at as int),
            first_difference(file_a@, file_b@, 0) == first_difference(file_a@, file_b@, at as nat),
        decreases size - at,
    {
        let end: usize = if size - at < BUFFER_SIZE {
            size
        } else {
            at + BUFFER_SIZE
        };
        let read_a: &[u8] = vstd::slice::slice_subrange(file_a, at, end);
        let read_b: &[u8] = vstd::slice::slice_subrange(file_b, at, end);
        proof {
            lemma_first_difference(file_a@, file_b@, at as nat);
            lemma_difference_in_part(file_a@, file_b@, at as int, end as int, 0);
            if first_difference(read_a@, read_b@, 0) is None {
                assert(read_a@.take(0) =~= read_b@.take(0));
                lemma_first_difference(read_a@, read_b@, 0);
                assert(file_a@.take(end as int) =~= file_a@.take(at as int) + read_a@);
                assert(file_b@.take(end as int) =~= file_b@.take(at as int) + read_b@);
            }
        }
        match comparison.step(read_a, read_b) {
            Some(result) => {
                return result;
            },
            None => {
                at = end;
            },
        }
    }
}

/// The first difference from `at + i` on is that within the next part, if it has one.
proof fn lemma_difference_in_part(a: Seq<u8>, b: Seq<u8>, at: int, end: int, i: nat)
    requires
        a.len() == b.len(),
        0 <= at,
        at + i <= end <= a.len(),
    ensures
        first_difference(a, b, (at + i) as nat) == (match first_difference(
            a.subrange(at, end),
            b.subrange(at, end),
            i,
        ) {
            Some(k) => Some((at + k) as nat),
            None => first_difference(a, b, end as nat),
        }),
    decreases end - at - i,
{
    let part_a = a.subrange(at, end);
    let part_b = b.subrange(at, end);
    if at + i < end && part_a[i as int] == part_b[i as int] {
        lemma_difference_in_part(a, b, at, end, i + 1);
    }
}

} // verus!
