//! Merging copies that continue each other.

use vstd::prelude::*;
use crate::instruction;
use crate::instruction::{Instr, PatchInstruction};
use crate::patch;

verus! {

/// Runs of fewer copies are left as they are.
pub const MIN_MERGE_THRESHOLD: usize = 3;

/// Whether both are copies and the second goes on where the first ends.
pub open spec fn follows(first: Instr, second: Instr) -> bool {
    match (first, second) {
        (Instr::Copy { offset, length }, Instr::Copy { offset: next, .. }) => next == offset
            + length,
        _ => false,
    }
}

/// Whether the `k`th instruction goes on where the one before it ends.
pub open spec fn linked(list: Seq<Instr>, k: int) -> bool {
    follows(list[k - 1], list[k])
}

/// Where the run ends that reaches at least to `end`.
pub open spec fn run_end(list: Seq<Instr>, end: nat) -> nat
    decreases list.len() - end,
{
    if end < list.len() && linked(list, end as int) {
        run_end(list, end + 1)
    } else {
        end
    }
}

/// How many copies at the start of a list go on where the one before ends.
pub open spec fn run_len(list: Seq<Instr>) -> nat {
    if list.len() > 0 && list[0] is Copy {
        run_end(list, 1)
    } else {
        0
    }
}

/// How many bytes an instruction copies.
pub open spec fn copy_len(instr: Instr) -> nat {
    match instr {
        Instr::Copy { length, .. } => length as nat,
        _ => 0,
    }
}

/// How many bytes the copies of a list copy.
pub open spec fn copy_total(list: Seq<Instr>) -> nat
    decreases list.len(),
{
    if list.len() == 0 {
        0
    } else {
        copy_total(list.drop_last()) + copy_len(list.last())
    }
}

/// Whether every run that is long enough to be merged copies no more bytes than one copy can.
pub open spec fn runs_fit(list: Seq<Instr>) -> bool {
    forall|i: int|
        0 <= i < list.len() && run_len(#[trigger] list.skip(i)) >= MIN_MERGE_THRESHOLD
            ==> copy_total(list.skip(i).take(run_len(list.skip(i)) as int)) <= usize::MAX
}

/// A list with its runs of copies merged, where they are long enough.
pub open spec fn optimized(list: Seq<Instr>) -> Seq<Instr>
    decreases list.len(),
{
    let run = run_len(list);
    if list.len() == 0 {
        Seq::empty()
    } else if run >= MIN_MERGE_THRESHOLD && run <= list.len() {
        seq![
            Instr::Copy {
                offset: list[0]->Copy_offset,
                length: copy_total(list.take(run as int)) as usize,
            },
        ] + optimized(list.skip(run as int))
    } else {
        seq![list[0]] + optimized(list.skip(1))
    }
}

proof fn lemma_run_end(list: Seq<Instr>, end: nat)
    requires
        0 < end <= list.len(),
    ensures
        end <= run_end(list, end) <= list.len(),
        forall|k: int| end <= k < run_end(list, end) ==> #[trigger] linked(list, k),
    decreases list.len() - end,
{
    if end < list.len() && linked(list, end as int) {
        lemma_run_end(list, end + 1);
    }
}

proof fn lemma_copy_total_concat(front: Seq<Instr>, back: Seq<Instr>)
    ensures
        copy_total(front + back) == copy_total(front) + copy_total(back),
    decreases back.len(),
{
    if back.len() == 0 {
        assert(front + back =~= front);
    } else {
        lemma_copy_total_concat(front, back.drop_last());
        assert((front + back).drop_last() =~= front + back.drop_last());
    }
}

proof fn lemma_runs_fit_skip(list: Seq<Instr>, n: int)
    requires
        runs_fit(list),
        0 <= n <= list.len(),
    ensures
        runs_fit(list.skip(n)),
{
    let rest = list.skip(n);
    assert forall|i: int|
        0 <= i < rest.len() && run_len(#[trigger] rest.skip(i)) >= MIN_MERGE_THRESHOLD implies
        copy_total(rest.skip(i).take(run_len(rest.skip(i)) as int)) <= usize::MAX by {
        assert(rest.skip(i) =~= list.skip(n + i));
    }
}

/// Where all copies together copy no more bytes than one copy can, neither does a run.
pub proof fn lemma_total_bounds_runs(list: Seq<Instr>)
    requires
        copy_total(list) <= usize::MAX,
    ensures
        runs_fit(list),
{
    assert forall|i: int|
        0 <= i < list.len() && run_len(#[trigger] list.skip(i)) >= MIN_MERGE_THRESHOLD implies
        copy_total(list.skip(i).take(run_len(list.skip(i)) as int)) <= usize::MAX by {
        let rest = list.skip(i);
        lemma_run_end(rest, 1);
        let run = run_len(rest) as int;
        lemma_copy_total_concat(rest.take(run), rest.skip(run));
        assert(rest.take(run) + rest.skip(run) =~= rest);
        lemma_copy_total_concat(list.take(i), rest);
        assert(list.take(i) + rest =~= list);
    }
}

/// The first `n` copies of a run copy one range of the old file.
proof fn lemma_run_applies(old_data: Seq<u8>, list: Seq<Instr>, n: int)
    requires
        0 < n <= list.len(),
        list[0] is Copy,
        forall|k: int| 1 <= k < n ==> #[trigger] linked(list, k),
    ensures
        list[n - 1] is Copy,
        list[n - 1]->Copy_offset + list[n - 1]->Copy_length == list[0]->Copy_offset + copy_total(
            list.take(n),
        ),
        ({
            let start = list[0]->Copy_offset as int;
            let end = start + copy_total(list.take(n));
            if end == start {
                patch::applied(old_data, list.take(n)) == Ok::<Seq<u8>, patch::PatchError>(
                    Seq::empty(),
                )
            } else if end <= old_data.len() {
                patch::applied(old_data, list.take(n)) == Ok::<Seq<u8>, patch::PatchError>(
                    old_data.subrange(start, end),
                )
            } else {
                patch::applied(old_data, list.take(n)) is Err
            }
        }),
    decreases n,
{
    let part = list.take(n);
    assert(part.drop_last() =~= list.take(n - 1));
    assert(part.last() == list[n - 1]);
    let start = list[0]->Copy_offset as int;
    if n == 1 {
        assert(list.take(0) =~= Seq::empty());
        assert(part =~= seq![list[0]]);
        patch::lemma_applied_one(old_data, list[0]);
    } else {
        lemma_run_applies(old_data, list, n - 1);
        assert(linked(list, n - 1));
        let middle = start + copy_total(list.take(n - 1));
        let end = start + copy_total(part);
        let none = Seq::<u8>::empty();
        assert(none + none =~= none);
        if end <= old_data.len() {
            let whole = old_data.subrange(start, end);
            assert(old_data.subrange(start, middle) + old_data.subrange(middle, end) =~= whole);
            assert(none + whole =~= whole);
            assert(whole + none =~= whole);
        }
    }
}

/// Merging the run at the start of a list changes nothing in what the run makes.
proof fn lemma_merged_applies(old_data: Seq<u8>, list: Seq<Instr>, merged: Instr)
    requires
        list.len() > 0,
        list[0] is Copy,
        copy_total(list.take(run_len(list) as int)) <= usize::MAX,
        merged == (Instr::Copy {
            offset: list[0]->Copy_offset,
            length: copy_total(list.take(run_len(list) as int)) as usize,
        }),
    ensures
        match patch::applied(old_data, list.take(run_len(list) as int)) {
            Ok(out) => patch::applied(old_data, seq![merged]) == Ok::<Seq<u8>, patch::PatchError>(
                out,
            ),
            Err(_) => patch::applied(old_data, seq![merged]) is Err,
        },
{
    lemma_run_end(list, 1);
    lemma_run_applies(old_data, list, run_len(list) as int);
    patch::lemma_applied_one(old_data, merged);
}

/// What a list makes is what its parts make.
proof fn lemma_parts_apply(
    old_data: Seq<u8>,
    front: Seq<Instr>,
    back: Seq<Instr>,
    front_kept: Seq<Instr>,
    back_kept: Seq<Instr>,
)
    requires
        makes_the_same(old_data, front, front_kept),
        makes_the_same(old_data, back, back_kept),
    ensures
        makes_the_same(old_data, front + back, front_kept + back_kept),
{
    patch::lemma_applied_concat(old_data, front, back);
    patch::lemma_applied_concat(old_data, front_kept, back_kept);
}

/// Whether two lists make the same of an old file: where the one makes a file the other makes the
/// same, and where the one fails so does the other.
pub open spec fn makes_the_same(old_data: Seq<u8>, a: Seq<Instr>, b: Seq<Instr>) -> bool {
    match patch::applied(old_data, a) {
        Ok(out) => patch::applied(old_data, b) == Ok::<Seq<u8>, patch::PatchError>(out),
        Err(_) => patch::applied(old_data, b) is Err,
    }
}

/// Merging copies changes nothing in what a list makes.
pub proof fn law_optimized_applies(old_data: Seq<u8>, list: Seq<Instr>)
    requires
        runs_fit(list),
    ensures
        makes_the_same(old_data, list, optimized(list)),
    decreases list.len(),
{
    let run = run_len(list);
    if list.len() > 0 {
        if list[0] is Copy {
            lemma_run_end(list, 1);
        }
        let used: int = if run >= MIN_MERGE_THRESHOLD {
            run as int
        } else {
            1
        };
        let front = list.take(used);
        let back = list.skip(used);
        assert(front + back =~= list);
        lemma_runs_fit_skip(list, used);
        law_optimized_applies(old_data, back);
        if run >= MIN_MERGE_THRESHOLD {
            assert(list.skip(0) =~= list);
            let merged = Instr::Copy {
                offset: list[0]->Copy_offset,
                length: copy_total(front) as usize,
            };
            lemma_merged_applies(old_data, list, merged);
            lemma_parts_apply(old_data, front, back, seq![merged], optimized(back));
        } else {
            assert(front =~= seq![list[0]]);
            lemma_parts_apply(old_data, front, back, front, optimized(back));
        }
    }
}

/// Merging copies never makes a list longer.
pub proof fn law_optimized_is_no_longer(list: Seq<Instr>)
    ensures
        optimized(list).len() <= list.len(),
    decreases list.len(),
{
    let run = run_len(list);
    if list.len() > 0 {
        if list[0] is Copy {
            lemma_run_end(list, 1);
        }
        if run >= MIN_MERGE_THRESHOLD {
            law_optimized_is_no_longer(list.skip(run as int));
        } else {
            law_optimized_is_no_longer(list.skip(1));
        }
    }
}

/// Merging copies leaves every length within what a file can hold.
pub proof fn lemma_optimized_fits(list: Seq<Instr>)
    requires
        forall|i: int| 0 <= i < list.len() ==> instruction::fits(#[trigger] list[i]),
    ensures
        forall|i: int|
            0 <= i < optimized(list).len() ==> instruction::fits(#[trigger] optimized(list)[i]),
    decreases list.len(),
{
    let run = run_len(list);
    if list.len() > 0 {
        let used = if run >= MIN_MERGE_THRESHOLD && run <= list.len() {
            run as int
        } else {
            1
        };
        let rest = list.skip(used);
        assert(forall|i: int| 0 <= i < rest.len() ==> #[trigger] rest[i] == list[used + i]);
        lemma_optimized_fits(rest);
        assert forall|i: int| 0 <= i < optimized(list).len() implies instruction::fits(
            #[trigger] optimized(list)[i],
        ) by {
            if i > 0 {
                assert(optimized(list)[i] == optimized(rest)[i - 1]);
            }
        }
    }
}

/// The first instruction stays where it was.
proof fn lemma_optimized_start(list: Seq<Instr>, before: Instr)
    requires
        list.len() > 0,
    ensures
        optimized(list).len() > 0,
        follows(before, optimized(list)[0]) == follows(before, list[0]),
        optimized(list)[0] is Copy == list[0] is Copy,
{
}

proof fn lemma_none_follows_the_merged(list: Seq<Instr>)
    requires
        list.len() > 0,
        list[0] is Copy,
        run_len(list) < list.len(),
        copy_total(list.take(run_len(list) as int)) <= usize::MAX,
    ensures
        !follows(
            Instr::Copy {
                offset: list[0]->Copy_offset,
                length: copy_total(list.take(run_len(list) as int)) as usize,
            },
            list[run_len(list) as int],
        ),
{
    let run = run_len(list) as int;
    lemma_run_end(list, 1);
    lemma_run_applies(Seq::empty(), list, run);
    lemma_run_stops(list, 1);
}

proof fn lemma_run_stops(list: Seq<Instr>, end: nat)
    requires
        0 < end <= list.len(),
        run_end(list, end) < list.len(),
    ensures
        !linked(list, run_end(list, end) as int),
    decreases list.len() - end,
{
    if end < list.len() && linked(list, end as int) {
        lemma_run_stops(list, end + 1);
    }
}

proof fn lemma_no_three_links(list: Seq<Instr>, n: int)
    requires
        runs_fit(list),
        0 <= n < optimized(list).len() - 2,
    ensures
        !(follows(optimized(list)[n], optimized(list)[n + 1]) && follows(
            optimized(list)[n + 1],
            optimized(list)[n + 2],
        )),
    decreases list.len(),
{
    let all = optimized(list);
    let run = run_len(list);
    assert(list.len() > 0);
    if list[0] is Copy {
        lemma_run_end(list, 1);
    }
    if run >= MIN_MERGE_THRESHOLD {
        let rest = list.skip(run as int);
        let merged = all[0];
        assert(all =~= seq![merged] + optimized(rest));
        lemma_runs_fit_skip(list, run as int);
        if n > 0 {
            lemma_no_three_links(rest, n - 1);
            assert(all[n] == optimized(rest)[n - 1]);
            assert(all[n + 1] == optimized(rest)[n]);
            assert(all[n + 2] == optimized(rest)[n + 1]);
        } else {
            assert(rest.len() > 0);
            assert(list.skip(0) =~= list);
            lemma_optimized_start(rest, merged);
            lemma_none_follows_the_merged(list);
            assert(rest[0] == list[run as int]);
            assert(all[1] == optimized(rest)[0]);
        }
    } else {
        let rest = list.skip(1);
        assert(all =~= seq![list[0]] + optimized(rest));
        lemma_runs_fit_skip(list, 1);
        if n > 0 {
            lemma_no_three_links(rest, n - 1);
            assert(all[n] == optimized(rest)[n - 1]);
            assert(all[n + 1] == optimized(rest)[n]);
            assert(all[n + 2] == optimized(rest)[n + 1]);
        } else {
            assert(rest.len() > 0);
            lemma_optimized_start(rest, list[0]);
            assert(all[1] == optimized(rest)[0]);
            assert(all[2] == optimized(rest)[1]);
            assert(rest[0] == list[1]);
            if follows(list[0], list[1]) {
                assert(linked(list, 1));
                if list.len() > 2 {
                    if linked(list, 2) {
                        reveal_with_fuel(run_end, 3);
                        lemma_run_end(list, 3);
                        assert(false);
                    }
                    assert(!linked(rest, 1)) by {
                        assert(rest[1] == list[2]);
                    }
                }
                assert(run_len(rest) == 1);
                let last = rest.skip(1);
                assert(optimized(rest) =~= seq![rest[0]] + optimized(last));
                assert(last.len() > 0);
                lemma_optimized_start(last, rest[0]);
                assert(last[0] == list[2]);
            }
        }
    }
}

/// No run of copies is left that should have been merged: of three copies side by side, the second
/// goes on where the first ends or the third where the second ends, but not both.
pub proof fn law_runs_are_merged(list: Seq<Instr>, n: int)
    requires
        copy_total(list) <= usize::MAX,
        0 <= n < optimized(list).len() - 2,
    ensures
        match (optimized(list)[n], optimized(list)[n + 1], optimized(list)[n + 2]) {
            (
                Instr::Copy { offset: a, length: x },
                Instr::Copy { offset: b, length: y },
                Instr::Copy { offset: c, .. },
            ) => !(b == a + x && c == b + y),
            _ => true,
        },
{
    lemma_total_bounds_runs(list);
    lemma_no_three_links(list, n);
}

/// Whether the `n`th instruction goes on where the one before it ends, and the next goes on from
/// it.
spec fn is_midway(list: Seq<Instr>, n: int) -> bool {
    follows(list[n - 1], list[n]) && follows(list[n], list[n + 1])
}

proof fn lemma_short_runs_stay(list: Seq<Instr>)
    requires
        forall|n: int| 1 <= n < list.len() - 1 ==> !(#[trigger] is_midway(list, n)),
    ensures
        optimized(list) == list,
    decreases list.len(),
{
    if list.len() > 0 {
        let rest = list.skip(1);
        if list[0] is Copy {
            lemma_run_end(list, 1);
            if run_len(list) >= 3 {
                assert(linked(list, 1));
                assert(linked(list, 2));
                assert(is_midway(list, 1));
            }
        }
        assert forall|n: int| 1 <= n < rest.len() - 1 implies !(#[trigger] is_midway(rest, n)) by {
            assert(!is_midway(list, n + 1));
        }
        lemma_short_runs_stay(rest);
        assert(seq![list[0]] + rest =~= list);
    }
}

/// Where there is no run of three copies, of which each goes on where the one before ends,
/// nothing is changed.
pub proof fn law_short_runs_stay(list: Seq<Instr>)
    requires
        forall|i: int, j: int, k: int|
            0 <= i && j == i + 1 && k == j + 1 && k < list.len() ==> match (
                #[trigger] list[i],
                #[trigger] list[j],
                #[trigger] list[k],
            ) {
                (
                    Instr::Copy { offset: a, length: x },
                    Instr::Copy { offset: b, length: y },
                    Instr::Copy { offset: c, .. },
                ) => !(b == a + x && c == b + y),
                _ => true,
            },
    ensures
        optimized(list) == list,
{
    assert forall|n: int| 1 <= n < list.len() - 1 implies !(#[trigger] is_midway(list, n)) by {
        let (first, second, third) = (list[n - 1], list[n], list[n + 1]);
    }
    lemma_short_runs_stay(list);
}

proof fn lemma_no_literals(list: Seq<Instr>)
    requires
        forall|i: int| 0 <= i < list.len() ==> #[trigger] list[i] is Copy,
    ensures
        list.filter(|i: Instr| !(i is Copy)) == Seq::<Instr>::empty(),
{
    list.lemma_all_neg_filter_empty(|i: Instr| !(i is Copy));
    assert(list.filter(|i: Instr| !(i is Copy)) =~= Seq::empty());
}

/// Merging copies leaves all else as it was, in its order, and copies as many bytes.
pub proof fn law_merging_keeps_literals(list: Seq<Instr>)
    requires
        copy_total(list) <= usize::MAX,
    ensures
        optimized(list).filter(|i: Instr| !(i is Copy)) == list.filter(|i: Instr| !(i is Copy)),
        copy_total(optimized(list)) == copy_total(list),
    decreases list.len(),
{
    let test = |i: Instr| !(i is Copy);
    let run = run_len(list);
    if list.len() > 0 {
        if list[0] is Copy {
            lemma_run_end(list, 1);
        }
        let used: int = if run >= MIN_MERGE_THRESHOLD {
            run as int
        } else {
            1
        };
        let front = list.take(used);
        let back = list.skip(used);
        let first = seq![optimized(list)[0]];
        assert(front + back =~= list);
        lemma_copy_total_concat(front, back);
        law_merging_keeps_literals(back);
        Seq::filter_distributes_over_add(front, back, test);
        Seq::filter_distributes_over_add(first, optimized(back), test);
        lemma_copy_total_concat(first, optimized(back));
        assert(optimized(list) =~= first + optimized(back));
        if run >= MIN_MERGE_THRESHOLD {
            assert forall|i: int| 0 <= i < front.len() implies #[trigger] front[i] is Copy by {
                if i > 0 {
                    assert(linked(list, i));
                }
            }
            lemma_no_literals(front);
            lemma_no_literals(first);
            assert(first.drop_last() =~= Seq::empty());
            assert(copy_total(first) == copy_total(first.drop_last()) + copy_len(first.last()));
        } else {
            assert(front =~= first);
        }
    } else {
        assert(optimized(list) =~= list);
    }
}

pub proof fn lemma_copy_total_step(list: Seq<Instr>, k: int)
    requires
        0 <= k < list.len(),
    ensures
        copy_total(list.take(k + 1)) == copy_total(list.take(k)) + copy_len(list[k]),
        copy_total(list.take(k + 1)) <= copy_total(list),
{
    let longer = list.take(k + 1);
    assert(longer.drop_last() =~= list.take(k));
    lemma_copy_total_concat(longer, list.skip(k + 1));
    assert(longer + list.skip(k + 1) =~= list);
}

/// Where the copy `instruction` ends, where it is one and the end can be counted.
fn copy_end(instruction: &PatchInstruction) -> (res: Option<u64>)
    ensures
        match res {
            Some(end) => instruction@ is Copy && end == instruction@->Copy_offset
                + instruction@->Copy_length,
            None => instruction@ is Copy ==> instruction@->Copy_offset + instruction@->Copy_length
                > u64::MAX,
        },
{
    match instruction {
        PatchInstruction::Copy(offset, length) => offset.checked_add(*length as u64),
        _ => None,
    }
}

/// Whether both are copies and the second goes on where the first ends.
fn goes_on(first: &PatchInstruction, second: &PatchInstruction) -> (res: bool)
    ensures
        res == follows(first@, second@),
{
    match (copy_end(first), second) {
        (Some(end), PatchInstruction::Copy(next, _)) => end == *next,
        _ => false,
    }
}

/// How many copies from `start` on go on where the one before ends.
fn measure_run(instructions: &[PatchInstruction], start: usize) -> (run: usize)
    requires
        start < instructions@.len(),
        instructions@[start as int]@ is Copy,
    ensures
        run == run_len(instruction::instrs(instructions@).skip(start as int)),
        1 <= run <= instructions@.len() - start,
{
    let size: usize = instructions.len();
    let ghost all = instruction::instrs(instructions@);
    let ghost rest = all.skip(start as int);
    let mut run: usize = 1;
    while run < size - start && goes_on(&instructions[start + run - 1], &instructions[start + run])
        invariant
            start < size == instructions@.len(),
            1 <= run <= size - start,
            all == instruction::instrs(instructions@),
            rest == all.skip(start as int),
            run_end(rest, 1) == run_end(rest, run as nat),
        decreases size - start - run,
    {
        assert(linked(rest, run as int));
        run = run + 1;
    }
    run
}

/// How many bytes the copies of a run copy.
fn total_of_run(instructions: &[PatchInstruction], start: usize, run: usize) -> (total: usize)
    requires
        start + run <= instructions@.len(),
        copy_total(
            instruction::instrs(instructions@).skip(start as int).take(run as int),
        ) <= usize::MAX,
    ensures
        total == copy_total(
            instruction::instrs(instructions@).skip(start as int).take(run as int),
        ),
{
    let size: usize = instructions.len();
    let ghost part = instruction::instrs(instructions@).skip(start as int).take(run as int);
    let mut total: usize = 0;
    let mut i: usize = 0;
    assert(part.take(0) =~= Seq::empty());
    while i < run
        invariant
            i <= run,
            start + run <= size == instructions@.len(),
            part == instruction::instrs(instructions@).skip(start as int).take(run as int),
            copy_total(part) <= usize::MAX,
            total == copy_total(part.take(i as int)),
        decreases run - i,
    {
        proof {
            lemma_copy_total_step(part, i as int);
        }
        if let PatchInstruction::Copy(_, length) = &instructions[start + i] {
            total = total + *length;
        }
        i = i + 1;
    }
    assert(part.take(i as int) =~= part);
    total
}

/// Merges runs of copies that go on where the one before ends.
pub fn optimize_instructions(instructions: Vec<PatchInstruction>) -> (res: Vec<PatchInstruction>)
    requires
        runs_fit(instruction::instrs(instructions@)),
    ensures
        instruction::instrs(res@) == optimized(instruction::instrs(instructions@)),
{
    let ghost all = instruction::instrs(instructions@);
    let mut res: Vec<PatchInstruction> = Vec::new();
    let mut i: usize = 0;
    assert(all.skip(0) =~= all);
    assert(instruction::instrs(res@) + optimized(all) =~= optimized(all));
    while i < instructions.len()
        invariant
            i <= instructions@.len(),
            all == instruction::instrs(instructions@),
            runs_fit(all),
            instruction::instrs(res@) + optimized(all.skip(i as int)) == optimized(all),
        decreases instructions@.len() - i,
    {
        let ghost rest = all.skip(i as int);
        let ghost before = instruction::instrs(res@);
        let run: usize = match &instructions[i] {
            PatchInstruction::Copy(_, _) => measure_run(instructions.as_slice(), i),
            _ => 0,
        };
        let mut next: PatchInstruction = instructions[i].clone();
        let mut used: usize = 1;
        if run >= MIN_MERGE_THRESHOLD {
            let total: usize = total_of_run(instructions.as_slice(), i, run);
            if let PatchInstruction::Copy(offset, _) = next {
                next = PatchInstruction::Copy(offset, total);
            }
            used = run;
        }
        let ghost shown = next@;
        res.push(next);
        proof {
            assert(instruction::instrs(res@) =~= before.push(shown));
            assert(rest.skip(used as int) =~= all.skip(i + used));
            assert(optimized(rest) == seq![shown] + optimized(rest.skip(used as int)));
            assert(before + (seq![shown] + optimized(rest.skip(used as int)))
                =~= instruction::instrs(res@) + optimized(all.skip(i + used)));
        }
        i = i + used;
    }
    assert(instruction::instrs(res@) + Seq::<Instr>::empty() =~= instruction::instrs(res@));
    res
}

/// How many bytes the copies of a list copy.
pub proof fn law_copy_total(list: Seq<Instr>)
    ensures
        copy_total(list) == instruction::total_len(list.filter(|i: Instr| i is Copy)),
    decreases list.len(),
{
    reveal(Seq::filter);
    if list.len() > 0 {
        law_copy_total(list.drop_last());
        let copies = list.drop_last().filter(|i: Instr| i is Copy);
        assert(copies.push(list.last()).drop_last() =~= copies);
    }
}

} // verus!
