//! Sets to display lines, and a day to its text.

use crate::models::{DayLog, DayLogView, Exercise, ExerciseBlockView, ExerciseSet, ExerciseView};
use crate::text::{
    chars_of, decimal_text, int_text, joined, lemma_joined_next, magnitude, magnitude_of,
    push_decimal, push_int, push_sign, push_thousandths, sign_text, texts_of, thousandths_text,
};
use vstd::prelude::*;
use vstd::string::{StrSliceExecFns, StringExecFns};

verus! {

/// Pounds in 100_000 kilograms: one kilogram is shown as 2.20462 pounds.
pub const POUNDS_PER_100000_KG: u64 = 220_462;

/// `num / den` rounded to the nearest whole number, a tie going to the even
/// neighbour.
pub open spec fn rounded_quotient(num: nat, den: nat) -> nat
    recommends
        den > 0,
{
    let q = num / den;
    let r = num % den;
    if 2 * r < den {
        q
    } else if 2 * r > den {
        q + 1
    } else if q % 2 == 0 {
        q
    } else {
        q + 1
    }
}

/// The whole number shown for a weight of `weight` thousandths of a
/// kilogram, in pounds or in kilograms, without its sign.
pub open spec fn shown_weight(weight: int, pounds: bool) -> nat {
    if pounds {
        rounded_quotient(magnitude(weight) * POUNDS_PER_100000_KG as nat, 100_000_000)
    } else {
        rounded_quotient(magnitude(weight), 1000)
    }
}

/// A weight as it is displayed: rounded to no decimals, `-` before a
/// negative one.
pub open spec fn weight_text(weight: int, pounds: bool) -> Seq<char> {
    sign_text(weight) + decimal_text(shown_weight(weight, pounds))
}

/// ` @` and the effort rating, where the set has one above zero.
pub open spec fn effort_part(set: ExerciseSet) -> Seq<char> {
    if set.rpe > 0 {
        " @"@ + thousandths_text(set.rpe as int)
    } else {
        Seq::empty()
    }
}

/// ` x ` and the repetitions, where there are any.
pub open spec fn reps_part(set: ExerciseSet) -> Seq<char> {
    if set.reps > 0 {
        " x "@ + int_text(set.reps as int)
    } else {
        Seq::empty()
    }
}

/// ` x ` and the multiplier, where it is above one.
pub open spec fn multiplier_part(set: ExerciseSet) -> Seq<char> {
    if set.multiplier > 1 {
        " x "@ + int_text(set.multiplier as int)
    } else {
        Seq::empty()
    }
}

/// The line for a set that stands alone.
pub open spec fn set_line(set: ExerciseSet) -> Seq<char> {
    weight_text(set.weight as int, set.pounds) + reps_part(set) + multiplier_part(set)
        + effort_part(set)
}

/// Whether `other` is a regular set that may share a line with `head`:
/// same effort rating, unit and multiplier, and the same weight when
/// grouping `by_weight`, the same repetitions otherwise.
pub open spec fn shares_line(head: ExerciseSet, other: ExerciseSet, by_weight: bool) -> bool {
    &&& other.kind == 0
    &&& other.rpe == head.rpe
    &&& other.pounds == head.pounds
    &&& other.multiplier == head.multiplier
    &&& if by_weight {
        other.weight == head.weight
    } else {
        other.reps == head.reps
    }
}

/// How many sets at the front of `sets` may share a line with `head`.
pub open spec fn run_length(head: ExerciseSet, sets: Seq<ExerciseSet>, by_weight: bool) -> nat
    decreases sets.len(),
{
    if sets.len() > 0 && shares_line(head, sets[0], by_weight) {
        1 + run_length(head, sets.skip(1), by_weight)
    } else {
        0
    }
}

/// The repetitions of each set, written out.
pub open spec fn reps_texts(group: Seq<ExerciseSet>) -> Seq<Seq<char>> {
    Seq::new(group.len(), |k: int| int_text(group[k].reps as int))
}

/// The weight of each set, as displayed.
pub open spec fn weight_texts(group: Seq<ExerciseSet>) -> Seq<Seq<char>> {
    Seq::new(group.len(), |k: int| weight_text(group[k].weight as int, group[k].pounds))
}

/// The line for sets of one weight: the weight, then each set's repetitions.
pub open spec fn weight_group_line(group: Seq<ExerciseSet>) -> Seq<char> {
    weight_text(group[0].weight as int, group[0].pounds) + " x "@ + joined(
        reps_texts(group),
        ", "@,
    ) + effort_part(group[0])
}

/// The line for sets of one repetition count: each set's weight, then the
/// repetitions.
pub open spec fn reps_group_line(group: Seq<ExerciseSet>) -> Seq<char> {
    joined(weight_texts(group), ", "@) + " x "@ + int_text(group[0].reps as int) + effort_part(
        group[0],
    )
}

/// How many sets the first line of `sets` stands for: one for a set that is
/// not regular; else the run of sets with the first one's weight, if it has
/// two sets or more; else the run with its repetitions, if that has two or
/// more; else one.
pub open spec fn group_length(sets: Seq<ExerciseSet>) -> nat
    recommends
        sets.len() > 0,
{
    let head = sets[0];
    if head.kind != 0 {
        1
    } else if run_length(head, sets, true) >= 2 {
        run_length(head, sets, true)
    } else if run_length(head, sets, false) >= 2 {
        run_length(head, sets, false)
    } else {
        1
    }
}

/// The first line of the display of `sets`.
pub open spec fn first_line(sets: Seq<ExerciseSet>) -> Seq<char>
    recommends
        sets.len() > 0,
{
    let head = sets[0];
    if head.kind != 0 {
        set_line(head)
    } else if run_length(head, sets, true) >= 2 {
        weight_group_line(sets.take(run_length(head, sets, true) as int))
    } else if run_length(head, sets, false) >= 2 {
        reps_group_line(sets.take(run_length(head, sets, false) as int))
    } else {
        set_line(head)
    }
}

/// The display lines of a sequence of sets, read from the left, each line
/// taking as many sets as `group_length` says.
pub open spec fn compressed(sets: Seq<ExerciseSet>) -> Seq<Seq<char>>
    decreases sets.len(),
    via compressed_terminates
{
    if sets.len() == 0 {
        Seq::empty()
    } else {
        seq![first_line(sets)] + compressed(sets.skip(group_length(sets) as int))
    }
}

#[via_fn]
proof fn compressed_terminates(sets: Seq<ExerciseSet>) {
    if sets.len() > 0 {
        lemma_group_length_bounds(sets);
    }
}

/// A run is no longer than the sets it is counted in.
pub proof fn lemma_run_length_bound(head: ExerciseSet, sets: Seq<ExerciseSet>, by_weight: bool)
    ensures
        run_length(head, sets, by_weight) <= sets.len(),
    decreases sets.len(),
{
    if sets.len() > 0 && shares_line(head, sets[0], by_weight) {
        lemma_run_length_bound(head, sets.skip(1), by_weight);
    }
}

/// A line stands for at least one set and for no more than there are.
pub proof fn lemma_group_length_bounds(sets: Seq<ExerciseSet>)
    requires
        sets.len() > 0,
    ensures
        1 <= group_length(sets) <= sets.len(),
{
    lemma_run_length_bound(sets[0], sets, true);
    lemma_run_length_bound(sets[0], sets, false);
}

/// Half-to-even rounding of `num / den`.
pub fn round_quotient(num: u128, den: u128) -> (q: u128)
    requires
        0 < den,
        num < u128::MAX,
    ensures
        q as nat == rounded_quotient(num as nat, den as nat),
        q <= num / den + 1,
{
    let q: u128 = num / den;
    let r: u128 = num % den;
    assert(num / den <= num) by (nonlinear_arith)
        requires
            den > 0,
    ;
    if r < den - r {
        q
    } else if r > den - r {
        q + 1
    } else if q % 2 == 0 {
        q
    } else {
        q + 1
    }
}

/// Appends a weight, as displayed, to `out`.
pub fn push_weight(out: &mut String, weight: i64, pounds: bool)
    ensures
        final(out)@ == old(out)@ + weight_text(weight as int, pounds),
{
    let m: u128 = magnitude_of(weight) as u128;
    let shown: u128 = if pounds {
        round_quotient(m * (POUNDS_PER_100000_KG as u128), 100_000_000)
    } else {
        round_quotient(m, 1000)
    };
    push_sign(out, weight);
    push_decimal(out, shown as u64);
    assert(old(out)@ + sign_text(weight as int) + decimal_text(shown as nat) == old(out)@
        + weight_text(weight as int, pounds));
}

/// A weight as it is displayed: in pounds, at 2.20462 to the kilogram, when
/// `pounds` is set, in kilograms otherwise; rounded to no decimals.
pub fn format_weight(weight: i64, pounds: bool) -> (text: String)
    ensures
        text@ == weight_text(weight as int, pounds),
{
    let mut text: String = String::new();
    push_weight(&mut text, weight, pounds);
    assert(Seq::<char>::empty() + weight_text(weight as int, pounds) == weight_text(
        weight as int,
        pounds,
    ));
    text
}

/// Appends ` @` and the effort rating of `set`, if it has one above zero.
pub fn push_effort(out: &mut String, set: &ExerciseSet)
    ensures
        final(out)@ == old(out)@ + effort_part(*set),
{
    if set.rpe > 0 {
        out.append(" @");
        push_thousandths(out, set.rpe);
        assert(old(out)@ + " @"@ + thousandths_text(set.rpe as int) == old(out)@ + effort_part(
            *set,
        ));
    } else {
        assert(out@ + Seq::<char>::empty() == out@);
    }
}

/// Appends the line of a lone set to `out`.
pub fn push_set_line(out: &mut String, set: &ExerciseSet)
    ensures
        final(out)@ == old(out)@ + set_line(*set),
{
    let ghost start = out@;
    push_weight(out, set.weight, set.pounds);
    let ghost weight = weight_text(set.weight as int, set.pounds);
    if set.reps > 0 {
        out.append(" x ");
        push_int(out, set.reps);
        assert(start + weight + " x "@ + int_text(set.reps as int) == start + (weight + reps_part(
            *set,
        )));
    } else {
        assert(start + weight == start + (weight + reps_part(*set)));
    }
    let ghost reps = weight + reps_part(*set);
    if set.multiplier > 1 {
        out.append(" x ");
        push_int(out, set.multiplier);
        assert(start + reps + " x "@ + int_text(set.multiplier as int) == start + (reps
            + multiplier_part(*set)));
    } else {
        assert(start + reps == start + (reps + multiplier_part(*set)));
    }
    let ghost mult = reps + multiplier_part(*set);
    push_effort(out, set);
    assert(start + mult + effort_part(*set) == start + set_line(*set));
}

/// The line for one set: its weight, then ` x ` and the repetitions if
/// there are any, ` x ` and the multiplier if it is above one, ` @` and the
/// effort rating if it is above zero.
pub fn format_set(set: &ExerciseSet) -> (line: String)
    ensures
        line@ == set_line(*set),
{
    let mut line: String = String::new();
    push_set_line(&mut line, set);
    assert(Seq::<char>::empty() + set_line(*set) == set_line(*set));
    line
}

/// Whether `other` may share a line with `head`.
pub fn may_share_line(head: &ExerciseSet, other: &ExerciseSet, by_weight: bool) -> (yes: bool)
    ensures
        yes == shares_line(*head, *other, by_weight),
{
    other.kind == 0 && other.rpe == head.rpe && other.pounds == head.pounds && other.multiplier
        == head.multiplier && (if by_weight {
        other.weight == head.weight
    } else {
        other.reps == head.reps
    })
}

/// The index after the last set of the run that the set at `start` heads.
pub fn run_end(sets: &Vec<ExerciseSet>, start: usize, by_weight: bool) -> (end: usize)
    requires
        start < sets.len(),
    ensures
        start <= end <= sets.len(),
        end - start == run_length(sets@[start as int], sets@.skip(start as int), by_weight),
{
    let head: ExerciseSet = sets[start];
    let mut end: usize = start;
    assert(sets@.skip(start as int).skip(0) == sets@.skip(start as int));
    while end < sets.len() && may_share_line(&head, &sets[end], by_weight)
        invariant
            start <= end <= sets.len(),
            head == sets@[start as int],
            run_length(head, sets@.skip(start as int), by_weight) == (end - start) + run_length(
                head,
                sets@.skip(end as int),
                by_weight,
            ),
        decreases sets.len() - end,
    {
        proof {
            assert(sets@.skip(end as int)[0] == sets@[end as int]);
            assert(sets@.skip(end as int).skip(1) == sets@.skip(end + 1));
        }
        end += 1;
    }
    proof {
        if end < sets.len() {
            assert(sets@.skip(end as int)[0] == sets@[end as int]);
        }
    }
    end
}

/// Appends the line for the sets of one weight at `start..end`.
pub fn push_weight_group(out: &mut String, sets: &Vec<ExerciseSet>, start: usize, end: usize)
    requires
        start < end <= sets.len(),
    ensures
        final(out)@ == old(out)@ + weight_group_line(sets@.subrange(start as int, end as int)),
{
    let ghost group = sets@.subrange(start as int, end as int);
    let ghost parts = reps_texts(group);
    let head: ExerciseSet = sets[start];
    assert(group[0] == head);
    push_weight(out, head.weight, head.pounds);
    out.append(" x ");
    let ghost base = out@;
    let mut k: usize = start;
    proof {
        lemma_joined_next(parts, 0, ", "@);
        assert(base + Seq::<char>::empty() == base);
    }
    while k < end
        invariant
            start <= k <= end <= sets.len(),
            group == sets@.subrange(start as int, end as int),
            parts == reps_texts(group),
            out@ == base + joined(parts.take(k - start), ", "@),
        decreases end - k,
    {
        let ghost before = joined(parts.take(k - start), ", "@);
        if k > start {
            out.append(", ");
        }
        push_int(out, sets[k].reps);
        proof {
            lemma_joined_next(parts, k - start, ", "@);
            assert(parts[k - start] == int_text(sets@[k as int].reps as int)) by {
                assert(group[k - start] == sets@[k as int]);
            }
            if k > start {
                assert(base + before + ", "@ + parts[k - start] == base + (before + ", "@
                    + parts[k - start]));
            } else {
                assert(before == Seq::<char>::empty());
                assert(base + before + parts[0] == base + parts[0]);
            }
        }
        k += 1;
    }
    proof {
        assert(parts.take(end - start) == parts);
    }
    push_effort(out, &head);
    assert(old(out)@ + weight_text(head.weight as int, head.pounds) + " x "@ + joined(
        parts,
        ", "@,
    ) + effort_part(head) == old(out)@ + weight_group_line(group));
}

/// Appends the line for the sets of one repetition count at `start..end`.
pub fn push_reps_group(out: &mut String, sets: &Vec<ExerciseSet>, start: usize, end: usize)
    requires
        start < end <= sets.len(),
    ensures
        final(out)@ == old(out)@ + reps_group_line(sets@.subrange(start as int, end as int)),
{
    let ghost group = sets@.subrange(start as int, end as int);
    let ghost parts = weight_texts(group);
    let head: ExerciseSet = sets[start];
    assert(group[0] == head);
    let ghost base = out@;
    let mut k: usize = start;
    proof {
        lemma_joined_next(parts, 0, ", "@);
        assert(base + Seq::<char>::empty() == base);
    }
    while k < end
        invariant
            start <= k <= end <= sets.len(),
            group == sets@.subrange(start as int, end as int),
            parts == weight_texts(group),
            out@ == base + joined(parts.take(k - start), ", "@),
        decreases end - k,
    {
        let ghost before = joined(parts.take(k - start), ", "@);
        if k > start {
            out.append(", ");
        }
        push_weight(out, sets[k].weight, sets[k].pounds);
        proof {
            lemma_joined_next(parts, k - start, ", "@);
            assert(parts[k - start] == weight_text(
                sets@[k as int].weight as int,
                sets@[k as int].pounds,
            )) by {
                assert(group[k - start] == sets@[k as int]);
            }
            if k > start {
                assert(base + before + ", "@ + parts[k - start] == base + (before + ", "@
                    + parts[k - start]));
            } else {
                assert(before == Seq::<char>::empty());
                assert(base + before + parts[0] == base + parts[0]);
            }
        }
        k += 1;
    }
    proof {
        assert(parts.take(end - start) == parts);
    }
    out.append(" x ");
    push_int(out, head.reps);
    push_effort(out, &head);
    assert(base + joined(parts, ", "@) + " x "@ + int_text(head.reps as int) + effort_part(head)
        == base + reps_group_line(group));
}

/// Appends the display lines of `sets` to `lines`.
pub fn push_compressed(lines: &mut Vec<String>, sets: &Vec<ExerciseSet>)
    ensures
        texts_of(final(lines)@) == texts_of(old(lines)@) + compressed(sets@),
{
    let ghost start_lines = texts_of(lines@);
    let mut i: usize = 0;
    proof {
        assert(sets@.skip(0) == sets@);
    }
    while i < sets.len()
        invariant
            i <= sets.len(),
            start_lines + compressed(sets@) == texts_of(lines@) + compressed(sets@.skip(i as int)),
        decreases sets.len() - i,
    {
        let ghost rest = sets@.skip(i as int);
        let ghost before = texts_of(lines@);
        let head: ExerciseSet = sets[i];
        let mut line: String = String::new();
        let mut next: usize = i + 1;
        proof {
            assert(rest[0] == head);
            lemma_group_length_bounds(rest);
        }
        if head.kind != 0 {
            push_set_line(&mut line, &head);
        } else {
            let by_weight: usize = run_end(sets, i, true);
            if by_weight - i >= 2 {
                push_weight_group(&mut line, sets, i, by_weight);
                next = by_weight;
                assert(rest.take(by_weight - i) == sets@.subrange(i as int, by_weight as int));
            } else {
                let by_reps: usize = run_end(sets, i, false);
                if by_reps - i >= 2 {
                    push_reps_group(&mut line, sets, i, by_reps);
                    next = by_reps;
                    assert(rest.take(by_reps - i) == sets@.subrange(i as int, by_reps as int));
                } else {
                    push_set_line(&mut line, &head);
                }
            }
        }
        proof {
            assert(next - i == group_length(rest));
            assert(line@ == Seq::<char>::empty() + first_line(rest));
            assert(line@ == first_line(rest));
            assert(rest.skip(next - i) == sets@.skip(next as int));
        }
        lines.push(line);
        proof {
            assert(texts_of(lines@) == before.push(first_line(rest)));
            assert(before.push(first_line(rest)) + compressed(sets@.skip(next as int)) == before
                + (seq![first_line(rest)] + compressed(sets@.skip(next as int))));
        }
        i = next;
    }
    proof {
        assert(compressed(sets@.skip(i as int)) == Seq::<Seq<char>>::empty());
        assert(texts_of(lines@) + Seq::<Seq<char>>::empty() == texts_of(lines@));
    }
}

/// The display lines of the sets of one exercise.
///
/// The sets are read from the left. A set that is not regular (its kind is
/// not 0) gets a line of its own. Regular sets that follow one another with
/// the same weight, effort rating, unit and multiplier share one line, the
/// weight followed by their repetitions, if there are two or more of them.
/// Failing that, regular sets with the same repetitions, effort rating,
/// unit and multiplier share one line, their weights followed by the
/// repetitions, if there are two or more. Any other set gets its own line.
pub fn compress_sets(sets: &Vec<ExerciseSet>) -> (lines: Vec<String>)
    ensures
        texts_of(lines@) == compressed(sets@),
{
    let mut lines: Vec<String> = Vec::new();
    push_compressed(&mut lines, sets);
    assert(texts_of(Seq::<String>::empty()) + compressed(sets@) == compressed(sets@));
    lines
}

/// The text in a day's log that marks where the sets belong.
pub const SETS_MARKER: &'static str = "EBLOCK";

/// Whether `text` begins with `prefix`.
pub open spec fn starts_with(text: Seq<char>, prefix: Seq<char>) -> bool {
    prefix.len() <= text.len() && text.take(prefix.len() as int) == prefix
}

/// `text` with every occurrence of `marker` exchanged for `insert`,
/// occurrences being looked for from the left and never overlapping. An
/// empty marker occurs nowhere.
pub open spec fn replaced(text: Seq<char>, marker: Seq<char>, insert: Seq<char>) -> Seq<char>
    decreases text.len(),
{
    if marker.len() == 0 || text.len() == 0 {
        text
    } else if starts_with(text, marker) {
        insert + replaced(text.skip(marker.len() as int), marker, insert)
    } else {
        seq![text[0]] + replaced(text.skip(1), marker, insert)
    }
}

/// The name of the exercise with the given id: that of the last entry of
/// the list that carries the id, none when no entry does.
pub open spec fn exercise_name(exercises: Seq<ExerciseView>, id: Seq<char>) -> Option<Seq<char>>
    decreases exercises.len(),
{
    if exercises.len() == 0 {
        None
    } else if exercises.last().id == id {
        Some(exercises.last().name)
    } else {
        exercise_name(exercises.drop_last(), id)
    }
}

/// The lines of one block: `#` and the exercise's name, then the lines of
/// its sets; nothing at all when the exercise is not known.
pub open spec fn block_lines(exercises: Seq<ExerciseView>, block: ExerciseBlockView) -> Seq<
    Seq<char>,
> {
    match exercise_name(exercises, block.exercise_id) {
        None => Seq::empty(),
        Some(name) => seq!["#"@ + name] + compressed(block.sets),
    }
}

/// The lines of all blocks, in the blocks' order.
pub open spec fn workout_lines(exercises: Seq<ExerciseView>, blocks: Seq<ExerciseBlockView>) -> Seq<
    Seq<char>,
>
    decreases blocks.len(),
{
    if blocks.len() == 0 {
        Seq::empty()
    } else {
        workout_lines(exercises, blocks.drop_last()) + block_lines(exercises, blocks.last())
    }
}

/// The line that gives the bodyweight, in pounds; nothing without one.
pub open spec fn bodyweight_line(bodyweight: Option<i64>) -> Seq<char> {
    match bodyweight {
        Some(weight) => "@ "@ + weight_text(weight as int, true) + " bw\n"@,
        None => Seq::empty(),
    }
}

/// What goes where the marker stands: the lines of the sets between two
/// blank lines.
pub open spec fn sets_insert(day: DayLogView) -> Seq<char> {
    "\n\n"@ + joined(workout_lines(day.exercises, day.blocks), "\n"@) + "\n\n"@
}

/// The text of one day: the date on a line of its own, the bodyweight line,
/// then the log with the sets put in place of the marker.
pub open spec fn workout_text(day: DayLogView, date: Seq<char>) -> Seq<char> {
    date + "\n"@ + bodyweight_line(day.bodyweight) + replaced(
        day.log,
        SETS_MARKER@,
        sets_insert(day),
    )
}

/// Whether `pattern` stands in `text` at index `at`.
pub fn occurs_at(text: &Vec<char>, at: usize, pattern: &Vec<char>) -> (yes: bool)
    requires
        at <= text.len(),
    ensures
        yes == starts_with(text@.skip(at as int), pattern@),
{
    if pattern.len() > text.len() - at {
        return false;
    }
    let ghost rest = text@.skip(at as int);
    let mut k: usize = 0;
    while k < pattern.len()
        invariant
            k <= pattern.len() <= text.len() - at,
            rest == text@.skip(at as int),
            forall|j: int| 0 <= j < k ==> rest[j] == pattern@[j],
        decreases pattern.len() - k,
    {
        if text[at + k] != pattern[k] {
            proof {
                assert(rest.take(pattern.len() as int)[k as int] == rest[k as int]);
            }
            return false;
        }
        k += 1;
    }
    proof {
        assert(rest.take(pattern.len() as int) =~= pattern@);
    }
    true
}

/// Appends `text` to `out`, with `insert` in place of every `marker`.
pub fn push_replaced(out: &mut String, text: &str, marker: &str, insert: &str)
    ensures
        final(out)@ == old(out)@ + replaced(text@, marker@, insert@),
{
    let chars: Vec<char> = chars_of(text);
    let pattern: Vec<char> = chars_of(marker);
    if pattern.len() == 0 {
        out.append(text);
        return ;
    }
    let mut i: usize = 0;
    let mut copied: usize = 0;
    proof {
        assert(text@.skip(0) == text@);
        assert(out@ + text@.subrange(0, 0) == out@);
    }
    while i < chars.len()
        invariant
            copied <= i <= chars.len(),
            chars@ == text@,
            pattern@ == marker@,
            pattern.len() > 0,
            old(out)@ + replaced(text@, marker@, insert@) == out@ + text@.subrange(
                copied as int,
                i as int,
            ) + replaced(text@.skip(i as int), marker@, insert@),
        decreases chars.len() - i,
    {
        let ghost rest = text@.skip(i as int);
        let ghost kept = text@.subrange(copied as int, i as int);
        let ghost so_far = out@;
        if occurs_at(&chars, i, &pattern) {
            out.append(text.substring_char(copied, i));
            out.append(insert);
            proof {
                let after = replaced(rest.skip(marker@.len() as int), marker@, insert@);
                assert(rest.skip(marker@.len() as int) == text@.skip(i + marker@.len()));
                assert(so_far + kept + (insert@ + after) == so_far + kept + insert@
                    + text@.subrange(i + marker@.len(), i + marker@.len()) + after);
            }
            i += pattern.len();
            copied = i;
        } else {
            proof {
                let after = replaced(rest.skip(1), marker@, insert@);
                assert(rest.skip(1) == text@.skip(i + 1));
                assert(rest[0] == text@[i as int]);
                assert(so_far + kept + (seq![rest[0]] + after) == so_far + text@.subrange(
                    copied as int,
                    i + 1,
                ) + after);
            }
            i += 1;
        }
    }
    let ghost so_far = out@;
    out.append(text.substring_char(copied, i));
    proof {
        assert(text@.skip(i as int).len() == 0);
        assert(so_far + text@.subrange(copied as int, i as int) + text@.skip(i as int) == so_far
            + text@.subrange(copied as int, i as int));
    }
}

/// `text` with `insert` in place of every occurrence of `marker`.
pub fn replace_marker(text: &str, marker: &str, insert: &str) -> (result: String)
    ensures
        result@ == replaced(text@, marker@, insert@),
{
    let mut result: String = String::new();
    push_replaced(&mut result, text, marker, insert);
    assert(Seq::<char>::empty() + replaced(text@, marker@, insert@) == replaced(
        text@,
        marker@,
        insert@,
    ));
    result
}

/// What each of the given exercises holds.
pub open spec fn exercise_views(exercises: Seq<Exercise>) -> Seq<ExerciseView> {
    Seq::new(exercises.len(), |i: int| exercises[i]@)
}

/// The name found for an id is that of the last entry that carries it.
pub proof fn lemma_exercise_name_is_last(exercises: Seq<ExerciseView>, id: Seq<char>, from: int)
    requires
        0 <= from <= exercises.len(),
        forall|j: int| from <= j < exercises.len() ==> (#[trigger] exercises[j]).id != id,
    ensures
        exercise_name(exercises, id) == exercise_name(exercises.take(from), id),
    decreases exercises.len() - from,
{
    if from == exercises.len() {
        assert(exercises.take(from) == exercises);
    } else {
        let shorter = exercises.drop_last();
        assert(exercises.last() == exercises[exercises.len() - 1]);
        assert(exercises.last().id != id);
        assert forall|j: int| from <= j < shorter.len() implies (#[trigger] shorter[j]).id
            != id by {
            assert(shorter[j] == exercises[j]);
        }
        lemma_exercise_name_is_last(shorter, id, from);
        assert(shorter.take(from) == exercises.take(from));
    }
}

/// The place of the exercise with the given id in the list: that of the
/// last entry that carries the id.
pub fn find_exercise(exercises: &Vec<Exercise>, id: &String) -> (found: Option<usize>)
    ensures
        match found {
            Some(k) => k < exercises.len() && exercise_name(exercise_views(exercises@), id@)
                == Some(exercises@[k as int].name@),
            None => exercise_name(exercise_views(exercises@), id@) is None,
        },
{
    let ghost views = exercise_views(exercises@);
    let mut k: usize = exercises.len();
    while k > 0
        invariant
            k <= exercises.len(),
            views == exercise_views(exercises@),
            forall|j: int| k <= j < views.len() ==> (#[trigger] views[j]).id != id@,
        decreases k,
    {
        k -= 1;
        if exercises[k].id == *id {
            proof {
                lemma_exercise_name_is_last(views, id@, k + 1);
                assert(views.take(k + 1).last() == views[k as int]);
            }
            return Some(k);
        }
    }
    proof {
        lemma_exercise_name_is_last(views, id@, 0);
        assert(views.take(0).len() == 0);
    }
    None
}

/// The strings of `lines`, one after the other with `separator` between.
pub fn join_lines(lines: &Vec<String>, separator: &str) -> (text: String)
    ensures
        text@ == joined(texts_of(lines@), separator@),
{
    let ghost parts = texts_of(lines@);
    let mut text: String = String::new();
    let mut k: usize = 0;
    if lines.len() == 0 {
        return text;
    }
    proof {
        lemma_joined_next(parts, 0, separator@);
    }
    while k < lines.len()
        invariant
            k <= lines.len(),
            lines.len() > 0,
            parts == texts_of(lines@),
            text@ == joined(parts.take(k as int), separator@),
        decreases lines.len() - k,
    {
        let ghost before = text@;
        if k > 0 {
            text.append(separator);
        }
        text.append(lines[k].as_str());
        proof {
            lemma_joined_next(parts, k as int, separator@);
            if k == 0 {
                assert(before + parts[0] == parts[0]);
            }
        }
        k += 1;
    }
    proof {
        assert(parts.take(k as int) == parts);
    }
    text
}

/// The text of one day under its date label.
///
/// The first line is the date label. If the day has a bodyweight, the line
/// `@ <weight> bw` follows, the weight in pounds. Then comes the day's log
/// text, in which every `SETS_MARKER` is exchanged for the lines of the
/// sets between two blank lines: for each block, in order, `#` and the
/// exercise's name and then the lines of the block's sets. A block whose
/// exercise the day does not list is left out.
pub fn format_day(day: &DayLog, date: &str) -> (text: String)
    ensures
        text@ == workout_text(day@, date@),
{
    let ghost exercises = day@.exercises;
    let ghost blocks = day@.blocks;
    let mut lines: Vec<String> = Vec::new();
    let mut n: usize = 0;
    assert(texts_of(lines@) == workout_lines(exercises, blocks.take(0)));
    while n < day.blocks.len()
        invariant
            n <= day.blocks.len(),
            exercises == day@.exercises,
            blocks == day@.blocks,
            texts_of(lines@) == workout_lines(exercises, blocks.take(n as int)),
        decreases day.blocks.len() - n,
    {
        let ghost before = texts_of(lines@);
        proof {
            assert(blocks.take(n + 1).drop_last() == blocks.take(n as int));
            assert(blocks.take(n + 1).last() == day.blocks@[n as int]@);
            assert(exercises == exercise_views(day.exercises@));
        }
        match find_exercise(&day.exercises, &day.blocks[n].exercise_id) {
            Some(k) => {
                let mut header: String = String::new();
                header.append("#");
                header.append(day.exercises[k].name.as_str());
                assert(header@ == "#"@ + day.exercises@[k as int].name@);
                lines.push(header);
                assert(texts_of(lines@) == before.push("#"@ + day.exercises@[k as int].name@));
                push_compressed(&mut lines, &day.blocks[n].sets);
                assert(before.push("#"@ + day.exercises@[k as int].name@) + compressed(
                    day.blocks@[n as int].sets@,
                ) == before + (seq!["#"@ + day.exercises@[k as int].name@] + compressed(
                    day.blocks@[n as int].sets@,
                )));
            },
            None => {
                assert(before + Seq::<Seq<char>>::empty() == before);
            },
        }
        n += 1;
    }
    assert(blocks.take(n as int) == blocks);
    let body: String = join_lines(&lines, "\n");
    let mut insert: String = String::new();
    insert.append("\n\n");
    insert.append(body.as_str());
    insert.append("\n\n");
    assert(insert@ == sets_insert(day@));
    let mut text: String = String::new();
    text.append(date);
    text.append("\n");
    assert(text@ == date@ + "\n"@);
    match day.bodyweight {
        Some(weight) => {
            text.append("@ ");
            push_weight(&mut text, weight, true);
            text.append(" bw\n");
            assert(text@ == date@ + "\n"@ + ("@ "@ + weight_text(weight as int, true) + " bw\n"@));
        },
        None => {
            assert(text@ == date@ + "\n"@ + Seq::<char>::empty());
        },
    }
    push_replaced(&mut text, day.log.as_str(), SETS_MARKER, insert.as_str());
    text
}

/// The names of the exercises of the blocks, in the blocks' order, without
/// the blocks whose exercise is not known.
pub open spec fn block_names(exercises: Seq<ExerciseView>, blocks: Seq<ExerciseBlockView>) -> Seq<
    Seq<char>,
>
    decreases blocks.len(),
{
    if blocks.len() == 0 {
        Seq::empty()
    } else {
        let earlier = block_names(exercises, blocks.drop_last());
        match exercise_name(exercises, blocks.last().exercise_id) {
            Some(name) => earlier.push(name),
            None => earlier,
        }
    }
}

/// One line that names what was done on a day.
pub open spec fn summary_text(day: DayLogView) -> Seq<char> {
    joined(block_names(day.exercises, day.blocks), ", "@)
}

/// One line that names what was done on a day: the names of the exercises
/// of its blocks, in order, with `, ` between them. A block whose exercise
/// the day does not list is left out.
pub fn summarize_workout(day: &DayLog) -> (text: String)
    ensures
        text@ == summary_text(day@),
{
    let ghost exercises = day@.exercises;
    let ghost blocks = day@.blocks;
    let mut names: Vec<String> = Vec::new();
    let mut n: usize = 0;
    assert(texts_of(names@) == block_names(exercises, blocks.take(0)));
    while n < day.blocks.len()
        invariant
            n <= day.blocks.len(),
            exercises == day@.exercises,
            blocks == day@.blocks,
            texts_of(names@) == block_names(exercises, blocks.take(n as int)),
        decreases day.blocks.len() - n,
    {
        let ghost before = texts_of(names@);
        proof {
            assert(blocks.take(n + 1).drop_last() == blocks.take(n as int));
            assert(blocks.take(n + 1).last() == day.blocks@[n as int]@);
            assert(exercises == exercise_views(day.exercises@));
        }
        match find_exercise(&day.exercises, &day.blocks[n].exercise_id) {
            Some(k) => {
                names.push(day.exercises[k].name.clone());
                assert(texts_of(names@) == before.push(day.exercises@[k as int].name@));
            },
            None => {},
        }
        n += 1;
    }
    assert(blocks.take(n as int) == blocks);
    join_lines(&names, ", ")
}

} // verus!
