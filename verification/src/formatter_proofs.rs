//! What holds of every sequence of sets and of every day: theorems about
//! `compressed` and `workout_text`.

use crate::formatters::{
    compressed, first_line, group_length, lemma_group_length_bounds, lemma_run_length_bound,
    run_length, set_line, shares_line, workout_text,
};
use crate::models::{DayLogView, ExerciseSet};
use vstd::prelude::*;

verus! {

/// A run never reaches across a set that is not regular.
pub proof fn lemma_run_stops_at_other_kind(
    head: ExerciseSet,
    before: Seq<ExerciseSet>,
    other: ExerciseSet,
    after: Seq<ExerciseSet>,
    by_weight: bool,
)
    requires
        other.kind != 0,
    ensures
        run_length(head, before + seq![other] + after, by_weight) == run_length(
            head,
            before,
            by_weight,
        ),
    decreases before.len(),
{
    let all = before + seq![other] + after;
    if before.len() == 0 {
        assert(all[0] == other);
        assert(!shares_line(head, other, by_weight));
    } else {
        assert(all[0] == before[0]);
        assert(all.skip(1) == before.skip(1) + seq![other] + after);
        lemma_run_stops_at_other_kind(head, before.skip(1), other, after, by_weight);
    }
}

/// A set that is not regular is never merged into a line of its
/// neighbours: wherever it stands, the sets before it are displayed as they
/// would be alone, then comes the set's own line, then the sets after it
/// are displayed as they would be alone.
pub proof fn lemma_other_kind_stands_alone(
    before: Seq<ExerciseSet>,
    other: ExerciseSet,
    after: Seq<ExerciseSet>,
)
    requires
        other.kind != 0,
    ensures
        compressed(before + seq![other] + after) == compressed(before) + seq![set_line(other)]
            + compressed(after),
    decreases before.len(),
{
    let all = before + seq![other] + after;
    if before.len() == 0 {
        assert(all[0] == other);
        assert(all.skip(1) == after);
        assert(compressed(before) == Seq::<Seq<char>>::empty());
        assert(compressed(all) == seq![set_line(other)] + compressed(after));
        assert(Seq::<Seq<char>>::empty() + seq![set_line(other)] == seq![set_line(other)]);
    } else {
        let head = before[0];
        assert(all[0] == head);
        lemma_run_stops_at_other_kind(head, before, other, after, true);
        lemma_run_stops_at_other_kind(head, before, other, after, false);
        lemma_run_length_bound(head, before, true);
        lemma_run_length_bound(head, before, false);
        lemma_group_length_bounds(before);
        let n = group_length(before) as int;
        assert(group_length(all) == n);
        assert(all.take(run_length(head, before, true) as int) == before.take(
            run_length(head, before, true) as int,
        ));
        assert(all.take(run_length(head, before, false) as int) == before.take(
            run_length(head, before, false) as int,
        ));
        assert(first_line(all) == first_line(before));
        assert(all.skip(n) == before.skip(n) + seq![other] + after);
        lemma_other_kind_stands_alone(before.skip(n), other, after);
        assert(compressed(all) == seq![first_line(before)] + (compressed(before.skip(n))
            + seq![set_line(other)] + compressed(after)));
        assert(compressed(before) == seq![first_line(before)] + compressed(before.skip(n)));
        assert(seq![first_line(before)] + (compressed(before.skip(n)) + seq![set_line(other)]
            + compressed(after)) == seq![first_line(before)] + compressed(before.skip(n))
            + seq![set_line(other)] + compressed(after));
    }
}

/// Formatting the same day under the same date label twice gives the same
/// text, character for character.
pub proof fn lemma_formatting_is_repeatable(
    day: DayLogView,
    date: Seq<char>,
    first: Seq<char>,
    second: Seq<char>,
)
    requires
        first == workout_text(day, date),
        second == workout_text(day, date),
    ensures
        first == second,
{
}

} // verus!
