//! The records of one training day.
//!
//! Weights, bodyweight and effort ratings are whole numbers of thousandths
//! (100 kg is 100_000); repetitions and multipliers are plain counts.

use vstd::prelude::*;

verus! {

/// One logged set.
#[derive(Clone, Copy, Debug, PartialEq, Eq, Structural)]
pub struct ExerciseSet {
    /// Weight in thousandths of a kilogram.
    pub weight: i64,
    /// Repetitions.
    pub reps: i64,
    /// How many identical sets this record stands for.
    pub multiplier: i64,
    /// Whether the weight is shown in pounds.
    pub pounds: bool,
    /// Effort rating (RPE) in thousandths; 0 when none was given.
    pub rpe: i64,
    /// 0 for a regular weighted set, another number for any other activity.
    pub kind: i64,
}

impl ExerciseSet {
    /// A set from fields of which any may be missing: a missing weight,
    /// repetition count, effort rating or kind counts as 0, a missing
    /// multiplier as 1, a missing unit as kilograms.
    pub fn from_fields(
        weight: Option<i64>,
        reps: Option<i64>,
        multiplier: Option<i64>,
        pounds: Option<bool>,
        rpe: Option<i64>,
        kind: Option<i64>,
    ) -> (set: ExerciseSet)
        ensures
            set.weight == (if weight is Some { weight->0 } else { 0 }),
            set.reps == (if reps is Some { reps->0 } else { 0 }),
            set.multiplier == (if multiplier is Some { multiplier->0 } else { 1 }),
            set.pounds == (if pounds is Some { pounds->0 } else { false }),
            set.rpe == (if rpe is Some { rpe->0 } else { 0 }),
            set.kind == (if kind is Some { kind->0 } else { 0 }),
    {
        ExerciseSet {
            weight: match weight { Some(w) => w, None => 0 },
            reps: match reps { Some(r) => r, None => 0 },
            multiplier: match multiplier { Some(s) => s, None => 1 },
            pounds: match pounds { Some(p) => p, None => false },
            rpe: match rpe { Some(e) => e, None => 0 },
            kind: match kind { Some(k) => k, None => 0 },
        }
    }
}

/// An exercise that a day refers to.
#[derive(Clone, Debug)]
pub struct Exercise {
    pub id: String,
    pub name: String,
}

/// What an `Exercise` holds.
pub struct ExerciseView {
    pub id: Seq<char>,
    pub name: Seq<char>,
}

impl View for Exercise {
    type V = ExerciseView;

    open spec fn view(&self) -> ExerciseView {
        ExerciseView { id: self.id@, name: self.name@ }
    }
}

/// The sets of one exercise, in the order they were done.
#[derive(Clone, Debug)]
pub struct ExerciseBlock {
    pub exercise_id: String,
    pub sets: Vec<ExerciseSet>,
}

/// What an `ExerciseBlock` holds.
pub struct ExerciseBlockView {
    pub exercise_id: Seq<char>,
    pub sets: Seq<ExerciseSet>,
}

impl View for ExerciseBlock {
    type V = ExerciseBlockView;

    open spec fn view(&self) -> ExerciseBlockView {
        ExerciseBlockView { exercise_id: self.exercise_id@, sets: self.sets@ }
    }
}

/// One day of the log.
#[derive(Clone, Debug)]
pub struct DayLog {
    /// The day's text, with a marker where the sets belong.
    pub log: String,
    /// Bodyweight in thousandths of a kilogram.
    pub bodyweight: Option<i64>,
    pub blocks: Vec<ExerciseBlock>,
    pub exercises: Vec<Exercise>,
}

/// What a `DayLog` holds.
pub struct DayLogView {
    pub log: Seq<char>,
    pub bodyweight: Option<i64>,
    pub blocks: Seq<ExerciseBlockView>,
    pub exercises: Seq<ExerciseView>,
}

impl View for DayLog {
    type V = DayLogView;

    open spec fn view(&self) -> DayLogView {
        DayLogView {
            log: self.log@,
            bodyweight: self.bodyweight,
            blocks: Seq::new(self.blocks@.len(), |i: int| self.blocks@[i]@),
            exercises: Seq::new(self.exercises@.len(), |i: int| self.exercises@[i]@),
        }
    }
}

} // verus!
