use wxrust::formatters::{
    compress_sets, format_set, format_weight, format_day, replace_marker, summarize_workout,
    SETS_MARKER,
};
use wxrust::models::{DayLog, Exercise, ExerciseBlock, ExerciseSet};

fn set(weight_kg: i64, reps: i64) -> ExerciseSet {
    ExerciseSet { weight: weight_kg * 1000, reps, multiplier: 1, pounds: false, rpe: 0, kind: 0 }
}

#[test]
fn compress_same_weight_run() {
    let sets = vec![set(100, 5), set(100, 5), set(100, 3)];
    assert_eq!(compress_sets(&sets), vec!["100 x 5, 5, 3"]);
}

#[test]
fn compress_same_reps_run() {
    let sets = vec![set(80, 5), set(90, 5), set(100, 5)];
    assert_eq!(compress_sets(&sets), vec!["80, 90, 100 x 5"]);
}

#[test]
fn compress_never_merges_another_kind() {
    let mut timed = set(100, 5);
    timed.kind = 2;
    let sets = vec![set(100, 5), set(100, 5), timed, set(100, 5), set(100, 5)];
    assert_eq!(compress_sets(&sets), vec!["100 x 5, 5", "100 x 5", "100 x 5, 5"]);
    let sets = vec![set(100, 5), timed, set(100, 5)];
    assert_eq!(compress_sets(&sets), vec!["100 x 5", "100 x 5", "100 x 5"]);
    let sets = vec![timed, timed];
    assert_eq!(compress_sets(&sets), vec!["100 x 5", "100 x 5"]);
    let sets = vec![set(80, 5), timed, set(90, 5)];
    assert_eq!(compress_sets(&sets), vec!["80 x 5", "100 x 5", "90 x 5"]);
}

#[test]
fn compress_prefers_the_weight_run() {
    assert_eq!(compress_sets(&vec![set(100, 5), set(100, 5)]), vec!["100 x 5, 5"]);
    let sets = vec![set(100, 5), set(100, 3), set(90, 3), set(80, 3)];
    assert_eq!(compress_sets(&sets), vec!["100 x 5, 3", "90, 80 x 3"]);
    let sets = vec![set(90, 3), set(100, 3), set(100, 5)];
    assert_eq!(compress_sets(&sets), vec!["90, 100 x 3", "100 x 5"]);
}

#[test]
fn compress_lone_sets_and_empty_input() {
    assert_eq!(compress_sets(&vec![]), Vec::<String>::new());
    assert_eq!(compress_sets(&vec![set(100, 5)]), vec!["100 x 5"]);
    assert_eq!(compress_sets(&vec![set(100, 5), set(90, 3), set(80, 1)]),
        vec!["100 x 5", "90 x 3", "80 x 1"]);
}

#[test]
fn compress_needs_equal_effort_unit_and_multiplier() {
    let mut hard = set(100, 5);
    hard.rpe = 8500;
    assert_eq!(compress_sets(&vec![set(100, 5), hard]), vec!["100 x 5", "100 x 5 @8.5"]);
    assert_eq!(compress_sets(&vec![hard, hard]), vec!["100 x 5, 5 @8.5"]);
    let mut lighter = hard;
    lighter.weight = 90_000;
    assert_eq!(compress_sets(&vec![lighter, hard]), vec!["90, 100 x 5 @8.5"]);
    let mut pounds = set(100, 5);
    pounds.pounds = true;
    assert_eq!(compress_sets(&vec![set(100, 5), pounds]), vec!["100 x 5", "220 x 5"]);
    let mut triple = set(100, 5);
    triple.multiplier = 3;
    assert_eq!(compress_sets(&vec![set(100, 5), triple]), vec!["100 x 5", "100 x 5 x 3"]);
    assert_eq!(compress_sets(&vec![triple, triple]), vec!["100 x 5, 5"]);
}

#[test]
fn weight_is_rounded_half_to_even() {
    assert_eq!(format_weight(100_000, false), "100");
    assert_eq!(format_weight(100_499, false), "100");
    assert_eq!(format_weight(100_500, false), "100");
    assert_eq!(format_weight(100_501, false), "101");
    assert_eq!(format_weight(101_500, false), "102");
    assert_eq!(format_weight(2_500, false), "2");
    assert_eq!(format_weight(3_500, false), "4");
    assert_eq!(format_weight(500, false), "0");
    assert_eq!(format_weight(0, false), "0");
    assert_eq!(format_weight(-20_000, false), "-20");
    assert_eq!(format_weight(-400, false), "-0");
}

#[test]
fn weight_in_pounds() {
    assert_eq!(format_weight(100_000, true), "220");
    assert_eq!(format_weight(1_000, true), "2");
    assert_eq!(format_weight(102_058, true), "225");
    assert_eq!(format_weight(61_235, true), "135");
    assert_eq!(format_weight(-20_000, true), "-44");
    assert_eq!(format_weight(0, true), "0");
    assert_eq!(format_weight(i64::MAX, true), "20334030459890776");
    assert_eq!(format_weight(i64::MIN, false), "-9223372036854776");
}

#[test]
fn set_line_parts() {
    assert_eq!(format_set(&set(100, 5)), "100 x 5");
    assert_eq!(format_set(&set(100, 0)), "100");
    assert_eq!(format_set(&set(100, -1)), "100");
    let mut s = set(100, 5);
    s.multiplier = 3;
    assert_eq!(format_set(&s), "100 x 5 x 3");
    s.rpe = 9000;
    assert_eq!(format_set(&s), "100 x 5 x 3 @9");
    s.rpe = 9500;
    s.multiplier = 0;
    assert_eq!(format_set(&s), "100 x 5 @9.5");
    s.rpe = 7250;
    s.reps = 0;
    assert_eq!(format_set(&s), "100 @7.25");
    s.rpe = 7005;
    assert_eq!(format_set(&s), "100 @7.005");
    s.rpe = 50;
    assert_eq!(format_set(&s), "100 @0.05");
    s.rpe = -1;
    s.pounds = true;
    assert_eq!(format_set(&s), "220");
}

#[test]
fn missing_fields_take_their_defaults() {
    let s = ExerciseSet::from_fields(None, None, None, None, None, None);
    assert_eq!(s, ExerciseSet { weight: 0, reps: 0, multiplier: 1, pounds: false, rpe: 0, kind: 0 });
    assert_eq!(format_set(&s), "0");
    let s = ExerciseSet::from_fields(Some(60_000), Some(8), Some(2), Some(true), Some(8000), Some(1));
    assert_eq!(s, ExerciseSet { weight: 60_000, reps: 8, multiplier: 2, pounds: true, rpe: 8000,
        kind: 1 });
    assert_eq!(format_set(&s), "132 x 8 x 2 @8");
}

#[test]
fn marker_is_replaced_everywhere() {
    assert_eq!(replace_marker("a<>b<>c", "<>", "--"), "a--b--c");
    assert_eq!(replace_marker("aaa", "aa", "b"), "ba");
    assert_eq!(replace_marker("abc", "x", "y"), "abc");
    assert_eq!(replace_marker("abc", "", "y"), "abc");
    assert_eq!(replace_marker("", "x", "y"), "");
    assert_eq!(replace_marker("xx", "x", ""), "");
    assert_eq!(replace_marker("héllo wörld", "ö", "oe"), "héllo woerld");
    assert_eq!(replace_marker("ab", "abc", "y"), "ab");
}

fn sample_day() -> DayLog {
    DayLog {
        log: format!("Good day\n{}\nbye", SETS_MARKER),
        bodyweight: Some(80_000),
        blocks: vec![
            ExerciseBlock {
                exercise_id: "1".to_string(),
                sets: vec![set(100, 5), set(100, 5), set(100, 3)],
            },
            ExerciseBlock { exercise_id: "9".to_string(), sets: vec![set(50, 5)] },
            ExerciseBlock {
                exercise_id: "2".to_string(),
                sets: vec![set(80, 5), set(90, 5), set(60, 10)],
            },
        ],
        exercises: vec![
            Exercise { id: "2".to_string(), name: "Pull".to_string() },
            Exercise { id: "1".to_string(), name: "Squat".to_string() },
            Exercise { id: "2".to_string(), name: "Bench Press".to_string() },
        ],
    }
}

#[test]
fn format_day_puts_the_sets_at_the_marker() {
    let text = format_day(&sample_day(), "2025-05-27");
    assert_eq!(text, "2025-05-27\n@ 176 bw\nGood day\n\n\n#Squat\n100 x 5, 5, 3\n#Bench Press\n\
        80, 90 x 5\n60 x 10\n\n\nbye");
}

#[test]
fn format_day_without_bodyweight_or_blocks() {
    let day = DayLog {
        log: format!("{}", SETS_MARKER),
        bodyweight: None,
        blocks: vec![],
        exercises: vec![],
    };
    assert_eq!(format_day(&day, "d"), "d\n\n\n\n\n");
    let day = DayLog { log: "no marker".to_string(), bodyweight: None, blocks: vec![],
        exercises: vec![] };
    assert_eq!(format_day(&day, ""), "\nno marker");
}

#[test]
fn format_day_twice_gives_the_same_text() {
    let day = sample_day();
    let first = format_day(&day, "2025-05-27");
    let second = format_day(&day, "2025-05-27");
    assert_eq!(first.as_bytes(), second.as_bytes());
    assert_eq!(format_day(&sample_day(), "2025-05-27"), first);
}

#[test]
fn summary_names_the_exercises() {
    assert_eq!(summarize_workout(&sample_day()), "Squat, Bench Press");
    let day = DayLog { log: String::new(), bodyweight: None, blocks: vec![], exercises: vec![] };
    assert_eq!(summarize_workout(&day), "");
}
