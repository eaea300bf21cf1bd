use fugue::names::grid_name;
use fugue::compare::{compare_scores, CompareCounts};
use fugue::names::note_value_from_name;
use fugue::rat::Rat;
use fugue::score::{Score, Step, TimeSignature, SCORE_SCHEMA_V1};

/// Builds a score on a 16th grid from cells of (offset, length-in-steps)
/// events; `None` entries are rests of the given length.
fn score(cells: Vec<Vec<(Option<i8>, usize)>>) -> Score {
    let cells = cells
        .into_iter()
        .map(|cell| {
            let mut steps = Vec::new();
            for (note, length) in cell {
                match note {
                    Some(offset) => {
                        steps.push(Step::note(offset));
                        for _ in 1..length {
                            steps.push(Step::held());
                        }
                    }
                    None => {
                        for _ in 0..length {
                            steps.push(Step::rest());
                        }
                    }
                }
            }
            steps
        })
        .collect();
    Score {
        schema: Some(SCORE_SCHEMA_V1.to_string()),
        title: None,
        composer: None,
        key: None,
        tempo: None,
        tempo_map: Vec::new(),
        time_signature: Some(TimeSignature { beats_per_measure: 4, beat_unit: 4 }),
        base_note_hint: Some(60),
        rhythm_grid: Some("16th_note".to_string()),
        cells,
        pedal: Vec::new(),
    }
}

fn ratio(numerator: usize, denominator: usize) -> f64 {
    if denominator == 0 {
        1.0
    } else {
        numerator as f64 / denominator as f64
    }
}

fn precision(r: &CompareCounts) -> f64 {
    ratio(r.matched, r.candidate_notes)
}

fn recall(r: &CompareCounts) -> f64 {
    ratio(r.matched, r.reference_notes)
}

fn f1(r: &CompareCounts) -> f64 {
    let (p, q) = (precision(r), recall(r));
    if p + q > 0.0 {
        2.0 * p * q / (p + q)
    } else {
        0.0
    }
}

#[test]
fn identical_scores_are_exact() {
    let reference = score(vec![vec![(Some(0), 4), (None, 4), (Some(7), 8)]]);
    let report = compare_scores(&reference, &reference).expect("comparable");
    assert!(report.exact);
    assert_eq!(report.matched, 2);
    assert_eq!(f1(&report), 1.0);
    assert_eq!(ratio(report.duration_matches, report.matched), 1.0);
    assert!(report.total_duration_match);
    assert_eq!(report.reference_measures, Some(1));
}

#[test]
fn different_lane_decompositions_compare_equal() {
    let reference = score(vec![vec![(Some(0), 16)], vec![(Some(4), 16)]]);
    let candidate = score(vec![vec![(Some(4), 16)], vec![(Some(0), 16)]]);
    let report = compare_scores(&candidate, &reference).expect("comparable");
    assert!(report.exact, "lane order must not matter");
}

#[test]
fn different_rhythm_grids_align_on_the_time_base() {
    let mut fine = score(vec![vec![(Some(0), 4), (Some(2), 4)]]);
    fine.rhythm_grid = Some("16th_note".to_string());
    let mut coarse = score(vec![vec![(Some(0), 2), (Some(2), 2)]]);
    coarse.rhythm_grid = Some("8th_note".to_string());
    let report = compare_scores(&coarse, &fine).expect("comparable");
    assert_eq!(report.matched, 2);
    assert!(report.exact);
}

#[test]
fn missing_and_extra_notes_hit_recall_and_precision() {
    let reference = score(vec![vec![(Some(0), 4), (Some(2), 4), (Some(4), 4), (None, 4)]]);
    let candidate = score(vec![vec![(Some(0), 4), (Some(2), 4), (None, 4), (Some(11), 4)]]);
    let report = compare_scores(&candidate, &reference).expect("comparable");
    assert_eq!(report.matched, 2);
    assert_eq!(report.reference_only, 1);
    assert_eq!(report.candidate_only, 1);
    assert!((precision(&report) - 2.0 / 3.0).abs() < 1e-9);
    assert!((recall(&report) - 2.0 / 3.0).abs() < 1e-9);
    assert!(!report.exact);
}

#[test]
fn dropped_tie_becomes_a_duration_mismatch_plus_extra_onset() {
    let reference = score(vec![vec![(Some(0), 8)]]);
    let candidate = score(vec![vec![(Some(0), 4), (Some(0), 4)]]);
    let report = compare_scores(&candidate, &reference).expect("comparable");
    assert_eq!(report.matched, 1, "the onset at beat 1 still matches");
    assert_eq!(report.duration_matches, 0, "but its duration is wrong");
    assert_eq!(report.candidate_only, 1, "the re-attack is a false positive");
    assert!(!report.exact);
}

#[test]
fn octave_and_timing_errors_are_classified() {
    let reference = score(vec![vec![(Some(0), 4), (None, 4), (Some(7), 4), (None, 4)]]);
    let candidate = score(vec![vec![(Some(12), 4), (None, 4), (None, 1), (Some(7), 4), (None, 3)]]);
    let report = compare_scores(&candidate, &reference).expect("comparable");
    assert_eq!(report.matched, 0);
    assert_eq!(report.octave_errors, 1);
    assert_eq!(report.timing_near_misses, 1);
}

#[test]
fn total_duration_mismatch_is_reported() {
    let reference = score(vec![vec![(Some(0), 16)]]);
    let candidate = score(vec![vec![(Some(0), 16), (None, 16)]]);
    let report = compare_scores(&candidate, &reference).expect("comparable");
    assert!(!report.total_duration_match);
    assert_eq!(report.candidate_measures, Some(2));
    assert_eq!(report.reference_measures, Some(1));
    assert!(!report.exact);
}

#[test]
fn base_note_hints_normalize_to_absolute_pitch() {
    let mut reference = score(vec![vec![(Some(0), 4)]]);
    reference.base_note_hint = Some(60);
    let mut candidate = score(vec![vec![(Some(-12), 4)]]);
    candidate.base_note_hint = Some(72);
    let report = compare_scores(&candidate, &reference).expect("comparable");
    assert!(report.exact);
}

#[test]
fn unknown_rhythm_grid_is_an_error() {
    let mut broken = score(vec![vec![(Some(0), 4)]]);
    broken.rhythm_grid = Some("vibes".to_string());
    let err = match compare_scores(&broken, &score(vec![vec![(Some(0), 4)]])) {
        Err(e) => e,
        Ok(_) => panic!("unknown grid must fail"),
    };
    assert!(err.contains("rhythm_grid"), "{}", err);
}

// --- further cases ---

#[test]
fn durations_are_written_as_quarter_fractions() {
    let reference = score(vec![vec![(Some(0), 6)]]);
    let report = compare_scores(&reference, &reference).expect("comparable");
    assert_eq!(report.reference_duration_quarters, "3/2");
    assert_eq!(report.candidate_measures, None, "six 16ths do not fill a measure");
    let whole = score(vec![vec![(Some(0), 16)], vec![(Some(3), 4)]]);
    let report = compare_scores(&whole, &whole).expect("comparable");
    assert_eq!(report.candidate_duration_quarters, "4");
}

#[test]
fn missing_grid_is_one_quarter_per_step() {
    let mut a = score(vec![vec![(Some(0), 1), (Some(2), 1)]]);
    a.rhythm_grid = None;
    let mut b = score(vec![vec![(Some(0), 4), (Some(2), 4)]]);
    b.rhythm_grid = Some("16th_note".to_string());
    let report = compare_scores(&a, &b).expect("comparable");
    assert!(report.exact);
    assert_eq!(report.candidate_duration_quarters, "2");
}

#[test]
fn grid_errors_name_the_side() {
    let mut broken = score(vec![vec![(Some(0), 4)]]);
    broken.rhythm_grid = Some("vibes".to_string());
    let ok = score(vec![vec![(Some(0), 4)]]);
    assert_eq!(
        compare_scores(&ok, &broken).err().unwrap(),
        "reference has an unrecognized rhythm_grid 'vibes'"
    );
    assert_eq!(
        compare_scores(&broken, &ok).err().unwrap(),
        "candidate has an unrecognized rhythm_grid 'vibes'"
    );
}

#[test]
fn a_duration_exact_pairing_is_preferred() {
    // Two reference notes at the same onset and pitch (doubled across
    // cells) with different lengths; the candidate plays the longer one.
    let reference = score(vec![vec![(Some(0), 4)], vec![(Some(0), 8)]]);
    let candidate = score(vec![vec![(Some(0), 8)]]);
    let report = compare_scores(&candidate, &reference).expect("comparable");
    assert_eq!(report.matched, 1);
    assert_eq!(report.duration_matches, 1);
    assert_eq!(report.reference_only, 1);
}

#[test]
fn grid_names_have_note_values() {
    assert_eq!(note_value_from_name("16th_note"), Some(Rat { num: 1, den: 4 }));
    assert_eq!(note_value_from_name("whole_note"), Some(Rat { num: 4, den: 1 }));
    assert_eq!(note_value_from_name("8th_triplet"), Some(Rat { num: 1, den: 3 }));
    assert_eq!(note_value_from_name("128th_note"), Some(Rat { num: 1, den: 32 }));
    assert_eq!(note_value_from_name("vibes"), None);
}

#[test]
fn written_grid_names_read_back_as_the_same_grid() {
    for (num, den) in [(4, 1), (2, 1), (1, 1), (1, 2), (1, 4), (1, 8), (1, 16), (1, 32), (4, 3), (2, 3), (1, 3), (1, 6), (1, 12)] {
        let grid = Rat { num, den };
        let name: String = grid_name(grid).into_iter().collect();
        assert_eq!(note_value_from_name(&name), Some(grid), "{name}");
    }
    let odd: String = grid_name(Rat { num: 3, den: 4 }).into_iter().collect();
    assert_eq!(odd, "3/16_whole_note");
    assert_eq!(note_value_from_name(&odd), None);
}
