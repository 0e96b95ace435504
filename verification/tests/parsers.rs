use dash::number::{accepts_float, is_numeric_word};
use dash::parse::{parse_freqs, parse_pbqff, parse_semp, semp_step, Fault, ParseError};
use dash::series::{string_of, DataSet, Number, Point};
use dash::text::{chars_of, split_lines, split_words, starts_with};

fn lit(s: &str) -> Number {
    Number::Literal(s.to_string())
}

fn pt(x: Number, y: Number) -> Point {
    Point { x, y }
}

fn value(n: &Number) -> f64 {
    match n {
        Number::Count(c) => *c as f64,
        Number::Literal(s) => s.parse::<f64>().unwrap(),
    }
}

fn values(set: &DataSet) -> Vec<(f64, f64)> {
    set.data.iter().map(|p| (value(&p.x), value(&p.y))).collect()
}

fn strings(parts: &[&[char]]) -> Vec<String> {
    parts.iter().map(|w| w.iter().collect::<String>()).collect()
}

#[test]
fn lines_end_at_line_feeds() {
    let text = chars_of("a b\n\nc\n");
    assert_eq!(strings(&split_lines(&text)), vec!["a b", "", "c"]);
}

#[test]
fn last_line_needs_no_line_feed() {
    let text = chars_of("one\ntwo");
    assert_eq!(strings(&split_lines(&text)), vec!["one", "two"]);
}

#[test]
fn empty_text_has_no_line() {
    let text = chars_of("");
    assert_eq!(split_lines(&text).len(), 0);
}

#[test]
fn lone_line_feed_is_one_empty_line() {
    let text = chars_of("\n");
    assert_eq!(strings(&split_lines(&text)), vec![""]);
}

#[test]
fn carriage_return_before_line_feed_ends_the_line() {
    let text = chars_of("a\r\nb\r");
    assert_eq!(strings(&split_lines(&text)), vec!["a", "b\r"]);
}

#[test]
fn lines_match_std_splitting() {
    let cases = [
        "", "\n", "\r", "\r\n", "a", "a\n", "a\r\n", "a\r", "a\n\nb", "a\r\r\nb", "\n\n",
        "a\nb\r\n\r\nc\n", "\r\na", "x\ry\nz",
    ];
    for s in cases {
        let text = chars_of(s);
        let expected: Vec<String> = s.lines().map(|l| l.to_string()).collect();
        assert_eq!(strings(&split_lines(&text)), expected, "{:?}", s);
    }
}

#[test]
fn words_are_runs_between_spaces() {
    let line = chars_of("  3\t1.5  foo\r");
    assert_eq!(strings(&split_words(&line)), vec!["3", "1.5", "foo"]);
}

#[test]
fn blank_line_has_no_words() {
    let line = chars_of(" \t \x0C ");
    assert_eq!(split_words(&line).len(), 0);
}

#[test]
fn words_match_std_splitting() {
    for s in ["", "a", " a", "a ", "a  b\tc\x0Cd\re", "[iter 1 x", "\u{a0}x y"] {
        let line = chars_of(s);
        let expected: Vec<String> = s.split_ascii_whitespace().map(|w| w.to_string()).collect();
        assert_eq!(strings(&split_words(&line)), expected);
    }
}

#[test]
fn chars_of_keeps_every_character() {
    assert_eq!(chars_of("a\u{663}z"), vec!['a', '\u{663}', 'z']);
}

#[test]
fn string_of_spells_the_characters() {
    assert_eq!(string_of(&['1', '.', '5']), "1.5");
    assert_eq!(string_of(&[]), "");
}

#[test]
fn prefix_test() {
    let line = chars_of("[iter 12 rest");
    assert!(starts_with(&line, &chars_of("[iter ")));
    assert!(starts_with(&line, &chars_of("")));
    assert!(!starts_with(&line, &chars_of("[iter  ")));
    assert!(!starts_with(&chars_of("[it"), &chars_of("[iter ")));
}

#[test]
fn float_literals_are_those_that_std_parses() {
    let cases = [
        "0", "1", "007", "1.5", "1.", ".5", ".", "", "+", "-", "+1", "-1.25", "--1", "1e5", "1E5",
        "1e", "1e+", "1e+5", "1e-5", "1.e5", ".5e5", ".e5", "e5", "1e5.0", "1.5.2", "inf", "INF",
        "+inf", "-Infinity", "infinit", "infinityx", "nan", "NaN", "-nan", "na", "nano", "1,5",
        "5]", "0x10", "1_000", " 1", "1 ", "12345678901234567890123456789", "1e999999", "1.5f",
        "١", "iNfInItY", "+.5", "+.", "1e5e5", "1ee5", "..5",
    ];
    for s in cases {
        let word: Vec<char> = s.chars().collect();
        assert_eq!(accepts_float(&word), s.parse::<f64>().is_ok(), "{:?}", s);
    }
}

#[test]
fn numeric_words() {
    assert!(is_numeric_word(&chars_of("2024")));
    assert!(is_numeric_word(&chars_of("\u{663}\u{bd}")));
    assert!(!is_numeric_word(&chars_of("3.5")));
    assert!(!is_numeric_word(&chars_of("-3")));
    assert!(!is_numeric_word(&chars_of("x1")));
    assert!(is_numeric_word(&chars_of("")));
}

#[test]
fn sampling_log_keeps_the_phase_after_a_drop() {
    let text = "[iter 1 0.1 s a b c 5 left]\n\
                [iter 2 0.1 s a b c 4 left]\n\
                finished dropping\n\
                [iter 1 0.1 s a b c 9 left]\n\
                [iter 2 0.1 s a b c 8 left]\n";
    let sets = parse_pbqff(text).unwrap();
    assert_eq!(sets.len(), 1);
    assert_eq!(sets[0].name, "Points remaining");
    assert_eq!(sets[0].data, vec![pt(lit("1"), lit("9")), pt(lit("2"), lit("8"))]);
    assert_eq!(values(&sets[0]), vec![(1.0, 9.0), (2.0, 8.0)]);
}

#[test]
fn sampling_log_without_drop_keeps_everything() {
    let text = "start\n[iter 1 a b c d e 5\nnoise\n[iter 2 a b c d e 4";
    let sets = parse_pbqff(text).unwrap();
    assert_eq!(values(&sets[0]), vec![(1.0, 5.0), (2.0, 4.0)]);
}

#[test]
fn drop_without_later_iteration_keeps_the_old_phase() {
    let text = "[iter 1 a b c d e 5\nfinished dropping 3 points\n";
    let sets = parse_pbqff(text).unwrap();
    assert_eq!(values(&sets[0]), vec![(1.0, 5.0)]);
}

#[test]
fn two_drops_keep_only_the_last_phase() {
    let text = "[iter 1 a b c d e 5\nfinished dropping\n[iter 1 a b c d e 7\n\
                finished dropping\nfinished dropping\n[iter 1 a b c d e 3\n";
    let sets = parse_pbqff(text).unwrap();
    assert_eq!(values(&sets[0]), vec![(1.0, 3.0)]);
}

#[test]
fn empty_sampling_log_gives_one_empty_series() {
    let sets = parse_pbqff("").unwrap();
    assert_eq!(sets.len(), 1);
    assert_eq!(sets[0].name, "Points remaining");
    assert!(sets[0].data.is_empty());
}

#[test]
fn iteration_mark_needs_its_space() {
    let sets = parse_pbqff("[iter1 a b c d e f 5\n [iter 1 a b c d e 5\n").unwrap();
    assert!(sets[0].data.is_empty());
}

#[test]
fn sampling_log_reports_missing_column() {
    let err = parse_pbqff("ok\n[iter 1 a b c d e\n").unwrap_err();
    assert_eq!(err, ParseError { line: 1, column: 7, fault: Fault::Missing });
    let err = parse_pbqff("[iter \n").unwrap_err();
    assert_eq!(err, ParseError { line: 0, column: 1, fault: Fault::Missing });
}

#[test]
fn sampling_log_reports_malformed_number() {
    let err = parse_pbqff("[iter one a b c d e 5\n").unwrap_err();
    assert_eq!(err, ParseError { line: 0, column: 1, fault: Fault::Malformed });
    let err = parse_pbqff("[iter 1 a b c d e 5]\n").unwrap_err();
    assert_eq!(err, ParseError { line: 0, column: 7, fault: Fault::Malformed });
}

#[test]
fn optimiser_line_gives_a_point_to_each_series() {
    let sets = parse_semp("3  1.5  foo  2.25  bar  0.75").unwrap();
    assert_eq!(sets.len(), 3);
    assert_eq!(sets[0].name, "Norm");
    assert_eq!(sets[1].name, "RMSD");
    assert_eq!(sets[2].name, "MAX");
    assert_eq!(sets[0].data, vec![pt(Number::Count(0), lit("1.5"))]);
    assert_eq!(sets[1].data, vec![pt(Number::Count(0), lit("2.25"))]);
    assert_eq!(sets[2].data, vec![pt(Number::Count(0), lit("0.75"))]);
    assert_eq!(values(&sets[0]), vec![(0.0, 1.5)]);
    assert_eq!(values(&sets[1]), vec![(0.0, 2.25)]);
    assert_eq!(values(&sets[2]), vec![(0.0, 0.75)]);
}

#[test]
fn other_lines_do_not_advance_the_count() {
    let text = "Iter Norm dNorm RMSD dRMSD Max\n\
                0 10.5 0.0 3.5 0.0 7.25 12.0\n\
                \n\
                note: restarted\n\
                1 9.5 -1.0 3.0 -0.5 6.0 2.0\n\
                -2 1 1 1 1 1\n\
                2 8.5 -1.0 2.5 -0.5 5.0 1.0\n";
    let sets = parse_semp(text).unwrap();
    assert_eq!(values(&sets[0]), vec![(0.0, 10.5), (1.0, 9.5), (2.0, 8.5)]);
    assert_eq!(values(&sets[1]), vec![(0.0, 3.5), (1.0, 3.0), (2.0, 2.5)]);
    assert_eq!(values(&sets[2]), vec![(0.0, 7.25), (1.0, 6.0), (2.0, 5.0)]);
}

#[test]
fn empty_optimiser_output_gives_three_empty_series() {
    let sets = parse_semp("").unwrap();
    assert_eq!(sets.len(), 3);
    assert!(sets.iter().all(|s| s.data.is_empty()));
}

#[test]
fn other_scripts_digits_qualify_a_line() {
    let sets = parse_semp("\u{663} 1 x 2 x 3\n").unwrap();
    assert_eq!(values(&sets[0]), vec![(0.0, 1.0)]);
}

#[test]
fn optimiser_output_reports_first_fault() {
    let err = parse_semp("0 1 x 2 x 3\nskip me\n1 1 x\n").unwrap_err();
    assert_eq!(err, ParseError { line: 2, column: 3, fault: Fault::Missing });
    let err = parse_semp("7\n").unwrap_err();
    assert_eq!(err, ParseError { line: 0, column: 1, fault: Fault::Missing });
    let err = parse_semp("7 1.0 x 2.0 x bad\n8 bad\n").unwrap_err();
    assert_eq!(err, ParseError { line: 0, column: 5, fault: Fault::Malformed });
    let err = parse_semp("7 bad x\n").unwrap_err();
    assert_eq!(err, ParseError { line: 0, column: 1, fault: Fault::Malformed });
}

#[test]
fn error_log_pairs_first_and_last_column() {
    let set = parse_freqs("0 a b 12.5\n1 11.25\n2.5\n").unwrap();
    assert_eq!(set.name, "MAE");
    assert_eq!(
        set.data,
        vec![pt(lit("0"), lit("12.5")), pt(lit("1"), lit("11.25")), pt(lit("2.5"), lit("2.5"))]
    );
    assert_eq!(values(&set), vec![(0.0, 12.5), (1.0, 11.25), (2.5, 2.5)]);
}

#[test]
fn error_log_rejects_blank_line() {
    let err = parse_freqs("0 1\n\n2 3\n").unwrap_err();
    assert_eq!(err, ParseError { line: 1, column: 0, fault: Fault::Missing });
}

#[test]
fn error_log_rejects_malformed_columns() {
    let err = parse_freqs("0 1\nx 3\n").unwrap_err();
    assert_eq!(err, ParseError { line: 1, column: 0, fault: Fault::Malformed });
    let err = parse_freqs("0 1 y\n").unwrap_err();
    assert_eq!(err, ParseError { line: 0, column: 2, fault: Fault::Malformed });
}

#[test]
fn empty_error_log_gives_empty_series() {
    let set = parse_freqs("").unwrap();
    assert_eq!(set.name, "MAE");
    assert!(set.data.is_empty());
}

#[test]
fn every_literal_of_a_parsed_series_is_a_number() {
    let sets = parse_semp("0 +1.5e3 x .5 x inf\n1 -NaN x 1. x 2E-2\n").unwrap();
    for set in &sets {
        assert_eq!(set.data.len(), 2);
        for p in &set.data {
            match &p.y {
                Number::Literal(s) => assert!(s.parse::<f64>().is_ok()),
                Number::Count(_) => panic!("a count in the place of a literal"),
            }
        }
    }
}

#[test]
fn step_takes_a_qualifying_line_in() {
    let line = chars_of("3  1.5  foo  2.25  bar  0.75");
    let (mut norm, mut rmsd, mut max) = (Vec::new(), Vec::new(), Vec::new());
    assert_eq!(semp_step(&mut norm, &mut rmsd, &mut max, &line, 0, true), Ok(()));
    assert_eq!(norm, vec![pt(Number::Count(0), lit("1.5"))]);
    assert_eq!(rmsd, vec![pt(Number::Count(0), lit("2.25"))]);
    assert_eq!(max, vec![pt(Number::Count(0), lit("0.75"))]);
    assert_eq!(semp_step(&mut norm, &mut rmsd, &mut max, &line, 1, true), Ok(()));
    assert_eq!(norm[1], pt(Number::Count(1), lit("1.5")));
    assert_eq!(rmsd[1], pt(Number::Count(1), lit("2.25")));
    assert_eq!(max[1], pt(Number::Count(1), lit("0.75")));
}

#[test]
fn step_passes_over_a_line_that_does_not_qualify() {
    let line = chars_of("3  1.5  foo  2.25  bar  0.75");
    let mut norm = vec![pt(Number::Count(0), lit("1"))];
    let (mut rmsd, mut max) = (Vec::new(), Vec::new());
    assert_eq!(semp_step(&mut norm, &mut rmsd, &mut max, &line, 0, false), Ok(()));
    assert_eq!(norm, vec![pt(Number::Count(0), lit("1"))]);
    assert!(rmsd.is_empty() && max.is_empty());
}

#[test]
fn step_changes_nothing_on_a_fault() {
    let line = chars_of("3 1.5 foo 2.25 bar");
    let (mut norm, mut rmsd, mut max) = (Vec::new(), Vec::new(), Vec::new());
    assert_eq!(
        semp_step(&mut norm, &mut rmsd, &mut max, &line, 4, true),
        Err(ParseError { line: 4, column: 5, fault: Fault::Missing })
    );
    assert!(norm.is_empty() && rmsd.is_empty() && max.is_empty());
}
