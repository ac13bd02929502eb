//! End-to-end passes: whole-buffer runs, partitioned runs, and the error
//! policy on malformed lines.

use rowagg::partition::{chunk_boundaries, static_boundaries, adjust_span};
use rowagg::run::{run_report, run_sequential};

fn bytes(s: &str) -> Vec<u8> {
    s.as_bytes().to_vec()
}

const SAMPLE: &str = "Hamburg;12.0\nHamburg;8.0\nBerlin;5.5\n";
const SAMPLE_OUT: &str = "Berlin;5.5;5.5;5.5\nHamburg;8.0;10.0;12.0\n";

#[test]
fn end_to_end_sequential() {
    let data = bytes(SAMPLE);
    let out = run_sequential(&data).unwrap();
    assert_eq!(out, bytes(SAMPLE_OUT));
}

#[test]
fn end_to_end_any_worker_count() {
    let data = bytes(SAMPLE);
    for workers in 1..=8 {
        let bounds = static_boundaries(data.len(), workers);
        let out = run_report(&data, &bounds).unwrap();
        assert_eq!(out, bytes(SAMPLE_OUT), "workers = {}", workers);
    }
}

#[test]
fn end_to_end_any_chunk_size() {
    let data = bytes(SAMPLE);
    for chunk in 1..=data.len() + 2 {
        let bounds = chunk_boundaries(data.len(), chunk);
        let out = run_report(&data, &bounds).unwrap();
        assert_eq!(out, bytes(SAMPLE_OUT), "chunk = {}", chunk);
    }
}

#[test]
fn no_trailing_newline_terminates_at_end_of_buffer() {
    let data = bytes("A;1.0\nB;2.0");
    let out = run_sequential(&data).unwrap();
    assert_eq!(out, bytes("A;1.0;1.0;1.0\nB;2.0;2.0;2.0\n"));
    for workers in 1..=4 {
        let bounds = static_boundaries(data.len(), workers);
        assert_eq!(run_report(&data, &bounds).unwrap(), bytes("A;1.0;1.0;1.0\nB;2.0;2.0;2.0\n"));
    }
}

#[test]
fn exact_multiple_of_chunk_size_has_no_empty_trailing_span() {
    // twelve bytes, chunk size six: exactly two spans and no third
    let data = bytes("ab;1.0\nc;2.0");
    assert_eq!(data.len(), 12);
    let bounds = chunk_boundaries(data.len(), 6);
    assert_eq!(bounds, vec![0, 6, 12]);
    let out = run_report(&data, &bounds).unwrap();
    assert_eq!(out, bytes("ab;1.0;1.0;1.0\nc;2.0;2.0;2.0\n"));
}

#[test]
fn key_seen_by_one_worker_is_present_once_unmerged() {
    let data = bytes("aa;1.0\nbb;2.0\ncc;3.0\n");
    let bounds = chunk_boundaries(data.len(), 7);
    let out = run_report(&data, &bounds).unwrap();
    assert_eq!(out, bytes("aa;1.0;1.0;1.0\nbb;2.0;2.0;2.0\ncc;3.0;3.0;3.0\n"));
}

#[test]
fn rounding_half_away_from_zero_in_report() {
    // sum 5, count 2 rounds up to 0.3; sum -5, count 2 rounds to -0.3
    let data = bytes("k;0.2\nk;0.3\n");
    assert_eq!(run_sequential(&data).unwrap(), bytes("k;0.2;0.3;0.3\n"));
    let data = bytes("k;-0.2\nk;-0.3\n");
    assert_eq!(run_sequential(&data).unwrap(), bytes("k;-0.3;-0.3;-0.2\n"));
}

#[test]
fn magnitude_classes_render_exactly() {
    let data = bytes("a;99.9\nb;-99.9\nc;0.0\nd;-0.1\ne;9.9\n");
    let out = run_sequential(&data).unwrap();
    assert_eq!(
        out,
        bytes("a;99.9;99.9;99.9\nb;-99.9;-99.9;-99.9\nc;0.0;0.0;0.0\nd;-0.1;-0.1;-0.1\ne;9.9;9.9;9.9\n")
    );
}

#[test]
fn report_is_sorted_by_key_bytes() {
    let data = bytes("bb;1.0\nab;2.0\nabc;3.0\na;4.0\n");
    let out = run_sequential(&data).unwrap();
    assert_eq!(out, bytes("a;4.0;4.0;4.0\nab;2.0;2.0;2.0\nabc;3.0;3.0;3.0\nbb;1.0;1.0;1.0\n"));
}

#[test]
fn empty_input_gives_empty_report() {
    let data: Vec<u8> = Vec::new();
    assert_eq!(run_sequential(&data).unwrap(), Vec::<u8>::new());
    let bounds = static_boundaries(0, 3);
    assert_eq!(run_report(&data, &bounds).unwrap(), Vec::<u8>::new());
}

#[test]
fn missing_semicolon_fails_at_line_start() {
    let data = bytes("abc\n");
    let err = run_sequential(&data).unwrap_err();
    assert_eq!(err.offset, 0);
}

#[test]
fn missing_dot_fails_after_semicolon() {
    let data = bytes("a;12\n");
    let err = run_sequential(&data).unwrap_err();
    assert_eq!(err.offset, 2);
}

#[test]
fn oversized_integer_part_fails() {
    let data = bytes("a;1234.5\n");
    let err = run_sequential(&data).unwrap_err();
    assert_eq!(err.offset, 2);
}

#[test]
fn three_integer_digits_without_sign_fail() {
    let data = bytes("a;123.4\n");
    let err = run_sequential(&data).unwrap_err();
    assert_eq!(err.offset, 2);
}

#[test]
fn bad_fractional_digit_fails() {
    let data = bytes("a;1.x\n");
    let err = run_sequential(&data).unwrap_err();
    assert_eq!(err.offset, 4);
}

#[test]
fn bad_terminator_fails() {
    let data = bytes("a;1.2X");
    let err = run_sequential(&data).unwrap_err();
    assert_eq!(err.offset, 5);
}

#[test]
fn error_in_later_line_reports_its_offset() {
    let data = bytes("ok;1.0\nbad\n");
    let err = run_sequential(&data).unwrap_err();
    assert_eq!(err.offset, 7);
}

#[test]
fn negative_three_digit_values_aggregate() {
    let data = bytes("x;-99.9\nx;-10.0\nx;5.0\n");
    let out = run_sequential(&data).unwrap();
    // sum = -1049, count 3, mean = -(1049 + 1) / 3 = -350 scaled
    assert_eq!(out, bytes("x;-99.9;-35.0;5.0\n"));
}

#[test]
fn adjust_span_moves_start_past_first_newline() {
    let data = bytes("aa;1.0\nbb;2.0\ncc;3.0\n");
    // raw start inside the first line: skip to after its newline
    let (s, e) = adjust_span(&data, 3, 10);
    assert_eq!(s, 7);
    assert_eq!(e, 13);
    // raw span without any newline yields nothing
    let (s, e) = adjust_span(&data, 8, 10);
    assert_eq!(s, 10);
    assert_eq!(e, 10);
    // a raw start of zero is always a line start
    let (s, e) = adjust_span(&data, 0, 3);
    assert_eq!(s, 0);
    assert_eq!(e, 6);
}

#[test]
fn uneven_handmade_boundaries_agree_with_sequential() {
    let data = bytes(SAMPLE);
    for cuts in [vec![0, 1, data.len()], vec![0, 5, 6, 30, data.len()], vec![0, 13, 13, data.len()]] {
        let out = run_report(&data, &cuts).unwrap();
        assert_eq!(out, bytes(SAMPLE_OUT));
    }
}

#[test]
fn static_boundaries_cover_the_buffer() {
    for len in [0usize, 1, 5, 12, 35] {
        for workers in 1..=6 {
            let b = static_boundaries(len, workers);
            assert_eq!(b.len(), workers + 1);
            assert_eq!(b[0], 0);
            assert_eq!(*b.last().unwrap(), len);
            for w in b.windows(2) {
                assert!(w[0] <= w[1]);
            }
        }
    }
}
