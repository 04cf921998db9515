use binsearch::run::FloatRun;
use binsearch::scan::{collect_runs, value_run_proc};
use binsearch::scanner::RunScanner;
use std::cell::Cell;

fn le_f32(w: &[u8]) -> f32 {
    f32::from_le_bytes([w[0], w[1], w[2], w[3]])
}

fn bytes_of(values: &[f32]) -> Vec<u8> {
    let mut out = Vec::new();
    for v in values {
        out.extend_from_slice(&v.to_le_bytes());
    }
    out
}

const JUNK: [u8; 4] = [0xff, 0xff, 0xff, 0xff];

fn with_junk(parts: &[Option<f32>]) -> Vec<u8> {
    let mut out = Vec::new();
    for p in parts {
        match p {
            Some(v) => out.extend_from_slice(&v.to_le_bytes()),
            None => out.extend_from_slice(&JUNK),
        }
    }
    out
}

#[test]
fn early_eof_with_some_valid_input() {
    let bytes = vec![0x32, 0x32, 0x32, 0x32, 0x32, 0x32, 0x32, 0x32, 0x32];
    let (found, remaining_input) = value_run_proc(bytes.as_slice(), le_f32, 2, |x: f32| x > 0.0);
    let run = found.expect("This test should pass!");
    assert_eq!(run.values.len(), 2);
    assert_eq!(run.address, 0);
    assert_eq!(remaining_input.len(), 1);
}

#[test]
fn early_eof_no_input() {
    let bytes = vec![0x32, 0x32, 0x32];
    let (found, remaining_input) = value_run_proc(bytes.as_slice(), le_f32, 0, |x: f32| x > 0.0);
    assert!(found.is_none(), "This test should not pass!");
    assert_eq!(remaining_input, bytes.as_slice());
}

#[test]
fn two_valid_values() {
    let bytes = vec![0x32, 0x32, 0x32, 0x32, 0, 0, 160, 193, 0x32, 0x32, 0x32, 0x32];
    let (found, remaining_input) = value_run_proc(bytes.as_slice(), le_f32, 0, |x: f32| x > 0.0);
    let run = found.expect("This test should pass!");
    assert_eq!(run.values.len(), 1);
    assert_eq!(run.address, 0);
    assert_eq!(remaining_input.len(), 8);
    let (found, remaining_input) = value_run_proc(remaining_input, le_f32, 0, |x: f32| x > 0.0);
    let run = found.expect("This test should pass!");
    assert_eq!(run.values.len(), 1);
    assert_eq!(run.address, 4);
    assert_eq!(remaining_input.len(), 0);
}

#[test]
fn invalid_then_valid_then_invalid() {
    let bytes = vec![0, 0, 160, 193, 0x32, 0x32, 0x32, 0x32, 0, 0, 160, 193];
    let (found, remaining_input) = value_run_proc(bytes.as_slice(), le_f32, 0, |x: f32| x > 0.0);
    let x = found.expect("This test should pass!");
    assert_eq!(x.values.len(), 1);
    assert_eq!(remaining_input.len(), 4);
}

#[test]
fn three_bytes_give_no_run_for_any_min_length() {
    let bytes = vec![1u8, 2, 3];
    for min_length in [0usize, 1, 5] {
        let (found, rest) = value_run_proc(bytes.as_slice(), le_f32, min_length, |_x: f32| true);
        assert!(found.is_none());
        assert_eq!(rest, bytes.as_slice());
    }
}

#[test]
fn no_accepted_value_gives_whole_input_back() {
    let bytes = with_junk(&[None, None, Some(-20.0), Some(-20.0), None, None]);
    let (found, rest) = value_run_proc(bytes.as_slice(), le_f32, 0, |x: f32| x > 0.0);
    assert!(found.is_none());
    assert_eq!(rest, bytes.as_slice());
}

#[test]
fn single_accepted_value_between_junk() {
    let bytes = with_junk(&[None, Some(-20.0), None]);
    let (found, rest) = value_run_proc(bytes.as_slice(), le_f32, 0, |x: f32| x < 0.0);
    let run = found.unwrap();
    assert_eq!(run.values, vec![-20.0f32]);
    assert_eq!(run.address, 4);
    assert_eq!(rest, &JUNK[..]);
}

#[test]
fn too_short_streak_is_skipped() {
    let bytes = with_junk(&[Some(-20.0), Some(-20.0), None, Some(-20.0), Some(-20.0), Some(-20.0)]);
    let (found, rest) = value_run_proc(bytes.as_slice(), le_f32, 3, |x: f32| x < 0.0);
    let run = found.unwrap();
    assert_eq!(run.values, vec![-20.0f32, -20.0, -20.0]);
    assert_eq!(run.address, 12);
    assert!(rest.is_empty());
    let (found, rest2) = value_run_proc(rest, le_f32, 3, |x: f32| x < 0.0);
    assert!(found.is_none());
    assert!(rest2.is_empty());
}

#[test]
fn streak_of_exactly_min_length_at_end_is_kept() {
    let bytes = bytes_of(&[5.0, -1.0, 2.0, 3.0]);
    let (found, rest) = value_run_proc(bytes.as_slice(), le_f32, 2, |x: f32| x > 0.0);
    let run = found.unwrap();
    assert_eq!(run.values, vec![2.0f32, 3.0]);
    assert_eq!(run.address, 8);
    assert!(rest.is_empty());
}

#[test]
fn range_predicate_with_both_bounds() {
    let bytes = bytes_of(&[0.5, 1.0, 1.5, 2.0, 2.5]);
    let min = Some(1.0f32);
    let max = Some(2.0f32);
    let accepts = move |x: f32| min.map(|m| x >= m).unwrap_or(true) && max.map(|m| x <= m).unwrap_or(true);
    let (found, rest) = value_run_proc(bytes.as_slice(), le_f32, 0, accepts);
    let run = found.unwrap();
    assert_eq!(run.values, vec![1.0f32, 1.5, 2.0]);
    assert_eq!(run.address, 4);
    assert_eq!(rest.len(), 4);
}

#[test]
fn unscannable_tail_is_never_part_of_a_run() {
    let mut bytes = bytes_of(&[1.0, 2.0]);
    bytes.extend_from_slice(&[0x00, 0x00, 0x80]);
    let (found, rest) = value_run_proc(bytes.as_slice(), le_f32, 0, |x: f32| x > 0.0);
    let run = found.unwrap();
    assert_eq!(run.values, vec![1.0f32, 2.0]);
    assert_eq!(rest, &[0x00u8, 0x00, 0x80][..]);
}

#[test]
fn run_is_maximal_on_both_sides() {
    let bytes = bytes_of(&[1.0, -3.0, -4.0, -5.0, 6.0, -7.0]);
    let (found, _) = value_run_proc(bytes.as_slice(), le_f32, 2, |x: f32| x < 0.0);
    let run = found.unwrap();
    let first = run.address / 4;
    let last = first + run.values.len() - 1;
    assert_eq!((first, last), (1, 3));
    assert!(!(le_f32(&bytes[(first - 1) * 4..first * 4]) < 0.0));
    assert!(!(le_f32(&bytes[(last + 1) * 4..(last + 2) * 4]) < 0.0));
}

#[test]
fn two_byte_values_use_a_two_byte_stride() {
    let bytes = vec![1u8, 0, 9, 0, 8, 0, 1, 0, 7, 0];
    let (found, rest) = value_run_proc(
        bytes.as_slice(),
        |w: &[u8]| u16::from_le_bytes([w[0], w[1]]),
        2,
        |v: u16| v > 5,
    );
    let run = found.unwrap();
    assert_eq!(run.values, vec![9u16, 8]);
    assert_eq!(run.address, 2);
    assert_eq!(rest, &[1u8, 0, 7, 0][..]);
}

#[test]
fn side_effecting_predicate_gives_same_result() {
    let calls = Cell::new(0usize);
    let bytes = with_junk(&[Some(-1.0), None, Some(-2.0), Some(-3.0)]);
    let counting = |x: f32| {
        calls.set(calls.get() + 1);
        x < 0.0
    };
    let (found, rest) = value_run_proc(bytes.as_slice(), le_f32, 2, counting);
    let run = found.unwrap();
    assert_eq!(run.values, vec![-2.0f32, -3.0]);
    assert_eq!(run.address, 8);
    assert!(rest.is_empty());
}

#[test]
fn index_from_base_adds_the_base() {
    let run = FloatRun { address: 12, values: vec![1.0f32] };
    assert_eq!(run.index_from_base(0), 12);
    assert_eq!(run.index_from_base(40), 52);
}

#[test]
fn collect_runs_finds_all_runs_in_order() {
    let bytes = bytes_of(&[1.0, 2.0, -1.0, 3.0, -2.0, -3.0, 4.0, 5.0, 6.0, -4.0]);
    let (runs, trailing) = collect_runs(bytes.as_slice(), le_f32, 2, |x: f32| x > 0.0);
    assert_eq!(runs.len(), 2);
    assert_eq!(runs[0].address, 0);
    assert_eq!(runs[0].values, vec![1.0f32, 2.0]);
    assert_eq!(runs[1].address, 24);
    assert_eq!(runs[1].values, vec![4.0f32, 5.0, 6.0]);
    assert_eq!(trailing, 4);
}

#[test]
fn collect_runs_with_no_run_reports_whole_input() {
    let bytes = bytes_of(&[-1.0, -2.0]);
    let (runs, trailing) = collect_runs(bytes.as_slice(), le_f32, 0, |x: f32| x > 0.0);
    assert!(runs.is_empty());
    assert_eq!(trailing, 8);
}

#[test]
fn collect_runs_skips_short_streaks() {
    let bytes = with_junk(&[Some(-20.0), Some(-20.0), None, Some(-20.0), Some(-20.0), Some(-20.0)]);
    let (runs, trailing) = collect_runs(bytes.as_slice(), le_f32, 3, |x: f32| x < 0.0);
    assert_eq!(runs.len(), 1);
    assert_eq!(runs[0].address, 12);
    assert_eq!(runs[0].values.len(), 3);
    assert_eq!(trailing, 0);
}

#[test]
fn runs_and_gaps_reassemble_the_buffer() {
    let mut bytes = bytes_of(&[-1.0, 1.0, 2.0, -2.0, -3.0, 3.0, -4.0]);
    bytes.push(0x7f);
    let (runs, trailing) = collect_runs(bytes.as_slice(), le_f32, 1, |x: f32| x > 0.0);
    let mut rebuilt = Vec::new();
    let mut from = 0usize;
    for run in &runs {
        let end = run.address + run.values.len() * 4;
        rebuilt.extend_from_slice(&bytes[from..run.address]);
        rebuilt.extend_from_slice(&bytes[run.address..end]);
        from = end;
    }
    rebuilt.extend_from_slice(&bytes[from..]);
    assert_eq!(rebuilt, bytes);
    assert_eq!(trailing, bytes.len() - from);
    assert_eq!(trailing, 5);
}

#[test]
fn resuming_on_remainders_matches_one_scan() {
    let bytes = bytes_of(&[1.0, -1.0, 2.0, 3.0, -2.0, 4.0, -3.0, 5.0, 6.0, 7.0]);
    let accepts = |x: f32| x > 0.0;
    let (all, _) = collect_runs(bytes.as_slice(), le_f32, 2, accepts);
    let mut stepped: Vec<(usize, Vec<f32>)> = Vec::new();
    let mut remain = bytes.as_slice();
    loop {
        let base = bytes.len() - remain.len();
        let (found, rest) = value_run_proc(remain, le_f32, 2, accepts);
        remain = rest;
        match found {
            Some(run) => stepped.push((run.index_from_base(base), run.values)),
            None => break,
        }
    }
    let whole: Vec<(usize, Vec<f32>)> = all.into_iter().map(|r| (r.address, r.values)).collect();
    assert_eq!(stepped, whole);
    assert_eq!(whole, vec![(8, vec![2.0f32, 3.0]), (28, vec![5.0f32, 6.0, 7.0])]);
}

#[test]
fn scanner_hands_out_runs_one_by_one() {
    let bytes = bytes_of(&[1.0, 2.0, -1.0, 3.0, -2.0, -3.0, 4.0, 5.0, 6.0, -4.0]);
    let mut scanner = RunScanner::new(bytes.as_slice(), le_f32, 2, |x: f32| x > 0.0);
    assert_eq!(scanner.unconsumed(), 40);
    let first = scanner.next_run().unwrap();
    assert_eq!(first.address, 0);
    assert_eq!(first.values, vec![1.0f32, 2.0]);
    assert_eq!(scanner.unconsumed(), 32);
    let second = scanner.next_run().unwrap();
    assert_eq!(second.address, 24);
    assert_eq!(second.values, vec![4.0f32, 5.0, 6.0]);
    assert!(scanner.next_run().is_none());
    assert_eq!(scanner.unconsumed(), 4);
}

#[test]
fn scanner_stays_exhausted() {
    let bytes = with_junk(&[None, Some(-20.0), None]);
    let mut scanner = RunScanner::new(bytes.as_slice(), le_f32, 0, |x: f32| x < 0.0);
    let run = scanner.next_run().unwrap();
    assert_eq!(run.address, 4);
    assert_eq!(run.values, vec![-20.0f32]);
    assert!(scanner.next_run().is_none());
    assert!(scanner.next_run().is_none());
    assert_eq!(scanner.unconsumed(), 4);
}

#[test]
fn scanner_on_short_input_finds_nothing() {
    let bytes = vec![0x32u8, 0x32, 0x32];
    let mut scanner = RunScanner::new(bytes.as_slice(), le_f32, 0, |x: f32| x > 0.0);
    assert!(scanner.next_run().is_none());
    assert_eq!(scanner.unconsumed(), 3);
}
