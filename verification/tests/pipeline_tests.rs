use onebrc::batch::{BatchError, WeatherBatch};
use onebrc::merge::merge;
use onebrc::pipeline::{summarize, SummaryError};
use onebrc::plan::{chunk_sizes, PlanError, ProbeError};
use onebrc::report::format_report;
use onebrc::totals::{base_line, scan_totals, using_memchr, using_simd, Strategy};

fn sample(count: usize) -> Vec<u8> {
    let names = ["Hamburg", "Berlin", "São Paulo", "X", "Ouagadougou", "St. John's", "東京"];
    let mut text = Vec::new();
    let mut seed: u64 = 12345;
    for _ in 0..count {
        seed = seed.wrapping_mul(6364136223846793005).wrapping_add(1442695040888963407);
        let name = names[((seed >> 33) % names.len() as u64) as usize];
        let tenths = ((seed >> 40) % 1999) as i64 - 999;
        let line = format!("{};{}{}.{}\n", name, if tenths < 0 { "-" } else { "" }, tenths.abs() / 10, tenths.abs() % 10);
        text.extend_from_slice(line.as_bytes());
    }
    text
}

#[test]
fn the_small_example() {
    let text = b"Hamburg;12.0\nHamburg;8.0\nBerlin;-3.5\n";
    assert_eq!(summarize(text, 1), Ok("{Berlin=-3.5/-3.5/-3.5, Hamburg=8.0/10.0/12.0}".to_string()));
}

#[test]
fn a_single_record() {
    assert_eq!(summarize(b"Oslo;-7.3\n", 1), Ok("{Oslo=-7.3/-7.3/-7.3}".to_string()));
    assert_eq!(summarize(b"Oslo;-7.3", 1), Ok("{Oslo=-7.3/-7.3/-7.3}".to_string()));
    let batch = WeatherBatch::new(b"Oslo;-7.3\n").unwrap();
    assert_eq!(batch.entries.len(), 1);
    let w = batch.entries[0].1;
    assert_eq!((w.min_temp, w.max_temp, w.net_temp, w.count), (-73, -73, -73, 1));
}

#[test]
fn a_million_identical_records() {
    let mut text = Vec::with_capacity(6_000_000);
    for _ in 0..1_000_000 {
        text.extend_from_slice(b"X;5.0\n");
    }
    let batch = WeatherBatch::new(&text).unwrap();
    assert_eq!(batch.entries.len(), 1);
    assert_eq!(batch.entries[0].0, "X");
    assert_eq!(batch.entries[0].1.count, 1_000_000);
    assert_eq!(batch.entries[0].1.net_temp, 50_000_000);
    assert_eq!(format_report(&merge(&vec![batch])), "{X=5.0/5.0/5.0}");
    assert_eq!(summarize(&text, 16), Ok("{X=5.0/5.0/5.0}".to_string()));
}

#[test]
fn the_number_of_ranges_does_not_change_the_report() {
    let text = sample(20_000);
    let whole = summarize(&text, 1).unwrap();
    for count in [2usize, 3, 5, 16, 64] {
        assert_eq!(summarize(&text, count).unwrap(), whole);
    }
    assert!(whole.starts_with("{Berlin="));
    assert!(whole.ends_with("}"));
    assert_eq!(whole.matches('=').count(), 7);
}

#[test]
fn ranges_folded_apart_merge_to_the_whole() {
    let text = sample(3_000);
    let whole = format_report(&merge(&vec![WeatherBatch::new(&text).unwrap()]));
    let ranges = chunk_sizes(&text, 8).unwrap();
    let batches: Vec<WeatherBatch> =
        ranges.iter().map(|r| WeatherBatch::new(&text[r.start..r.end]).unwrap()).collect();
    let records: usize = batches.iter().map(|b| b.entries.iter().map(|e| e.1.count as usize).sum::<usize>()).sum();
    assert_eq!(records, 3_000);
    assert_eq!(format_report(&merge(&batches)), whole);
    let mut reversed = batches;
    reversed.reverse();
    assert_eq!(format_report(&merge(&reversed)), whole);
}

#[test]
fn a_cut_on_a_terminator_splits_no_line() {
    let mut text = Vec::new();
    while text.len() < 192 {
        text.extend_from_slice(b"Abc;1.0\n");
    }
    text.extend_from_slice(b"Wxy;-2.5\n");
    while text.len() < 393 {
        text.extend_from_slice(b"Abc;1.0\n");
    }
    text.extend_from_slice(b"Ab;1.0\n");
    assert_eq!((text.len(), text[200]), (400, b'\n'));
    let ranges = chunk_sizes(&text, 2).unwrap();
    assert_eq!((ranges[0].end, ranges[1].start), (200, 201));
    let first = WeatherBatch::new(&text[ranges[0].start..ranges[0].end]).unwrap();
    let second = WeatherBatch::new(&text[ranges[1].start..ranges[1].end]).unwrap();
    let count = |b: &WeatherBatch, name: &str| b.entries.iter().find(|e| e.0 == name).map(|e| e.1.count);
    assert_eq!(count(&first, "Wxy"), Some(1));
    assert_eq!(count(&second, "Wxy"), None);
    assert_eq!(count(&first, "Abc"), Some(24));
    assert_eq!(count(&second, "Abc"), Some(24));
    assert_eq!(count(&second, "Ab"), Some(1));
    assert_eq!(summarize(&text, 2), summarize(&text, 1));
    assert_eq!(summarize(&text, 1), Ok("{Ab=1.0/1.0/1.0, Abc=1.0/1.0/1.0, Wxy=-2.5/-2.5/-2.5}".to_string()));
}

#[test]
fn errors_of_the_stages_come_through() {
    assert_eq!(
        summarize(b"A;1.0\nB;2.0\n", 2),
        Err(SummaryError::Plan(PlanError { boundary: 1, cause: ProbeError::WindowPastEnd }))
    );
    assert_eq!(
        summarize(b"A;1.0\nB2.0\n", 1),
        Err(SummaryError::Batch { chunk: 0, error: BatchError::Malformed { offset: 6 } })
    );
    assert_eq!(
        summarize(b"A;1.0\n\xff;2.0\n", 1),
        Err(SummaryError::Batch { chunk: 0, error: BatchError::NameNotText })
    );
    let mut text = sample(2_000);
    let at = text.len();
    text.extend_from_slice(b"broken line\n");
    text.extend_from_slice(&sample(10));
    match summarize(&text, 4) {
        Err(SummaryError::Batch { chunk: 3, error: BatchError::Malformed { offset } }) => {
            let ranges = chunk_sizes(&text, 4).unwrap();
            assert_eq!(ranges[3].start + offset, at);
        }
        other => panic!("{:?}", other),
    }
}

#[test]
fn the_three_strategies_give_the_same_totals() {
    let text = b"Hamburg;12.0\nHamburg;8.0\nBerlin;-3.5\n";
    assert_eq!(base_line(text), (20, 165));
    assert_eq!(using_memchr(text), (20, 165));
    assert_eq!(using_simd(text), (20, 165));
    let text = sample(5_000);
    let totals = base_line(&text);
    assert_eq!(using_memchr(&text), totals);
    assert_eq!(using_simd(&text), totals);
    assert_eq!(scan_totals(&text, Strategy::Wide), totals);
    let mut long = vec![b'n'; 500];
    long.extend_from_slice(b";-1.5\nshort;2.5");
    assert_eq!(base_line(&long), (505, 10));
    assert_eq!(using_memchr(&long), (505, 10));
    assert_eq!(using_simd(&long), (505, 10));
    assert_eq!(base_line(b""), (0, 0));
    assert_eq!(using_simd(b""), (0, 0));
}
