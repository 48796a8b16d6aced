use onebrc::batch::{BatchError, WeatherBatch};
use onebrc::stats::Weather;

fn lookup(batch: &WeatherBatch, name: &str) -> Option<(i16, i16, i64, u64)> {
    let mut found = None;
    for (key, w) in batch.entries.iter() {
        if key == name {
            assert!(found.is_none());
            found = Some((w.min_temp, w.max_temp, w.net_temp, w.count));
        }
    }
    found
}

fn fold(text: &[u8]) -> WeatherBatch {
    match WeatherBatch::new(text) {
        Ok(batch) => batch,
        Err(e) => panic!("{:?}", e),
    }
}

#[test]
fn a_single_record_gives_one_station() {
    let batch = fold(b"Oslo;-12.3\n");
    assert_eq!(batch.entries.len(), 1);
    assert_eq!(lookup(&batch, "Oslo"), Some((-123, -123, -123, 1)));
    let batch = fold(b"Oslo;-12.3");
    assert_eq!(batch.entries.len(), 1);
    assert_eq!(lookup(&batch, "Oslo"), Some((-123, -123, -123, 1)));
}

#[test]
fn records_of_one_station_fold_together() {
    let batch = fold(b"Hamburg;12.0\nHamburg;8.0\nBerlin;-3.5\n");
    assert_eq!(batch.entries.len(), 2);
    assert_eq!(lookup(&batch, "Hamburg"), Some((80, 120, 200, 2)));
    assert_eq!(lookup(&batch, "Berlin"), Some((-35, -35, -35, 1)));
    assert_eq!(lookup(&batch, "Bremen"), None);
}

#[test]
fn empty_input_gives_an_empty_batch() {
    let batch = fold(b"");
    assert_eq!(batch.entries.len(), 0);
}

#[test]
fn names_are_told_apart_byte_by_byte() {
    let batch = fold(b"a;1.0\nA;2.0\na ;3.0\nab;4.0\na;5.0\n");
    assert_eq!(batch.entries.len(), 4);
    assert_eq!(lookup(&batch, "a"), Some((10, 50, 60, 2)));
    assert_eq!(lookup(&batch, "A"), Some((20, 20, 20, 1)));
    assert_eq!(lookup(&batch, "a "), Some((30, 30, 30, 1)));
    assert_eq!(lookup(&batch, "ab"), Some((40, 40, 40, 1)));
}

#[test]
fn names_are_decoded_as_utf8() {
    let batch = fold("Zürich;1.0\nSão Paulo;2.0\nZürich;3.0\n東京;-4.0\n".as_bytes());
    assert_eq!(batch.entries.len(), 3);
    assert_eq!(lookup(&batch, "Zürich"), Some((10, 30, 40, 2)));
    assert_eq!(lookup(&batch, "São Paulo"), Some((20, 20, 20, 1)));
    assert_eq!(lookup(&batch, "東京"), Some((-40, -40, -40, 1)));
}

#[test]
fn many_stations_keep_their_own_statistics() {
    let mut text = Vec::new();
    for round in 0..3i64 {
        for station in 0..500i64 {
            let tenths = station - 250 + round * 1000;
            let line = format!("S{};{}{}.{}\n", station, if tenths < 0 { "-" } else { "" }, tenths.abs() / 10, tenths.abs() % 10);
            text.extend_from_slice(line.as_bytes());
        }
    }
    let batch = fold(&text);
    assert_eq!(batch.entries.len(), 500);
    for station in 0..500i64 {
        let low = (station - 250) as i16;
        let high = (station - 250 + 2000) as i16;
        let sum = 3 * (station - 250) + 3000;
        assert_eq!(lookup(&batch, &format!("S{}", station)), Some((low, high, sum, 3)));
    }
}

#[test]
fn a_malformed_line_is_reported_with_its_offset() {
    assert_eq!(WeatherBatch::new(b"A;1.0\nB2.0\nC;3.0\n").err(), Some(BatchError::Malformed { offset: 6 }));
    assert_eq!(WeatherBatch::new(b"\nA;1.0\n").err(), Some(BatchError::Malformed { offset: 0 }));
    assert_eq!(WeatherBatch::new(b"A;1.0\n\nB;2.0\n").err(), Some(BatchError::Malformed { offset: 6 }));
    assert_eq!(WeatherBatch::new(b"A;1.0\nB;2.00\n").err(), Some(BatchError::Malformed { offset: 6 }));
    assert_eq!(WeatherBatch::new(b"A;1.0\nB;2.0\n;3.0").err(), Some(BatchError::Malformed { offset: 12 }));
    assert_eq!(WeatherBatch::new(b"A;1.0\nB;9999.9\n").err(), Some(BatchError::Malformed { offset: 6 }));
    assert_eq!(WeatherBatch::new(b"A;1.0\n\n").err(), Some(BatchError::Malformed { offset: 6 }));
}

#[test]
fn a_name_that_is_not_utf8_is_reported() {
    assert_eq!(WeatherBatch::new(b"A;1.0\n\xff\xfe;2.0\n").err(), Some(BatchError::NameNotText));
    assert_eq!(WeatherBatch::new(b"\xc3;2.0\n").err(), Some(BatchError::NameNotText));
    // a malformed line is reported first
    assert_eq!(WeatherBatch::new(b"\xff;2.0\nB\n").err(), Some(BatchError::Malformed { offset: 6 }));
}

#[test]
fn the_batch_does_not_depend_on_the_order_of_the_records() {
    let one = fold(b"A;1.0\nB;2.0\nA;3.0\nC;-4.0\nB;5.0\n");
    let other = fold(b"B;5.0\nC;-4.0\nA;3.0\nA;1.0\nB;2.0\n");
    for name in ["A", "B", "C"] {
        assert_eq!(lookup(&one, name), lookup(&other, name));
    }
    assert_eq!(lookup(&one, "A"), Some((10, 30, 40, 2)));
    assert_eq!(lookup(&one, "B"), Some((20, 50, 70, 2)));
    assert_eq!(lookup(&one, "C"), Some((-40, -40, -40, 1)));
}

#[test]
fn entries_hold_the_aggregate_type() {
    let batch = fold(b"A;1.0\n");
    let w: Weather = batch.entries[0].1;
    assert_eq!(w.count, 1);
}
