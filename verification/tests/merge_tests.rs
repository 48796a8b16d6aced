use onebrc::batch::WeatherBatch;
use onebrc::merge::{merge, GlobalTable};

fn fold(text: &[u8]) -> WeatherBatch {
    WeatherBatch::new(text).unwrap()
}

fn stats(table: &GlobalTable, name: &str) -> Option<(i16, i16, i64, u64)> {
    table.get(name).map(|w| (w.min_temp, w.max_temp, w.net_temp, w.count))
}

fn snapshot(table: &GlobalTable) -> Vec<(String, (i16, i16, i64, u64))> {
    let mut all: Vec<(String, (i16, i16, i64, u64))> =
        table.names.iter().map(|n| (n.clone(), stats(table, n).unwrap())).collect();
    all.sort();
    all
}

#[test]
fn an_empty_table_holds_nothing() {
    let table = GlobalTable::new();
    assert_eq!(table.len(), 0);
    assert_eq!(stats(&table, "A"), None);
    let merged = merge(&Vec::new());
    assert_eq!(merged.len(), 0);
}

#[test]
fn a_new_station_is_copied_and_a_known_one_combined() {
    let mut table = GlobalTable::new();
    fold(b"A;1.0\nB;2.0\nA;3.0\n").append_to(&mut table);
    assert_eq!(table.len(), 2);
    assert_eq!(stats(&table, "A"), Some((10, 30, 40, 2)));
    assert_eq!(stats(&table, "B"), Some((20, 20, 20, 1)));
    fold(b"B;-5.0\nC;7.5\nB;9.0\n").append_to(&mut table);
    assert_eq!(table.len(), 3);
    assert_eq!(stats(&table, "A"), Some((10, 30, 40, 2)));
    assert_eq!(stats(&table, "B"), Some((-50, 90, 60, 3)));
    assert_eq!(stats(&table, "C"), Some((75, 75, 75, 1)));
    assert_eq!(stats(&table, "D"), None);
}

#[test]
fn merging_an_empty_batch_changes_nothing() {
    let mut table = GlobalTable::new();
    fold(b"A;1.0\n").append_to(&mut table);
    let before = snapshot(&table);
    fold(b"").append_to(&mut table);
    assert_eq!(snapshot(&table), before);
}

#[test]
fn merging_gives_the_same_table_in_every_order() {
    let texts: [&[u8]; 3] = [
        b"A;1.0\nB;2.0\nA;-3.0\n",
        b"B;10.0\nC;-20.5\n",
        b"C;0.0\nA;99.9\nD;4.4\nA;-99.9\n",
    ];
    let orders = [[0, 1, 2], [0, 2, 1], [1, 0, 2], [1, 2, 0], [2, 0, 1], [2, 1, 0]];
    let mut seen: Option<Vec<(String, (i16, i16, i64, u64))>> = None;
    for order in orders {
        let batches: Vec<WeatherBatch> = order.iter().map(|&i| fold(texts[i])).collect();
        let table = merge(&batches);
        let now = snapshot(&table);
        if let Some(first) = &seen {
            assert_eq!(&now, first);
        }
        seen = Some(now);
    }
    let expected = vec![
        ("A".to_string(), (-999, 999, -20, 4)),
        ("B".to_string(), (20, 100, 120, 2)),
        ("C".to_string(), (-205, 0, -205, 2)),
        ("D".to_string(), (44, 44, 44, 1)),
    ];
    assert_eq!(seen, Some(expected));
}

#[test]
fn merging_in_groups_gives_the_same_table() {
    let a: &[u8] = b"A;1.0\nB;2.0\n";
    let b: &[u8] = b"B;3.0\nC;4.0\n";
    let c: &[u8] = b"C;5.0\nA;6.0\n";
    let flat = merge(&vec![fold(a), fold(b), fold(c)]);
    // B and C first, as one batch of the two inputs joined
    let mut joined = b.to_vec();
    joined.extend_from_slice(c);
    let grouped = merge(&vec![fold(a), fold(&joined)]);
    assert_eq!(snapshot(&flat), snapshot(&grouped));
    let mut first_two = a.to_vec();
    first_two.extend_from_slice(b);
    let other = merge(&vec![fold(&first_two), fold(c)]);
    assert_eq!(snapshot(&flat), snapshot(&other));
}
