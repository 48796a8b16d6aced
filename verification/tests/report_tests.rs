use onebrc::batch::WeatherBatch;
use onebrc::merge::{merge, GlobalTable};
use onebrc::report::format_report;
use onebrc::stats::Weather;

fn table_of(text: &[u8]) -> GlobalTable {
    merge(&vec![WeatherBatch::new(text).unwrap()])
}

fn aggregate(min: i16, max: i16, sum: i64, count: u64) -> Weather {
    Weather { min_temp: min, max_temp: max, net_temp: sum, count }
}

#[test]
fn an_empty_table_is_a_pair_of_braces() {
    assert_eq!(format_report(&GlobalTable::new()), "{}");
}

#[test]
fn one_station() {
    assert_eq!(format_report(&table_of(b"X;5.0\n")), "{X=5.0/5.0/5.0}");
    assert_eq!(format_report(&table_of(b"X;-0.1\n")), "{X=-0.1/-0.1/-0.1}");
    assert_eq!(format_report(&table_of(b"X;0.0\n")), "{X=0.0/0.0/0.0}");
    assert_eq!(format_report(&table_of(b"X;-0.0\n")), "{X=0.0/0.0/0.0}");
    assert_eq!(format_report(&table_of(b"X;123.4\n")), "{X=123.4/123.4/123.4}");
}

#[test]
fn stations_are_sorted_by_the_bytes_of_their_names() {
    let text = "b;1.0\nB;2.0\na;3.0\nab;4.0\nZ;5.0\nÄ;6.0\n1;7.0\n a;8.0\naB;9.0\n".as_bytes();
    assert_eq!(
        format_report(&table_of(text)),
        "{ a=8.0/8.0/8.0, 1=7.0/7.0/7.0, B=2.0/2.0/2.0, Z=5.0/5.0/5.0, a=3.0/3.0/3.0, aB=9.0/9.0/9.0, ab=4.0/4.0/4.0, b=1.0/1.0/1.0, Ä=6.0/6.0/6.0}"
    );
}

#[test]
fn the_order_of_insertion_does_not_show() {
    let one = table_of(b"C;1.0\nA;2.0\nB;3.0\nA;4.0\n");
    let other = table_of(b"A;4.0\nB;3.0\nA;2.0\nC;1.0\n");
    assert_eq!(format_report(&one), format_report(&other));
    assert_eq!(format_report(&one), "{A=2.0/3.0/4.0, B=3.0/3.0/3.0, C=1.0/1.0/1.0}");
}

#[test]
fn formatting_again_gives_the_same_text() {
    let table = table_of(b"Hamburg;12.0\nHamburg;8.0\nBerlin;-3.5\n");
    let first = format_report(&table);
    let second = format_report(&table);
    assert_eq!(first, second);
    assert_eq!(first, "{Berlin=-3.5/-3.5/-3.5, Hamburg=8.0/10.0/12.0}");
}

#[test]
fn the_mean_is_rounded_to_the_nearest_tenth() {
    assert_eq!(aggregate(10, 20, 40, 3).to_text(), "1.0/1.3/2.0");
    assert_eq!(aggregate(10, 20, 50, 3).to_text(), "1.0/1.7/2.0");
    assert_eq!(aggregate(-20, -10, -40, 3).to_text(), "-2.0/-1.3/-1.0");
    assert_eq!(aggregate(-20, -10, -50, 3).to_text(), "-2.0/-1.7/-1.0");
    assert_eq!(aggregate(0, 1, 1, 3).to_text(), "0.0/0.0/0.1");
    assert_eq!(aggregate(0, 1, 2, 3).to_text(), "0.0/0.1/0.1");
    assert_eq!(aggregate(-999, 999, 0, 2).to_text(), "-99.9/0.0/99.9");
    assert_eq!(aggregate(1234, 1234, 1234, 1).to_text(), "123.4/123.4/123.4");
}

#[test]
fn a_tie_goes_to_the_even_tenth() {
    assert_eq!(aggregate(2, 3, 5, 2).mean_magnitude(), 2);
    assert_eq!(aggregate(3, 4, 7, 2).mean_magnitude(), 4);
    assert_eq!(aggregate(0, 1, 1, 2).mean_magnitude(), 0);
    assert_eq!(aggregate(1, 2, 3, 2).mean_magnitude(), 2);
    assert_eq!(aggregate(-3, -2, -5, 2).mean_magnitude(), 2);
    assert_eq!(aggregate(-4, -3, -7, 2).mean_magnitude(), 4);
    assert_eq!(aggregate(2, 3, 5, 2).to_text(), "0.2/0.2/0.3");
    assert_eq!(aggregate(3, 4, 7, 2).to_text(), "0.3/0.4/0.4");
    assert_eq!(aggregate(-4, -3, -7, 2).to_text(), "-0.4/-0.4/-0.3");
    assert_eq!(aggregate(0, 10, 10, 4).to_text(), "0.0/0.2/1.0");
    assert_eq!(aggregate(0, 10, 30, 4).to_text(), "0.0/0.8/1.0");
}

#[test]
fn a_negative_sum_shows_its_sign_even_where_the_mean_rounds_to_nothing() {
    assert_eq!(aggregate(-1, 0, -1, 100).to_text(), "-0.1/-0.0/0.0");
    assert_eq!(aggregate(-1, 1, 0, 2).to_text(), "-0.1/0.0/0.1");
    assert_eq!(aggregate(0, 1, 1, 100).to_text(), "0.0/0.0/0.1");
}

#[test]
fn the_mean_agrees_with_floating_point_where_there_is_no_tie() {
    for count in 1u64..=40 {
        for sum in -2000i64..=2000 {
            let low = (sum.div_euclid(count as i64)) as i16;
            let high = low + 1;
            let w = aggregate(low, high, sum, count);
            let tie = (2 * sum.abs()) % (2 * count as i64) == count as i64;
            if tie {
                continue;
            }
            let as_float = sum as f64 / (10.0 * count as f64);
            let expected = format!("{:.1}", as_float);
            let text = w.to_text();
            let mean = text.split('/').nth(1).unwrap();
            assert_eq!(mean, expected, "sum {} count {}", sum, count);
        }
    }
}

#[test]
fn extremes_agree_with_floating_point() {
    for tenths in [i16::MIN, -32767, -1000, -999, -101, -100, -99, -10, -9, -1, 0, 1, 9, 10, 99, 100, 999, 1000, i16::MAX] {
        let w = aggregate(tenths, tenths, tenths as i64, 1);
        let expected = format!("{:.1}", f32::from(tenths) / 10.0);
        let text = w.to_text();
        assert_eq!(text.split('/').next().unwrap(), expected);
        assert_eq!(text.split('/').nth(2).unwrap(), expected);
    }
}

#[test]
fn large_values_keep_all_their_digits() {
    let w = aggregate(-32768, 32767, 1_000_000_000_000, 1_000_000_000);
    assert_eq!(w.to_text(), "-3276.8/100.0/3276.7");
    let w = aggregate(0, 32767, 32767 * 3, 3);
    assert_eq!(w.to_text(), "0.0/3276.7/3276.7");
}
