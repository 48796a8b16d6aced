use onebrc::plan::{chunk_sizes, next_end, ByteRange, PlanError, ProbeError, WINDOW};

fn lines(count: usize) -> Vec<u8> {
    let mut text = Vec::new();
    for i in 0..count {
        text.extend_from_slice(format!("Station{};{}.{}\n", i % 37, i % 90, i % 10).as_bytes());
    }
    text
}

#[test]
fn one_range_is_the_whole_input() {
    assert_eq!(chunk_sizes(b"", 1), Ok(vec![ByteRange { start: 0, end: 0 }]));
    assert_eq!(chunk_sizes(b"A;1.0\n", 1), Ok(vec![ByteRange { start: 0, end: 6 }]));
    let text = lines(1000);
    assert_eq!(chunk_sizes(&text, 1), Ok(vec![ByteRange { start: 0, end: text.len() }]));
}

#[test]
fn ranges_end_on_terminators_and_leave_no_gap() {
    let text = lines(5000);
    for count in [2usize, 3, 4, 7, 16] {
        let ranges = chunk_sizes(&text, count).unwrap();
        assert_eq!(ranges.len(), count);
        assert_eq!(ranges[0].start, 0);
        assert_eq!(ranges[count - 1].end, text.len());
        for i in 0..count {
            assert!(ranges[i].start <= ranges[i].end);
        }
        for i in 0..count - 1 {
            assert_eq!(text[ranges[i].end], b'\n');
            assert_eq!(ranges[i + 1].start, ranges[i].end + 1);
        }
    }
}

#[test]
fn each_cut_is_the_first_terminator_after_the_aim() {
    let text = lines(400);
    let size = text.len() / 3;
    let ranges = chunk_sizes(&text, 3).unwrap();
    let first = size + text[size..].iter().position(|&b| b == b'\n').unwrap();
    let aim = first + size;
    let second = aim + text[aim..].iter().position(|&b| b == b'\n').unwrap();
    assert_eq!(
        ranges,
        vec![
            ByteRange { start: 0, end: first },
            ByteRange { start: first + 1, end: second },
            ByteRange { start: second + 1, end: text.len() },
        ]
    );
}

#[test]
fn a_cut_that_falls_on_a_terminator_stays_there() {
    // 400 bytes with a terminator exactly at offset 200 = 400 / 2
    let mut shaped = Vec::new();
    while shaped.len() < 192 {
        shaped.extend_from_slice(b"Abc;1.0\n");
    }
    shaped.extend_from_slice(b"Wxy;-2.5\n");
    assert_eq!(shaped.len(), 201);
    assert_eq!(shaped[200], b'\n');
    while shaped.len() < 393 {
        shaped.extend_from_slice(b"Abc;1.0\n");
    }
    shaped.extend_from_slice(b"Ab;1.0\n");
    assert_eq!(shaped.len(), 400);
    let ranges = chunk_sizes(&shaped, 2).unwrap();
    assert_eq!(ranges, vec![ByteRange { start: 0, end: 200 }, ByteRange { start: 201, end: 400 }]);
    assert_eq!(&shaped[192..200], b"Wxy;-2.5");
    assert_eq!(&shaped[201..209], b"Abc;1.0\n");
}

#[test]
fn a_window_is_searched_from_its_first_byte_to_its_last() {
    let mut text = vec![b'x'; 300];
    text[127] = b'\n';
    assert_eq!(next_end(&text, 0), Ok(127));
    assert_eq!(next_end(&text, 127), Ok(127));
    assert_eq!(next_end(&text, 1), Ok(127));
    assert_eq!(next_end(&text, 128), Err(ProbeError::NoTerminator));
    text[128 + WINDOW] = b'\n';
    assert_eq!(next_end(&text, 128), Err(ProbeError::NoTerminator));
    assert_eq!(next_end(&text, 129), Ok(256));
}

#[test]
fn a_window_must_lie_within_the_input() {
    let text = vec![b'\n'; 200];
    assert_eq!(next_end(&text, 72), Ok(72));
    assert_eq!(next_end(&text, 73), Err(ProbeError::WindowPastEnd));
    assert_eq!(next_end(&text, 200), Err(ProbeError::WindowPastEnd));
    assert_eq!(next_end(&text, usize::MAX), Err(ProbeError::WindowPastEnd));
    assert_eq!(next_end(&text[..100], 0), Err(ProbeError::WindowPastEnd));
    assert_eq!(next_end(b"", 0), Err(ProbeError::WindowPastEnd));
}

#[test]
fn planning_fails_at_the_first_cut_that_cannot_be_made() {
    // too short for any window
    assert_eq!(
        chunk_sizes(b"A;1.0\nB;2.0\n", 2),
        Err(PlanError { boundary: 1, cause: ProbeError::WindowPastEnd })
    );
    // the second cut would be searched past the end
    let text = lines(20);
    assert_eq!(text.len(), 280);
    assert_eq!(chunk_sizes(&text, 2).map(|r| r.len()), Ok(2));
    assert_eq!(
        chunk_sizes(&text, 3),
        Err(PlanError { boundary: 2, cause: ProbeError::WindowPastEnd })
    );
    // a line longer than the window where the first cut is searched
    let mut long = lines(20);
    let at = long.len();
    long.extend_from_slice(&vec![b'n'; 400]);
    long.extend_from_slice(b";1.0\n");
    long.extend_from_slice(&lines(40));
    let count = 4;
    let size = long.len() / count;
    assert!(size > at && size + WINDOW < at + 400);
    assert_eq!(
        chunk_sizes(&long, count),
        Err(PlanError { boundary: 1, cause: ProbeError::NoTerminator })
    );
}
