use onebrc::scan::{find_bytewise, find_delimiter, find_memchr, find_wide, semicolon_pos};

fn filler(len: usize) -> Vec<u8> {
    let mut v = Vec::new();
    for i in 0..len {
        v.push(b'a' + (i % 26) as u8);
    }
    v
}

#[test]
fn strategies_agree_on_every_position() {
    for len in 0..200usize {
        let plain = filler(len);
        assert_eq!(find_bytewise(&plain, b';'), None);
        assert_eq!(find_wide(&plain), None);
        assert_eq!(find_memchr(&plain, b';'), None);
        assert_eq!(semicolon_pos(&plain), None);
        for at in 0..len {
            let mut bytes = plain.clone();
            bytes[at] = b';';
            assert_eq!(find_bytewise(&bytes, b';'), Some(at));
            assert_eq!(find_wide(&bytes), Some(at));
            assert_eq!(find_memchr(&bytes, b';'), Some(at));
            assert_eq!(semicolon_pos(&bytes), Some(at));
        }
    }
}

#[test]
fn strategies_find_the_first_of_several() {
    let mut bytes = filler(150);
    bytes[70] = b';';
    bytes[71] = b';';
    bytes[149] = b';';
    assert_eq!(find_bytewise(&bytes, b';'), Some(70));
    assert_eq!(find_wide(&bytes), Some(70));
    assert_eq!(find_memchr(&bytes, b';'), Some(70));
    assert_eq!(semicolon_pos(&bytes), Some(70));
}

#[test]
fn wide_search_is_not_misled_by_neighbours_of_the_delimiter() {
    // ':' and '<' differ from ';' in one bit each; bytes with the top bit set
    // must not answer either.
    let mut bytes = vec![b':'; 40];
    bytes.extend_from_slice(&[b'<'; 40]);
    bytes.extend_from_slice(&[0xBB; 40]);
    bytes.extend_from_slice(&[0x3A, 0x7B, 0xFF, 0x00, 0x3C]);
    assert_eq!(find_wide(&bytes), None);
    assert_eq!(semicolon_pos(&bytes), None);
    bytes.push(b';');
    assert_eq!(find_wide(&bytes), Some(125));
    assert_eq!(semicolon_pos(&bytes), Some(125));
    assert_eq!(find_bytewise(&bytes, b';'), Some(125));
}

#[test]
fn find_delimiter_gives_the_offset_within_the_slice() {
    assert_eq!(find_delimiter(b"Hamburg;12.0\n"), 7);
    assert_eq!(find_delimiter(b";"), 0);
    let mut long = filler(100);
    long.push(b';');
    long.extend_from_slice(b"1.0\n");
    assert_eq!(find_delimiter(&long), 100);
}

#[test]
fn memchr_search_looks_for_the_byte_asked_for() {
    assert_eq!(find_memchr(b"a;b\n", b'\n'), Some(3));
    assert_eq!(find_memchr(b"a;b\n", b';'), Some(1));
    assert_eq!(find_memchr(b"a;b\n", b'x'), None);
    assert_eq!(find_memchr(b"", b';'), None);
}
