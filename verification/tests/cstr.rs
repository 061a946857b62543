use ulib::cstr::{
    atoi, checked_atoi, memcmp, memcpy, memmove, memset, strchr, strcmp, strlcpy, strlen,
};

#[test]
fn strlen_stops_at_the_first_nul() {
    assert_eq!(strlen(b"hello\0"), 5);
    assert_eq!(strlen(b"\0"), 0);
    assert_eq!(strlen(b"ab\0cd\0"), 2);
    assert_eq!(strlen(b"abc"), 3);
    assert_eq!(strlen(b""), 0);
}

#[test]
fn strchr_finds_the_first_occurrence() {
    assert_eq!(strchr(b"hello\0", b'l'), Some(2));
    assert_eq!(strchr(b"hello\0", b'h'), Some(0));
    assert_eq!(strchr(b"hello\0", b'z'), None);
    assert_eq!(strchr(b"ab\0cd\0", b'c'), None);
    assert_eq!(strchr(b"hello\0", 0), None);
}

#[test]
fn strcmp_gives_the_first_difference() {
    assert_eq!(strcmp(b"abc\0", b"abc\0"), 0);
    assert_eq!(strcmp(b"abc\0", b"abd\0"), -1);
    assert_eq!(strcmp(b"abd\0", b"abc\0"), 1);
    assert_eq!(strcmp(b"a\0", b"z\0"), -25);
    assert_eq!(strcmp(b"abc\0", b"ab\0"), 99);
    assert_eq!(strcmp(b"ab\0", b"abc\0"), -99);
    assert_eq!(strcmp(b"\0", b"\0"), 0);
    assert_eq!(strcmp(b"ab\0xx", b"ab\0yy"), 0);
    assert_eq!(strcmp(b"\xff\0", b"\x01\0"), 254);
}

#[test]
fn atoi_reads_leading_digits() {
    assert_eq!(atoi(b"0\0"), 0);
    assert_eq!(atoi(b"42\0"), 42);
    assert_eq!(atoi(b"123abc\0"), 123);
    assert_eq!(atoi(b"abc\0"), 0);
    assert_eq!(atoi(b"\0"), 0);
    assert_eq!(atoi(b"-5\0"), 0);
    assert_eq!(atoi(b" 7\0"), 0);
    assert_eq!(atoi(b"12\x0034"), 12);
    assert_eq!(atoi(b"2147483647\0"), i32::MAX);
    assert_eq!(atoi(b"007\0"), 7);
}

#[test]
fn strlcpy_copies_and_terminates() {
    let mut dst = [0xaau8; 8];
    assert_eq!(strlcpy(&mut dst, b"abc\0"), 3);
    assert_eq!(dst, [b'a', b'b', b'c', 0, 0xaa, 0xaa, 0xaa, 0xaa]);
}

#[test]
fn strlcpy_truncates_to_the_destination() {
    let mut dst = [0xaau8; 4];
    assert_eq!(strlcpy(&mut dst, b"abcdefg\0"), 7);
    assert_eq!(dst, [b'a', b'b', b'c', 0]);
    let mut one = [0xaau8; 1];
    assert_eq!(strlcpy(&mut one, b"xyz\0"), 3);
    assert_eq!(one, [0]);
    let mut exact = [0xaau8; 4];
    assert_eq!(strlcpy(&mut exact, b"abc\0"), 3);
    assert_eq!(exact, [b'a', b'b', b'c', 0]);
}

#[test]
fn memcpy_copies_the_front() {
    let mut dst = [9u8; 6];
    memcpy(&mut dst, &[1, 2, 3, 4], 3);
    assert_eq!(dst, [1, 2, 3, 9, 9, 9]);
    memcpy(&mut dst, &[7, 7], 0);
    assert_eq!(dst, [1, 2, 3, 9, 9, 9]);
}

#[test]
fn memmove_upwards_keeps_the_old_source() {
    let mut buf = [1u8, 2, 3, 4, 5];
    memmove(&mut buf, 1, 0, 4);
    assert_eq!(buf, [1, 1, 2, 3, 4]);
}

#[test]
fn memmove_downwards_keeps_the_old_source() {
    let mut buf = [1u8, 2, 3, 4, 5];
    memmove(&mut buf, 0, 1, 4);
    assert_eq!(buf, [2, 3, 4, 5, 5]);
}

#[test]
fn memmove_between_regions_apart() {
    let mut buf = [1u8, 2, 3, 9, 9, 9, 7];
    memmove(&mut buf, 3, 0, 3);
    assert_eq!(buf, [1, 2, 3, 1, 2, 3, 7]);
    memmove(&mut buf, 0, 4, 3);
    assert_eq!(buf, [2, 3, 7, 1, 2, 3, 7]);
}

#[test]
fn memmove_onto_itself_or_of_nothing_changes_nothing() {
    let mut buf = [4u8, 5, 6, 7];
    memmove(&mut buf, 1, 1, 3);
    assert_eq!(buf, [4, 5, 6, 7]);
    memmove(&mut buf, 4, 0, 0);
    memmove(&mut buf, 0, 4, 0);
    assert_eq!(buf, [4, 5, 6, 7]);
}

#[test]
fn memmove_overlapping_by_one_byte() {
    let mut up = [1u8, 2, 3, 4, 5, 6];
    memmove(&mut up, 2, 0, 3);
    assert_eq!(up, [1, 2, 1, 2, 3, 6]);
    let mut down = [1u8, 2, 3, 4, 5, 6];
    memmove(&mut down, 0, 2, 3);
    assert_eq!(down, [3, 4, 5, 4, 5, 6]);
}

#[test]
fn memcmp_orders_by_the_first_difference() {
    assert_eq!(memcmp(&[1, 2, 3], &[1, 2, 3], 3), 0);
    assert_eq!(memcmp(&[1, 2, 3], &[1, 2, 4], 3), -1);
    assert_eq!(memcmp(&[1, 2, 4], &[1, 2, 3], 3), 1);
    assert_eq!(memcmp(&[1, 2, 3], &[1, 2, 4], 2), 0);
    assert_eq!(memcmp(&[0, 200], &[0, 100], 2), 1);
    assert_eq!(memcmp(&[5], &[6], 0), 0);
    assert_eq!(memcmp(&[1, 0, 9], &[1, 0, 3], 3), 1);
}

#[test]
fn memset_fills_the_front() {
    let mut dst = [1u8; 5];
    memset(&mut dst, 0xee, 3);
    assert_eq!(dst, [0xee, 0xee, 0xee, 1, 1]);
    memset(&mut dst, 0, 0);
    assert_eq!(dst, [0xee, 0xee, 0xee, 1, 1]);
}

#[test]
fn checked_atoi_tells_when_the_number_is_too_large() {
    assert_eq!(checked_atoi(b"2147483647\0"), Some(i32::MAX));
    assert_eq!(checked_atoi(b"2147483648\0"), None);
    assert_eq!(checked_atoi(b"99999999999999999999\0"), None);
    assert_eq!(checked_atoi(b"0000000000000000000012\0"), Some(12));
    assert_eq!(checked_atoi(b"12x\0"), Some(12));
    assert_eq!(checked_atoi(b"\0"), Some(0));
}
