use ulib::arena::{read_free, read_size, write_header};

#[test]
fn header_is_written_little_endian_with_its_tag() {
    let mut arena = vec![0xffu8; 48];
    write_header(&mut arena, 16, 0x0102_0304_0506_0708, true);
    assert_eq!(&arena[16..24], &[8, 7, 6, 5, 4, 3, 2, 1]);
    assert_ne!(arena[24], 0);
    assert_eq!(&arena[..16], &[0xff; 16]);
    assert_eq!(&arena[25..], &[0xff; 23]);
    assert_eq!(read_size(&arena, 16), 0x0102_0304_0506_0708);
    assert!(read_free(&arena, 16));
}

#[test]
fn header_is_read_back_as_written() {
    let mut arena = vec![0u8; 64];
    for (at, size, free) in [(0usize, 16u64, false), (32, u64::MAX, true), (48, 0, false)] {
        write_header(&mut arena, at, size, free);
        assert_eq!(read_size(&arena, at), size);
        assert_eq!(read_free(&arena, at), free);
    }
    assert_eq!(read_size(&arena, 0), 16);
    assert!(!read_free(&arena, 0));
    assert_eq!(read_size(&arena, 32), u64::MAX);
}

#[test]
fn any_tag_but_zero_reads_as_free() {
    let mut arena = vec![0u8; 16];
    assert!(!read_free(&arena, 0));
    arena[8] = 0x80;
    assert!(read_free(&arena, 0));
}
