use ulib::FileType;
use ulib::PanicAction;

#[test]
fn file_types_are_distinct() {
    assert_ne!(FileType::Unused, FileType::Dir);
    assert_ne!(FileType::Dir, FileType::File);
    assert_ne!(FileType::File, FileType::Dev);
    assert_eq!(FileType::Dev, FileType::Dev);
}

#[test]
fn panic_policy_is_halt() {
    assert_eq!(ulib::panic(), PanicAction::Halt);
}

#[test]
fn string_primitives_are_reached_from_the_crate_root() {
    assert_eq!(ulib::strlen(b"abc\0"), 3);
    assert_eq!(ulib::strcmp(b"a\0", b"b\0"), -1);
    assert_eq!(ulib::atoi(b"31\0"), 31);
}
