//! Volume labels.

use embedded_sdmmc::label::VolumeName;
use embedded_sdmmc::name::FilenameError;

#[test]
fn volume_name() {
    let sfn = VolumeName {
        contents: *b"Hello \xA399  ",
    };
    assert!(sfn == VolumeName::create_from_str("Hello £99").unwrap())
}

#[test]
fn a_label_is_shown_without_its_padding() {
    let label = VolumeName::create_from_str("Hello £99").unwrap();
    assert_eq!(label.name(), b"Hello \xA399");
    assert_eq!(label.to_text(None, ' '), "Hello £99");
    assert_eq!(label.to_text(Some(12), '.'), "Hello £99...");
    assert_eq!(label.to_text(Some(3), '.'), "Hello £99");
    assert_eq!(label.to_short_filename().contents, label.contents);
}

#[test]
fn a_label_is_shown_to_a_programmer_with_its_type() {
    let label = VolumeName::create_from_str("Hello £99").unwrap();
    assert_eq!(label.to_debug_text(), "VolumeName(\"Hello £99\")");
    let blank = VolumeName { contents: [b' '; 11] };
    assert_eq!(blank.to_debug_text(), "VolumeName(\"\")");
}

#[test]
fn a_label_may_be_as_long_as_there_is_room() {
    assert_eq!(VolumeName::create_from_str("12345678901").unwrap().contents, *b"12345678901");
    assert!(VolumeName::create_from_str("123456789012") == Err(FilenameError::NameTooLong));
    assert!(VolumeName::create_from_str("") == Err(FilenameError::FilenameEmpty));
    assert_eq!(VolumeName { contents: [b' '; 11] }.name(), b"");
}

#[test]
fn a_label_holds_no_reserved_character() {
    for name in ["a?b", "a*b", "a/b", "a\u{1f}b", "a|b", "a\u{100}b"] {
        assert!(VolumeName::create_from_str(name) == Err(FilenameError::InvalidCharacter));
    }
}
