use iyon_tui::input::{InputError, ValidatedInput};
use iyon_tui::store::{ContentError, StoredSource};

#[test]
fn valid_utf8_input_keeps_its_text_and_counts_newlines() {
    let input = ValidatedInput::from_bytes("a\nbé\n".as_bytes()).unwrap();
    assert_eq!(input.text(), "a\nbé\n");
    assert_eq!(input.len(), 6);
    assert_eq!(input.newlines(), 2);
    assert!(!input.is_empty());
    let same = ValidatedInput::from_str("x");
    assert_eq!(same.bytes(), b"x");
}

#[test]
fn invalid_utf8_input_is_refused() {
    assert!(matches!(ValidatedInput::from_bytes(&[0x61, 0xff]), Err(InputError::InvalidUtf8)));
    assert_eq!(InputError::InvalidUtf8.message(), "INVALID_UTF8: Source payload is not UTF-8");
}

#[test]
fn stored_text_decodes_the_retained_bytes() {
    let store = StoredSource::empty().apply_append("héllo\n", 1, Vec::new()).unwrap();
    assert_eq!(store.text(), Some("héllo\n".to_owned()));
    let (cut, _) = store.apply_truncate(0, 2, 2).unwrap();
    // The cut lands inside 'é', so the retained bytes are no longer text.
    assert_eq!(cut.text(), None);
    assert_eq!(ContentError::Sealed.message(), "SOURCE_SEALED: Source is sealed");
}
