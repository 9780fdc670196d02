use file_organizer::extension::extension_start;
use file_organizer::key::{classify, Class};

fn key_of(name: &[u8]) -> Option<String> {
    match classify(name, false) {
        Class::Key(k) => Some(k),
        _ => None,
    }
}

#[test]
fn extension_after_last_dot() {
    assert_eq!(extension_start(b"report.PDF"), Some(7));
    assert_eq!(extension_start(b"archive.tar.gz"), Some(12));
    assert_eq!(extension_start(b"..x"), Some(2));
}

#[test]
fn no_extension_without_dot() {
    assert_eq!(extension_start(b"README"), None);
    assert_eq!(extension_start(b""), None);
}

#[test]
fn leading_dot_is_no_extension() {
    assert_eq!(extension_start(b".profile"), None);
    assert_eq!(extension_start(b".."), None);
    assert_eq!(extension_start(b"."), None);
}

#[test]
fn trailing_dot_gives_empty_extension() {
    assert_eq!(extension_start(b"notes."), Some(6));
    assert_eq!(key_of(b"notes."), Some(String::new()));
}

#[test]
fn upper_and_lower_case_share_a_key() {
    assert_eq!(key_of(b"a.TXT"), Some("txt".to_string()));
    assert_eq!(key_of(b"b.txt"), Some("txt".to_string()));
    assert_eq!(key_of(b"c.TxT"), key_of(b"d.tXt"));
}

#[test]
fn key_is_lowercased_unicode() {
    assert_eq!(key_of("photo.ÄBÇ".as_bytes()), Some("äbç".to_string()));
}

#[test]
fn directory_is_classified_as_directory() {
    assert!(matches!(classify(b"backup", true), Class::Directory));
    assert!(matches!(classify(b"old.d", true), Class::Directory));
}

#[test]
fn file_without_extension_is_reported_class() {
    assert!(matches!(classify(b"README", false), Class::NoExtension));
    assert!(matches!(classify(b".bashrc", false), Class::NoExtension));
}

#[test]
fn undecodable_extension_is_silent_class() {
    assert!(matches!(classify(&[b'a', b'.', 0xff, b'x'], false), Class::Undecodable));
}

#[test]
fn undecodable_stem_with_text_extension_has_key() {
    assert_eq!(key_of(&[0xff, 0xfe, b'.', b'J', b'p', b'G']), Some("jpg".to_string()));
}
