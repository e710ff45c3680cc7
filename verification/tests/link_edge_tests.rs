use levi::errors::LeviError;
use levi::links::{has_valid_escapes, url_decode, white_space, FileLink};

#[test]
fn blank_url_is_empty() {
    match FileLink::new(" \t\n\u{3000}") {
        Err(LeviError::Url(message)) => assert_eq!(message, "Url cannot be empty"),
        _ => panic!("a blank URL must be refused"),
    }
}

#[test]
fn slash_before_trailing_space_is_refused_with_the_url_as_given() {
    match FileLink::new("  https://x.org/dir/ \n") {
        Err(LeviError::Url(message)) => {
            assert_eq!(message, "Url couldn't find an extension:   https://x.org/dir/ \n")
        }
        _ => panic!("a URL ending in '/' must be refused"),
    }
}

#[test]
fn surrounding_space_stays_in_the_link() {
    let fl = FileLink::new(" https://x.org/a.txt ").unwrap();
    assert_eq!(fl.url, " https://x.org/a.txt ");
    assert_eq!(fl.filename, "a");
    assert_eq!(fl.extension, Some("txt ".to_string()));
}

#[test]
fn escapes_are_decoded_before_splitting() {
    let fl = FileLink::new("https://x.org/a%2Fb%20c.tar.gz").unwrap();
    assert_eq!(fl.filename, "b c.tar");
    assert_eq!(fl.extension, Some("gz".to_string()));
}

#[test]
fn url_decode_plain_text_is_unchanged() {
    assert_eq!(url_decode("https://x.org/a.txt?q=1").unwrap(), "https://x.org/a.txt?q=1");
}

#[test]
fn url_decode_hex_pairs() {
    assert_eq!(url_decode("a%41b%2fc%7E").unwrap(), "aAb/c~");
}

#[test]
fn url_decode_plus_sign_escape() {
    assert_eq!(url_decode("%+a").unwrap(), "\n");
}

#[test]
fn url_decode_multibyte_escapes() {
    assert_eq!(url_decode("%C3%A9t%C3%A9").unwrap(), "\u{e9}t\u{e9}");
}

#[test]
fn url_decode_invalid_utf8_is_url_error() {
    match url_decode("%ff") {
        Err(LeviError::Url(message)) => {
            assert_eq!(message, "invalid utf-8 sequence of 1 bytes from index 0")
        }
        _ => panic!("an invalid UTF-8 byte must be refused"),
    }
}

#[test]
fn new_reports_invalid_utf8() {
    match FileLink::new("https://x.org/%C3") {
        Err(LeviError::Url(message)) => {
            assert_eq!(message, "incomplete utf-8 byte sequence from index 14")
        }
        _ => panic!("an invalid UTF-8 byte must be refused"),
    }
}

#[test]
fn escape_validity() {
    assert!(has_valid_escapes("https://x.org/a%20b"));
    assert!(has_valid_escapes("no escapes"));
    assert!(has_valid_escapes("%+f"));
    assert!(!has_valid_escapes("a%2"));
    assert!(!has_valid_escapes("a%zz"));
    assert!(!has_valid_escapes("%-1"));
    assert!(!has_valid_escapes("%"));
}

#[test]
fn white_space_set() {
    for c in ['\t', '\n', '\u{b}', '\u{c}', '\r', ' ', '\u{85}', '\u{a0}', '\u{1680}', '\u{2000}', '\u{200a}', '\u{2028}', '\u{2029}', '\u{202f}', '\u{205f}', '\u{3000}'] {
        assert!(white_space(c), "{:?}", c);
        assert_eq!(white_space(c), c.is_whitespace());
    }
    for c in ['a', '/', '\u{0}', '\u{200b}', '\u{feff}', '\u{180e}'] {
        assert!(!white_space(c), "{:?}", c);
        assert_eq!(white_space(c), c.is_whitespace());
    }
}

#[test]
fn extension_takes_bytes_of_tail() {
    let (ext, name) = FileLink::extract_extension_from_filename("abcd.\u{e9}");
    assert_eq!(ext, Some("\u{e9}".to_string()));
    assert_eq!(name, "abc");
}

#[test]
fn extension_of_dot_only() {
    let (ext, name) = FileLink::extract_extension_from_filename(".");
    assert_eq!(ext, Some(String::new()));
    assert_eq!(name, "");
}

#[test]
fn extension_stops_at_query() {
    let (ext, name) = FileLink::extract_extension_from_filename("a.b?c=d");
    assert_eq!(ext, Some("b".to_string()));
    assert_eq!(name, "a");
}

#[test]
fn name_without_dot_is_sanitized() {
    let (ext, name) = FileLink::extract_extension_from_filename("get?a=1&b=2");
    assert_eq!(ext, None);
    assert_eq!(name, "get-a=1-b=2");
}

#[test]
fn name_dot_extension_gives_back_the_file_name() {
    for f in ["archive.tar.gz", "a.b", "x.", ".hidden", "v1.2.3"] {
        let (ext, name) = FileLink::extract_extension_from_filename(f);
        assert_eq!(format!("{}.{}", name, ext.unwrap()), f);
    }
}

#[test]
fn link_never_names_a_path() {
    let fl = FileLink::new("https://x.org/a/b/c?d=e/f").unwrap();
    assert!(!fl.filename.contains('/'));
    assert_eq!(fl.filename, "f");
    assert_eq!(fl.extension, None);
}
