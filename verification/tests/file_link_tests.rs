use levi::errors::LeviError;
use levi::links::FileLink;

#[test]
fn empty_string() {
    match FileLink::new("") {
        Err(LeviError::Url(message)) => assert_eq!(message, "Url cannot be empty".to_string()),
        _ => assert_eq!(true, false),
    }
}

#[test]
fn trailing_slash() {
    let url = "https://www.google.com/area51/";
    match FileLink::new(url) {
        Err(LeviError::Url(message)) => assert_eq!(
            message,
            "Url couldn't find an extension: https://www.google.com/area51/".to_string()
        ),
        _ => assert_eq!(true, false),
    }
}

#[test]
fn happy_case() {
    let url = "https://www.google.com/area51.txt";
    match FileLink::new(url) {
        Ok(fl) => {
            assert_eq!(fl.url, url);
            assert_eq!(fl.filename, "area51".to_string());
            assert_eq!(fl.extension, Some("txt".to_string()));
        }
        _ => assert_eq!(true, false),
    }
}

#[test]
fn no_extension() {
    let url = "https://www.google.com/area51";
    let fl = FileLink::new(url).unwrap();
    assert_eq!(fl.extension, None);
    assert_eq!(fl.filename, "area51");
    assert_eq!(fl.url, url);
}

#[test]
fn no_extension_use_query_params() {
    let url = "https://oeis.org/search?q=id:A000001&fmt=json";
    let fl = FileLink::new(url).unwrap();
    assert_eq!(fl.extension, None);
    assert_eq!(fl.filename, "search-q=id:A000001-fmt=json");
    assert_eq!(fl.url, url);
}

#[test]
fn extract_extension_ok() {
    let (ext, filename) = FileLink::extract_extension_from_filename("area51.txt");
    assert_eq!(filename, "area51");
    assert_eq!(ext, Some("txt".to_string()));
}

#[test]
fn extract_extension_with_query_param() {
    let url = "https://releases.ubuntu.com/21.10/ubuntu-21.10-desktop-amd64.iso?id=123";
    let fl = FileLink::new(url).unwrap();
    assert_eq!(fl.extension, Some("iso".to_string()));
    assert_eq!(fl.filename, "ubuntu-21.10-desktop-amd64");
    assert_eq!(fl.url, url);
}

#[test]
fn extract_extension_with_query_param_bis() {
    let url = "https://atom-installer.github.com/v1.58.0/atom-amd64.deb?s=1627025597&ext=.deb";
    let fl = FileLink::new(url).unwrap();
    assert_eq!(fl.extension, Some("deb".to_string()));
    assert_eq!(fl.url, url);
}

#[test]
fn extract_extension_with_parts() {
    let url = "https://www.google.com/area51/alien-archive.tar.00";
    let fl = FileLink::new(url).unwrap();
    assert_eq!(fl.extension, Some("00".to_string()));
    assert_eq!(fl.filename, "alien-archive.tar");
}
