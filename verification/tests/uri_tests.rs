use lsp_types::Url;
use nix_nav::uri::{local_file_path, uri_path};

#[test]
fn file_url_yields_path() {
    let u = Url::parse("file:///etc/nixos/configuration.nix").unwrap();
    assert_eq!(uri_path(&u), Some("/etc/nixos/configuration.nix".to_string()));
}

#[test]
fn non_file_scheme_yields_none() {
    let u = Url::parse("https://example.com/etc/hosts").unwrap();
    assert_eq!(uri_path(&u), None);
}

#[test]
fn file_url_with_host_yields_none() {
    let u = Url::parse("file://server/share/default.nix").unwrap();
    assert_eq!(uri_path(&u), None);
}

#[test]
fn local_file_path_decision() {
    assert_eq!(local_file_path("file", false, "/x".to_string()), Some("/x".to_string()));
    assert_eq!(local_file_path("file", true, "/x".to_string()), None);
    assert_eq!(local_file_path("http", false, "/x".to_string()), None);
    assert_eq!(local_file_path("files", false, "/x".to_string()), None);
}
