use scp_core::s3::{to_key, to_prefix, S3Transport};
use scp_core::transport::Transport;
use scp_core::types::{Credentials, Error, Protocol, Auth};

#[test]
fn path_normalization() {
    assert_eq!(to_prefix("/"), "");
    assert_eq!(to_prefix("/photos"), "photos/");
    assert_eq!(to_prefix("/photos/2026/"), "photos/2026/");
    assert_eq!(to_key("/photos/cat.jpg"), "photos/cat.jpg");
}

#[test]
fn this_build_has_no_s3_client() {
    let creds = Credentials::basic(Protocol::S3, String::new(), 443, "k".into(), Auth::Password("s".into()));
    match S3Transport::connect(&creds) {
        Err(Error::NotImplemented(m)) => assert_eq!(m, "S3 backend not built (compile with --features s3)"),
        _ => panic!("expected NotImplemented"),
    }
    let mut t = S3Transport;
    match t.list_dir("/") {
        Err(Error::NotImplemented(m)) => assert_eq!(m, "S3 list_dir"),
        _ => panic!("expected NotImplemented"),
    }
}
