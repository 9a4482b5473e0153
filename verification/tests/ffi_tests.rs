use scp_core::ffi::{
    credentials_from_args, entries_to_json, json_str, protocol_from_int, sync_direction_from_int, xfer_call,
    ConnectArgs, LastError, SCP_ERR_GENERIC, SCP_ERR_HOST_KEY_MISMATCH, SCP_ERR_NONE, SCP_ERR_UNKNOWN_HOST_KEY,
};
use scp_core::ops::{SyncDirection, XferEvent};
use scp_core::types::{Auth, Entry, Error, HostKeyPolicy, Protocol};

fn args<'a>() -> ConnectArgs<'a> {
    ConnectArgs {
        protocol: 0,
        host: Some("h"),
        port: 22,
        username: Some("u"),
        password: Some("pw"),
        bucket: Some(""),
        region: None,
        host_key_mode: 0,
        expected_fingerprint: None,
        auth_mode: 0,
        key_path: None,
    }
}

#[test]
fn protocol_and_direction_codes() {
    assert_eq!(protocol_from_int(3), Some(Protocol::S3));
    assert_eq!(protocol_from_int(4), None);
    assert_eq!(sync_direction_from_int(1), Some(SyncDirection::Download));
    assert_eq!(sync_direction_from_int(2), None);
}

#[test]
fn connect_arguments() {
    let c = credentials_from_args(&args()).unwrap();
    assert!(matches!(c.auth, Auth::Password(ref p) if p == "pw"));
    assert!(c.bucket.is_none());
    assert!(matches!(c.host_key, HostKeyPolicy::Strict));

    let mut a = args();
    a.auth_mode = 1;
    a.key_path = Some("/k");
    a.password = None;
    let c = credentials_from_args(&a).unwrap();
    assert!(matches!(c.auth, Auth::KeyFile { ref path, passphrase: None } if path == "/k"));

    let mut a = args();
    a.host_key_mode = 2;
    assert_eq!(credentials_from_args(&a).unwrap_err(), "host_key_mode 2 requires expected_fingerprint");
    a.expected_fingerprint = Some("SHA256:x");
    assert!(matches!(credentials_from_args(&a).unwrap().host_key, HostKeyPolicy::AcceptFingerprint(ref f) if f == "SHA256:x"));

    let mut a = args();
    a.host = None;
    assert_eq!(credentials_from_args(&a).unwrap_err(), "invalid arguments to scp_connect");
    let mut a = args();
    a.host_key_mode = 7;
    assert_eq!(credentials_from_args(&a).unwrap_err(), "invalid host_key_mode");
    let mut a = args();
    a.auth_mode = 1;
    assert_eq!(credentials_from_args(&a).unwrap_err(), "auth_mode 1 requires key_path");
    let mut a = args();
    a.auth_mode = 9;
    assert_eq!(credentials_from_args(&a).unwrap_err(), "invalid auth_mode");
}

#[test]
fn error_record_keeps_kind_and_fingerprint() {
    let mut e = LastError::new();
    assert_eq!(e.code, SCP_ERR_NONE);
    e.set_error_typed(&Error::UnknownHostKey { fingerprint: "SHA256:abc".into() });
    assert_eq!(e.code, SCP_ERR_UNKNOWN_HOST_KEY);
    assert_eq!(e.fingerprint.as_deref(), Some("SHA256:abc"));
    assert_eq!(e.message.as_deref(), Some("unknown server host key: SHA256:abc"));
    e.set_error_typed(&Error::HostKeyMismatch { fingerprint: "f".into() });
    assert_eq!(e.code, SCP_ERR_HOST_KEY_MISMATCH);
    e.set_error("bad\0message");
    assert_eq!(e.message.as_deref(), Some("error"));
    assert_eq!(e.code, SCP_ERR_GENERIC);
    assert!(e.fingerprint.is_none());
    e.clear_error();
    assert!(e.message.is_none());
    assert_eq!(e.code, SCP_ERR_NONE);
}

#[test]
fn transfer_callback_arguments() {
    let c = xfer_call(&XferEvent::Start { name: "a.txt", total: 9, download: true }).unwrap();
    assert_eq!((c.kind, c.name.as_deref(), c.a, c.b), (0, Some("a.txt"), 1, 9));
    assert!(xfer_call(&XferEvent::Start { name: "a\0b", total: 9, download: true }).is_none());
    let c = xfer_call(&XferEvent::Bytes { done: 3, total: 9 }).unwrap();
    assert_eq!((c.kind, c.a, c.b), (1, 3, 9));
    let c = xfer_call(&XferEvent::DoneFile).unwrap();
    assert_eq!((c.kind, c.a, c.b), (2, 0, 0));
}

#[test]
fn listing_json() {
    let e1 = Entry { name: "a\"b".into(), is_dir: false, size: 12, mtime: Some(-5), perms: Some("rw-r--r--".into()), is_symlink: false, uid: None, gid: None };
    let e2 = Entry { name: "d\n\u{1}".into(), is_dir: true, size: 0, mtime: None, perms: None, is_symlink: false, uid: None, gid: None };
    assert_eq!(
        entries_to_json(&[e1, e2]),
        "[{\"name\":\"a\\\"b\",\"is_dir\":false,\"size\":12,\"mtime\":-5,\"perms\":\"rw-r--r--\"},{\"name\":\"d\\n\\u0001\",\"is_dir\":true,\"size\":0,\"mtime\":null,\"perms\":null}]"
    );
    assert_eq!(entries_to_json(&[]), "[]");
    let mut s = String::from("x=");
    json_str(&mut s, "tab\there\\");
    assert_eq!(s, "x=\"tab\\there\\\\\"");
}
