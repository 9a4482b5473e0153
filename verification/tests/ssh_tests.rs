use scp_core::ssh::{
    auth_or_connect, base64_nopad, forget_host, known_host_entry, known_host_format, parse_known_hosts,
    perm_string, sha256_fingerprint, verify_host_key, HostCheck, HostKeyDecision, HostKeyKind,
    KnownHostFormat, SshErrorCode,
};
use scp_core::types::{Error, HostKeyPolicy};

#[test]
fn base64_matches_openssh_style() {
    // RFC 4648 vectors, minus padding (OpenSSH fingerprints drop it).
    assert_eq!(base64_nopad(b""), "");
    assert_eq!(base64_nopad(b"f"), "Zg");
    assert_eq!(base64_nopad(b"fo"), "Zm8");
    assert_eq!(base64_nopad(b"foo"), "Zm9v");
    assert_eq!(base64_nopad(b"foob"), "Zm9vYg");
    assert_eq!(base64_nopad(b"fooba"), "Zm9vYmE");
    assert_eq!(base64_nopad(b"foobar"), "Zm9vYmFy");
}

#[test]
fn base64_uses_plus_and_slash() {
    assert_eq!(base64_nopad(&[0xfb, 0xff]), "+/8");
    assert_eq!(sha256_fingerprint(b"foo"), "SHA256:Zm9v");
}

#[test]
fn perm_strings() {
    assert_eq!(perm_string(0o755), "rwxr-xr-x");
    assert_eq!(perm_string(0o644), "rw-r--r--");
    assert_eq!(perm_string(0o100600), "rw-------");
    assert_eq!(perm_string(0), "---------");
}

#[test]
fn a_mismatch_always_fails() {
    let checks = vec![HostCheck::Match, HostCheck::Mismatch];
    for policy in [HostKeyPolicy::Strict, HostKeyPolicy::AcceptNew, HostKeyPolicy::AcceptFingerprint("SHA256:x".into())] {
        match verify_host_key(&checks, &policy, "SHA256:x") {
            Err(Error::HostKeyMismatch { fingerprint }) => assert_eq!(fingerprint, "SHA256:x"),
            other => panic!("expected a mismatch, got {other:?}"),
        }
    }
}

#[test]
fn a_match_accepts_and_unknown_keys_follow_the_policy() {
    let matched = vec![HostCheck::NotFound, HostCheck::Match];
    assert!(matches!(verify_host_key(&matched, &HostKeyPolicy::Strict, "fp"), Ok(HostKeyDecision::Accept)));
    let unknown = vec![HostCheck::NotFound, HostCheck::Failure];
    assert!(matches!(
        verify_host_key(&unknown, &HostKeyPolicy::Strict, "fp"),
        Err(Error::UnknownHostKey { fingerprint }) if fingerprint == "fp"
    ));
    assert!(matches!(verify_host_key(&unknown, &HostKeyPolicy::AcceptNew, "fp"), Ok(HostKeyDecision::Remember)));
    assert!(matches!(
        verify_host_key(&unknown, &HostKeyPolicy::AcceptFingerprint("fp".into()), "fp"),
        Ok(HostKeyDecision::Remember)
    ));
    assert!(matches!(
        verify_host_key(&unknown, &HostKeyPolicy::AcceptFingerprint("old".into()), "fp"),
        Err(Error::HostKeyMismatch { .. })
    ));
}

#[test]
fn known_host_entries_bracket_nonstandard_ports() {
    assert_eq!(known_host_entry("example.com", 22), "example.com");
    assert_eq!(known_host_entry("example.com", 2222), "[example.com]:2222");
}

#[test]
fn known_host_formats() {
    assert_eq!(known_host_format(HostKeyKind::Ed25519).unwrap(), KnownHostFormat::Ed25519);
    assert_eq!(known_host_format(HostKeyKind::Rsa).unwrap(), KnownHostFormat::SshRsa);
    match known_host_format(HostKeyKind::Unknown) {
        Err(Error::Connect(m)) => assert_eq!(m, "unsupported host key type"),
        other => panic!("unexpected {other:?}"),
    }
}

#[test]
fn lists_known_hosts_skipping_comments_and_short_lines() {
    let text = "# comment\n\nhost1 ssh-ed25519 AAAA\n  [h2]:2222   ssh-rsa BBBB  \nlonely\n";
    let hosts = parse_known_hosts(text);
    assert_eq!(hosts.len(), 2);
    assert_eq!(hosts[0].host, "host1");
    assert_eq!(hosts[0].key_type, "ssh-ed25519");
    assert_eq!(hosts[1].host, "[h2]:2222");
    assert_eq!(hosts[1].key_type, "ssh-rsa");
}

#[test]
fn forgetting_a_host_removes_all_its_lines() {
    let text = "a ssh-rsa X\nb ssh-rsa Y\na ssh-ed25519 Z\n";
    let (out, removed) = forget_host(text, "a");
    assert_eq!(removed, 2);
    assert_eq!(out, "b ssh-rsa Y\n");
    let (out, removed) = forget_host("a k v\n", "a");
    assert_eq!(removed, 1);
    assert_eq!(out, "");
    let (out, removed) = forget_host(text, "zzz");
    assert_eq!(removed, 0);
    assert_eq!(out, text);
}

#[test]
fn only_auth_rejections_are_auth_errors() {
    assert!(matches!(auth_or_connect(SshErrorCode::Session(-18), "x".into()), Error::Auth(_)));
    assert!(matches!(auth_or_connect(SshErrorCode::Session(-19), "x".into()), Error::Auth(_)));
    assert!(matches!(auth_or_connect(SshErrorCode::Session(-43), "x".into()), Error::Connect(_)));
    assert!(matches!(auth_or_connect(SshErrorCode::Sftp(-18), "x".into()), Error::Connect(_)));
}
