use scp_core::desktop::{
    build_creds, connect_failure, entry_dtos, host_key_for, job_outcome, parse_direction, plan_dto,
    proto_from_str, speed_gate, start_path, ConnectForm, ConnectResult, JobOutcome, JobStart, Prefs,
    SessionState, Sessions, SyncManager, TransferManager,
};
use scp_core::ops::{PlanItem, PlanReason, SyncDirection, SyncPlan};
use scp_core::types::{Auth, Credentials, Entry, Error, HostKeyPolicy, Protocol};

fn form(protocol: &str) -> ConnectForm {
    ConnectForm {
        protocol: protocol.into(),
        host: "h".into(),
        port: 22,
        username: "u".into(),
        password: "pw".into(),
        auth_mode: String::new(),
        key_path: String::new(),
        bucket: String::new(),
        region: String::new(),
        path: String::new(),
        use_jump: false,
        jump_host: String::new(),
        jump_port: 0,
        jump_user: String::new(),
        jump_password: String::new(),
        jump_auth_mode: String::new(),
        jump_key_path: String::new(),
    }
}

#[test]
fn protocols_by_name() {
    assert_eq!(proto_from_str("ftps").unwrap(), Protocol::Ftps);
    assert_eq!(proto_from_str("gopher").unwrap_err(), "unknown protocol: gopher");
}

#[test]
fn key_auth_and_jump_host_for_sftp() {
    let mut f = form("sftp");
    f.auth_mode = "key".into();
    f.key_path = "/k".into();
    f.use_jump = true;
    f.jump_host = "bastion".into();
    f.jump_user = "j".into();
    f.jump_auth_mode = "agent".into();
    let c = build_creds(&f, HostKeyPolicy::Strict).unwrap();
    assert!(matches!(c.auth, Auth::KeyFile { ref path, passphrase: Some(ref p) } if path == "/k" && p == "pw"));
    let j = c.jump.unwrap();
    assert_eq!(j.host, "bastion");
    assert_eq!(j.port, 22);
    assert!(matches!(j.auth, Auth::Agent));
    assert!(matches!(j.host_key, HostKeyPolicy::AcceptNew));
}

#[test]
fn s3_keeps_bucket_and_region_and_ignores_auth_mode() {
    let mut f = form("s3");
    f.auth_mode = "agent".into();
    f.bucket = "b".into();
    let c = build_creds(&f, HostKeyPolicy::Strict).unwrap();
    assert!(matches!(c.auth, Auth::Password(ref p) if p == "pw"));
    assert_eq!(c.bucket.as_deref(), Some("b"));
    assert_eq!(c.region, None);
    assert!(c.jump.is_none());
    assert_eq!(build_creds(&form("x"), HostKeyPolicy::Strict).unwrap_err(), "unknown protocol: x");
}

#[test]
fn connect_outcomes_for_the_ui() {
    assert!(matches!(connect_failure(Error::UnknownHostKey { fingerprint: "f".into() }), ConnectResult::UnknownHostKey { fingerprint } if fingerprint == "f"));
    assert!(matches!(connect_failure(Error::HostKeyMismatch { fingerprint: "f".into() }), ConnectResult::HostKeyMismatch { .. }));
    match connect_failure(Error::Auth("denied".into())) {
        ConnectResult::Error { message } => assert_eq!(message, "authentication failed: denied"),
        other => panic!("unexpected {other:?}"),
    }
    assert!(matches!(host_key_for(None), HostKeyPolicy::Strict));
    assert!(matches!(host_key_for(Some("fp".into())), HostKeyPolicy::AcceptFingerprint(ref f) if f == "fp"));
    assert_eq!(start_path(""), "/");
    assert_eq!(start_path("/srv"), "/srv");
}

#[test]
fn sync_requests() {
    assert_eq!(parse_direction("upload").unwrap(), SyncDirection::Upload);
    assert_eq!(parse_direction("up").unwrap_err(), "unknown sync direction: up");
    let mut m = SyncManager::new(7);
    assert_eq!(m.request("download").unwrap_err(), "not connected");
    assert_eq!(m.request("sideways").unwrap_err(), "unknown sync direction: sideways");
    m.set_creds(Credentials::basic(Protocol::Sftp, "h".into(), 22, "u".into(), Auth::Agent));
    let (d, c) = m.request("download").unwrap();
    assert_eq!(d, SyncDirection::Download);
    assert_eq!(c.host, "h");
}

#[test]
fn plan_records_carry_reason_labels() {
    let plan = SyncPlan {
        items: vec![PlanItem { rel: "a".into(), size: 3, reason: PlanReason::SizeDiffers }],
        dirs: vec!["sub".into()],
        deletes: vec![],
    };
    let dto = plan_dto(plan);
    assert_eq!(dto.items[0].reason, "size differs");
    assert_eq!(dto.items[0].size, 3);
    assert_eq!(dto.dirs, vec!["sub".to_string()]);
    let e = Entry { name: "n".into(), is_dir: true, size: 0, mtime: Some(5), perms: None, is_symlink: true, uid: Some(1), gid: None };
    let dtos = entry_dtos(&vec![e]);
    assert!(dtos[0].is_symlink && dtos[0].is_dir && dtos[0].mtime == Some(5));
}

#[test]
fn preferences_defaults() {
    let p = Prefs::default();
    assert!(!p.show_hidden && p.confirm_delete && p.confirm_overwrite && p.atomic_uploads);
    assert_eq!(p.max_parallel, 2);
    assert!(!p.show_owner_group);
}

#[test]
fn transfer_queue_bookkeeping() {
    let mut m = TransferManager::new(3);
    assert_eq!(m.effective_target(), 2);
    let (id1, spawn1) = m.enqueue();
    assert_eq!((id1, spawn1), (1, 2));
    let (id2, spawn2) = m.enqueue();
    assert_eq!((id2, spawn2), (2, 0));
    m.set_max(0);
    assert_eq!(m.target, 1);
    assert!(m.worker_should_retire());
    assert!(!m.worker_should_retire());
    m.cancel(id2);
    m.cancel(99);
    assert!(m.is_cancelled(id2) && !m.is_cancelled(id1) && !m.is_cancelled(99));
    assert!(matches!(m.job_start(id2, true, 0), JobStart::Cancelled));
    assert!(!m.is_cancelled(id2));
    assert!(matches!(m.job_start(id1, false, 0), JobStart::Reconnect { creds: None, generation: 0 }));
    m.set_creds(Credentials::basic(Protocol::Ftp, "h".into(), 21, "u".into(), Auth::Anonymous));
    assert!(matches!(m.job_start(id1, true, 0), JobStart::Reconnect { creds: Some(_), generation: 1 }));
    assert!(matches!(m.job_start(id1, true, 1), JobStart::Run));
    m.job_finished(id1);
    assert!(!m.is_cancelled(id1));
}

#[test]
fn job_outcomes_and_speed_gate() {
    assert!(matches!(job_outcome(Ok(5)), (JobOutcome::Done, false)));
    assert!(matches!(job_outcome(Err(Error::Cancelled)), (JobOutcome::Cancelled, false)));
    match job_outcome(Err(Error::Io("broken pipe".into()))) {
        (JobOutcome::Failed { message }, true) => assert_eq!(message, "io error: broken pipe"),
        other => panic!("unexpected {other:?}"),
    }
    assert!(matches!(job_outcome(Err(Error::Protocol("x".into()))), (JobOutcome::Failed { .. }, false)));
    assert_eq!(speed_gate(0, 1024, 1), (1_000_000, 1024));
    assert_eq!(speed_gate(100, 50, 1), (0, 100));
    assert_eq!(speed_gate(0, 1024, 0), (0, 1024));
    assert_eq!(speed_gate(0, u64::MAX, 1).0, u64::MAX / 1024);
}

#[test]
fn session_registry() {
    let mut s: Sessions<SessionState<()>> = Sessions::new();
    s.default_parallel = 4;
    let id = s.create(|id, parallel| {
        let mut st = SessionState::new(id);
        if let Some(p) = parallel {
            st.transfers.set_max(p);
        }
        st
    });
    assert_eq!(id, 1);
    let st = s.get(1).unwrap();
    assert_eq!(st.transfers.sid, 1);
    assert_eq!(st.transfers.target, 4);
    assert!(s.get(2).is_none());
    s.remove(1);
    assert!(s.get(1).is_none());
}
