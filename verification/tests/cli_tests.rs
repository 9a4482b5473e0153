use scp_core::cli::{ls_line, parse_command, parse_flags, parse_url, sort_entries, CliError, Command, Flags};
use scp_core::ops::{Filter, SyncDirection};
use scp_core::types::{Auth, Entry, HostKeyPolicy, Protocol};

fn flags() -> Flags {
    Flags {
        host_key: HostKeyPolicy::Strict,
        agent: false,
        key: None,
        recursive: false,
        filter: Filter::empty(),
        delete: false,
        speed_kbs: 0,
    }
}

fn args(v: &[&str]) -> Vec<String> {
    v.iter().map(|s| s.to_string()).collect()
}

#[test]
fn sftp_url_with_port_and_path() {
    let p = parse_url("sftp://root@example.com:2222/var/www", Some("pw"), &flags()).unwrap();
    assert_eq!(p.creds.protocol, Protocol::Sftp);
    assert_eq!(p.creds.host, "example.com");
    assert_eq!(p.creds.port, 2222);
    assert_eq!(p.creds.username, "root");
    assert_eq!(p.path, "/var/www");
    assert!(matches!(p.creds.auth, Auth::Password(ref x) if x == "pw"));
}

#[test]
fn ftp_without_user_or_password_is_anonymous() {
    let p = parse_url("ftp://ftp.example.org", None, &flags()).unwrap();
    assert_eq!(p.creds.port, 21);
    assert_eq!(p.creds.username, "anonymous");
    assert_eq!(p.path, "/");
    assert!(matches!(p.creds.auth, Auth::Anonymous));
    let s = parse_url("sftp://u@h", None, &flags()).unwrap();
    assert!(matches!(s.creds.auth, Auth::Password(ref x) if x.is_empty()));
}

#[test]
fn s3_url_splits_bucket_and_prefix() {
    let p = parse_url("s3://AKIA@minio.local:9000/backups/2026/x", Some("secret"), &flags()).unwrap();
    assert_eq!(p.creds.protocol, Protocol::S3);
    assert_eq!(p.creds.bucket.as_deref(), Some("backups"));
    assert_eq!(p.path, "/2026/x");
    let q = parse_url("s3://AKIA@minio.local/onlybucket", None, &flags()).unwrap();
    assert_eq!(q.creds.port, 443);
    assert_eq!(q.creds.bucket.as_deref(), Some("onlybucket"));
    assert_eq!(q.path, "/");
}

#[test]
fn bad_urls_are_refused() {
    assert_eq!(parse_url("example.com/x", None, &flags()).unwrap_err(), "missing scheme://");
    assert_eq!(parse_url("http://h/x", None, &flags()).unwrap_err(), "unsupported scheme: http");
    assert_eq!(parse_url("sftp://h:99999/x", None, &flags()).unwrap_err(), "invalid port");
    assert_eq!(parse_url("sftp://h:ab/x", None, &flags()).unwrap_err(), "invalid port");
}

#[test]
fn key_and_agent_flags_choose_the_auth() {
    let mut f = flags();
    f.key = Some("/k".into());
    let p = parse_url("sftp://u@h/", Some("phrase"), &f).unwrap();
    assert!(matches!(p.creds.auth, Auth::KeyFile { ref path, passphrase: Some(ref pp) } if path == "/k" && pp == "phrase"));
    f.agent = true;
    let q = parse_url("sftp://u@h/", Some("phrase"), &f).unwrap();
    assert!(matches!(q.creds.auth, Auth::Agent));
}

#[test]
fn flags_come_out_of_the_arguments() {
    let (f, rest) = parse_flags(args(&["--accept-new", "-r", "--exclude", "*.tmp", "get", "sftp://h/x", "out", "--speed", "64"])).unwrap();
    assert!(matches!(f.host_key, HostKeyPolicy::AcceptNew));
    assert!(f.recursive);
    assert!(f.filter.excludes("a.tmp", false));
    assert_eq!(f.speed_kbs, 64);
    assert_eq!(rest, args(&["get", "sftp://h/x", "out"]));
}

#[test]
fn flag_errors() {
    assert!(matches!(parse_flags(args(&["ls", "--key"])), Err(CliError::Usage)));
    match parse_flags(args(&["--speed", "fast", "ls", "u"])) {
        Err(CliError::Message(m)) => assert_eq!(m, "--speed requires a number"),
        _ => panic!("expected a message"),
    }
}

#[test]
fn commands_and_their_arguments() {
    match parse_command(&args(&["get", "sftp://h/x", "local", "pw"])).unwrap() {
        Command::Get { url, local, password } => {
            assert_eq!(url, "sftp://h/x");
            assert_eq!(local, "local");
            assert_eq!(password.as_deref(), Some("pw"));
        }
        other => panic!("unexpected {other:?}"),
    }
    match parse_command(&args(&["chmod", "755", "sftp://h/x"])).unwrap() {
        Command::Chmod { mode, password, .. } => {
            assert_eq!(mode, 0o755);
            assert!(password.is_none());
        }
        other => panic!("unexpected {other:?}"),
    }
    match parse_command(&args(&["sync", "down", "sftp://h/x", "dir"])).unwrap() {
        Command::Sync { direction, .. } => assert_eq!(direction, SyncDirection::Download),
        other => panic!("unexpected {other:?}"),
    }
    assert!(matches!(parse_command(&args(&["chmod", "9z", "u"])), Err(CliError::Usage)));
    assert!(matches!(parse_command(&args(&["plan", "sideways", "u", "d"])), Err(CliError::Usage)));
    assert!(matches!(parse_command(&args(&["mv", "u"])), Err(CliError::Usage)));
    assert!(matches!(parse_command(&args(&["frobnicate"])), Err(CliError::Usage)));
    assert!(matches!(parse_command(&args(&[])), Err(CliError::Usage)));
}

fn entry(name: &str, is_dir: bool, size: u64) -> Entry {
    Entry { name: name.into(), is_dir, size, mtime: None, perms: None, is_symlink: false, uid: None, gid: None }
}

#[test]
fn ls_lines_and_order() {
    let mut e = entry("notes.txt", false, 1234);
    e.perms = Some("rw-r--r--".into());
    e.uid = Some(1000);
    assert_eq!(ls_line(&e), "-rw-r--r--      1000        ?         1234 notes.txt");
    let sorted = sort_entries(vec![entry("b", false, 1), entry("z", true, 0), entry("a", false, 1), entry("c", true, 0)]);
    let names: Vec<&str> = sorted.iter().map(|x| x.name.as_str()).collect();
    assert_eq!(names, ["c", "z", "a", "b"]);
}

