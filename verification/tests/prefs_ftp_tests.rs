use scp_core::ftp::{
    entries_from_listing, ftp_login, ftp_secure, list_all_argument, login_error, parse_listing, site_chmod_command,
    FtpFailure, ListedFile,
};
use scp_core::prefs::PrefsFile;
use scp_core::text::{parse_i64, parse_octal_chars, parse_u16, parse_u32};
use scp_core::types::{Auth, Credentials, Error, Protocol};

fn chars(s: &str) -> Vec<char> {
    s.chars().collect()
}

#[test]
fn preferences_text() {
    let mut p = PrefsFile::parse("editor = vim\nbogus line\npool=3\nempty=\npool = 4\n");
    assert_eq!(p.get("editor").as_deref(), Some("vim"));
    assert_eq!(p.get("empty"), None);
    assert_eq!(p.get("missing"), None);
    assert_eq!(p.get_int("pool", 1), 4);
    assert_eq!(p.get_int("editor", 7), 7);
    p.set("alpha", "1");
    p.set("editor", "");
    assert_eq!(p.render(), "alpha=1\nempty=\npool=4\n");
}

#[test]
fn ftp_listing_entries() {
    let parsed = vec![
        Some(ListedFile { name: ".".into(), is_dir: true, is_symlink: false, size: 0, mtime: Some(5) }),
        None,
        Some(ListedFile { name: "a.txt".into(), is_dir: false, is_symlink: false, size: 3, mtime: Some(0) }),
        Some(ListedFile { name: "..".into(), is_dir: true, is_symlink: false, size: 0, mtime: None }),
        Some(ListedFile { name: "l".into(), is_dir: false, is_symlink: true, size: 1, mtime: Some(100) }),
    ];
    let es = entries_from_listing(parsed);
    assert_eq!(es.len(), 2);
    assert_eq!(es[0].name, "a.txt");
    assert_eq!(es[0].mtime, None);
    assert_eq!(es[1].mtime, Some(100));
    assert!(es[1].is_symlink);
}

#[test]
fn ftp_listing_parses_unix_lines() {
    let lines = vec![
        "drwxr-xr-x 2 user group 4096 Jan 10  2020 docs".to_string(),
        "-rw-r--r-- 1 user group 1234 Feb 02  2021 notes.txt".to_string(),
        "drwxr-xr-x 2 user group 4096 Jan 10  2020 .".to_string(),
        "drwxr-xr-x 2 user group 4096 Jan 10  2020 ..".to_string(),
    ];
    let es = parse_listing(&lines);
    assert_eq!(es.len(), 2);
    assert!(es[0].is_dir);
    assert_eq!(es[1].name, "notes.txt");
    assert_eq!(es[1].size, 1234);
}

#[test]
fn ftp_listing_skips_the_leap_second_before_the_epoch() {
    let lines = vec![
        "type=file;modify=19691231235960; x".to_string(),
        "-rw-r--r-- 1 user group 5 Feb 02  2021 kept.txt".to_string(),
    ];
    let es = parse_listing(&lines);
    assert_eq!(es.len(), 1);
    assert_eq!(es[0].name, "kept.txt");
}

#[test]
fn ftp_listing_keeps_lines_that_only_mention_1969_and_60() {
    let lines = vec!["type=file;size=1969;modify=20201019151930; x60.txt".to_string()];
    let es = parse_listing(&lines);
    assert_eq!(es.len(), 1);
    assert_eq!(es[0].name, "x60.txt");
    assert_eq!(es[0].size, 1969);
}

#[test]
fn ftp_listing_times_of_dated_lines() {
    let lines = vec![
        "type=file;size=8192;modify=20181105163248; omar.txt".to_string(),
        "-rw-r--r-- 1 user group 1234 Feb 02  2021 notes.txt".to_string(),
    ];
    let es = parse_listing(&lines);
    assert_eq!(es.len(), 2);
    assert_eq!(es[0].mtime, Some(1541435568));
    assert_eq!(es[1].mtime, Some(1612224000));
}

#[test]
fn ftp_login_rules() {
    let c = Credentials::basic(Protocol::Ftp, "h".into(), 21, "u".into(), Auth::Password("p".into()));
    assert_eq!(ftp_login(&c).unwrap(), ("u".to_string(), "p".to_string()));
    let a = Credentials::basic(Protocol::Ftp, "h".into(), 21, "u".into(), Auth::Anonymous);
    assert_eq!(ftp_login(&a).unwrap(), ("anonymous".to_string(), "anonymous@".to_string()));
    let k = Credentials::basic(Protocol::Ftp, "h".into(), 21, "u".into(), Auth::Agent);
    assert!(matches!(ftp_login(&k), Err(Error::Auth(ref m)) if m == "FTP supports password auth only"));
    assert_eq!(ftp_secure(Protocol::Ftps).unwrap(), true);
    assert!(matches!(ftp_secure(Protocol::Sftp), Err(Error::Protocol(_))));
    assert!(matches!(login_error(FtpFailure::UnexpectedResponse, "530".into()), Error::Auth(_)));
    assert!(matches!(login_error(FtpFailure::Other, "eof".into()), Error::Connect(_)));
}

#[test]
fn ftp_commands() {
    assert_eq!(site_chmod_command(0o100644, "/x y"), "SITE CHMOD 644 /x y");
    assert_eq!(site_chmod_command(0o4755, "f"), "SITE CHMOD 4755 f");
    assert_eq!(list_all_argument("/pub"), "-a /pub");
}

#[test]
fn number_parsing_follows_from_str() {
    assert_eq!(parse_u32(&chars("42")), Some(42));
    assert_eq!(parse_u32(&chars("+7")), Some(7));
    assert_eq!(parse_u32(&chars("-7")), None);
    assert_eq!(parse_u32(&chars("4294967296")), None);
    assert_eq!(parse_u32(&chars("")), None);
    assert_eq!(parse_u16(&chars("65535")), Some(65535));
    assert_eq!(parse_u16(&chars("65536")), None);
    assert_eq!(parse_i64(&chars("-9223372036854775808")), Some(i64::MIN));
    assert_eq!(parse_i64(&chars("9223372036854775808")), None);
    assert_eq!(parse_i64(&chars("-")), None);
    assert_eq!(parse_octal_chars(&chars("755")), Some(0o755));
    assert_eq!(parse_octal_chars(&chars("8")), None);
}
