use scp_core::sites::{account, url_decode, Site, SiteExport, SitesStore};

fn store() -> SitesStore {
    SitesStore::new()
}

fn site(name: &str, proto: u32, auth: u32) -> Site {
    Site {
        name: name.into(),
        proto,
        host: "h.example".into(),
        port: "22".into(),
        user: "u".into(),
        auth,
        key_path: String::new(),
        bucket: String::new(),
        region: String::new(),
    }
}

#[test]
fn imports_winscp_ini() {
    let ini = "\
[Configuration]\nRandomSeedFile=x\n\
[Sessions\\Default%20Settings]\nHostName=ignored\n\
[Sessions\\My%20Server]\nHostName=example.com\nUserName=root\nPortNumber=2222\n\
[Sessions\\Work/web1]\nHostName=web1.example\nUserName=deploy\nFSProtocol=5\nFtpSecure=1\n\
[Sessions\\Keyed]\nHostName=keyed.example\nUserName=ops\nPublicKeyFile=C:%5Ckeys%5Cid.ppk\n";
    let mut s = store();
    assert_eq!(s.import_winscp_ini(ini).unwrap(), 3);
    let by_name = |n: &str| s.sites.iter().find(|x| x.name == n).unwrap();
    let server = by_name("My Server");
    assert_eq!(server.proto, 0);
    assert_eq!(server.port, "2222");
    let web1 = by_name("Work/web1");
    assert_eq!(web1.proto, 2); // FTP + FtpSecure → FTPS
    assert_eq!(web1.port, "21");
    assert_eq!(web1.folder().as_deref(), Some("Work"));
    let keyed = by_name("Keyed");
    assert_eq!(keyed.auth, 1);
    assert_eq!(keyed.key_path, "C:\\keys\\id.ppk");
}

#[test]
fn url_decode_is_panic_proof() {
    // "%aé" used to panic (str slice inside a multibyte char).
    assert_eq!(url_decode("%a\u{e9}"), "%a\u{e9}");
    assert_eq!(url_decode("My%20Site"), "My Site");
    assert_eq!(url_decode("a%00b"), "ab"); // NULs stripped
    assert_eq!(url_decode("%"), "%");
    assert_eq!(url_decode("%zz"), "%zz");
}

#[test]
fn url_decode_undoes_full_escaping() {
    let text = "Caf\u{e9} & 100%";
    let escaped: String = text.bytes().map(|b| format!("%{:02X}", b)).collect();
    assert_eq!(url_decode(&escaped), text);
    assert_eq!(url_decode("plain name"), "plain name");
}

#[test]
fn url_decode_replaces_invalid_utf8() {
    assert_eq!(url_decode("%FF"), "\u{fffd}");
    assert_eq!(url_decode("%C3%A9"), "\u{e9}");
}

#[test]
fn imports_macos_export() {
    // The record the macOS app writes for one site.
    let rec = SiteExport {
        name: "Work/web1".into(),
        protocol: "sftp".into(),
        host: "example.com".into(),
        port: "2222".into(),
        user: "deploy".into(),
        auth: "key".into(),
        key_path: "/home/u/.ssh/id_ed25519".into(),
        bucket: String::new(),
        region: String::new(),
    };
    let mut s = store();
    assert_eq!(s.merge_records(vec![rec]), 1);
    let site = &s.sites[0];
    assert_eq!(site.proto, 0);
    assert_eq!(site.auth, 1);
    assert_eq!(site.host, "example.com");
    assert_eq!(site.folder().as_deref(), Some("Work"));
    assert_eq!(site.display_name(), "web1");
}

#[test]
fn export_import_round_trip() {
    let mut s = store();
    s.sites.push(Site {
        name: "S3/backups".into(),
        proto: 3,
        host: "minio.local".into(),
        port: "443".into(),
        user: "AKIA123".into(),
        auth: 0,
        key_path: String::new(),
        bucket: "backups".into(),
        region: "us-east-1".into(),
    });
    let records = s.export_records();
    let mut other = store();
    assert_eq!(other.merge_records(records), 1);
    assert_eq!(other.sites[0].proto, 3);
    assert_eq!(other.sites[0].bucket, "backups");
    // Importing again replaces rather than duplicating.
    assert_eq!(other.merge_records(s.export_records()), 1);
    assert_eq!(other.sites.len(), 1);
}

#[test]
fn winscp_import_of_a_saved_name_replaces_it() {
    let mut s = store();
    s.add(site("a", 0, 0));
    let ini = "[Sessions\\a]\nHostName=new.example\n[Sessions\\b]\nHostName=b.example\n";
    assert_eq!(s.import_winscp_ini(ini).unwrap(), 2);
    assert_eq!(s.sites.len(), 2);
    assert_eq!(s.sites.iter().find(|x| x.name == "a").unwrap().host, "new.example");
}

#[test]
fn winscp_without_sessions_is_refused() {
    let mut s = store();
    let err = s.import_winscp_ini("[Configuration]\nFoo=1\n").unwrap_err();
    assert_eq!(err, "no [Sessions\\…] entries found — is this a WinSCP.ini?");
    assert!(s.sites.is_empty());
}

#[test]
fn winscp_defaults_ports_and_skips_hostless_blocks() {
    let ini = "[Sessions\\s3box]\nHostName=s3.example\nFSProtocol=7\n\
[Sessions\\ftp]\nHostName=f.example\nFSProtocol=5\nFtpSecure=0\n\
[Sessions\\nohost]\nUserName=x\n\
[Sessions\\badproto]\nHostName=b.example\nFSProtocol=abc\n";
    let mut s = store();
    assert_eq!(s.import_winscp_ini(ini).unwrap(), 3);
    let by_name = |n: &str| s.sites.iter().find(|x| x.name == n).unwrap();
    assert_eq!(by_name("s3box").proto, 3);
    assert_eq!(by_name("s3box").port, "443");
    assert_eq!(by_name("ftp").proto, 1);
    assert_eq!(by_name("ftp").port, "21");
    assert_eq!(by_name("badproto").proto, 0);
    assert_eq!(by_name("badproto").port, "22");
    assert!(s.sites.iter().all(|x| x.name != "nohost"));
}

#[test]
fn sites_sort_ungrouped_first_then_folders() {
    let mut s = store();
    s.add(site("b/zeta", 0, 0));
    s.add(site("Alpha", 0, 0));
    s.add(site("a/one", 0, 0));
    s.add(site("beta", 0, 0));
    let names: Vec<&str> = s.sites.iter().map(|x| x.name.as_str()).collect();
    assert_eq!(names, ["Alpha", "beta", "a/one", "b/zeta"]);
}

#[test]
fn adding_a_same_named_site_replaces_it() {
    let mut s = store();
    s.add(site("x", 0, 0));
    s.add(site("x", 2, 1));
    assert_eq!(s.sites.len(), 1);
    assert_eq!(s.sites[0].proto, 2);
    assert_eq!(s.sites[0].auth, 1);
}

#[test]
fn adding_keeps_every_other_site_and_names_unique() {
    let mut s = store();
    s.add(site("b", 0, 0));
    s.add(site("a", 0, 0));
    s.add(site("c", 0, 0));
    s.add(site("a", 1, 0));
    let mut names: Vec<&str> = s.sites.iter().map(|x| x.name.as_str()).collect();
    names.sort();
    assert_eq!(names, ["a", "b", "c"]);
    assert_eq!(s.sites.iter().find(|x| x.name == "a").unwrap().proto, 1);
}

#[test]
fn rename_and_remove_ignore_bad_input() {
    let mut s = store();
    s.add(site("x", 0, 0));
    s.rename(0, "");
    s.rename(5, "y");
    assert_eq!(s.sites[0].name, "x");
    s.rename(0, "Work/x");
    assert_eq!(s.sites[0].name, "Work/x");
    assert_eq!(s.sites[0].display_name(), "x");
    s.remove(3);
    assert_eq!(s.sites.len(), 1);
    s.remove(0);
    assert!(s.sites.is_empty());
}

#[test]
fn folder_needs_a_nonempty_prefix() {
    assert_eq!(site("/x", 0, 0).folder(), None);
    assert_eq!(site("/x", 0, 0).display_name(), "/x");
    assert_eq!(site("plain", 0, 0).folder(), None);
    assert_eq!(site("a/b/c", 0, 0).folder().as_deref(), Some("a"));
    assert_eq!(site("a/b/c", 0, 0).display_name(), "b/c");
}

#[test]
fn export_names_protocols_and_auth() {
    let e = SiteExport::from_site(&site("n", 2, 2));
    assert_eq!(e.protocol, "ftps");
    assert_eq!(e.auth, "agent");
    let wrapped = SiteExport::from_site(&site("n", 5, 4));
    assert_eq!(wrapped.protocol, "ftp");
    assert_eq!(wrapped.auth, "key");
    let mut unknown = e.clone();
    unknown.protocol = "gopher".into();
    unknown.auth = "magic".into();
    let back = unknown.into_site();
    assert_eq!(back.proto, 0);
    assert_eq!(back.auth, 0);
}

#[test]
fn account_key_lowercases_the_protocol() {
    assert_eq!(account("SFTP", "root", "h", "22"), "sftp://root@h:22");
}
