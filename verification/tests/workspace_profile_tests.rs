use std::collections::BTreeMap;

use scp_core::desktop::SyncManager;
use scp_core::ops::LocalEntry;
use scp_core::profiles::{delete_site, save_site, Site};
use scp_core::transport::{Progress, Transport};
use scp_core::types::{Auth, Credentials, Entry, Error, Protocol, Result};
use scp_core::workspace::{proto_label, restore_action, tab_account, tab_state, Restore, TabState, Workspace};

fn profile(name: &str, host: &str) -> Site {
    Site {
        name: name.into(),
        protocol: "sftp".into(),
        host: host.into(),
        port: 22,
        username: "u".into(),
        auth_mode: "password".into(),
        key_path: String::new(),
        bucket: String::new(),
        region: String::new(),
        path: String::new(),
        use_jump: false,
        jump_host: String::new(),
        jump_port: 0,
        jump_user: String::new(),
        jump_auth_mode: String::new(),
        jump_key_path: String::new(),
    }
}

fn names(sites: &[Site]) -> Vec<&str> {
    sites.iter().map(|s| s.name.as_str()).collect()
}

#[test]
fn profiles_stay_sorted_case_insensitively() {
    let mut sites = Vec::new();
    for n in ["beta", "Alpha", "gamma", "alpha2"] {
        sites = save_site(sites, profile(n, "h"));
    }
    assert_eq!(names(&sites), ["Alpha", "alpha2", "beta", "gamma"]);
}

#[test]
fn saving_a_profile_replaces_the_same_name() {
    let sites = save_site(Vec::new(), profile("web", "old.example"));
    let sites = save_site(sites, profile("db", "db.example"));
    let sites = save_site(sites, profile("web", "new.example"));
    assert_eq!(names(&sites), ["db", "web"]);
    assert_eq!(sites[1].host, "new.example");
}

#[test]
fn deleting_a_profile_by_name() {
    let sites = vec![profile("a", "1"), profile("b", "2"), profile("a", "3")];
    let left = delete_site(sites, "a");
    assert_eq!(names(&left), ["b"]);
    let left = delete_site(left, "missing");
    assert_eq!(names(&left), ["b"]);
}

#[test]
fn tab_state_of_key_file_session() {
    let mut c = Credentials::basic(
        Protocol::Ftps,
        "files.example".into(),
        990,
        "ops".into(),
        Auth::KeyFile { path: "/k/id".into(), passphrase: None },
    );
    c.region = Some("eu".into());
    let t = tab_state(&c, "/srv".into(), "/home/ops".into());
    assert_eq!(t.proto, 2);
    assert_eq!(t.port, "990");
    assert_eq!(t.user, "ops");
    assert_eq!(t.auth, 1);
    assert_eq!(t.key_path, "/k/id");
    assert_eq!(t.bucket, "");
    assert_eq!(t.region, "eu");
    assert_eq!(t.remote_path, "/srv");
    assert_eq!(t.local_path, "/home/ops");
    assert!(tab_account(&t).is_none());
}

#[test]
fn password_tabs_look_up_their_account() {
    let c = Credentials::basic(Protocol::Sftp, "h.example".into(), 22, "me".into(), Auth::Password("pw".into()));
    let t: TabState = tab_state(&c, "/".into(), "/tmp".into());
    assert_eq!(t.auth, 0);
    assert_eq!(tab_account(&t).as_deref(), Some("sftp://me@h.example:22"));
    assert_eq!(proto_label(7), "S3");
    let mut ws = Workspace::new();
    ws.tabs.push(t);
    assert_eq!(ws.tabs.len(), 1);
}

#[test]
fn restore_decisions() {
    assert!(matches!(restore_action(0, Some("pw".into())), Restore::ConnectWithPassword(p) if p == "pw"));
    assert!(matches!(restore_action(1, None), Restore::Connect));
    assert!(matches!(restore_action(0, None), Restore::ShowLogin));
}

/// A server with fixed files under `/r`.
struct Server {
    files: BTreeMap<String, u64>,
}

impl Transport for Server {
    fn list_dir(&mut self, path: &str) -> Result<Vec<Entry>> {
        let prefix = format!("{}/", path.trim_end_matches('/'));
        Ok(self
            .files
            .iter()
            .filter_map(|(k, size)| k.strip_prefix(&prefix).map(|n| (n, *size)))
            .filter(|(n, _)| !n.contains('/'))
            .map(|(n, size)| Entry {
                name: n.into(),
                is_dir: false,
                size,
                mtime: None,
                perms: None,
                is_symlink: false,
                uid: None,
                gid: None,
            })
            .collect())
    }
    fn download_progress(&mut self, _: &str, _: &str, _: &mut dyn Progress) -> Result<u64> {
        Ok(0)
    }
    fn upload_progress(&mut self, _: &str, _: &str, _: &mut dyn Progress) -> Result<u64> {
        Ok(0)
    }
    fn mkdir(&mut self, _: &str) -> Result<()> {
        Ok(())
    }
    fn remove_file(&mut self, _: &str) -> Result<()> {
        Err(Error::Protocol("read-only".into()))
    }
    fn remove_dir(&mut self, _: &str) -> Result<()> {
        Err(Error::Protocol("read-only".into()))
    }
    fn rename(&mut self, _: &str, _: &str) -> Result<()> {
        Err(Error::Protocol("read-only".into()))
    }
}

#[test]
fn sync_manager_previews_a_mirror() {
    let mut server = Server { files: BTreeMap::from([("/r/keep.txt".to_string(), 4), ("/r/old.txt".to_string(), 2)]) };
    let local = vec![LocalEntry { name: "keep.txt".into(), is_dir: false, size: 4, mtime: None, children: Vec::new() }];
    let mut m = SyncManager::new(3);
    assert_eq!(m.plan(&mut server, &local, "/r", "upload", true).err().as_deref(), Some("not connected"));
    m.set_creds(Credentials::basic(Protocol::Sftp, "h".into(), 22, "u".into(), Auth::Agent));
    assert_eq!(
        m.plan(&mut server, &local, "/r", "sideways", true).err().as_deref(),
        Some("unknown sync direction: sideways")
    );
    let dto = m.plan(&mut server, &local, "/r", "upload", true).unwrap();
    assert!(dto.items.is_empty());
    assert_eq!(dto.deletes, ["old.txt"]);
    let dto = m.plan(&mut server, &Vec::new(), "/r", "download", false).unwrap();
    assert_eq!(dto.items.len(), 2);
    assert!(dto.items.iter().all(|i| i.reason == "missing"));
    assert!(dto.deletes.is_empty());
}
