//! The saved workspace: the open tabs (connection settings and current
//! directories) are written when the window closes and restored on the next
//! launch. Passwords are never part of it; a restored password tab looks its
//! password up in the keyring. Reading and writing the file is the caller's.

use vstd::prelude::*;

use crate::sites::{account, account_spec};
use crate::text::{dec, string_of, u64_to_dec};
use crate::types::{Auth, Credentials, Protocol};

verus! {

/// One saved tab.
#[derive(Debug, Clone)]
pub struct TabState {
    /// 0=SFTP, 1=FTP, 2=FTPS, 3=S3.
    pub proto: u32,
    pub host: String,
    pub port: String,
    pub user: String,
    /// 0=password, 1=key file, 2=SSH agent.
    pub auth: u32,
    pub key_path: String,
    pub bucket: String,
    pub region: String,
    pub remote_path: String,
    pub local_path: String,
}

/// All saved tabs, in order.
#[derive(Debug, Clone)]
pub struct Workspace {
    pub tabs: Vec<TabState>,
}

impl Workspace {
    /// No tabs.
    pub fn new() -> (r: Self)
        ensures
            r.tabs@.len() == 0,
    {
        Workspace { tabs: Vec::new() }
    }
}

/// The protocol index a tab is saved with.
pub open spec fn proto_index(p: Protocol) -> u32 {
    match p {
        Protocol::Ftp => 1,
        Protocol::Ftps => 2,
        Protocol::S3 => 3,
        Protocol::Sftp => 0,
    }
}

/// The auth index a tab is saved with (anonymous counts as password).
pub open spec fn auth_index(a: Auth) -> u32 {
    match a {
        Auth::KeyFile { .. } => 1,
        Auth::Agent => 2,
        _ => 0,
    }
}

/// The saved state of a tab connected with `creds`, browsing `remote_path`
/// on the server and `local_path` on this machine. Only a key file's path is
/// kept of the auth; absent bucket and region are saved empty.
pub fn tab_state(creds: &Credentials, remote_path: String, local_path: String) -> (r: TabState)
    ensures
        r.proto == proto_index(creds.protocol),
        r.host@ == creds.host@,
        r.port@ == dec(creds.port as nat),
        r.user@ == creds.username@,
        r.auth == auth_index(creds.auth),
        r.key_path@ == (match creds.auth {
            Auth::KeyFile { path, .. } => path@,
            _ => Seq::empty(),
        }),
        r.bucket@ == (match creds.bucket {
            Some(b) => b@,
            None => Seq::empty(),
        }),
        r.region@ == (match creds.region {
            Some(g) => g@,
            None => Seq::empty(),
        }),
        r.remote_path == remote_path,
        r.local_path == local_path,
{
    let proto: u32 = match creds.protocol {
        Protocol::Ftp => 1,
        Protocol::Ftps => 2,
        Protocol::S3 => 3,
        Protocol::Sftp => 0,
    };
    let (auth, key_path): (u32, String) = match &creds.auth {
        Auth::KeyFile { path, .. } => (1, path.clone()),
        Auth::Agent => (2, String::new()),
        _ => (0, String::new()),
    };
    let bucket = match &creds.bucket {
        Some(b) => b.clone(),
        None => String::new(),
    };
    let region = match &creds.region {
        Some(g) => g.clone(),
        None => String::new(),
    };
    let port_digits = u64_to_dec(creds.port as u64);
    TabState {
        proto,
        host: creds.host.clone(),
        port: string_of(port_digits.as_slice()),
        user: creds.username.clone(),
        auth,
        key_path,
        bucket,
        region,
        remote_path,
        local_path,
    }
}

/// The label of a protocol index (indices wrap around the four).
pub open spec fn proto_label_spec(proto: u32) -> Seq<char> {
    let i = proto % 4;
    if i == 1 {
        "FTP"@
    } else if i == 2 {
        "FTPS"@
    } else if i == 3 {
        "S3"@
    } else {
        "SFTP"@
    }
}

/// The label of a protocol index, as the protocol picker shows it.
pub fn proto_label(proto: u32) -> (r: &'static str)
    ensures
        r@ == proto_label_spec(proto),
{
    let i = proto % 4;
    if i == 1 {
        "FTP"
    } else if i == 2 {
        "FTPS"
    } else if i == 3 {
        "S3"
    } else {
        "SFTP"
    }
}

/// The keyring account of a restored password tab; tabs that log in with a
/// key or the agent need none.
pub fn tab_account(tab: &TabState) -> (r: Option<String>)
    ensures
        tab.auth == 0 ==> (r matches Some(a) && a@ == account_spec(
            proto_label_spec(tab.proto),
            tab.user@,
            tab.host@,
            tab.port@,
        )),
        tab.auth != 0 ==> r.is_none(),
{
    if tab.auth == 0 {
        let label = proto_label(tab.proto);
        Some(account(label, tab.user.as_str(), tab.host.as_str(), tab.port.as_str()))
    } else {
        None
    }
}

/// What restoring a tab does once its password has been looked up.
#[derive(Debug)]
pub enum Restore {
    /// Fill in the stored password and connect.
    ConnectWithPassword(String),
    /// Connect with the saved key file or the agent.
    Connect,
    /// No stored password: leave the prefilled login dialog up.
    ShowLogin,
}

/// The restore decision for a tab with auth index `auth`, given the
/// password found for it (if any).
pub fn restore_action(auth: u32, password: Option<String>) -> (r: Restore)
    ensures
        r == (match password {
            Some(pw) => Restore::ConnectWithPassword(pw),
            None => if auth != 0 {
                Restore::Connect
            } else {
                Restore::ShowLogin
            },
        }),
{
    match password {
        Some(pw) => Restore::ConnectWithPassword(pw),
        None => if auth != 0 {
            Restore::Connect
        } else {
            Restore::ShowLogin
        },
    }
}

} // verus!
