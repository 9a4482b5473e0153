//! Connection settings, directory entries and the error type shared by every
//! part of the crate.

use vstd::prelude::*;

use crate::text::{push_str, string_of};

verus! {

/// Supported transfer protocols. Drives which transport backend is built.
#[derive(Debug, Clone, Copy, PartialEq, Eq, Structural)]
pub enum Protocol {
    Sftp,
    Ftp,
    Ftps,
    S3,
}

/// How to authenticate to a server.
#[derive(Debug, Clone)]
pub enum Auth {
    Password(String),
    /// Path to a private key file, plus an optional passphrase.
    KeyFile { path: String, passphrase: Option<String> },
    /// Ask the running SSH agent (ssh-agent) to authenticate. SFTP only.
    Agent,
    /// No credentials (anonymous FTP, public buckets).
    Anonymous,
}

/// What to do when an SSH server's host key is not already known.
///
/// Connect with `Strict` (the default); on [`Error::UnknownHostKey`] show the
/// fingerprint to the user; retry with `AcceptFingerprint` pinned to exactly
/// what they approved. A key that contradicts a stored one always fails,
/// regardless of policy.
#[derive(Debug, Clone)]
pub enum HostKeyPolicy {
    /// Fail with [`Error::UnknownHostKey`] when the key isn't in any store.
    Strict,
    /// Trust-on-first-use: remember unknown keys without asking.
    AcceptNew,
    /// Accept and remember the key only if its SHA256 fingerprint matches.
    AcceptFingerprint(String),
}

/// A bastion/jump host to tunnel through (ProxyJump).
#[derive(Debug, Clone)]
pub struct JumpHost {
    pub host: String,
    pub port: u16,
    pub username: String,
    pub auth: Auth,
    /// How to treat the bastion's host key (defaults to trust-on-first-use).
    pub host_key: HostKeyPolicy,
}

/// Everything needed to open a session.
///
/// For SFTP/FTP/FTPS: `host`/`port`/`username`/`auth` are used. For S3,
/// `username` is the access key, `auth` carries the secret, `bucket` names the
/// bucket, `region` the region, and `host` (if set) is a custom endpoint.
#[derive(Debug, Clone)]
pub struct Credentials {
    pub protocol: Protocol,
    pub host: String,
    pub port: u16,
    pub username: String,
    pub auth: Auth,
    /// S3 only: bucket name.
    pub bucket: Option<String>,
    /// S3 only: region (e.g. "us-east-1").
    pub region: Option<String>,
    /// SFTP only: how to treat servers whose host key isn't known yet.
    pub host_key: HostKeyPolicy,
    /// SFTP only: optional bastion to tunnel the connection through.
    pub jump: Option<JumpHost>,
}

/// The conventional default port of each protocol.
pub open spec fn spec_default_port(protocol: Protocol) -> u16 {
    match protocol {
        Protocol::Sftp => 22,
        Protocol::Ftp => 21,
        Protocol::Ftps => 21,
        Protocol::S3 => 443,
    }
}

impl Credentials {
    /// Build credentials for a host-based protocol (SFTP/FTP/FTPS).
    pub fn basic(protocol: Protocol, host: String, port: u16, username: String, auth: Auth) -> (r:
        Self)
        ensures
            r.protocol == protocol,
            r.host == host,
            r.port == port,
            r.username == username,
            r.auth == auth,
            r.bucket.is_none(),
            r.region.is_none(),
            r.host_key == HostKeyPolicy::Strict,
            r.jump.is_none(),
    {
        Credentials {
            protocol,
            host,
            port,
            username,
            auth,
            bucket: None,
            region: None,
            host_key: HostKeyPolicy::Strict,
            jump: None,
        }
    }

    /// The conventional default port for a protocol.
    pub fn default_port(protocol: Protocol) -> (r: u16)
        ensures
            r == spec_default_port(protocol),
    {
        match protocol {
            Protocol::Sftp => 22,
            Protocol::Ftp => 21,
            Protocol::Ftps => 21,
            Protocol::S3 => 443,
        }
    }
}

impl Auth {
    /// A copy of this value.
    pub fn duplicate(&self) -> (r: Auth)
        ensures
            r == *self,
    {
        match self {
            Auth::Password(p) => Auth::Password(p.clone()),
            Auth::KeyFile { path, passphrase } => Auth::KeyFile {
                path: path.clone(),
                passphrase: copy_opt_string(passphrase),
            },
            Auth::Agent => Auth::Agent,
            Auth::Anonymous => Auth::Anonymous,
        }
    }
}

impl HostKeyPolicy {
    /// A copy of this value.
    pub fn duplicate(&self) -> (r: HostKeyPolicy)
        ensures
            r == *self,
    {
        match self {
            HostKeyPolicy::Strict => HostKeyPolicy::Strict,
            HostKeyPolicy::AcceptNew => HostKeyPolicy::AcceptNew,
            HostKeyPolicy::AcceptFingerprint(f) => HostKeyPolicy::AcceptFingerprint(f.clone()),
        }
    }
}

impl JumpHost {
    /// A copy of this value.
    pub fn duplicate(&self) -> (r: JumpHost)
        ensures
            r == *self,
    {
        JumpHost {
            host: self.host.clone(),
            port: self.port,
            username: self.username.clone(),
            auth: self.auth.duplicate(),
            host_key: self.host_key.duplicate(),
        }
    }
}

impl Credentials {
    /// A copy of this value.
    pub fn duplicate(&self) -> (r: Credentials)
        ensures
            r == *self,
    {
        Credentials {
            protocol: self.protocol,
            host: self.host.clone(),
            port: self.port,
            username: self.username.clone(),
            auth: self.auth.duplicate(),
            bucket: copy_opt_string(&self.bucket),
            region: copy_opt_string(&self.region),
            host_key: self.host_key.duplicate(),
            jump: match &self.jump {
                Some(j) => Some(j.duplicate()),
                None => None,
            },
        }
    }
}

/// A single directory entry (file or folder) in a remote or local listing.
#[derive(Debug, Clone, Default)]
pub struct Entry {
    pub name: String,
    /// True for directories, including symlinks that point at directories.
    pub is_dir: bool,
    pub size: u64,
    /// Modification time as a unix epoch (seconds), if reported.
    pub mtime: Option<i64>,
    /// Unix-style permission string, e.g. "rwxr-xr-x", when available.
    pub perms: Option<String>,
    pub is_symlink: bool,
    /// Owner and group numeric IDs, when available (SFTP only).
    pub uid: Option<u32>,
    pub gid: Option<u32>,
}

/// A copy of an optional string.
pub fn copy_opt_string(s: &Option<String>) -> (r: Option<String>)
    ensures
        r == *s,
{
    match s {
        Some(x) => Some(x.clone()),
        None => None,
    }
}

impl Entry {
    /// A field-for-field copy.
    pub fn duplicate(&self) -> (r: Entry)
        ensures
            r == *self,
    {
        Entry {
            name: self.name.clone(),
            is_dir: self.is_dir,
            size: self.size,
            mtime: self.mtime,
            perms: copy_opt_string(&self.perms),
            is_symlink: self.is_symlink,
            uid: self.uid,
            gid: self.gid,
        }
    }
}

/// Result of running a remote command.
#[derive(Debug, Clone)]
pub struct ExecResult {
    pub exit_code: i32,
    pub stdout: String,
    pub stderr: String,
}

/// Every failure the core reports.
#[derive(Debug, Clone)]
pub enum Error {
    Connect(String),
    Auth(String),
    /// A local or socket I/O failure, with the operating system's message.
    Io(String),
    Protocol(String),
    NotImplemented(String),
    Cancelled,
    UnknownHostKey { fingerprint: String },
    HostKeyMismatch { fingerprint: String },
}

pub type Result<T> = core::result::Result<T, Error>;

/// The human-readable text of an error.
pub open spec fn error_message(e: Error) -> Seq<char> {
    match e {
        Error::Connect(m) => "connection failed: "@ + m@,
        Error::Auth(m) => "authentication failed: "@ + m@,
        Error::Io(m) => "io error: "@ + m@,
        Error::Protocol(m) => "protocol error: "@ + m@,
        Error::NotImplemented(m) => "not implemented: "@ + m@,
        Error::Cancelled => "cancelled"@,
        Error::UnknownHostKey { fingerprint } => "unknown server host key: "@ + fingerprint@,
        Error::HostKeyMismatch { fingerprint } => "HOST KEY MISMATCH \u{2014} the server's key ("@
            + fingerprint@ + ") contradicts the stored one; possible man-in-the-middle attack"@,
    }
}

impl Error {
    /// The human-readable text of this error (what the front-ends display).
    pub fn message(&self) -> (r: String)
        ensures
            r@ == error_message(*self),
    {
        let mut v: Vec<char> = Vec::new();
        match self {
            Error::Connect(m) => {
                push_str(&mut v, "connection failed: ");
                push_str(&mut v, m.as_str());
            },
            Error::Auth(m) => {
                push_str(&mut v, "authentication failed: ");
                push_str(&mut v, m.as_str());
            },
            Error::Io(m) => {
                push_str(&mut v, "io error: ");
                push_str(&mut v, m.as_str());
            },
            Error::Protocol(m) => {
                push_str(&mut v, "protocol error: ");
                push_str(&mut v, m.as_str());
            },
            Error::NotImplemented(m) => {
                push_str(&mut v, "not implemented: ");
                push_str(&mut v, m.as_str());
            },
            Error::Cancelled => {
                push_str(&mut v, "cancelled");
            },
            Error::UnknownHostKey { fingerprint } => {
                push_str(&mut v, "unknown server host key: ");
                push_str(&mut v, fingerprint.as_str());
            },
            Error::HostKeyMismatch { fingerprint } => {
                push_str(&mut v, "HOST KEY MISMATCH \u{2014} the server's key (");
                push_str(&mut v, fingerprint.as_str());
                push_str(&mut v, ") contradicts the stored one; possible man-in-the-middle attack");
            },
        }
        proof {
            assert(v@ =~= error_message(*self));
        }
        string_of(v.as_slice())
    }
}

} // verus!
