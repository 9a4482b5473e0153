//! The rules behind the C interface the macOS front-end links against: how
//! the integer and string arguments of a connect call become credentials,
//! the last-error record every call leaves (message, kind code and host-key
//! fingerprint), the callback arguments of transfer events, and the JSON a
//! directory listing is returned as. The `extern "C"` functions, raw
//! pointers and thread-local storage belong to the caller.

use vstd::prelude::*;

use crate::ops::{SyncDirection, XferEvent};
use crate::text::{chars_of, dec, dec_int, has_char, i64_to_dec, owned, push_all, push_str, string_of, u64_to_dec};
use crate::types::{error_message, Auth, Credentials, Entry, Error, HostKeyPolicy, Protocol};

verus! {

// ---------------------------------------------------------------------------
// Session handle
// ---------------------------------------------------------------------------

/// The opaque session handle the C interface hands out: the live
/// connection, whichever protocol it speaks.
pub struct ScpSession<T: ?Sized> {
    pub inner: Box<T>,
}

// ---------------------------------------------------------------------------
// Error record
// ---------------------------------------------------------------------------

/// No error.
pub const SCP_ERR_NONE: i32 = 0;
/// Any error but the host-key ones.
pub const SCP_ERR_GENERIC: i32 = 1;
/// The server's host key is not known; the fingerprint is attached.
pub const SCP_ERR_UNKNOWN_HOST_KEY: i32 = 2;
/// The server's host key contradicts a stored one; the fingerprint is attached.
pub const SCP_ERR_HOST_KEY_MISMATCH: i32 = 3;

/// What the last call left for `scp_last_error`, `scp_last_error_code` and
/// `scp_last_fingerprint`.
#[derive(Debug, Clone)]
pub struct LastError {
    pub message: Option<String>,
    pub code: i32,
    pub fingerprint: Option<String>,
}

/// A message as it can be handed to C: one holding a NUL byte cannot, and
/// reads "error" instead.
pub open spec fn c_message(m: Seq<char>) -> Seq<char> {
    if has_char(m, '\0') {
        "error"@
    } else {
        m
    }
}

fn contains_nul(s: &str) -> (r: bool)
    ensures
        r == has_char(s@, '\0'),
{
    let cs = chars_of(s);
    crate::text::find_char(&cs, '\0').is_some()
}

/// The kind code of an error.
pub open spec fn error_code(e: Error) -> i32 {
    match e {
        Error::UnknownHostKey { .. } => SCP_ERR_UNKNOWN_HOST_KEY,
        Error::HostKeyMismatch { .. } => SCP_ERR_HOST_KEY_MISMATCH,
        _ => SCP_ERR_GENERIC,
    }
}

impl LastError {
    /// The record of a thread that has seen no error.
    pub fn new() -> (r: Self)
        ensures
            r.message.is_none(),
            r.code == SCP_ERR_NONE,
            r.fingerprint.is_none(),
    {
        LastError { message: None, code: SCP_ERR_NONE, fingerprint: None }
    }

    /// Record a generic error with this message.
    pub fn set_error(&mut self, msg: &str)
        ensures
            final(self).message matches Some(m) && m@ == c_message(msg@),
            final(self).code == SCP_ERR_GENERIC,
            final(self).fingerprint.is_none(),
    {
        let m = if contains_nul(msg) {
            owned("error")
        } else {
            owned(msg)
        };
        self.message = Some(m);
        self.code = SCP_ERR_GENERIC;
        self.fingerprint = None;
    }

    /// Record an error, keeping its kind and, for host-key failures, the
    /// fingerprint the trust prompt shows.
    pub fn set_error_typed(&mut self, err: &Error)
        ensures
            final(self).message matches Some(m) && m@ == c_message(error_message(*err)),
            final(self).code == error_code(*err),
            match *err {
                Error::UnknownHostKey { fingerprint } => if has_char(fingerprint@, '\0') {
                    final(self).fingerprint.is_none()
                } else {
                    final(self).fingerprint == Some(fingerprint)
                },
                Error::HostKeyMismatch { fingerprint } => if has_char(fingerprint@, '\0') {
                    final(self).fingerprint.is_none()
                } else {
                    final(self).fingerprint == Some(fingerprint)
                },
                _ => final(self).fingerprint.is_none(),
            },
    {
        let text = err.message();
        self.set_error(text.as_str());
        let (code, fp): (i32, Option<&String>) = match err {
            Error::UnknownHostKey { fingerprint } => (SCP_ERR_UNKNOWN_HOST_KEY, Some(fingerprint)),
            Error::HostKeyMismatch { fingerprint } => (SCP_ERR_HOST_KEY_MISMATCH, Some(fingerprint)),
            _ => (SCP_ERR_GENERIC, None),
        };
        self.code = code;
        self.fingerprint = match fp {
            Some(f) => if contains_nul(f.as_str()) {
                None
            } else {
                Some(f.clone())
            },
            None => None,
        };
    }

    /// Forget the last error.
    pub fn clear_error(&mut self)
        ensures
            final(self).message.is_none(),
            final(self).code == SCP_ERR_NONE,
            final(self).fingerprint.is_none(),
    {
        self.message = None;
        self.code = SCP_ERR_NONE;
        self.fingerprint = None;
    }
}

// ---------------------------------------------------------------------------
// Connect arguments
// ---------------------------------------------------------------------------

/// `protocol`: 0=SFTP, 1=FTP, 2=FTPS, 3=S3.
pub open spec fn protocol_code(v: i32) -> Option<Protocol> {
    if v == 0 {
        Some(Protocol::Sftp)
    } else if v == 1 {
        Some(Protocol::Ftp)
    } else if v == 2 {
        Some(Protocol::Ftps)
    } else if v == 3 {
        Some(Protocol::S3)
    } else {
        None
    }
}

pub fn protocol_from_int(v: i32) -> (r: Option<Protocol>)
    ensures
        r == protocol_code(v),
{
    match v {
        0 => Some(Protocol::Sftp),
        1 => Some(Protocol::Ftp),
        2 => Some(Protocol::Ftps),
        3 => Some(Protocol::S3),
        _ => None,
    }
}

/// `direction`: 0 = local to remote, 1 = remote to local.
pub fn sync_direction_from_int(d: i32) -> (r: Option<SyncDirection>)
    ensures
        d == 0 ==> r == Some(SyncDirection::Upload),
        d == 1 ==> r == Some(SyncDirection::Download),
        d != 0 && d != 1 ==> r.is_none(),
{
    match d {
        0 => Some(SyncDirection::Upload),
        1 => Some(SyncDirection::Download),
        _ => None,
    }
}

pub open spec fn opt_str(o: Option<&str>) -> Option<Seq<char>> {
    match o {
        Some(s) => Some(s@),
        None => None,
    }
}

/// A string argument that is present and not empty.
pub open spec fn present(o: Option<&str>) -> Option<Seq<char>> {
    match o {
        Some(s) => if s@.len() > 0 {
            Some(s@)
        } else {
            None
        },
        None => None,
    }
}

fn present_string(o: Option<&str>) -> (r: Option<String>)
    ensures
        match r {
            Some(s) => present(o) == Some(s@),
            None => present(o).is_none(),
        },
{
    match o {
        Some(s) => if s.is_empty() {
            None
        } else {
            Some(owned(s))
        },
        None => None,
    }
}

/// The arguments of a connect call; `None` stands for a null (or not UTF-8)
/// string.
pub struct ConnectArgs<'a> {
    pub protocol: i32,
    pub host: Option<&'a str>,
    pub port: u16,
    pub username: Option<&'a str>,
    pub password: Option<&'a str>,
    pub bucket: Option<&'a str>,
    pub region: Option<&'a str>,
    /// 0 = strict, 1 = accept new keys, 2 = accept only `expected_fingerprint`.
    pub host_key_mode: i32,
    pub expected_fingerprint: Option<&'a str>,
    /// 0 = password, 1 = key file (`key_path`, the password as passphrase),
    /// 2 = ssh-agent.
    pub auth_mode: i32,
    pub key_path: Option<&'a str>,
}

/// The first problem with a connect call's arguments, if any, in the order
/// they are checked.
pub open spec fn connect_args_error(a: ConnectArgs) -> Option<Seq<char>> {
    if protocol_code(a.protocol).is_none() || a.host.is_none() || a.username.is_none() {
        Some("invalid arguments to scp_connect"@)
    } else if a.host_key_mode == 2 && present(a.expected_fingerprint).is_none() {
        Some("host_key_mode 2 requires expected_fingerprint"@)
    } else if a.host_key_mode < 0 || a.host_key_mode > 2 {
        Some("invalid host_key_mode"@)
    } else if a.auth_mode == 1 && present(a.key_path).is_none() {
        Some("auth_mode 1 requires key_path"@)
    } else if a.auth_mode < 0 || a.auth_mode > 2 {
        Some("invalid auth_mode"@)
    } else {
        None
    }
}

/// The password argument; a null one is empty.
pub open spec fn pass_of(a: ConnectArgs) -> Seq<char> {
    match a.password {
        Some(p) => p@,
        None => Seq::empty(),
    }
}

/// The credentials valid connect arguments describe.
pub open spec fn connect_args_creds(a: ConnectArgs, c: Credentials) -> bool {
    &&& protocol_code(a.protocol) == Some(c.protocol)
    &&& opt_str(a.host) == Some(c.host@)
    &&& c.port == a.port
    &&& opt_str(a.username) == Some(c.username@)
    &&& (if a.auth_mode == 0 {
        c.auth matches Auth::Password(p) && p@ == pass_of(a)
    } else if a.auth_mode == 1 {
        c.auth matches Auth::KeyFile { path, passphrase } && Some(path@) == present(a.key_path)
            && match passphrase {
            Some(pp) => pass_of(a).len() > 0 && pp@ == pass_of(a),
            None => pass_of(a).len() == 0,
        }
    } else {
        c.auth == Auth::Agent
    })
    &&& (if a.host_key_mode == 0 {
        c.host_key == HostKeyPolicy::Strict
    } else if a.host_key_mode == 1 {
        c.host_key == HostKeyPolicy::AcceptNew
    } else {
        c.host_key matches HostKeyPolicy::AcceptFingerprint(f) && Some(f@) == present(
            a.expected_fingerprint,
        )
    })
    &&& match c.bucket {
        Some(b) => present(a.bucket) == Some(b@),
        None => present(a.bucket).is_none(),
    }
    &&& match c.region {
        Some(r) => present(a.region) == Some(r@),
        None => present(a.region).is_none(),
    }
    &&& c.jump.is_none()
}

/// Credentials from a connect call's arguments, or the message for the
/// first bad argument. Empty optional strings count as absent.
pub fn credentials_from_args(a: &ConnectArgs) -> (r: core::result::Result<Credentials, String>)
    ensures
        match r {
            Ok(c) => connect_args_error(*a).is_none() && connect_args_creds(*a, c),
            Err(m) => connect_args_error(*a) == Some(m@),
        },
{
    let proto = protocol_from_int(a.protocol);
    if proto.is_none() || a.host.is_none() || a.username.is_none() {
        return Err(owned("invalid arguments to scp_connect"));
    }
    let proto = proto.unwrap();
    let host = a.host.unwrap();
    let user = a.username.unwrap();
    let pass: &str = match a.password {
        Some(p) => p,
        None => "",
    };
    proof {
        reveal_strlit("");
    }
    let host_key = match a.host_key_mode {
        0 => HostKeyPolicy::Strict,
        1 => HostKeyPolicy::AcceptNew,
        2 => match present_string(a.expected_fingerprint) {
            Some(fp) => HostKeyPolicy::AcceptFingerprint(fp),
            None => {
                return Err(owned("host_key_mode 2 requires expected_fingerprint"));
            },
        },
        _ => {
            return Err(owned("invalid host_key_mode"));
        },
    };
    let auth = match a.auth_mode {
        0 => Auth::Password(owned(pass)),
        1 => match present_string(a.key_path) {
            Some(path) => Auth::KeyFile {
                path,
                passphrase: if pass.is_empty() {
                    None
                } else {
                    Some(owned(pass))
                },
            },
            None => {
                return Err(owned("auth_mode 1 requires key_path"));
            },
        },
        2 => Auth::Agent,
        _ => {
            return Err(owned("invalid auth_mode"));
        },
    };
    let mut creds = Credentials::basic(proto, owned(host), a.port, owned(user), auth);
    creds.bucket = present_string(a.bucket);
    creds.region = present_string(a.region);
    creds.host_key = host_key;
    assert(pass@ == pass_of(*a));
    assert(connect_args_error(*a).is_none());
    assert(protocol_code(a.protocol) == Some(creds.protocol));
    assert(opt_str(a.host) == Some(creds.host@));
    assert(opt_str(a.username) == Some(creds.username@));
    Ok(creds)
}

// ---------------------------------------------------------------------------
// Transfer callbacks
// ---------------------------------------------------------------------------

/// The arguments a transfer event is handed to the C callback with:
/// `(kind, name, a, b)` where kind 0 is a file start (`a` = 1 for a
/// download, `b` = its size), 1 is byte progress (`a` done of `b`), 2 a
/// finished file.
#[derive(Debug, Clone)]
pub struct XferCall {
    pub kind: i32,
    pub name: Option<String>,
    pub a: u64,
    pub b: u64,
}

/// The callback call for `ev`; none (the event is passed over) for a file
/// whose name cannot be handed to C.
pub fn xfer_call(ev: &XferEvent) -> (r: Option<XferCall>)
    ensures
        match *ev {
            XferEvent::Start { name, total, download } => if has_char(name@, '\0') {
                r.is_none()
            } else {
                r matches Some(c) && c.kind == 0 && c.a == (if download {
                    1u64
                } else {
                    0u64
                }) && c.b == total && (c.name matches Some(n) && n@ == name@)
            },
            XferEvent::Bytes { done, total } => r matches Some(c) && c.kind == 1 && c.name.is_none()
                && c.a == done && c.b == total,
            XferEvent::DoneFile => r matches Some(c) && c.kind == 2 && c.name.is_none() && c.a == 0
                && c.b == 0,
        },
{
    match ev {
        XferEvent::Start { name, total, download } => {
            if contains_nul(name) {
                return None;
            }
            let a: u64 = if *download {
                1
            } else {
                0
            };
            Some(XferCall { kind: 0, name: Some(owned(name)), a, b: *total })
        },
        XferEvent::Bytes { done, total } => Some(XferCall { kind: 1, name: None, a: *done, b: *total }),
        XferEvent::DoneFile => Some(XferCall { kind: 2, name: None, a: 0, b: 0 }),
    }
}

// ---------------------------------------------------------------------------
// Listing JSON
// ---------------------------------------------------------------------------

/// A lowercase hex digit.
pub open spec fn hex_char(d: nat) -> char {
    if d < 10 {
        ((48 + d) as u8) as char
    } else {
        ((97 + d - 10) as u8) as char
    }
}

/// One character inside a JSON string literal.
pub open spec fn json_char(c: char) -> Seq<char> {
    if c == '"' {
        seq!['\\', '"']
    } else if c == '\\' {
        seq!['\\', '\\']
    } else if c == '\n' {
        seq!['\\', 'n']
    } else if c == '\r' {
        seq!['\\', 'r']
    } else if c == '\t' {
        seq!['\\', 't']
    } else if (c as u32) < 0x20 {
        seq!['\\', 'u', '0', '0', hex_char((c as u32 / 16) as nat), hex_char((c as u32 % 16) as nat)]
    } else {
        seq![c]
    }
}

/// The escaped characters of `s`.
pub open spec fn json_escape(s: Seq<char>) -> Seq<char>
    decreases s.len(),
{
    if s.len() == 0 {
        Seq::empty()
    } else {
        json_escape(s.drop_last()) + json_char(s.last())
    }
}

/// `s` as a JSON string literal.
pub open spec fn json_quote(s: Seq<char>) -> Seq<char> {
    seq!['"'] + json_escape(s) + seq!['"']
}

fn hex_digit_char(d: u32) -> (c: char)
    requires
        d < 16,
    ensures
        c == hex_char(d as nat),
{
    if d < 10 {
        let b: u8 = 48u8 + d as u8;
        b as char
    } else {
        let b: u8 = 97u8 + (d - 10) as u8;
        b as char
    }
}

fn push_json_char(out: &mut Vec<char>, c: char)
    ensures
        final(out)@ == old(out)@ + json_char(c),
{
    let ghost start = out@;
    if c == '"' {
        out.push('\\');
        out.push('"');
    } else if c == '\\' {
        out.push('\\');
        out.push('\\');
    } else if c == '\n' {
        out.push('\\');
        out.push('n');
    } else if c == '\r' {
        out.push('\\');
        out.push('r');
    } else if c == '\t' {
        out.push('\\');
        out.push('t');
    } else if (c as u32) < 0x20 {
        let u = c as u32;
        out.push('\\');
        out.push('u');
        out.push('0');
        out.push('0');
        out.push(hex_digit_char(u / 16));
        out.push(hex_digit_char(u % 16));
    } else {
        out.push(c);
    }
    assert(out@ =~= start + json_char(c));
}

fn push_json_quoted(out: &mut Vec<char>, value: &str)
    ensures
        final(out)@ == old(out)@ + json_quote(value@),
{
    let ghost start = out@;
    let cs = chars_of(value);
    out.push('"');
    let mut k: usize = 0;
    assert(cs@.subrange(0, 0) =~= Seq::<char>::empty());
    while k < cs.len()
        invariant
            k <= cs.len(),
            cs@ == value@,
            out@ == start + seq!['"'] + json_escape(cs@.subrange(0, k as int)),
        decreases cs.len() - k,
    {
        assert(cs@.subrange(0, k + 1).drop_last() =~= cs@.subrange(0, k as int));
        push_json_char(out, cs[k]);
        k = k + 1;
    }
    out.push('"');
    assert(cs@.subrange(0, cs@.len() as int) =~= cs@);
    assert(out@ =~= start + json_quote(value@));
}

/// Append `value` to `out` as a JSON string literal.
pub fn json_str(out: &mut String, value: &str)
    ensures
        final(out)@ == old(out)@ + json_quote(value@),
{
    let mut cs = chars_of(out.as_str());
    push_json_quoted(&mut cs, value);
    *out = string_of(cs.as_slice());
}

/// One listing entry as a JSON object.
pub open spec fn entry_json(e: Entry) -> Seq<char> {
    "{\"name\":"@ + json_quote(e.name@) + ",\"is_dir\":"@ + (if e.is_dir {
        "true"@
    } else {
        "false"@
    }) + ",\"size\":"@ + dec(e.size as nat) + ",\"mtime\":"@ + match e.mtime {
        Some(m) => dec_int(m as int),
        None => "null"@,
    } + ",\"perms\":"@ + match e.perms {
        Some(p) => json_quote(p@),
        None => "null"@,
    } + "}"@
}

/// The objects of `es`, comma-separated.
pub open spec fn entries_json_body(es: Seq<Entry>) -> Seq<char>
    decreases es.len(),
{
    if es.len() == 0 {
        Seq::empty()
    } else if es.len() == 1 {
        entry_json(es[0])
    } else {
        entries_json_body(es.drop_last()) + ","@ + entry_json(es.last())
    }
}

fn push_entry_json(out: &mut Vec<char>, e: &Entry)
    ensures
        final(out)@ == old(out)@ + entry_json(*e),
{
    let ghost start = out@;
    push_str(out, "{\"name\":");
    push_json_quoted(out, e.name.as_str());
    push_str(out, ",\"is_dir\":");
    if e.is_dir {
        push_str(out, "true");
    } else {
        push_str(out, "false");
    }
    push_str(out, ",\"size\":");
    push_all(out, &u64_to_dec(e.size));
    push_str(out, ",\"mtime\":");
    match e.mtime {
        Some(m) => push_all(out, &i64_to_dec(m)),
        None => push_str(out, "null"),
    }
    push_str(out, ",\"perms\":");
    match &e.perms {
        Some(p) => push_json_quoted(out, p.as_str()),
        None => push_str(out, "null"),
    }
    push_str(out, "}");
    assert(out@ =~= start + entry_json(*e));
}

/// A directory listing as a JSON array of objects with `name`, `is_dir`,
/// `size`, `mtime` and `perms`.
pub fn entries_to_json(entries: &[Entry]) -> (r: String)
    ensures
        r@ == "["@ + entries_json_body(entries@) + "]"@,
{
    let mut out = chars_of("[");
    let ghost start = out@;
    let mut k: usize = 0;
    assert(entries@.subrange(0, 0) =~= Seq::<Entry>::empty());
    while k < entries.len()
        invariant
            k <= entries.len(),
            out@ == start + entries_json_body(entries@.subrange(0, k as int)),
        decreases entries.len() - k,
    {
        let ghost pre = entries@.subrange(0, k as int);
        assert(entries@.subrange(0, k + 1).drop_last() =~= pre);
        assert(entries@.subrange(0, k + 1).last() == entries@[k as int]);
        if k > 0 {
            push_str(&mut out, ",");
        } else {
            assert(entries@.subrange(0, 1)[0] == entries@[0]);
        }
        push_entry_json(&mut out, &entries[k]);
        k = k + 1;
    }
    push_str(&mut out, "]");
    assert(entries@.subrange(0, entries@.len() as int) =~= entries@);
    string_of(out.as_slice())
}

} // verus!
