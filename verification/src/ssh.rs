//! The SSH side's own rules: how a server's host key is judged against the
//! known-host stores and the session's policy, the text format of the app's
//! known_hosts store, OpenSSH-style fingerprints, and `rwxr-xr-x` permission
//! strings. The sockets, libssh2 sessions and files stay with the caller;
//! everything here works on the values read from them.

use vstd::prelude::*;

use crate::text::{
    chars_of, dec, lines, lines_of, next_token, next_token_chars, owned, push_all, push_str,
    string_of, trim, trim_chars, u64_to_dec, views,
};
use crate::types::{Error, HostKeyPolicy};

verus! {

// ---------------------------------------------------------------------------
// Base64 and fingerprints
// ---------------------------------------------------------------------------

/// The base64 digit for a value below 64 (RFC 4648 alphabet).
pub open spec fn b64_char(i: nat) -> char {
    if i < 26 {
        ((65 + i) as u8) as char
    } else if i < 52 {
        ((97 + i - 26) as u8) as char
    } else if i < 62 {
        ((48 + i - 52) as u8) as char
    } else if i == 62 {
        '+'
    } else {
        '/'
    }
}

/// Base64 of `d` without `=` padding: each group of three bytes gives four
/// digits, a final group of one or two bytes gives two or three.
pub open spec fn base64_spec(d: Seq<u8>) -> Seq<char>
    decreases d.len(),
{
    if d.len() == 0 {
        Seq::empty()
    } else {
        let b1: nat = if d.len() > 1 {
            d[1] as nat
        } else {
            0
        };
        let b2: nat = if d.len() > 2 {
            d[2] as nat
        } else {
            0
        };
        let n: nat = (d[0] as nat) * 65536 + b1 * 256 + b2;
        let quad = seq![
            b64_char((n / 262144) % 64),
            b64_char((n / 4096) % 64),
            b64_char((n / 64) % 64),
            b64_char(n % 64),
        ];
        if d.len() >= 3 {
            quad + base64_spec(d.subrange(3, d.len() as int))
        } else {
            quad.subrange(0, d.len() as int + 1)
        }
    }
}

fn b64_digit(i: u32) -> (c: char)
    requires
        i < 64,
    ensures
        c == b64_char(i as nat),
{
    if i < 26 {
        let b: u8 = 65u8 + i as u8;
        b as char
    } else if i < 52 {
        let b: u8 = 97u8 + (i - 26) as u8;
        b as char
    } else if i < 62 {
        let b: u8 = 48u8 + (i - 52) as u8;
        b as char
    } else if i == 62 {
        '+'
    } else {
        '/'
    }
}

/// Unpadded base64, as OpenSSH prints fingerprints.
pub fn base64_nopad(data: &[u8]) -> (r: String)
    ensures
        r@ == base64_spec(data@),
{
    let mut out: Vec<char> = Vec::new();
    let mut i: usize = 0;
    assert(data@.subrange(0, data@.len() as int) =~= data@);
    while i < data.len()
        invariant
            i <= data.len(),
            out@ + base64_spec(data@.subrange(i as int, data@.len() as int)) == base64_spec(data@),
        decreases data.len() - i,
    {
        let ghost rest = data@.subrange(i as int, data@.len() as int);
        let left: usize = data.len() - i;
        let b0: u32 = data[i] as u32;
        let b1: u32 = if left > 1 {
            data[i + 1] as u32
        } else {
            0
        };
        let b2: u32 = if left > 2 {
            data[i + 2] as u32
        } else {
            0
        };
        assert(rest[0] == data@[i as int]);
        assert(left > 1 ==> rest[1] == data@[i + 1]);
        assert(left > 2 ==> rest[2] == data@[i + 2]);
        let n: u32 = b0 * 65536 + b1 * 256 + b2;
        let ghost before = out@;
        out.push(b64_digit((n / 262144) % 64));
        out.push(b64_digit((n / 4096) % 64));
        if left > 1 {
            out.push(b64_digit((n / 64) % 64));
        }
        if left > 2 {
            out.push(b64_digit(n % 64));
        }
        if left >= 3 {
            assert(rest.subrange(3, rest.len() as int) =~= data@.subrange(
                i + 3,
                data@.len() as int,
            ));
            assert(out@ + base64_spec(data@.subrange(i + 3, data@.len() as int)) =~= before
                + base64_spec(rest));
            i = i + 3;
        } else {
            assert(data@.subrange(data@.len() as int, data@.len() as int) =~= Seq::<u8>::empty());
            assert(out@ + base64_spec(data@.subrange(data@.len() as int, data@.len() as int))
                =~= before + base64_spec(rest));
            i = data.len();
        }
    }
    assert(out@ =~= out@ + base64_spec(Seq::<u8>::empty()));
    string_of(out.as_slice())
}

/// The OpenSSH-style fingerprint of a host key hash.
pub open spec fn fingerprint_spec(hash: Seq<u8>) -> Seq<char> {
    "SHA256:"@ + base64_spec(hash)
}

/// OpenSSH-style fingerprint: "SHA256:" + unpadded base64 of the key's
/// SHA-256 hash.
pub fn sha256_fingerprint(hash: &[u8]) -> (r: String)
    ensures
        r@ == fingerprint_spec(hash@),
{
    let mut cs = chars_of("SHA256:");
    let b = base64_nopad(hash);
    push_str(&mut cs, b.as_str());
    string_of(cs.as_slice())
}

// ---------------------------------------------------------------------------
// Permission strings
// ---------------------------------------------------------------------------

/// The mode bit shown at position `k` of a permission string.
pub open spec fn perm_bit(k: int) -> u32 {
    if k == 0 {
        0o400
    } else if k == 1 {
        0o200
    } else if k == 2 {
        0o100
    } else if k == 3 {
        0o040
    } else if k == 4 {
        0o020
    } else if k == 5 {
        0o010
    } else if k == 6 {
        0o004
    } else if k == 7 {
        0o002
    } else {
        0o001
    }
}

/// The letter shown at position `k` when its bit is set.
pub open spec fn perm_letter(k: int) -> char {
    if k % 3 == 0 {
        'r'
    } else if k % 3 == 1 {
        'w'
    } else {
        'x'
    }
}

/// The nine-character `rwxr-xr-x` rendering of the permission bits of `mode`.
pub open spec fn perm_spec(mode: u32) -> Seq<char> {
    Seq::new(
        9,
        |k: int|
            if mode & perm_bit(k) != 0 {
                perm_letter(k)
            } else {
                '-'
            },
    )
}

fn perm_bit_at(k: usize) -> (r: u32)
    requires
        k < 9,
    ensures
        r == perm_bit(k as int),
{
    if k == 0 {
        0o400
    } else if k == 1 {
        0o200
    } else if k == 2 {
        0o100
    } else if k == 3 {
        0o040
    } else if k == 4 {
        0o020
    } else if k == 5 {
        0o010
    } else if k == 6 {
        0o004
    } else if k == 7 {
        0o002
    } else {
        0o001
    }
}

/// Render a unix mode bitmask as an `rwxr-xr-x`-style string (permission
/// bits only).
pub fn perm_string(mode: u32) -> (r: String)
    ensures
        r@ == perm_spec(mode),
{
    let mut out: Vec<char> = Vec::new();
    let mut k: usize = 0;
    while k < 9
        invariant
            k <= 9,
            out@ == perm_spec(mode).subrange(0, k as int),
        decreases 9 - k,
    {
        let bit = perm_bit_at(k);
        let letter = if k % 3 == 0 {
            'r'
        } else if k % 3 == 1 {
            'w'
        } else {
            'x'
        };
        let c = if mode & bit != 0 {
            letter
        } else {
            '-'
        };
        out.push(c);
        assert(out@ =~= perm_spec(mode).subrange(0, k + 1));
        k = k + 1;
    }
    assert(perm_spec(mode).subrange(0, 9) =~= perm_spec(mode));
    string_of(out.as_slice())
}

// ---------------------------------------------------------------------------
// Host key verification
// ---------------------------------------------------------------------------

/// What one known-host store says about the server's key.
#[derive(Debug, Clone, Copy, PartialEq, Eq, Structural)]
pub enum HostCheck {
    Match,
    Mismatch,
    NotFound,
    Failure,
}

/// What to do with a key that passed verification.
#[derive(Debug, Clone, Copy, PartialEq, Eq, Structural)]
pub enum HostKeyDecision {
    /// A store already vouches for the key.
    Accept,
    /// Accepted under the policy: add it to the app's store.
    Remember,
}

/// The verdict on a server key, as plain values.
#[derive(Debug, Clone, Copy, PartialEq, Eq, Structural)]
pub enum HostKeyVerdict {
    Accept,
    Remember,
    Mismatch,
    Unknown,
}

pub open spec fn has_check(checks: Seq<HostCheck>, c: HostCheck) -> bool {
    exists|i: int| 0 <= i < checks.len() && checks[i] == c
}

/// A match in any store accepts; a contradiction in any store always fails;
/// an unknown key defers to the policy.
pub open spec fn host_key_verdict(checks: Seq<HostCheck>, policy: HostKeyPolicy, fingerprint: Seq<char>) -> HostKeyVerdict {
    if has_check(checks, HostCheck::Mismatch) {
        HostKeyVerdict::Mismatch
    } else if has_check(checks, HostCheck::Match) {
        HostKeyVerdict::Accept
    } else {
        match policy {
            HostKeyPolicy::Strict => HostKeyVerdict::Unknown,
            HostKeyPolicy::AcceptNew => HostKeyVerdict::Remember,
            HostKeyPolicy::AcceptFingerprint(approved) => if approved@ == fingerprint {
                HostKeyVerdict::Remember
            } else {
                HostKeyVerdict::Mismatch
            },
        }
    }
}

/// The verdict that a result of [`verify_host_key`] stands for.
pub open spec fn verdict_of(r: Result<HostKeyDecision, Error>, fingerprint: Seq<char>) -> Option<HostKeyVerdict> {
    match r {
        Ok(HostKeyDecision::Accept) => Some(HostKeyVerdict::Accept),
        Ok(HostKeyDecision::Remember) => Some(HostKeyVerdict::Remember),
        Err(Error::HostKeyMismatch { fingerprint: f }) => if f@ == fingerprint {
            Some(HostKeyVerdict::Mismatch)
        } else {
            None
        },
        Err(Error::UnknownHostKey { fingerprint: f }) => if f@ == fingerprint {
            Some(HostKeyVerdict::Unknown)
        } else {
            None
        },
        Err(_) => None,
    }
}

/// Judge the server's key from what each known-host store said about it
/// (the user's `~/.ssh/known_hosts` and the app's own store) and the
/// session's policy. Errors carry the key's fingerprint for the prompt.
pub fn verify_host_key(checks: &Vec<HostCheck>, policy: &HostKeyPolicy, fingerprint: &str) -> (r:
    Result<HostKeyDecision, Error>)
    ensures
        verdict_of(r, fingerprint@) == Some(host_key_verdict(checks@, *policy, fingerprint@)),
{
    let mut matched = false;
    let mut k: usize = 0;
    while k < checks.len()
        invariant
            k <= checks.len(),
            !has_check(checks@.subrange(0, k as int), HostCheck::Mismatch),
            matched == has_check(checks@.subrange(0, k as int), HostCheck::Match),
        decreases checks.len() - k,
    {
        let c = checks[k];
        proof {
            let next = checks@.subrange(0, k + 1);
            let pre = checks@.subrange(0, k as int);
            assert(next[k as int] == c);
            assert forall|i: int| 0 <= i < k implies next[i] == pre[i] by {}
            if has_check(next, HostCheck::Match) && c != HostCheck::Match {
                let i = choose|i: int| 0 <= i < next.len() && next[i] == HostCheck::Match;
                assert(pre[i] == HostCheck::Match);
            }
            if has_check(next, HostCheck::Mismatch) && c != HostCheck::Mismatch {
                let i = choose|i: int| 0 <= i < next.len() && next[i] == HostCheck::Mismatch;
                assert(pre[i] == HostCheck::Mismatch);
            }
            if has_check(pre, HostCheck::Match) {
                let i = choose|i: int| 0 <= i < pre.len() && pre[i] == HostCheck::Match;
                assert(next[i] == HostCheck::Match);
            }
        }
        if c == HostCheck::Mismatch {
            proof {
                assert(checks@[k as int] == HostCheck::Mismatch);
            }
            return Err(Error::HostKeyMismatch { fingerprint: owned(fingerprint) });
        }
        if c == HostCheck::Match {
            matched = true;
        }
        k = k + 1;
    }
    assert(checks@.subrange(0, checks@.len() as int) =~= checks@);
    if matched {
        return Ok(HostKeyDecision::Accept);
    }
    match policy {
        HostKeyPolicy::Strict => Err(Error::UnknownHostKey { fingerprint: owned(fingerprint) }),
        HostKeyPolicy::AcceptNew => Ok(HostKeyDecision::Remember),
        HostKeyPolicy::AcceptFingerprint(approved) => {
            if crate::text::str_eq(approved.as_str(), fingerprint) {
                Ok(HostKeyDecision::Remember)
            } else {
                Err(Error::HostKeyMismatch { fingerprint: owned(fingerprint) })
            }
        },
    }
}

/// A key that contradicts a stored one always fails, whatever the policy
/// and whatever other stores say.
pub proof fn law_mismatch_always_fails(checks: Seq<HostCheck>, policy: HostKeyPolicy, fingerprint: Seq<char>, i: int)
    requires
        0 <= i < checks.len(),
        checks[i] == HostCheck::Mismatch,
    ensures
        host_key_verdict(checks, policy, fingerprint) == HostKeyVerdict::Mismatch,
{
}

/// A match in any store accepts the key when no store contradicts it, and
/// nothing is written then.
pub proof fn law_match_accepts(checks: Seq<HostCheck>, policy: HostKeyPolicy, fingerprint: Seq<char>, i: int)
    requires
        0 <= i < checks.len(),
        checks[i] == HostCheck::Match,
        !has_check(checks, HostCheck::Mismatch),
    ensures
        host_key_verdict(checks, policy, fingerprint) == HostKeyVerdict::Accept,
{
}

/// Under the strict policy an unknown key is never remembered.
pub proof fn law_strict_never_remembers(checks: Seq<HostCheck>, fingerprint: Seq<char>)
    ensures
        host_key_verdict(checks, HostKeyPolicy::Strict, fingerprint) != HostKeyVerdict::Remember,
{
}

/// The line format the app's store uses for a host: the bare hostname for
/// port 22, "[host]:port" otherwise.
pub open spec fn host_entry_spec(host: Seq<char>, port: u16) -> Seq<char> {
    if port == 22 {
        host
    } else {
        "["@ + host + "]:"@ + dec(port as nat)
    }
}

/// The known_hosts host field for `host` on `port`.
pub fn known_host_entry(host: &str, port: u16) -> (r: String)
    ensures
        r@ == host_entry_spec(host@, port),
{
    if port == 22 {
        return owned(host);
    }
    let mut cs = chars_of("[");
    push_str(&mut cs, host);
    push_str(&mut cs, "]:");
    let p = u64_to_dec(port as u64);
    push_all(&mut cs, &p);
    string_of(cs.as_slice())
}

/// Host key algorithms as libssh2 reports them.
#[derive(Debug, Clone, Copy, PartialEq, Eq, Structural)]
pub enum HostKeyKind {
    Rsa,
    Dss,
    Ecdsa256,
    Ecdsa384,
    Ecdsa521,
    Ed25519,
    Unknown,
}

/// Key formats of a known_hosts line.
#[derive(Debug, Clone, Copy, PartialEq, Eq, Structural)]
pub enum KnownHostFormat {
    SshRsa,
    SshDss,
    Ecdsa256,
    Ecdsa384,
    Ecdsa521,
    Ed25519,
}

pub open spec fn format_of(t: HostKeyKind) -> Option<KnownHostFormat> {
    match t {
        HostKeyKind::Rsa => Some(KnownHostFormat::SshRsa),
        HostKeyKind::Dss => Some(KnownHostFormat::SshDss),
        HostKeyKind::Ecdsa256 => Some(KnownHostFormat::Ecdsa256),
        HostKeyKind::Ecdsa384 => Some(KnownHostFormat::Ecdsa384),
        HostKeyKind::Ecdsa521 => Some(KnownHostFormat::Ecdsa521),
        HostKeyKind::Ed25519 => Some(KnownHostFormat::Ed25519),
        HostKeyKind::Unknown => None,
    }
}

/// The known_hosts format for a key algorithm; unknown algorithms cannot be
/// stored.
pub fn known_host_format(t: HostKeyKind) -> (r: Result<KnownHostFormat, Error>)
    ensures
        match r {
            Ok(f) => format_of(t) == Some(f),
            Err(e) => format_of(t).is_none() && (e matches Error::Connect(m) && m@
                == "unsupported host key type"@),
        },
{
    match t {
        HostKeyKind::Rsa => Ok(KnownHostFormat::SshRsa),
        HostKeyKind::Dss => Ok(KnownHostFormat::SshDss),
        HostKeyKind::Ecdsa256 => Ok(KnownHostFormat::Ecdsa256),
        HostKeyKind::Ecdsa384 => Ok(KnownHostFormat::Ecdsa384),
        HostKeyKind::Ecdsa521 => Ok(KnownHostFormat::Ecdsa521),
        HostKeyKind::Ed25519 => Ok(KnownHostFormat::Ed25519),
        HostKeyKind::Unknown => Err(Error::Connect(owned("unsupported host key type"))),
    }
}

// ---------------------------------------------------------------------------
// The app's known_hosts store
// ---------------------------------------------------------------------------

/// One entry of the app's trusted-host store (host and key algorithm).
#[derive(Debug, Clone)]
pub struct KnownHost {
    pub host: String,
    pub key_type: String,
}

/// The host and key type a known_hosts line names; none for blank lines,
/// comments and lines with fewer than two fields.
pub open spec fn known_host_line(line: Seq<char>) -> Option<(Seq<char>, Seq<char>)> {
    let l = trim(line);
    if l.len() == 0 || l[0] == '#' {
        None
    } else {
        match next_token(l) {
            Some((h, rest)) => match next_token(rest) {
                Some((kt, _)) => Some((h, kt)),
                None => None,
            },
            None => None,
        }
    }
}

/// The entries of the lines `ls`, in order.
pub open spec fn known_hosts_spec(ls: Seq<Seq<char>>) -> Seq<(Seq<char>, Seq<char>)>
    decreases ls.len(),
{
    if ls.len() == 0 {
        Seq::empty()
    } else {
        let prev = known_hosts_spec(ls.drop_last());
        match known_host_line(ls.last()) {
            Some(e) => prev.push(e),
            None => prev,
        }
    }
}

pub open spec fn known_host_views(v: Seq<KnownHost>) -> Seq<(Seq<char>, Seq<char>)> {
    v.map_values(|k: KnownHost| (k.host@, k.key_type@))
}

/// The entries of a known_hosts file's text.
pub fn parse_known_hosts(text: &str) -> (r: Vec<KnownHost>)
    ensures
        known_host_views(r@) == known_hosts_spec(lines(text@)),
{
    let ls = lines_of(text);
    let mut out: Vec<KnownHost> = Vec::new();
    let mut k: usize = 0;
    assert(views(ls@).subrange(0, 0) =~= Seq::<Seq<char>>::empty());
    assert(known_host_views(out@) =~= Seq::<(Seq<char>, Seq<char>)>::empty());
    while k < ls.len()
        invariant
            k <= ls.len(),
            views(ls@) == lines(text@),
            known_host_views(out@) == known_hosts_spec(views(ls@).subrange(0, k as int)),
        decreases ls.len() - k,
    {
        proof {
            assert(views(ls@).subrange(0, k + 1).drop_last() =~= views(ls@).subrange(0, k as int));
            assert(views(ls@).subrange(0, k + 1).last() == ls@[k as int]@);
        }
        let l = trim_chars(&ls[k]);
        if l.len() > 0 && l[0] != '#' {
            match next_token_chars(&l) {
                Some((h, rest)) => match next_token_chars(&rest) {
                    Some((kt, _)) => {
                        let ghost before = out@;
                        out.push(KnownHost { host: string_of(h.as_slice()), key_type: string_of(kt.as_slice()) });
                        assert(known_host_views(out@) =~= known_host_views(before).push((h@, kt@)));
                    },
                    None => {},
                },
                None => {},
            }
        }
        k = k + 1;
    }
    assert(views(ls@).subrange(0, ls@.len() as int) =~= views(ls@));
    out
}

/// The first whitespace-separated field of a line.
pub open spec fn first_field(line: Seq<char>) -> Option<Seq<char>> {
    match next_token(line) {
        Some((t, _)) => Some(t),
        None => None,
    }
}

/// The lines of `ls` that are not entries for `host`.
pub open spec fn kept_lines(ls: Seq<Seq<char>>, host: Seq<char>) -> Seq<Seq<char>>
    decreases ls.len(),
{
    if ls.len() == 0 {
        Seq::empty()
    } else {
        let prev = kept_lines(ls.drop_last(), host);
        if first_field(ls.last()) == Some(host) {
            prev
        } else {
            prev.push(ls.last())
        }
    }
}

/// `ls` joined with newlines between them.
pub open spec fn join_lines(ls: Seq<Seq<char>>) -> Seq<char>
    decreases ls.len(),
{
    if ls.len() == 0 {
        Seq::empty()
    } else if ls.len() == 1 {
        ls[0]
    } else {
        join_lines(ls.drop_last()) + seq!['\n'] + ls.last()
    }
}

/// The store text holding the lines `kept`: joined by newlines, with a final
/// newline unless empty.
pub open spec fn store_text(kept: Seq<Seq<char>>) -> Seq<char> {
    let j = join_lines(kept);
    if j.len() > 0 {
        j.push('\n')
    } else {
        j
    }
}

/// Forget a trusted host: the store text without every line for `host`
/// (lines whose first field is exactly `host`), and how many lines went.
pub fn forget_host(text: &str, host: &str) -> (r: (String, usize))
    ensures
        r.0@ == store_text(kept_lines(lines(text@), host@)),
        r.1 == lines(text@).len() - kept_lines(lines(text@), host@).len(),
{
    let ls = lines_of(text);
    let h = chars_of(host);
    let ghost all = views(ls@);
    let mut joined: Vec<char> = Vec::new();
    let mut kept: usize = 0;
    let mut removed: usize = 0;
    let mut k: usize = 0;
    assert(all.subrange(0, 0) =~= Seq::<Seq<char>>::empty());
    while k < ls.len()
        invariant
            k <= ls.len(),
            all == views(ls@),
            all == lines(text@),
            h@ == host@,
            kept == kept_lines(all.subrange(0, k as int), host@).len(),
            joined@ == join_lines(kept_lines(all.subrange(0, k as int), host@)),
            kept + removed == k,
        decreases ls.len() - k,
    {
        let ghost pre = all.subrange(0, k as int);
        proof {
            assert(all.subrange(0, k + 1).drop_last() =~= pre);
            assert(all.subrange(0, k + 1).last() == ls@[k as int]@);
        }
        let first = next_token_chars(&ls[k]);
        let is_host = match &first {
            Some((t, _)) => crate::text::chars_eq(t, &h),
            None => false,
        };
        if is_host {
            removed = removed + 1;
        } else {
            let ghost kb = kept_lines(pre, host@);
            if kept > 0 {
                joined.push('\n');
            }
            push_all(&mut joined, &ls[k]);
            proof {
                let kn = kb.push(ls@[k as int]@);
                assert(kn.drop_last() =~= kb);
                if kb.len() == 0 {
                    assert(joined@ =~= kn[0]);
                }
            }
            kept = kept + 1;
        }
        k = k + 1;
    }
    assert(all.subrange(0, all.len() as int) =~= all);
    if joined.len() > 0 {
        joined.push('\n');
    }
    (string_of(joined.as_slice()), removed)
}

/// Error codes as libssh2 reports them.
#[derive(Debug, Clone, Copy, PartialEq, Eq, Structural)]
pub enum SshErrorCode {
    Session(i32),
    Sftp(i32),
}

/// Whether an error code is a genuine authentication rejection
/// (LIBSSH2_ERROR_AUTHENTICATION_FAILED or _PUBLICKEY_UNVERIFIED).
pub open spec fn is_auth_rejection(code: SshErrorCode) -> bool {
    code == SshErrorCode::Session(-18i32) || code == SshErrorCode::Session(-19i32)
}

/// Auth calls also surface transport failures (the socket died mid-login);
/// only genuine auth rejections become [`Error::Auth`], the rest
/// [`Error::Connect`], so the UI does not start a wrong-password flow.
pub fn auth_or_connect(code: SshErrorCode, message: String) -> (r: Error)
    ensures
        is_auth_rejection(code) ==> r == Error::Auth(message),
        !is_auth_rejection(code) ==> r == Error::Connect(message),
{
    match code {
        SshErrorCode::Session(c) => {
            if c == -18 || c == -19 {
                Error::Auth(message)
            } else {
                Error::Connect(message)
            }
        },
        SshErrorCode::Sftp(_) => Error::Connect(message),
    }
}

} // verus!
