//! The FTP side's own rules: which parsed LIST lines become directory
//! entries, which login failures are authentication rejections, what an
//! FTP login sends, and the `SITE CHMOD` command. The LIST line parser is
//! suppaftp's; the control connection belongs to the caller.

use vstd::prelude::*;

use crate::text::{chars_of, contains_fold, eq_fold, is_ws, occurs_fold_at, owned, push_all, push_str, starts_with, string_of};
use crate::types::{Auth, Credentials, Entry, Error, Protocol};

verus! {

// ---------------------------------------------------------------------------
// Listings
// ---------------------------------------------------------------------------

/// One LIST line as the parser understood it.
#[derive(Debug, Clone)]
pub struct ListedFile {
    pub name: String,
    pub is_dir: bool,
    pub is_symlink: bool,
    pub size: u64,
    /// Modification time in whole seconds since the Unix epoch; none before it.
    pub mtime: Option<i64>,
}

/// The value of a listing fact: what follows up to the next `;` or `=`.
pub open spec fn fact_value(s: Seq<char>) -> Seq<char>
    decreases s.len(),
{
    if s.len() == 0 || s[0] == ';' || s[0] == '=' {
        Seq::empty()
    } else {
        seq![s[0]] + fact_value(s.drop_first())
    }
}

/// `s` without its whitespace (the date parser skips whitespace before
/// each number).
pub open spec fn strip_ws(s: Seq<char>) -> Seq<char>
    decreases s.len(),
{
    if s.len() == 0 {
        Seq::empty()
    } else {
        (if is_ws(s[0]) {
            Seq::empty()
        } else {
            seq![s[0]]
        }) + strip_ws(s.drop_first())
    }
}

/// `s` without its leading zeros.
pub open spec fn strip_zeros(s: Seq<char>) -> Seq<char>
    decreases s.len(),
{
    if s.len() > 0 && s[0] == '0' {
        strip_zeros(s.drop_first())
    } else {
        s
    }
}

/// A `modify=` value that may denote the leap second just before the epoch,
/// 1969-12-31 23:59:60: its digits, whitespace aside, start with
/// `19691231235960`, or (a signed year) `+`, zeros, then those digits.
pub open spec fn leap_value(v: Seq<char>) -> bool {
    let w = strip_ws(fact_value(v));
    ||| starts_with(w, "19691231235960"@)
    ||| (w.len() > 0 && w[0] == '+' && starts_with(strip_zeros(w.drop_first()), "19691231235960"@))
}

/// A machine-readable listing fact that suppaftp would read as the leap
/// second just before the epoch, on which its time conversion panics: a
/// `modify=` (ASCII case ignored) whose value may denote it.
pub open spec fn leap_second_risk(line: Seq<char>) -> bool {
    exists|i: int| occurs_fold_at(line, "modify="@, i) && #[trigger] leap_value(line.subrange(i + 7, line.len() as int))
}

/// A line that may carry a year-less February 29: whether the parser reads
/// it as a UNIX line then depends on the current year.
pub open spec fn clock_sensitive(line: Seq<char>) -> bool {
    contains_fold(line, "feb"@) && contains_fold(line, "29"@)
}

/// What suppaftp's parser makes of a listing line: none when it does not
/// understand the line, else the name, whether it is a directory, whether
/// it is a link, the size and the modification time (whole seconds since
/// the epoch; none before it).
pub uninterp spec fn list_line_parse(line: Seq<char>) -> Option<(Seq<char>, bool, bool, u64, Option<i64>)>;

/// A parse as a plain value.
pub open spec fn parsed_of(p: Option<ListedFile>) -> Option<(Seq<char>, bool, bool, u64, Option<i64>)> {
    match p {
        Some(f) => Some((f.name@, f.is_dir, f.is_symlink, f.size, f.mtime)),
        None => None,
    }
}

/// A parse without its time.
pub open spec fn untimed(p: Option<(Seq<char>, bool, bool, u64, Option<i64>)>) -> Option<(Seq<char>, bool, bool, u64)> {
    match p {
        Some(f) => Some((f.0, f.1, f.2, f.3)),
        None => None,
    }
}

/// The clock-free part of a parse.
pub open spec fn fields_of(p: Option<ListedFile>) -> Option<(Seq<char>, bool, bool, u64)> {
    untimed(parsed_of(p))
}

/// `suppaftp::list::File::from_str` on one line of a LIST reply (UNIX, DOS
/// or MLSD layout); none when the parser does not understand the line. A
/// line without `:` carries no year-less date (the UNIX time of day needs
/// one), so the whole parse depends on the line alone. On other lines a
/// date given without a year is placed relative to the current time, so
/// only the name, kind and size do, and those too depend on the current
/// year on a line that may hold a year-less February 29.
#[verifier::external_body]
fn parse_list_line(line: &str) -> (r: Option<ListedFile>)
    requires
        !leap_second_risk(line@),
    ensures
        !line@.contains(':') ==> parsed_of(r) == list_line_parse(line@),
        !clock_sensitive(line@) ==> fields_of(r) == untimed(list_line_parse(line@)),
{
    let f = match line.parse::<suppaftp::list::File>() {
        Ok(f) => f,
        Err(_) => return None,
    };
    let mtime = match f.modified().duration_since(std::time::UNIX_EPOCH) {
        Ok(d) => Some(d.as_secs() as i64),
        Err(_) => None,
    };
    let (name, is_dir, is_symlink) = (f.name().to_string(), f.is_directory(), f.is_symlink());
    Some(ListedFile { name, is_dir, is_symlink, size: f.size() as u64, mtime })
}

/// The whitespace-free value of the fact starting at `from`.
fn fact_digits(s: &Vec<char>, from: usize) -> (r: Vec<char>)
    requires
        from <= s.len(),
    ensures
        r@ == strip_ws(fact_value(s@.subrange(from as int, s.len() as int))),
{
    let mut w: Vec<char> = Vec::new();
    let mut j: usize = from;
    while j < s.len() && s[j] != ';' && s[j] != '='
        invariant
            from <= j <= s.len(),
            strip_ws(fact_value(s@.subrange(from as int, s.len() as int))) == w@ + strip_ws(
                fact_value(s@.subrange(j as int, s.len() as int)),
            ),
        decreases s.len() - j,
    {
        let ghost rest = s@.subrange(j as int, s.len() as int);
        let ghost tail = s@.subrange(j + 1, s.len() as int);
        assert(rest[0] == s@[j as int]);
        assert(rest.drop_first() =~= tail);
        let ghost fv = fact_value(rest);
        assert(fv =~= seq![s@[j as int]] + fact_value(tail));
        assert(fv[0] == s@[j as int]);
        assert(fv.drop_first() =~= fact_value(tail));
        let c = s[j];
        let ghost before = w@;
        if !crate::text::is_whitespace(c) {
            w.push(c);
        }
        assert(w@ + strip_ws(fact_value(tail)) =~= before + strip_ws(fv));
        j = j + 1;
    }
    proof {
        let rest = s@.subrange(j as int, s.len() as int);
        if j < s.len() {
            assert(rest[0] == s@[j as int]);
        }
        assert(fact_value(rest) =~= Seq::<char>::empty());
        assert(w@ + strip_ws(fact_value(rest)) =~= w@);
    }
    w
}

/// `s` from `from` on without its leading zeros.
fn skip_zeros(s: &Vec<char>, from: usize) -> (r: Vec<char>)
    requires
        from <= s.len(),
    ensures
        r@ == strip_zeros(s@.subrange(from as int, s.len() as int)),
{
    let mut j: usize = from;
    while j < s.len() && s[j] == '0'
        invariant
            from <= j <= s.len(),
            strip_zeros(s@.subrange(from as int, s.len() as int)) == strip_zeros(
                s@.subrange(j as int, s.len() as int),
            ),
        decreases s.len() - j,
    {
        let ghost rest = s@.subrange(j as int, s.len() as int);
        assert(rest[0] == s@[j as int]);
        assert(rest.drop_first() =~= s@.subrange(j + 1, s.len() as int));
        j = j + 1;
    }
    proof {
        let rest = s@.subrange(j as int, s.len() as int);
        if j < s.len() {
            assert(rest[0] == s@[j as int]);
        }
    }
    crate::text::slice_vec(s, j, s.len())
}

/// Does the `modify=` value starting at `from` carry what [`leap_value`]
/// describes?
fn leap_value_at(s: &Vec<char>, from: usize) -> (r: bool)
    requires
        from <= s.len(),
    ensures
        r == leap_value(s@.subrange(from as int, s.len() as int)),
{
    let w = fact_digits(s, from);
    let pat = chars_of("19691231235960");
    if crate::text::starts_with_chars(&w, &pat) {
        return true;
    }
    if w.len() > 0 && w[0] == '+' {
        let z = skip_zeros(&w, 1);
        assert(w@.subrange(1, w@.len() as int) =~= w@.drop_first());
        return crate::text::starts_with_chars(&z, &pat);
    }
    false
}

/// Does `p` occur in `s` at `i`, ASCII case in `s` ignored?
fn fold_at(s: &Vec<char>, p: &Vec<char>, i: usize) -> (r: bool)
    ensures
        r == occurs_fold_at(s@, p@, i as int),
{
    if i > s.len() || p.len() > s.len() - i {
        return false;
    }
    let mut j: usize = 0;
    while j < p.len()
        invariant
            i + p.len() <= s.len(),
            j <= p.len(),
            forall|m: int| 0 <= m < j ==> eq_fold(#[trigger] s@[i + m], p@[m]),
        decreases p.len() - j,
    {
        let c = s[i + j];
        let d = p[j];
        if !(c == d || ('A' <= c && c <= 'Z' && (c as u32) + 32 == (d as u32))) {
            return false;
        }
        j = j + 1;
    }
    true
}

/// Does `line` carry what [`leap_second_risk`] describes?
pub fn has_leap_second_risk(line: &str) -> (r: bool)
    ensures
        r == leap_second_risk(line@),
{
    let cs = chars_of(line);
    let key = chars_of("modify=");
    proof {
        reveal_strlit("modify=");
    }
    let mut i: usize = 0;
    while i < cs.len()
        invariant
            key@ == "modify="@,
            key@.len() == 7,
            cs@ == line@,
            i <= cs.len(),
            forall|k: int|
                0 <= k < i ==> !(occurs_fold_at(cs@, key@, k) && #[trigger] leap_value(
                    cs@.subrange(k + 7, cs@.len() as int),
                )),
        decreases cs.len() - i,
    {
        if fold_at(&cs, &key, i) {
            if leap_value_at(&cs, i + 7) {
                assert(cs@ == line@);
                assert(occurs_fold_at(cs@, key@, i as int));
                assert(leap_value(cs@.subrange(i + 7, cs@.len() as int)));
                assert(occurs_fold_at(line@, "modify="@, i as int) && leap_value(
                    line@.subrange(i + 7, line@.len() as int),
                ));
                return true;
            }
        }
        i = i + 1;
    }
    assert forall|k: int| !(occurs_fold_at(cs@, key@, k) && #[trigger] leap_value(
        cs@.subrange(k + 7, cs@.len() as int),
    )) by {
        if 0 <= k < i {
        }
    }
    false
}

/// How one line of a listing was read: a line at risk is left unparsed;
/// otherwise it is what the parser makes of it, the time only where no
/// clock enters ([`parse_list_line`]).
pub open spec fn line_read(line: Seq<char>, p: Option<ListedFile>) -> bool {
    &&& leap_second_risk(line) ==> p is None
    &&& !leap_second_risk(line) && !line.contains(':') ==> parsed_of(p) == list_line_parse(line)
    &&& !leap_second_risk(line) && !clock_sensitive(line) ==> fields_of(p) == untimed(list_line_parse(line))
}

/// The entry a parsed line gives: none for "." and ".." (which LIST -a
/// includes, and which would loop a recursive walk); times at or before the
/// epoch count as unknown; FTP reports no permissions or owners.
pub open spec fn listed_entry(f: ListedFile) -> Option<Entry> {
    if f.name@ == "."@ || f.name@ == ".."@ {
        None
    } else {
        Some(
            Entry {
                name: f.name,
                is_dir: f.is_dir,
                size: f.size,
                mtime: match f.mtime {
                    Some(m) => if m > 0 {
                        Some(m)
                    } else {
                        None
                    },
                    None => None,
                },
                perms: None,
                is_symlink: f.is_symlink,
                uid: None,
                gid: None,
            },
        )
    }
}

/// The entries of a listing whose lines parsed as `ps` (lines the parser
/// did not understand are skipped).
pub open spec fn listing_entries(ps: Seq<Option<ListedFile>>) -> Seq<Entry>
    decreases ps.len(),
{
    if ps.len() == 0 {
        Seq::empty()
    } else {
        let prev = listing_entries(ps.drop_last());
        match ps.last() {
            Some(f) => match listed_entry(f) {
                Some(e) => prev.push(e),
                None => prev,
            },
            None => prev,
        }
    }
}

/// The directory entries of a listing, given what each line parsed as.
pub fn entries_from_listing(parsed: Vec<Option<ListedFile>>) -> (r: Vec<Entry>)
    ensures
        r@ == listing_entries(parsed@),
{
    let mut out: Vec<Entry> = Vec::new();
    let mut k: usize = 0;
    assert(parsed@.subrange(0, 0) =~= Seq::<Option<ListedFile>>::empty());
    while k < parsed.len()
        invariant
            k <= parsed.len(),
            out@ == listing_entries(parsed@.subrange(0, k as int)),
        decreases parsed.len() - k,
    {
        assert(parsed@.subrange(0, k + 1).drop_last() =~= parsed@.subrange(0, k as int));
        match &parsed[k] {
            Some(f) => {
                let dot = crate::text::str_eq(f.name.as_str(), ".");
                let dotdot = crate::text::str_eq(f.name.as_str(), "..");
                if !dot && !dotdot {
                    let mtime = match f.mtime {
                        Some(m) => if m > 0 {
                            Some(m)
                        } else {
                            None
                        },
                        None => None,
                    };
                    out.push(
                        Entry {
                            name: f.name.clone(),
                            is_dir: f.is_dir,
                            size: f.size,
                            mtime,
                            perms: None,
                            is_symlink: f.is_symlink,
                            uid: None,
                            gid: None,
                        },
                    );
                }
            },
            None => {},
        }
        k = k + 1;
    }
    assert(parsed@.subrange(0, parsed@.len() as int) =~= parsed@);
    out
}

/// Parse a LIST reply line by line into directory entries: each line is
/// read by suppaftp's parser (see [`parse_list_line`]), except a line at
/// [`leap_second_risk`], which is skipped; the entries are those
/// [`entries_from_listing`] keeps, one parse per line.
pub fn parse_listing(lines: &Vec<String>) -> (r: Vec<Entry>)
    ensures
        exists|ps: Seq<Option<ListedFile>>|
            {
                &&& ps.len() == lines@.len()
                &&& r@ == listing_entries(ps)
                &&& forall|i: int| 0 <= i < ps.len() ==> line_read(lines@[i]@, #[trigger] ps[i])
            },
{
    let mut parsed: Vec<Option<ListedFile>> = Vec::new();
    let mut k: usize = 0;
    while k < lines.len()
        invariant
            k <= lines.len(),
            parsed@.len() == k,
            forall|i: int| 0 <= i < k ==> line_read(lines@[i]@, #[trigger] parsed@[i]),
        decreases lines.len() - k,
    {
        let line = lines[k].as_str();
        let p = if has_leap_second_risk(line) {
            None
        } else {
            parse_list_line(line)
        };
        parsed.push(p);
        k = k + 1;
    }
    let ghost ps = parsed@;
    let r = entries_from_listing(parsed);
    assert(ps.len() == lines@.len() && r@ == listing_entries(ps));
    r
}

// ---------------------------------------------------------------------------
// Login
// ---------------------------------------------------------------------------

/// How an FTP login failed, as suppaftp reports it.
#[derive(Debug, Clone, Copy, PartialEq, Eq, Structural)]
pub enum FtpFailure {
    /// The server answered with an unexpected reply (such as 530 "not
    /// logged in").
    UnexpectedResponse,
    /// Anything else: a dropped socket, a timeout, a TLS failure.
    Other,
}

/// A reply from the server during login is an authentication rejection;
/// everything else (dropped socket, timeouts) is a connection problem, so
/// the UI does not start a wrong-password flow.
pub fn login_error(kind: FtpFailure, message: String) -> (r: Error)
    ensures
        kind == FtpFailure::UnexpectedResponse ==> r == Error::Auth(message),
        kind == FtpFailure::Other ==> r == Error::Connect(message),
{
    match kind {
        FtpFailure::UnexpectedResponse => Error::Auth(message),
        FtpFailure::Other => Error::Connect(message),
    }
}

/// What an FTP login sends: the user and password, or the anonymous
/// convention; keys and agents cannot log in to FTP.
pub fn ftp_login(creds: &Credentials) -> (r: core::result::Result<(String, String), Error>)
    ensures
        match creds.auth {
            Auth::Password(pw) => r == core::result::Result::<(String, String), Error>::Ok(
                (creds.username, pw),
            ),
            Auth::Anonymous => (r matches Ok((u, p)) && u@ == "anonymous"@ && p@ == "anonymous@"@),
            _ => (r matches Err(Error::Auth(m)) && m@ == "FTP supports password auth only"@),
        },
{
    match &creds.auth {
        Auth::Password(pw) => Ok((creds.username.clone(), pw.clone())),
        Auth::Anonymous => Ok((owned("anonymous"), owned("anonymous@"))),
        _ => Err(Error::Auth(owned("FTP supports password auth only"))),
    }
}

/// Whether the control connection is upgraded to TLS before login (FTPS);
/// other protocols are not FTP.
pub fn ftp_secure(protocol: Protocol) -> (r: core::result::Result<bool, Error>)
    ensures
        protocol == Protocol::Ftp ==> r == core::result::Result::<bool, Error>::Ok(false),
        protocol == Protocol::Ftps ==> r == core::result::Result::<bool, Error>::Ok(true),
        protocol != Protocol::Ftp && protocol != Protocol::Ftps ==> (r matches Err(
            Error::Protocol(m),
        ) && m@ == "not an FTP protocol"@),
{
    match protocol {
        Protocol::Ftp => Ok(false),
        Protocol::Ftps => Ok(true),
        _ => Err(Error::Protocol(owned("not an FTP protocol"))),
    }
}

// ---------------------------------------------------------------------------
// Commands
// ---------------------------------------------------------------------------

/// The octal digit character for `d < 8`.
pub open spec fn oct_digit(d: nat) -> char {
    ((48 + d) as u8) as char
}

/// `n` in octal (`{:o}`), without leading zeros.
pub open spec fn oct(n: nat) -> Seq<char>
    decreases n,
{
    if n < 8 {
        seq![oct_digit(n)]
    } else {
        oct(n / 8).push(oct_digit(n % 8))
    }
}

/// Octal rendering of `n`.
pub fn u32_to_oct(n: u32) -> (r: Vec<char>)
    ensures
        r@ == oct(n as nat),
    decreases n,
{
    if n < 8 {
        let mut v = Vec::new();
        let b: u8 = 48u8 + n as u8;
        v.push(b as char);
        v
    } else {
        let mut v = u32_to_oct(n / 8);
        let b: u8 = 48u8 + (n % 8) as u8;
        v.push(b as char);
        v
    }
}

/// The `SITE CHMOD` command for `path`: the permission bits in octal.
pub open spec fn site_chmod_spec(mode: u32, path: Seq<char>) -> Seq<char> {
    "SITE CHMOD "@ + oct((mode & 0o7777u32) as nat) + " "@ + path
}

/// `SITE CHMOD <mode> <path>`: not in the FTP RFCs, but a near-universal
/// extension on unix servers.
pub fn site_chmod_command(mode: u32, path: &str) -> (r: String)
    ensures
        r@ == site_chmod_spec(mode, path@),
{
    let mut cs = chars_of("SITE CHMOD ");
    let o = u32_to_oct(mode & 0o7777u32);
    push_all(&mut cs, &o);
    push_str(&mut cs, " ");
    push_str(&mut cs, path);
    string_of(cs.as_slice())
}

/// The argument of the first LIST a directory listing sends: `-a` asks
/// most unix servers to include dotfiles.
pub fn list_all_argument(path: &str) -> (r: String)
    ensures
        r@ == "-a "@ + path@,
{
    let mut cs = chars_of("-a ");
    push_str(&mut cs, path);
    string_of(cs.as_slice())
}

} // verus!
