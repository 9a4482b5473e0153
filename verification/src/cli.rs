//! The command-line client's own logic: its URLs
//! (`sftp://user@host[:port]/path`, `s3://key@endpoint[:port]/bucket/prefix`),
//! its flags and commands, and the lines it prints for a listing. Running
//! the commands against a server is the caller's part.

use vstd::prelude::*;

use crate::desktop::protocol_named;
use crate::ops::{parse_filter, Filter, SyncDirection};
use crate::sites::lex_lt;
use crate::text::{
    chars_eq, chars_of, dec, owned, parse_unsigned, parse_unsigned_chars, push_all, push_str,
    split_once, split_once_chars, split_once_str, split_once_str_chars, str_eq, string_of,
    trim_start_char, trim_start_char_chars, u64_to_dec,
};
use crate::types::{spec_default_port, Auth, Credentials, Entry, HostKeyPolicy, Protocol};

verus! {

// ---------------------------------------------------------------------------
// URLs
// ---------------------------------------------------------------------------

/// Options given before the command.
#[derive(Debug)]
pub struct Flags {
    pub host_key: HostKeyPolicy,
    pub agent: bool,
    pub key: Option<String>,
    pub recursive: bool,
    pub filter: Filter,
    pub delete: bool,
    pub speed_kbs: u64,
}

/// A parsed URL: where to connect and the path it names.
#[derive(Debug)]
pub struct ParsedUrl {
    pub creds: Credentials,
    pub path: String,
}

/// What a URL says, as plain values.
pub struct UrlView {
    pub protocol: Protocol,
    pub host: Seq<char>,
    pub port: u16,
    pub user: Seq<char>,
    /// S3 only: the bucket (the first path component).
    pub bucket: Option<Seq<char>>,
    pub path: Seq<char>,
}

/// The authority and the path (with its leading "/") of what follows the
/// scheme.
pub open spec fn authority_and_path(rest: Seq<char>) -> (Seq<char>, Seq<char>) {
    match split_once(rest, '/') {
        Some((a, p)) => (a, "/"@ + p),
        None => (rest, "/"@),
    }
}

/// The user (default "anonymous") and the host[:port] of an authority.
pub open spec fn user_and_hostport(authority: Seq<char>) -> (Seq<char>, Seq<char>) {
    match split_once(authority, '@') {
        Some((u, h)) => (u, h),
        None => ("anonymous"@, authority),
    }
}

/// The bucket and key prefix of an S3 path.
pub open spec fn bucket_and_prefix(raw_path: Seq<char>) -> (Seq<char>, Seq<char>) {
    let trimmed = trim_start_char(raw_path, '/');
    match split_once(trimmed, '/') {
        Some((b, k)) => (b, "/"@ + k),
        None => (trimmed, "/"@),
    }
}

/// What `url` names, or the message of the first problem found.
pub open spec fn url_view(url: Seq<char>) -> core::result::Result<UrlView, Seq<char>> {
    match split_once_str(url, "://"@) {
        None => Err("missing scheme://"@),
        Some((scheme, rest)) => match protocol_named(scheme) {
            None => Err("unsupported scheme: "@ + scheme),
            Some(protocol) => {
                let (authority, raw_path) = authority_and_path(rest);
                let (user, hostport) = user_and_hostport(authority);
                let hp: Option<(Seq<char>, u16)> = match split_once(hostport, ':') {
                    Some((h, p)) => match parse_unsigned(p, 65535) {
                        Some(port) => Some((h, port as u16)),
                        None => None,
                    },
                    None => Some((hostport, spec_default_port(protocol))),
                };
                match hp {
                    None => Err("invalid port"@),
                    Some((host, port)) => if protocol == Protocol::S3 {
                        let (bucket, prefix) = bucket_and_prefix(raw_path);
                        Ok(UrlView { protocol, host, port, user, bucket: Some(bucket), path: prefix })
                    } else {
                        Ok(UrlView { protocol, host, port, user, bucket: None, path: raw_path })
                    },
                }
            },
        },
    }
}

pub open spec fn opt_view(o: Option<&str>) -> Option<Seq<char>> {
    match o {
        Some(s) => Some(s@),
        None => None,
    }
}

/// The auth the flags and the password argument select: the agent, else a
/// key file (the password as its passphrase), else the password; without a
/// password FTP logs in anonymously and the others use an empty password.
pub open spec fn cli_auth(a: Auth, agent: bool, key: Option<String>, password: Option<Seq<char>>, protocol: Protocol) -> bool {
    if agent {
        a == Auth::Agent
    } else {
        match key {
            Some(k) => (a matches Auth::KeyFile { path, passphrase } && path == k && match passphrase {
                Some(p) => password == Some(p@),
                None => password.is_none(),
            }),
            None => match password {
                Some(pw) => (a matches Auth::Password(x) && x@ == pw),
                None => if protocol == Protocol::Ftp {
                    a == Auth::Anonymous
                } else {
                    (a matches Auth::Password(x) && x@.len() == 0)
                },
            },
        }
    }
}

fn split_authority(rest: &Vec<char>) -> (r: (Vec<char>, Vec<char>))
    ensures
        (r.0@, r.1@) == authority_and_path(rest@),
{
    match split_once_chars(rest, '/') {
        Some((a, p)) => {
            let mut path = chars_of("/");
            push_all(&mut path, &p);
            (a, path)
        },
        None => (crate::text::slice_vec(rest, 0, rest.len()), chars_of("/")),
    }
}

fn split_user(authority: &Vec<char>) -> (r: (Vec<char>, Vec<char>))
    ensures
        (r.0@, r.1@) == user_and_hostport(authority@),
{
    match split_once_chars(authority, '@') {
        Some((u, h)) => (u, h),
        None => (chars_of("anonymous"), crate::text::slice_vec(authority, 0, authority.len())),
    }
}

fn split_bucket(raw_path: &Vec<char>) -> (r: (Vec<char>, Vec<char>))
    ensures
        (r.0@, r.1@) == bucket_and_prefix(raw_path@),
{
    let trimmed = trim_start_char_chars(raw_path, '/');
    match split_once_chars(&trimmed, '/') {
        Some((b, k)) => {
            let mut prefix = chars_of("/");
            push_all(&mut prefix, &k);
            (b, prefix)
        },
        None => (trimmed, chars_of("/")),
    }
}

fn protocol_of_scheme(scheme: &Vec<char>) -> (r: Option<Protocol>)
    ensures
        r == protocol_named(scheme@),
{
    if chars_eq(scheme, &chars_of("sftp")) {
        Some(Protocol::Sftp)
    } else if chars_eq(scheme, &chars_of("ftp")) {
        Some(Protocol::Ftp)
    } else if chars_eq(scheme, &chars_of("ftps")) {
        Some(Protocol::Ftps)
    } else if chars_eq(scheme, &chars_of("s3")) {
        Some(Protocol::S3)
    } else {
        None
    }
}

fn cli_auth_exec(agent: bool, key: &Option<String>, password: Option<&str>, protocol: Protocol) -> (r: Auth)
    ensures
        cli_auth(r, agent, *key, opt_view(password), protocol),
{
    if agent {
        Auth::Agent
    } else {
        match key {
            Some(k) => Auth::KeyFile {
                path: k.clone(),
                passphrase: match password {
                    Some(p) => Some(owned(p)),
                    None => None,
                },
            },
            None => match password {
                Some(pw) => Auth::Password(owned(pw)),
                None => if protocol == Protocol::Ftp {
                    Auth::Anonymous
                } else {
                    Auth::Password(String::new())
                },
            },
        }
    }
}

/// Parse a URL into credentials and a path; `password` is the optional
/// password argument (the key's passphrase with `--key`).
pub fn parse_url(url: &str, password: Option<&str>, flags: &Flags) -> (r: core::result::Result<ParsedUrl, String>)
    ensures
        match r {
            Err(m) => url_view(url@) == core::result::Result::<UrlView, Seq<char>>::Err(m@),
            Ok(p) => url_view(url@) matches Ok(v) && {
                &&& p.creds.protocol == v.protocol
                &&& p.creds.host@ == v.host
                &&& p.creds.port == v.port
                &&& p.creds.username@ == v.user
                &&& p.path@ == v.path
                &&& cli_auth(p.creds.auth, flags.agent, flags.key, opt_view(password), v.protocol)
                &&& match v.bucket {
                    Some(b) => p.creds.bucket matches Some(x) && x@ == b,
                    None => p.creds.bucket.is_none(),
                }
                &&& p.creds.region.is_none()
                &&& p.creds.jump.is_none()
                &&& p.creds.host_key == (if v.protocol == Protocol::S3 {
                    HostKeyPolicy::Strict
                } else {
                    flags.host_key
                })
            },
        },
{
    let u = chars_of(url);
    let (scheme, rest) = match split_once_str_chars(&u, &chars_of("://")) {
        Some(x) => x,
        None => {
            return Err(owned("missing scheme://"));
        },
    };
    let protocol = match protocol_of_scheme(&scheme) {
        Some(p) => p,
        None => {
            let mut m = chars_of("unsupported scheme: ");
            push_all(&mut m, &scheme);
            return Err(string_of(m.as_slice()));
        },
    };
    let (authority, raw_path) = split_authority(&rest);
    let (user, hostport) = split_user(&authority);
    let (host, port) = match split_once_chars(&hostport, ':') {
        Some((h, p)) => match parse_unsigned_chars(&p, 65535) {
            Some(v) => (h, v as u16),
            None => {
                return Err(owned("invalid port"));
            },
        },
        None => (crate::text::slice_vec(&hostport, 0, hostport.len()), Credentials::default_port(protocol)),
    };
    let auth = cli_auth_exec(flags.agent, &flags.key, password, protocol);
    if protocol == Protocol::S3 {
        let (bucket, prefix) = split_bucket(&raw_path);
        let mut creds = Credentials::basic(
            protocol,
            string_of(host.as_slice()),
            port,
            string_of(user.as_slice()),
            auth,
        );
        creds.bucket = Some(string_of(bucket.as_slice()));
        return Ok(ParsedUrl { creds, path: string_of(prefix.as_slice()) });
    }
    let mut creds = Credentials::basic(
        protocol,
        string_of(host.as_slice()),
        port,
        string_of(user.as_slice()),
        auth,
    );
    creds.host_key = flags.host_key.duplicate();
    Ok(ParsedUrl { creds, path: string_of(raw_path.as_slice()) })
}

// ---------------------------------------------------------------------------
// Flags and commands
// ---------------------------------------------------------------------------

/// How a command line is refused.
#[derive(Debug, Clone)]
pub enum CliError {
    /// Print the usage text (exit status 2).
    Usage,
    /// Print this message (exit status 1).
    Message(String),
}

pub open spec fn arg_views(a: Seq<String>) -> Seq<Seq<char>> {
    a.map_values(|s: String| s@)
}

/// The first index at or after `i` holding `f`.
pub open spec fn pos_from(a: Seq<Seq<char>>, f: Seq<char>, i: int) -> Option<int>
    decreases a.len() - i,
{
    if i < 0 || i >= a.len() {
        None
    } else if a[i] == f {
        Some(i)
    } else {
        pos_from(a, f, i + 1)
    }
}

pub proof fn lemma_pos_from(a: Seq<Seq<char>>, f: Seq<char>, i: int)
    ensures
        pos_from(a, f, i) matches Some(p) ==> 0 <= i <= p < a.len() && a[p] == f,
    decreases a.len() - i,
{
    if !(i < 0 || i >= a.len()) && a[i] != f {
        lemma_pos_from(a, f, i + 1);
    }
}

/// A switch: whether it was given, and the arguments without its first
/// occurrence.
pub open spec fn take_switch(a: Seq<Seq<char>>, f: Seq<char>) -> (bool, Seq<Seq<char>>) {
    match pos_from(a, f, 0) {
        Some(p) => (true, a.remove(p)),
        None => (false, a),
    }
}

/// An option with a value: its value (if given) and the arguments without
/// both; none when the value is missing.
pub open spec fn take_option(a: Seq<Seq<char>>, f: Seq<char>) -> Option<(Option<Seq<char>>, Seq<Seq<char>>)> {
    match pos_from(a, f, 0) {
        None => Some((None, a)),
        Some(p) => {
            let b = a.remove(p);
            if p >= b.len() {
                None
            } else {
                Some((Some(b[p]), b.remove(p)))
            }
        },
    }
}

/// The flags of a command line, as plain values.
pub struct FlagsView {
    pub exclude: Option<Seq<char>>,
    pub accept_new: bool,
    pub agent: bool,
    pub key: Option<Seq<char>>,
    pub recursive: bool,
    pub delete: bool,
    pub speed: Option<Seq<char>>,
    /// The command and its arguments.
    pub rest: Seq<Seq<char>>,
}

/// The flags, each taken out where it first occurs, in a fixed order:
/// `--exclude <masks>`, `--accept-new`, `--agent`, `--key <path>`, `-r`,
/// `--delete`, `--speed <kbs>`. None when an option lacks its value.
pub open spec fn flags_view(a: Seq<Seq<char>>) -> Option<FlagsView> {
    match take_option(a, "--exclude"@) {
        None => None,
        Some((exclude, a1)) => {
            let (accept_new, a2) = take_switch(a1, "--accept-new"@);
            let (agent, a3) = take_switch(a2, "--agent"@);
            match take_option(a3, "--key"@) {
                None => None,
                Some((key, a4)) => {
                    let (recursive, a5) = take_switch(a4, "-r"@);
                    let (delete, a6) = take_switch(a5, "--delete"@);
                    match take_option(a6, "--speed"@) {
                        None => None,
                        Some((speed, rest)) => Some(
                            FlagsView { exclude, accept_new, agent, key, recursive, delete, speed, rest },
                        ),
                    }
                },
            }
        },
    }
}

fn position(args: &Vec<String>, f: &str) -> (r: Option<usize>)
    ensures
        match r {
            Some(p) => pos_from(arg_views(args@), f@, 0) == Some(p as int) && p < args.len(),
            None => pos_from(arg_views(args@), f@, 0).is_none(),
        },
{
    let mut i: usize = 0;
    while i < args.len()
        invariant
            i <= args.len(),
            pos_from(arg_views(args@), f@, 0) == pos_from(arg_views(args@), f@, i as int),
        decreases args.len() - i,
    {
        assert(arg_views(args@)[i as int] == args@[i as int]@);
        if str_eq(args[i].as_str(), f) {
            return Some(i);
        }
        i = i + 1;
    }
    None
}

fn take_switch_exec(args: &mut Vec<String>, f: &str) -> (r: bool)
    ensures
        (r, arg_views(final(args)@)) == take_switch(arg_views(old(args)@), f@),
{
    match position(args, f) {
        Some(p) => {
            let ghost before = args@;
            args.remove(p);
            assert(arg_views(args@) =~= arg_views(before).remove(p as int));
            true
        },
        None => false,
    }
}

fn take_option_exec(args: &mut Vec<String>, f: &str) -> (r: Option<Option<String>>)
    ensures
        match r {
            None => take_option(arg_views(old(args)@), f@).is_none(),
            Some(v) => take_option(arg_views(old(args)@), f@) == Some(
                (
                    match v {
                        Some(s) => Some(s@),
                        None => None,
                    },
                    arg_views(final(args)@),
                ),
            ),
        },
{
    match position(args, f) {
        Some(p) => {
            let ghost before = args@;
            args.remove(p);
            assert(arg_views(args@) =~= arg_views(before).remove(p as int));
            if p >= args.len() {
                return None;
            }
            let ghost mid = args@;
            let v = args.remove(p);
            assert(arg_views(args@) =~= arg_views(mid).remove(p as int));
            assert(arg_views(mid)[p as int] == v@);
            Some(Some(v))
        },
        None => Some(None),
    }
}

pub open spec fn opt_string_view(o: Option<String>) -> Option<Seq<char>> {
    match o {
        Some(s) => Some(s@),
        None => None,
    }
}

/// Parse the flags in front of the command. Returns them with the
/// remaining arguments (the command first).
pub fn parse_flags(args: Vec<String>) -> (r: core::result::Result<(Flags, Vec<String>), CliError>)
    ensures
        match flags_view(arg_views(args@)) {
            None => r matches Err(CliError::Usage),
            Some(v) => match v.speed {
                Some(sp) if parse_unsigned(sp, u64::MAX as nat).is_none() => (r matches Err(
                    CliError::Message(m),
                ) && m@ == "--speed requires a number"@),
                _ => (r matches Ok((f, rest)) && {
                    &&& f.host_key == (if v.accept_new {
                        HostKeyPolicy::AcceptNew
                    } else {
                        HostKeyPolicy::Strict
                    })
                    &&& f.agent == v.agent
                    &&& opt_string_view(f.key) == v.key
                    &&& f.recursive == v.recursive
                    &&& f.filter@ == match v.exclude {
                        Some(e) => parse_filter(e),
                        None => Seq::empty(),
                    }
                    &&& f.delete == v.delete
                    &&& f.speed_kbs as nat == match v.speed {
                        Some(sp) => parse_unsigned(sp, u64::MAX as nat).unwrap(),
                        None => 0,
                    }
                    &&& arg_views(rest@) == v.rest
                }),
            },
        },
{
    let mut args = args;
    let exclude = match take_option_exec(&mut args, "--exclude") {
        None => {
            return Err(CliError::Usage);
        },
        Some(e) => e,
    };
    let accept_new = take_switch_exec(&mut args, "--accept-new");
    let agent = take_switch_exec(&mut args, "--agent");
    let key = match take_option_exec(&mut args, "--key") {
        None => {
            return Err(CliError::Usage);
        },
        Some(k) => k,
    };
    let recursive = take_switch_exec(&mut args, "-r");
    let delete = take_switch_exec(&mut args, "--delete");
    let speed = match take_option_exec(&mut args, "--speed") {
        None => {
            return Err(CliError::Usage);
        },
        Some(s) => s,
    };
    let speed_kbs: u64 = match speed {
        Some(sp) => {
            let cs = chars_of(sp.as_str());
            match parse_unsigned_chars(&cs, u64::MAX) {
                Some(v) => v,
                None => {
                    return Err(CliError::Message(owned("--speed requires a number")));
                },
            }
        },
        None => 0,
    };
    let filter = match exclude {
        Some(e) => Filter::parse(e.as_str()),
        None => Filter::empty(),
    };
    let host_key = if accept_new {
        HostKeyPolicy::AcceptNew
    } else {
        HostKeyPolicy::Strict
    };
    Ok((Flags { host_key, agent, key, recursive, filter, delete, speed_kbs }, args))
}

/// A command of the client, with its arguments.
#[derive(Debug)]
pub enum Command {
    Ls { url: String, password: Option<String> },
    Get { url: String, local: String, password: Option<String> },
    Put { url: String, local: String, password: Option<String> },
    Rm { url: String, password: Option<String> },
    Mv { url: String, to: String, password: Option<String> },
    Mkdir { url: String, password: Option<String> },
    Cp { url: String, dst: String, password: Option<String> },
    Exec { url: String, command: String, password: Option<String> },
    Chmod { mode: u32, url: String, password: Option<String> },
    Plan { direction: SyncDirection, url: String, local: String, password: Option<String> },
    Find { url: String, mask: String, password: Option<String> },
    Sync { direction: SyncDirection, url: String, local: String, password: Option<String> },
}

/// The argument at `i`, if given.
pub open spec fn arg_at(a: Seq<Seq<char>>, i: int) -> Option<Seq<char>> {
    if 0 <= i < a.len() {
        Some(a[i])
    } else {
        None
    }
}

/// "up" and "down" name the sync directions.
pub open spec fn direction_arg(s: Seq<char>) -> Option<SyncDirection> {
    if s == "up"@ {
        Some(SyncDirection::Upload)
    } else if s == "down"@ {
        Some(SyncDirection::Download)
    } else {
        None
    }
}

/// The command name: the first argument, or nothing.
pub open spec fn command_name(a: Seq<Seq<char>>) -> Seq<char> {
    if a.len() > 0 {
        a[0]
    } else {
        Seq::empty()
    }
}

/// `c` is what the arguments `a` (the command first) ask for.
pub open spec fn command_of(a: Seq<Seq<char>>, c: Command) -> bool {
    let n = command_name(a);
    match c {
        Command::Ls { url, password } => n == "ls"@ && a.len() > 1 && url@ == a[1]
            && opt_string_view(password) == arg_at(a, 2),
        Command::Get { url, local, password } => n == "get"@ && a.len() > 2 && url@ == a[1]
            && local@ == a[2] && opt_string_view(password) == arg_at(a, 3),
        Command::Put { url, local, password } => n == "put"@ && a.len() > 2 && url@ == a[1]
            && local@ == a[2] && opt_string_view(password) == arg_at(a, 3),
        Command::Rm { url, password } => n == "rm"@ && a.len() > 1 && url@ == a[1]
            && opt_string_view(password) == arg_at(a, 2),
        Command::Mv { url, to, password } => n == "mv"@ && a.len() > 2 && url@ == a[1] && to@
            == a[2] && opt_string_view(password) == arg_at(a, 3),
        Command::Mkdir { url, password } => n == "mkdir"@ && a.len() > 1 && url@ == a[1]
            && opt_string_view(password) == arg_at(a, 2),
        Command::Cp { url, dst, password } => n == "cp"@ && a.len() > 2 && url@ == a[1] && dst@
            == a[2] && opt_string_view(password) == arg_at(a, 3),
        Command::Exec { url, command, password } => n == "exec"@ && a.len() > 2 && url@ == a[1]
            && command@ == a[2] && opt_string_view(password) == arg_at(a, 3),
        Command::Chmod { mode, url, password } => n == "chmod"@ && a.len() > 2
            && crate::text::parse_octal(a[1]) == Some(mode as nat) && url@ == a[2]
            && opt_string_view(password) == arg_at(a, 3),
        Command::Plan { direction, url, local, password } => n == "plan"@ && a.len() > 3
            && direction_arg(a[1]) == Some(direction) && url@ == a[2] && local@ == a[3]
            && opt_string_view(password) == arg_at(a, 4),
        Command::Find { url, mask, password } => n == "find"@ && a.len() > 2 && url@ == a[1]
            && mask@ == a[2] && opt_string_view(password) == arg_at(a, 3),
        Command::Sync { direction, url, local, password } => n == "sync"@ && a.len() > 3
            && direction_arg(a[1]) == Some(direction) && url@ == a[2] && local@ == a[3]
            && opt_string_view(password) == arg_at(a, 4),
    }
}

/// The arguments name a command and give what it needs.
pub open spec fn command_valid(a: Seq<Seq<char>>) -> bool {
    let n = command_name(a);
    ||| (n == "ls"@ || n == "rm"@ || n == "mkdir"@) && a.len() > 1
    ||| (n == "get"@ || n == "put"@ || n == "mv"@ || n == "cp"@ || n == "exec"@ || n == "find"@)
        && a.len() > 2
    ||| n == "chmod"@ && a.len() > 2 && crate::text::parse_octal(a[1]).is_some()
    ||| (n == "plan"@ || n == "sync"@) && a.len() > 3 && direction_arg(a[1]).is_some()
}

fn arg_clone(args: &Vec<String>, i: usize) -> (r: String)
    requires
        i < args.len(),
    ensures
        r@ == args@[i as int]@,
{
    args[i].clone()
}

fn opt_arg(args: &Vec<String>, i: usize) -> (r: Option<String>)
    ensures
        opt_string_view(r) == arg_at(arg_views(args@), i as int),
{
    if i < args.len() {
        Some(args[i].clone())
    } else {
        None
    }
}

fn direction_of(s: &String) -> (r: Option<SyncDirection>)
    ensures
        r == direction_arg(s@),
{
    if str_eq(s.as_str(), "up") {
        Some(SyncDirection::Upload)
    } else if str_eq(s.as_str(), "down") {
        Some(SyncDirection::Download)
    } else {
        None
    }
}

/// The command the arguments (the command first, flags removed) ask for;
/// the usage text when they name none or lack what it needs.
pub fn parse_command(args: &Vec<String>) -> (r: core::result::Result<Command, CliError>)
    ensures
        match r {
            Ok(c) => command_of(arg_views(args@), c),
            Err(e) => (e matches CliError::Usage) && !command_valid(arg_views(args@)),
        },
{
    let ghost a = arg_views(args@);
    if args.len() == 0 {
        return Err(CliError::Usage);
    }
    assert(a[0] == args@[0]@);
    if args.len() > 1 {
        assert(a[1] == args@[1]@);
    }
    if args.len() > 2 {
        assert(a[2] == args@[2]@);
    }
    if args.len() > 3 {
        assert(a[3] == args@[3]@);
    }
    let name = args[0].as_str();
    let n = args.len();
    if str_eq(name, "ls") || str_eq(name, "rm") || str_eq(name, "mkdir") {
        if n < 2 {
            return Err(CliError::Usage);
        }
        let url = arg_clone(args, 1);
        let password = opt_arg(args, 2);
        if str_eq(name, "ls") {
            Ok(Command::Ls { url, password })
        } else if str_eq(name, "rm") {
            Ok(Command::Rm { url, password })
        } else {
            Ok(Command::Mkdir { url, password })
        }
    } else if str_eq(name, "get") || str_eq(name, "put") || str_eq(name, "mv") || str_eq(name, "cp")
        || str_eq(name, "exec") || str_eq(name, "find") {
        if n < 3 {
            return Err(CliError::Usage);
        }
        let url = arg_clone(args, 1);
        let second = arg_clone(args, 2);
        let password = opt_arg(args, 3);
        if str_eq(name, "get") {
            Ok(Command::Get { url, local: second, password })
        } else if str_eq(name, "put") {
            Ok(Command::Put { url, local: second, password })
        } else if str_eq(name, "mv") {
            Ok(Command::Mv { url, to: second, password })
        } else if str_eq(name, "cp") {
            Ok(Command::Cp { url, dst: second, password })
        } else if str_eq(name, "exec") {
            Ok(Command::Exec { url, command: second, password })
        } else {
            Ok(Command::Find { url, mask: second, password })
        }
    } else if str_eq(name, "chmod") {
        if n < 3 {
            return Err(CliError::Usage);
        }
        let m = chars_of(args[1].as_str());
        let mode = match crate::text::parse_octal_chars(&m) {
            Some(v) => v,
            None => {
                proof {
                    reveal_strlit("ls");
                    reveal_strlit("rm");
                    reveal_strlit("mkdir");
                    reveal_strlit("get");
                    reveal_strlit("put");
                    reveal_strlit("mv");
                    reveal_strlit("cp");
                    reveal_strlit("exec");
                    reveal_strlit("find");
                    reveal_strlit("chmod");
                    reveal_strlit("plan");
                    reveal_strlit("sync");
                }
                return Err(CliError::Usage);
            },
        };
        let url = arg_clone(args, 2);
        let password = opt_arg(args, 3);
        Ok(Command::Chmod { mode, url, password })
    } else if str_eq(name, "plan") || str_eq(name, "sync") {
        if n < 4 {
            return Err(CliError::Usage);
        }
        let direction = match direction_of(&args[1]) {
            Some(d) => d,
            None => {
                proof {
                    reveal_strlit("ls");
                    reveal_strlit("rm");
                    reveal_strlit("mkdir");
                    reveal_strlit("get");
                    reveal_strlit("put");
                    reveal_strlit("mv");
                    reveal_strlit("cp");
                    reveal_strlit("exec");
                    reveal_strlit("find");
                    reveal_strlit("chmod");
                    reveal_strlit("plan");
                    reveal_strlit("sync");
                }
                return Err(CliError::Usage);
            },
        };
        let url = arg_clone(args, 2);
        let local = arg_clone(args, 3);
        let password = opt_arg(args, 4);
        if str_eq(name, "plan") {
            Ok(Command::Plan { direction, url, local, password })
        } else {
            Ok(Command::Sync { direction, url, local, password })
        }
    } else {
        Err(CliError::Usage)
    }
}

// ---------------------------------------------------------------------------
// Listings
// ---------------------------------------------------------------------------

/// `s` right-aligned in a field of `w` characters, as `{:>w}` prints it.
pub open spec fn pad_left(s: Seq<char>, w: nat) -> Seq<char> {
    if s.len() < w {
        Seq::new((w - s.len()) as nat, |i: int| ' ') + s
    } else {
        s
    }
}

/// An owner or group id as printed: the number, or "?" when unknown.
pub open spec fn id_text(o: Option<u32>) -> Seq<char> {
    match o {
        Some(u) => dec(u as nat),
        None => "?"@,
    }
}

/// One line of `ls` output: kind, permissions, owner, group, size, name.
pub open spec fn ls_line_spec(e: Entry) -> Seq<char> {
    (if e.is_dir {
        "d"@
    } else {
        "-"@
    }) + match e.perms {
        Some(p) => p@,
        None => "?????????"@,
    } + "  "@ + pad_left(id_text(e.uid), 8) + " "@ + pad_left(id_text(e.gid), 8) + " "@ + pad_left(
        dec(e.size as nat),
        12,
    ) + " "@ + e.name@
}

fn push_padded(out: &mut Vec<char>, s: &Vec<char>, w: usize)
    ensures
        final(out)@ == old(out)@ + pad_left(s@, w as nat),
{
    let ghost start = out@;
    if s.len() < w {
        let pad: usize = w - s.len();
        let mut k: usize = 0;
        while k < pad
            invariant
                k <= pad,
                out@ == start + Seq::new(k as nat, |i: int| ' '),
            decreases pad - k,
        {
            out.push(' ');
            assert(out@ =~= start + Seq::new((k + 1) as nat, |i: int| ' '));
            k = k + 1;
        }
    }
    push_all(out, s);
    assert(out@ =~= start + pad_left(s@, w as nat));
}

fn id_chars(o: Option<u32>) -> (r: Vec<char>)
    ensures
        r@ == id_text(o),
{
    match o {
        Some(u) => u64_to_dec(u as u64),
        None => chars_of("?"),
    }
}

/// One line of the client's `ls` output for `e`.
pub fn ls_line(e: &Entry) -> (r: String)
    ensures
        r@ == ls_line_spec(*e),
{
    let mut out = if e.is_dir {
        chars_of("d")
    } else {
        chars_of("-")
    };
    match &e.perms {
        Some(p) => push_str(&mut out, p.as_str()),
        None => push_str(&mut out, "?????????"),
    }
    push_str(&mut out, "  ");
    push_padded(&mut out, &id_chars(e.uid), 8);
    push_str(&mut out, " ");
    push_padded(&mut out, &id_chars(e.gid), 8);
    push_str(&mut out, " ");
    push_padded(&mut out, &u64_to_dec(e.size), 12);
    push_str(&mut out, " ");
    push_str(&mut out, e.name.as_str());
    string_of(out.as_slice())
}

/// `a` is listed before `b`: directories first, then by name.
pub open spec fn listed_before(a: Entry, b: Entry) -> bool {
    (a.is_dir && !b.is_dir) || (a.is_dir == b.is_dir && lex_lt(a.name@, b.name@))
}

/// Stable insertion of `x` into the ordered listing `s`.
pub open spec fn insert_listed(s: Seq<Entry>, x: Entry) -> Seq<Entry>
    decreases s.len(),
{
    if s.len() == 0 {
        seq![x]
    } else if listed_before(x, s.last()) {
        insert_listed(s.drop_last(), x).push(s.last())
    } else {
        s.push(x)
    }
}

/// The listing in `ls` order (a stable sort: directories first, by name).
pub open spec fn sort_listing(s: Seq<Entry>) -> Seq<Entry>
    decreases s.len(),
{
    if s.len() == 0 {
        Seq::empty()
    } else {
        insert_listed(sort_listing(s.drop_last()), s.last())
    }
}

proof fn lemma_insert_listed_at(s: Seq<Entry>, x: Entry, j: int)
    requires
        0 <= j <= s.len(),
        forall|i: int| j <= i < s.len() ==> listed_before(x, #[trigger] s[i]),
        j > 0 ==> !listed_before(x, s[j - 1]),
    ensures
        insert_listed(s, x) == s.subrange(0, j).push(x) + s.subrange(j, s.len() as int),
    decreases s.len(),
{
    if s.len() == 0 {
        assert(s.subrange(0, j).push(x) + s.subrange(j, s.len() as int) =~= seq![x]);
    } else if j == s.len() {
        assert(s.subrange(0, j).push(x) + s.subrange(j, s.len() as int) =~= s.push(x));
    } else {
        assert(listed_before(x, s.last()));
        let t = s.drop_last();
        assert forall|i: int| j <= i < t.len() implies listed_before(x, #[trigger] t[i]) by {
            assert(t[i] == s[i]);
        }
        if j > 0 {
            assert(t[j - 1] == s[j - 1]);
        }
        lemma_insert_listed_at(t, x, j);
        assert((t.subrange(0, j).push(x) + t.subrange(j, t.len() as int)).push(s.last()) =~= s.subrange(
            0,
            j,
        ).push(x) + s.subrange(j, s.len() as int));
    }
}

fn listed_before_exec(a: &Entry, b: &Entry) -> (r: bool)
    ensures
        r == listed_before(*a, *b),
{
    if a.is_dir != b.is_dir {
        a.is_dir
    } else {
        let x = chars_of(a.name.as_str());
        let y = chars_of(b.name.as_str());
        crate::sites::lex_less(&x, &y)
    }
}

/// Order a listing as `ls` prints it: directories first, then by name.
pub fn sort_entries(entries: Vec<Entry>) -> (r: Vec<Entry>)
    ensures
        r@ == sort_listing(entries@),
{
    let mut out: Vec<Entry> = Vec::new();
    let mut k: usize = 0;
    while k < entries.len()
        invariant
            k <= entries.len(),
            out@ == sort_listing(entries@.subrange(0, k as int)),
        decreases entries.len() - k,
    {
        let x = entries[k].duplicate();
        assert(entries@.subrange(0, k + 1).drop_last() =~= entries@.subrange(0, k as int));
        let mut j: usize = out.len();
        while j > 0 && listed_before_exec(&x, &out[j - 1])
            invariant
                j <= out@.len(),
                forall|i: int| j <= i < out@.len() ==> listed_before(x, #[trigger] out@[i]),
            decreases j,
        {
            j = j - 1;
        }
        proof {
            lemma_insert_listed_at(out@, x, j as int);
        }
        let ghost before = out@;
        out.insert(j, x);
        assert(out@ =~= before.subrange(0, j as int).push(x) + before.subrange(
            j as int,
            before.len() as int,
        ));
        k = k + 1;
    }
    assert(entries@.subrange(0, entries@.len() as int) =~= entries@);
    out
}

/// The parts `split_once` makes of text without `c` are without `c`.
proof fn lemma_split_parts_lack(s: Seq<char>, d: char, c: char)
    requires
        !crate::text::has_char(s, c),
    ensures
        split_once(s, d) matches Some((a, b)) ==> !crate::text::has_char(a, c) && !crate::text::has_char(b, c),
{
    crate::text::lemma_index_of(s, d);
    if let Some(i) = crate::text::index_of(s, d) {
        let a = s.subrange(0, i);
        let b = s.subrange(i + 1, s.len() as int);
        if crate::text::has_char(a, c) {
            let j = choose|j: int| 0 <= j < a.len() && a[j] == c;
            assert(s[j] == c);
        }
        if crate::text::has_char(b, c) {
            let j = choose|j: int| 0 <= j < b.len() && b[j] == c;
            assert(s[i + 1 + j] == c);
        }
    }
}

/// The search for `p` from `i` finds it at `j` when no earlier window can
/// start with its first character.
proof fn lemma_sub_index_walk(u: Seq<char>, p: Seq<char>, i: int, j: int)
    requires
        0 <= i <= j,
        p.len() > 0,
        j + p.len() <= u.len(),
        u.subrange(j, j + p.len()) == p,
        forall|k: int| i <= k < j ==> u[k] != p[0],
    ensures
        crate::text::sub_index_from(u, p, i) == Some(j),
    decreases j - i,
{
    if i < j {
        assert(u.subrange(i, i + p.len())[0] == u[i]);
        lemma_sub_index_walk(u, p, i + 1, j);
    }
}

/// A URL made of a known scheme without `:`, `://` and text without `:`
/// names that scheme's protocol on its default port.
proof fn lemma_url_default_port(scheme: Seq<char>, rest: Seq<char>, proto: Protocol)
    requires
        protocol_named(scheme) == Some(proto),
        !crate::text::has_char(scheme, ':'),
        !crate::text::has_char(rest, ':'),
    ensures
        url_view(scheme + "://"@ + rest) matches Ok(v) && v.protocol == proto && v.port == spec_default_port(proto),
{
    reveal_strlit("://");
    let sep = "://"@;
    let u = scheme + sep + rest;
    assert(u.subrange(scheme.len() as int, scheme.len() + 3int) =~= sep);
    assert forall|k: int| 0 <= k < scheme.len() implies u[k] != sep[0] by {
        assert(u[k] == scheme[k]);
    }
    lemma_sub_index_walk(u, sep, 0, scheme.len() as int);
    assert(u.subrange(0, scheme.len() as int) =~= scheme);
    assert(u.subrange(scheme.len() + 3int, u.len() as int) =~= rest);
    lemma_split_parts_lack(rest, '/', ':');
    let authority = authority_and_path(rest).0;
    assert(!crate::text::has_char(authority, ':'));
    lemma_split_parts_lack(authority, '@', ':');
    let hostport = user_and_hostport(authority).1;
    assert(!crate::text::has_char(hostport, ':'));
    crate::text::lemma_index_of(hostport, ':');
    assert(split_once(hostport, ':').is_none());
}

/// A URL that gives no port connects to its protocol's well-known port:
/// 22 (SSH) for `sftp://`, 21 for `ftp://` and `ftps://`, 443 (HTTPS) for
/// `s3://`, whatever host, user and path follow the scheme.
pub proof fn law_url_default_ports(rest: Seq<char>)
    requires
        !crate::text::has_char(rest, ':'),
    ensures
        url_view("sftp://"@ + rest) matches Ok(v) && v.protocol == Protocol::Sftp && v.port == 22,
        url_view("ftp://"@ + rest) matches Ok(v) && v.protocol == Protocol::Ftp && v.port == 21,
        url_view("ftps://"@ + rest) matches Ok(v) && v.protocol == Protocol::Ftps && v.port == 21,
        url_view("s3://"@ + rest) matches Ok(v) && v.protocol == Protocol::S3 && v.port == 443,
{
    reveal_strlit("://");
    reveal_strlit("sftp://");
    reveal_strlit("ftp://");
    reveal_strlit("ftps://");
    reveal_strlit("s3://");
    reveal_strlit("sftp");
    reveal_strlit("ftp");
    reveal_strlit("ftps");
    reveal_strlit("s3");
    assert("sftp://"@ + rest =~= "sftp"@ + "://"@ + rest);
    assert("ftp://"@ + rest =~= "ftp"@ + "://"@ + rest);
    assert("ftps://"@ + rest =~= "ftps"@ + "://"@ + rest);
    assert("s3://"@ + rest =~= "s3"@ + "://"@ + rest);
    assert("ftp"@ != "sftp"@);
    assert("ftps"@[0] != "sftp"@[0]);
    assert("ftps"@ != "sftp"@ && "ftps"@ != "ftp"@);
    assert("s3"@ != "sftp"@ && "s3"@ != "ftp"@ && "s3"@ != "ftps"@);
    lemma_url_default_port("sftp"@, rest, Protocol::Sftp);
    lemma_url_default_port("ftp"@, rest, Protocol::Ftp);
    lemma_url_default_port("ftps"@, rest, Protocol::Ftps);
    lemma_url_default_port("s3"@, rest, Protocol::S3);
}

/// Text made of two parts without `c` is without `c`.
proof fn lemma_concat_lacks(a: Seq<char>, b: Seq<char>, c: char)
    requires
        !crate::text::has_char(a, c),
        !crate::text::has_char(b, c),
    ensures
        !crate::text::has_char(a + b, c),
{
    if crate::text::has_char(a + b, c) {
        let j = choose|j: int| 0 <= j < (a + b).len() && (a + b)[j] == c;
        if j < a.len() {
            assert(a[j] == c);
        } else {
            assert(b[j - a.len()] == c);
        }
    }
}

/// Splitting at the first `d` after text without one.
proof fn lemma_split_first(k: Seq<char>, d: char, v: Seq<char>)
    requires
        !crate::text::has_char(k, d),
    ensures
        split_once(k + seq![d] + v, d) == Some((k, v)),
{
    let line = k + seq![d] + v;
    crate::text::lemma_index_of(line, d);
    assert(line[k.len() as int] == d);
    match crate::text::index_of(line, d) {
        Some(i) => {
            if i < k.len() {
                assert(k[i] == line[i]);
            }
            if i > k.len() {
                assert(line.subrange(0, i)[k.len() as int] == d);
            }
            assert(line.subrange(0, i) =~= k);
            assert(line.subrange(i + 1, line.len() as int) =~= v);
        },
        None => {},
    }
}

/// A URL that gives a port connects there: `scheme://user@host:port/path`
/// names that user, host and port, for every port number, where the user
/// holds no `@` or `/` and the host no `:`, `@` or `/`.
pub proof fn law_url_explicit_port(scheme: Seq<char>, user: Seq<char>, host: Seq<char>, port: u16, path: Seq<char>)
    requires
        protocol_named(scheme).is_some(),
        !crate::text::has_char(scheme, ':'),
        !crate::text::has_char(user, '@'),
        !crate::text::has_char(user, '/'),
        !crate::text::has_char(host, ':'),
        !crate::text::has_char(host, '@'),
        !crate::text::has_char(host, '/'),
    ensures
        url_view(scheme + "://"@ + user + seq!['@'] + host + seq![':'] + crate::text::dec(port as nat) + seq!['/'] + path)
            matches Ok(v) && v.user == user && v.host == host && v.port == port,
{
    reveal_strlit("://");
    let sep = "://"@;
    let num = crate::text::dec(port as nat);
    let hostport = host + seq![':'] + num;
    let authority = user + seq!['@'] + hostport;
    let rest = authority + seq!['/'] + path;
    let u = scheme + sep + rest;
    assert(scheme + "://"@ + user + seq!['@'] + host + seq![':'] + num + seq!['/'] + path =~= u);
    assert(u.subrange(scheme.len() as int, scheme.len() + 3int) =~= sep);
    assert forall|k: int| 0 <= k < scheme.len() implies u[k] != sep[0] by {
        assert(u[k] == scheme[k]);
    }
    lemma_sub_index_walk(u, sep, 0, scheme.len() as int);
    assert(u.subrange(0, scheme.len() as int) =~= scheme);
    assert(u.subrange(scheme.len() + 3int, u.len() as int) =~= rest);
    crate::text::lemma_dec_digits(port as nat);
    assert(!crate::text::has_char(num, '/')) by {
        if crate::text::has_char(num, '/') {
            let j = choose|j: int| 0 <= j < num.len() && num[j] == '/';
            assert(crate::text::is_digit(num[j]));
        }
    }
    assert(!crate::text::has_char(seq![':'], '/')) by {
        if crate::text::has_char(seq![':'], '/') {
            let j = choose|j: int| 0 <= j < 1 && seq![':'][j] == '/';
        }
    }
    assert(!crate::text::has_char(seq!['@'], '/')) by {
        if crate::text::has_char(seq!['@'], '/') {
            let j = choose|j: int| 0 <= j < 1 && seq!['@'][j] == '/';
        }
    }
    lemma_concat_lacks(host, seq![':'], '/');
    lemma_concat_lacks(host + seq![':'], num, '/');
    lemma_concat_lacks(user, seq!['@'], '/');
    lemma_concat_lacks(user + seq!['@'], hostport, '/');
    lemma_split_first(authority, '/', path);
    lemma_split_first(user, '@', hostport);
    lemma_split_first(host, ':', num);
    crate::text::law_parse_unsigned_dec(port as nat, 65535);
}

} // verus!
