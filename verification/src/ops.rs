//! Multi-file operations: exclusion masks, copy decisions, the sync planner,
//! recursive delete and recursive search, all expressed over the
//! [`Transport`] abstraction and its remote-filesystem model.

use vstd::prelude::*;

use crate::text::{chars_of, push_str, slice_vec, split_chars, split_on, str_eq, string_of, trim, trim_chars, views};
use vstd::utf8::encode_utf8;

use crate::transport::{
    outcome, CallKind, CallRecord, is_listing, lemma_child_below, lemma_child_subtree_smaller, reports, same_outside,
    strictly_below, submap, subtree_size, valid_name, within, RemoteNode, Transport,
};
use crate::types::{Entry, Error, Result};

verus! {

// ---------------------------------------------------------------------------
// Wildcard masks
// ---------------------------------------------------------------------------

/// ASCII lowercase of one byte (`u8::to_ascii_lowercase`).
pub open spec fn lower(b: u8) -> u8 {
    if 65 <= b <= 90 {
        (b + 32) as u8
    } else {
        b
    }
}

/// Case-insensitive `*`-wildcard match of `pat` against `name` (bytes).
pub open spec fn glob(pat: Seq<u8>, name: Seq<u8>) -> bool
    decreases pat.len(), name.len(),
{
    if pat.len() == 0 {
        name.len() == 0
    } else if pat[0] == 42u8 {
        glob(pat.drop_first(), name) || (name.len() > 0 && glob(pat, name.drop_first()))
    } else {
        name.len() > 0 && lower(name[0]) == lower(pat[0]) && glob(
            pat.drop_first(),
            name.drop_first(),
        )
    }
}

pub fn ascii_lower(b: u8) -> (r: u8)
    ensures
        r == lower(b),
{
    if 65 <= b && b <= 90 {
        b + 32
    } else {
        b
    }
}

fn glob_from(pat: &[u8], name: &[u8], i: usize, j: usize) -> (r: bool)
    requires
        i <= pat.len(),
        j <= name.len(),
    ensures
        r == glob(pat@.subrange(i as int, pat@.len() as int), name@.subrange(j as int, name@.len() as int)),
    decreases pat.len() - i, name.len() - j,
{
    let ghost p = pat@.subrange(i as int, pat@.len() as int);
    let ghost n = name@.subrange(j as int, name@.len() as int);
    if i == pat.len() {
        return j == name.len();
    }
    assert(p.drop_first() =~= pat@.subrange(i + 1, pat@.len() as int));
    if j < name.len() {
        assert(n.drop_first() =~= name@.subrange(j + 1, name@.len() as int));
    }
    if pat[i] == 42u8 {
        if glob_from(pat, name, i + 1, j) {
            return true;
        }
        j < name.len() && glob_from(pat, name, i, j + 1)
    } else {
        j < name.len() && ascii_lower(name[j]) == ascii_lower(pat[i]) && glob_from(
            pat,
            name,
            i + 1,
            j + 1,
        )
    }
}

/// Case-insensitive `*`-wildcard match.
pub fn glob_match(pat: &[u8], name: &[u8]) -> (r: bool)
    ensures
        r == glob(pat@, name@),
{
    assert(pat@.subrange(0, pat@.len() as int) =~= pat@);
    assert(name@.subrange(0, name@.len() as int) =~= name@);
    glob_from(pat, name, 0, 0)
}

/// ASCII lowercase of a byte string.
pub open spec fn lower_all(s: Seq<u8>) -> Seq<u8> {
    s.map_values(|b: u8| lower(b))
}

/// Masks ignore ASCII case: lowering the name never changes the verdict.
pub proof fn law_glob_ignores_case(pat: Seq<u8>, name: Seq<u8>)
    ensures
        glob(pat, name) == glob(pat, lower_all(name)),
    decreases pat.len(), name.len(),
{
    if pat.len() == 0 {
    } else if pat[0] == 42u8 {
        law_glob_ignores_case(pat.drop_first(), name);
        if name.len() > 0 {
            law_glob_ignores_case(pat, name.drop_first());
            assert(lower_all(name).drop_first() =~= lower_all(name.drop_first()));
        }
    } else if name.len() > 0 {
        law_glob_ignores_case(pat.drop_first(), name.drop_first());
        assert(lower_all(name).drop_first() =~= lower_all(name.drop_first()));
    }
}

/// Masks concatenate: where `a` matches `x` and `b` matches `w`, `a`
/// followed by `b` matches `x` followed by `w`.
pub proof fn law_glob_concat(a: Seq<u8>, x: Seq<u8>, b: Seq<u8>, w: Seq<u8>)
    requires
        glob(a, x),
        glob(b, w),
    ensures
        glob(a + b, x + w),
    decreases a.len(), x.len(),
{
    let ab = a + b;
    if a.len() == 0 {
        assert(ab =~= b);
        assert(x + w =~= w);
    } else if a[0] == 42u8 {
        assert(ab[0] == 42u8);
        assert(ab.drop_first() =~= a.drop_first() + b);
        if glob(a.drop_first(), x) {
            law_glob_concat(a.drop_first(), x, b, w);
        } else {
            law_glob_concat(a, x.drop_first(), b, w);
            assert((x + w).drop_first() =~= x.drop_first() + w);
        }
    } else {
        law_glob_concat(a.drop_first(), x.drop_first(), b, w);
        assert(ab[0] == a[0]);
        assert(ab.drop_first() =~= a.drop_first() + b);
        assert((x + w)[0] == x[0]);
        assert((x + w).drop_first() =~= x.drop_first() + w);
    }
}

/// A leading `*` takes any run of characters before what the rest matches.
proof fn lemma_star_run(c: Seq<u8>, y: Seq<u8>, z: Seq<u8>)
    requires
        glob(c, z),
    ensures
        glob(seq![42u8] + c, y + z),
    decreases y.len(),
{
    let p = seq![42u8] + c;
    assert(p[0] == 42u8);
    assert(p.drop_first() =~= c);
    if y.len() == 0 {
        assert(y + z =~= z);
    } else {
        lemma_star_run(c, y.drop_first(), z);
        assert((y + z).drop_first() =~= y.drop_first() + z);
    }
}

/// `*` stands for any run of characters: where `a` matches `x` and `c`
/// matches `z`, the mask `a*c` matches `x`, then anything, then `z`.
/// (So `*.gz` matches `backup.tar.gz`, and `*.log` matches `app.2026.log`.)
pub proof fn law_star_matches_any_run(a: Seq<u8>, x: Seq<u8>, y: Seq<u8>, c: Seq<u8>, z: Seq<u8>)
    requires
        glob(a, x),
        glob(c, z),
    ensures
        glob(a + seq![42u8] + c, x + y + z),
{
    lemma_star_run(c, y, z);
    law_glob_concat(a, x, seq![42u8] + c, y + z);
    assert(a + seq![42u8] + c =~= a + (seq![42u8] + c));
    assert(x + y + z =~= x + (y + z));
}

/// A leading `*` matches a name exactly when the rest of the mask matches
/// some tail of it: the `*` takes the characters before that tail, and
/// nothing else.
pub proof fn law_leading_star(c: Seq<u8>, n: Seq<u8>)
    ensures
        glob(seq![42u8] + c, n) == exists|k: int| 0 <= k <= n.len() && #[trigger] glob(c, n.subrange(k, n.len() as int)),
    decreases n.len(),
{
    let p = seq![42u8] + c;
    assert(p[0] == 42u8);
    assert(p.drop_first() =~= c);
    if glob(p, n) {
        if glob(c, n) {
            assert(n.subrange(0, n.len() as int) =~= n);
            assert(glob(c, n.subrange(0, n.len() as int)));
        } else {
            let m = n.drop_first();
            law_leading_star(c, m);
            let k = choose|k: int| 0 <= k <= m.len() && #[trigger] glob(c, m.subrange(k, m.len() as int));
            assert(n.subrange(k + 1, n.len() as int) =~= m.subrange(k, m.len() as int));
            assert(glob(c, n.subrange(k + 1, n.len() as int)));
        }
    }
    if exists|k: int| 0 <= k <= n.len() && #[trigger] glob(c, n.subrange(k, n.len() as int)) {
        let k = choose|k: int| 0 <= k <= n.len() && #[trigger] glob(c, n.subrange(k, n.len() as int));
        lemma_star_run(c, n.subrange(0, k), n.subrange(k, n.len() as int));
        assert(n.subrange(0, k) + n.subrange(k, n.len() as int) =~= n);
    }
}

/// A lone `*` matches every name.
pub proof fn law_star_matches_all(name: Seq<u8>)
    ensures
        glob(seq![42u8], name),
    decreases name.len(),
{
    let p = seq![42u8];
    assert(p.drop_first() =~= Seq::<u8>::empty());
    assert(p.len() == 1 && p[0] == 42u8);
    if name.len() > 0 {
        law_star_matches_all(name.drop_first());
        assert(glob(p, name.drop_first()));
    } else {
        assert(glob(Seq::<u8>::empty(), name));
    }
    assert(glob(p, name) == (glob(p.drop_first(), name) || (name.len() > 0 && glob(
        p,
        name.drop_first(),
    ))));
}

/// A mask without `*` matches exactly the names equal to it up to ASCII case.
pub proof fn law_literal_mask(pat: Seq<u8>, name: Seq<u8>)
    requires
        forall|i: int| 0 <= i < pat.len() ==> pat[i] != 42u8,
    ensures
        glob(pat, name) == (lower_all(pat) == lower_all(name)),
    decreases pat.len(),
{
    if pat.len() == 0 {
        if name.len() > 0 {
            assert(lower_all(name).len() > 0);
        }
        assert(lower_all(pat) =~= Seq::<u8>::empty());
        if name.len() == 0 {
            assert(lower_all(name) =~= Seq::<u8>::empty());
        }
    } else {
        if name.len() > 0 {
            law_literal_mask(pat.drop_first(), name.drop_first());
            assert(lower_all(pat) =~= seq![lower(pat[0])] + lower_all(pat.drop_first()));
            assert(lower_all(name) =~= seq![lower(name[0])] + lower_all(name.drop_first()));
            if lower_all(pat) == lower_all(name) {
                assert(lower_all(pat)[0] == lower_all(name)[0]);
                assert(lower_all(pat.drop_first()) =~= lower_all(pat).drop_first());
                assert(lower_all(name.drop_first()) =~= lower_all(name).drop_first());
            }
        } else {
            assert(lower_all(name).len() == 0);
        }
    }
}

/// One mask of a filter: the pattern and whether it applies to directories only.
pub open spec fn mask_of(t: Seq<char>) -> (Seq<char>, bool) {
    if t.len() > 0 && t.last() == '/' {
        (t.drop_last(), true)
    } else {
        (t, false)
    }
}

/// The masks of a `;`-separated specification, pieces taken left to right:
/// each piece trimmed, empty pieces dropped, a trailing `/` marking a
/// directory-only mask.
pub open spec fn masks_of(pieces: Seq<Seq<char>>) -> Seq<(Seq<char>, bool)>
    decreases pieces.len(),
{
    if pieces.len() == 0 {
        Seq::empty()
    } else {
        let rest = masks_of(pieces.drop_last());
        let t = trim(pieces.last());
        if t.len() == 0 {
            rest
        } else {
            rest.push(mask_of(t))
        }
    }
}

/// The masks `Filter::parse` builds from a specification string.
pub open spec fn parse_filter(spec: Seq<char>) -> Seq<(Seq<char>, bool)> {
    masks_of(split_on(spec, ';'))
}

/// Splitting at a joining separator splits each side.
proof fn lemma_split_join(a: Seq<char>, b: Seq<char>, d: char)
    ensures
        split_on(a + seq![d] + b, d) =~= split_on(a, d) + split_on(b, d),
    decreases b.len(),
{
    let s = a + seq![d] + b;
    if b.len() == 0 {
        assert(s =~= a.push(d));
        assert(s.drop_last() =~= a);
    } else {
        let bp = b.drop_last();
        assert(s.drop_last() =~= a + seq![d] + bp);
        assert(s.last() == b.last());
        lemma_split_join(a, bp, d);
        crate::text::lemma_split_nonempty(bp, d);
        crate::text::lemma_split_nonempty(a, d);
    }
}

/// The masks of two lists of pieces are those of each.
proof fn lemma_masks_concat(p: Seq<Seq<char>>, q: Seq<Seq<char>>)
    ensures
        masks_of(p + q) =~= masks_of(p) + masks_of(q),
    decreases q.len(),
{
    if q.len() == 0 {
        assert(p + q =~= p);
    } else {
        assert((p + q).drop_last() =~= p + q.drop_last());
        assert((p + q).last() == q.last());
        lemma_masks_concat(p, q.drop_last());
    }
}

/// Joining two mask specifications with `;` excludes exactly what either
/// excludes.
pub proof fn law_filter_union(a: Seq<char>, b: Seq<char>, name: Seq<char>, is_dir: bool)
    ensures
        excluded(parse_filter(a + seq![';'] + b), name, is_dir) == (excluded(parse_filter(a), name, is_dir)
            || excluded(parse_filter(b), name, is_dir)),
{
    lemma_split_join(a, b, ';');
    lemma_masks_concat(split_on(a, ';'), split_on(b, ';'));
    let ma = parse_filter(a);
    let mb = parse_filter(b);
    let m = parse_filter(a + seq![';'] + b);
    assert(m =~= ma + mb);
    if excluded(m, name, is_dir) {
        let i = choose|i: int| 0 <= i < m.len() && mask_excludes(m[i], name, is_dir);
        if i < ma.len() {
            assert(m[i] == ma[i]);
        } else {
            assert(m[i] == mb[i - ma.len()]);
        }
    }
    if excluded(ma, name, is_dir) {
        let i = choose|i: int| 0 <= i < ma.len() && mask_excludes(ma[i], name, is_dir);
        assert(m[i] == ma[i]);
    }
    if excluded(mb, name, is_dir) {
        let i = choose|i: int| 0 <= i < mb.len() && mask_excludes(mb[i], name, is_dir);
        assert(m[ma.len() + i] == mb[i]);
    }
}

/// A trailing `/` makes a mask apply to directories only: such a mask never
/// excludes a file, and excludes a directory exactly when its pattern
/// matches the name; a mask without it applies to files and directories
/// alike.
pub proof fn law_dir_only_masks(t: Seq<char>, name: Seq<char>, is_dir: bool)
    ensures
        mask_of(t.push('/')) == (t, true),
        !mask_excludes(mask_of(t.push('/')), name, false),
        mask_excludes(mask_of(t.push('/')), name, true) == glob(encode_utf8(t), encode_utf8(name)),
        (t.len() == 0 || t.last() != '/') ==> mask_of(t) == (t, false),
        (t.len() == 0 || t.last() != '/') ==> mask_excludes(mask_of(t), name, is_dir) == glob(
            encode_utf8(t),
            encode_utf8(name),
        ),
{
    assert(t.push('/').drop_last() =~= t);
}

/// Exclusion masks for multi-file operations, WinSCP-style:
/// `"*.tmp; .git/; node_modules/"`: `;`-separated, `*` wildcards, a trailing
/// `/` restricts the pattern to directories.
#[derive(Debug, Clone, Default)]
pub struct Filter {
    patterns: Vec<(String, bool)>,
}

impl View for Filter {
    type V = Seq<(Seq<char>, bool)>;

    closed spec fn view(&self) -> Seq<(Seq<char>, bool)> {
        self.patterns@.map_values(|p: (String, bool)| (p.0@, p.1))
    }
}

/// Does mask `m` exclude an entry called `name`?
pub open spec fn mask_excludes(m: (Seq<char>, bool), name: Seq<char>, is_dir: bool) -> bool {
    (!m.1 || is_dir) && glob(encode_utf8(m.0), encode_utf8(name))
}

/// Do any of `masks` exclude an entry called `name`?
pub open spec fn excluded(masks: Seq<(Seq<char>, bool)>, name: Seq<char>, is_dir: bool) -> bool {
    exists|i: int| 0 <= i < masks.len() && mask_excludes(masks[i], name, is_dir)
}

impl Filter {
    pub fn parse(spec: &str) -> (r: Self)
        ensures
            r@ == parse_filter(spec@),
    {
        let cs = chars_of(spec);
        let pieces = split_chars(&cs, ';');
        let mut patterns: Vec<(String, bool)> = Vec::new();
        let mut k: usize = 0;
        while k < pieces.len()
            invariant
                k <= pieces.len(),
                patterns@.map_values(|p: (String, bool)| (p.0@, p.1)) == masks_of(
                    views(pieces@).subrange(0, k as int),
                ),
            decreases pieces.len() - k,
        {
            let ghost pre = views(pieces@).subrange(0, k as int);
            let ghost nxt = views(pieces@).subrange(0, k + 1);
            assert(nxt.drop_last() =~= pre);
            assert(nxt.last() == pieces@[k as int]@);
            let t = trim_chars(&pieces[k]);
            if t.len() > 0 {
                let ghost before = patterns@;
                if t[t.len() - 1] == '/' {
                    let body = slice_vec(&t, 0, t.len() - 1);
                    patterns.push((string_of(body.as_slice()), true));
                    assert(body@ =~= t@.drop_last());
                } else {
                    patterns.push((string_of(t.as_slice()), false));
                }
                assert(patterns@.map_values(|p: (String, bool)| (p.0@, p.1)) =~= before.map_values(
                    |p: (String, bool)| (p.0@, p.1),
                ).push(mask_of(t@)));
            }
            k = k + 1;
        }
        assert(views(pieces@).subrange(0, pieces@.len() as int) =~= views(pieces@));
        Filter { patterns }
    }

    pub fn empty() -> (r: Self)
        ensures
            r@ == Seq::<(Seq<char>, bool)>::empty(),
    {
        let r = Filter { patterns: Vec::new() };
        assert(r@ =~= Seq::<(Seq<char>, bool)>::empty());
        r
    }

    /// True when `name` should be skipped.
    pub fn excludes(&self, name: &str, is_dir: bool) -> (r: bool)
        ensures
            r == excluded(self@, name@, is_dir),
    {
        let nb = name.as_bytes();
        let mut k: usize = 0;
        while k < self.patterns.len()
            invariant
                k <= self.patterns.len(),
                nb@ == encode_utf8(name@),
                forall|i: int| 0 <= i < k ==> !mask_excludes(#[trigger] self@[i], name@, is_dir),
            decreases self.patterns.len() - k,
        {
            let dir_only = self.patterns[k].1;
            let pb = self.patterns[k].0.as_str().as_bytes();
            assert(self@[k as int] == (self.patterns@[k as int].0@, self.patterns@[k as int].1));
            if (!dir_only || is_dir) && glob_match(pb, nb) {
                return true;
            }
            k = k + 1;
        }
        false
    }
}

// ---------------------------------------------------------------------------
// Progress events and temporary upload names
// ---------------------------------------------------------------------------

/// Events emitted while a multi-file operation runs.
#[derive(Debug, Clone, Copy)]
pub enum XferEvent<'a> {
    /// About to transfer a file. `download` says which way the bytes flow.
    Start { name: &'a str, total: u64, download: bool },
    /// Byte progress for the file announced by the last `Start`.
    Bytes { done: u64, total: u64 },
    /// The file announced by the last `Start` finished.
    DoneFile,
}

/// The sibling temporary name an atomic upload of `remote` streams into:
/// `<dir>/.<name>.scp-part.<pid>.<n>`, with the process id and a counter
/// that make it unique.
pub open spec fn temp_name_spec(remote: Seq<char>, pid: u32, n: u64) -> Seq<char> {
    let (dir, base) = match crate::text::rindex_of(remote, '/') {
        Some(i) => (remote.subrange(0, i + 1), remote.subrange(i + 1, remote.len() as int)),
        None => (Seq::empty(), remote),
    };
    dir + "."@ + base + ".scp-part."@ + crate::text::dec(pid as nat) + "."@ + crate::text::dec(
        n as nat,
    )
}

/// A sibling temporary path for `remote` used while an atomic upload is in
/// flight; `pid` and `n` (the process id and a per-process counter) keep it
/// unique.
pub fn upload_temp_name(remote: &str, pid: u32, n: u64) -> (r: String)
    ensures
        r@ == temp_name_spec(remote@, pid, n),
{
    let cs = chars_of(remote);
    let mut out: Vec<char> = Vec::new();
    let base = match crate::text::rfind_char(&cs, '/') {
        Some(i) => {
            let dir = slice_vec(&cs, 0, i + 1);
            crate::text::push_all(&mut out, &dir);
            slice_vec(&cs, i + 1, cs.len())
        },
        None => {
            assert(cs@.subrange(0, cs@.len() as int) =~= cs@);
            slice_vec(&cs, 0, cs.len())
        },
    };
    push_str(&mut out, ".");
    crate::text::push_all(&mut out, &base);
    push_str(&mut out, ".scp-part.");
    crate::text::push_all(&mut out, &crate::text::u64_to_dec(pid as u64));
    push_str(&mut out, ".");
    crate::text::push_all(&mut out, &crate::text::u64_to_dec(n));
    string_of(out.as_slice())
}

// ---------------------------------------------------------------------------
// Copy decisions
// ---------------------------------------------------------------------------

/// What to do when a recursive folder transfer reaches a file that already
/// exists at the destination. Chosen once for the whole operation.
#[derive(Debug, Clone, Copy, PartialEq, Eq, Structural)]
pub enum OverwritePolicy {
    /// Always overwrite (the default).
    Overwrite,
    /// Never overwrite: copy only files missing at the destination.
    Skip,
    /// Overwrite only when the source differs in size or is newer.
    OnlyNewer,
}

impl OverwritePolicy {
    /// Map a UI integer code to a policy (unknown codes mean Overwrite).
    pub fn from_code(code: i32) -> (r: Self)
        ensures
            r == (if code == 1 {
                OverwritePolicy::Skip
            } else if code == 2 {
                OverwritePolicy::OnlyNewer
            } else {
                OverwritePolicy::Overwrite
            }),
    {
        match code {
            1 => OverwritePolicy::Skip,
            2 => OverwritePolicy::OnlyNewer,
            _ => OverwritePolicy::Overwrite,
        }
    }

    /// The default policy.
    pub fn default_policy() -> (r: Self)
        ensures
            r == OverwritePolicy::Overwrite,
    {
        OverwritePolicy::Overwrite
    }
}

/// Direction of a sync.
#[derive(Debug, Clone, Copy, PartialEq, Eq, Structural)]
pub enum SyncDirection {
    /// Local is the source of truth; copy missing/changed files to the server.
    Upload,
    /// Remote is the source of truth; copy missing/changed files locally.
    Download,
}

/// Extra flags for sync operations.
#[derive(Debug, Default, Clone, Copy)]
pub struct SyncOptions {
    /// Mirror mode: delete destination files that have no source counterpart.
    pub delete: bool,
}

/// Counters of a finished sync.
#[derive(Debug, Default, Clone, Copy)]
pub struct SyncStats {
    pub copied: usize,
    pub skipped: usize,
    pub bytes: u64,
}

/// Why a file of a sync plan would be copied.
#[derive(Debug, Clone, Copy, PartialEq, Eq, Structural)]
pub enum PlanReason {
    Missing,
    SizeDiffers,
    Newer,
}

impl PlanReason {
    pub fn label(&self) -> (r: &'static str)
        ensures
            r@ == match *self {
                PlanReason::Missing => "missing"@,
                PlanReason::SizeDiffers => "size differs"@,
                PlanReason::Newer => "newer"@,
            },
    {
        match self {
            PlanReason::Missing => "missing",
            PlanReason::SizeDiffers => "size differs",
            PlanReason::Newer => "newer",
        }
    }
}

/// A source file's mtime is "newer" only beyond a 2-second tolerance, which
/// absorbs filesystem timestamp granularity.
pub open spec fn newer(src: Option<i64>, dst: Option<i64>) -> bool {
    match (src, dst) {
        (Some(s), Some(d)) => s > d + 2,
        _ => false,
    }
}

/// Why a file would be copied, or None when the destination is up to date.
pub open spec fn spec_copy_reason(
    src_size: u64,
    src_mtime: Option<i64>,
    dst: Option<(u64, Option<i64>)>,
) -> Option<PlanReason> {
    match dst {
        None => Some(PlanReason::Missing),
        Some((dst_size, dst_mtime)) => if src_size != dst_size {
            Some(PlanReason::SizeDiffers)
        } else if newer(src_mtime, dst_mtime) {
            Some(PlanReason::Newer)
        } else {
            None
        },
    }
}

/// Copy decision: missing destination, size difference, or newer source.
pub open spec fn spec_needs_copy(
    src_size: u64,
    src_mtime: Option<i64>,
    dst: Option<(u64, Option<i64>)>,
) -> bool {
    match dst {
        None => true,
        Some((dst_size, dst_mtime)) => src_size != dst_size || newer(src_mtime, dst_mtime),
    }
}

fn is_newer(src: Option<i64>, dst: Option<i64>) -> (r: bool)
    ensures
        r == newer(src, dst),
{
    match (src, dst) {
        (Some(s), Some(d)) => (s as i128) > (d as i128) + 2,
        _ => false,
    }
}

pub fn copy_reason(src_size: u64, src_mtime: Option<i64>, dst: Option<(u64, Option<i64>)>) -> (r:
    Option<PlanReason>)
    ensures
        r == spec_copy_reason(src_size, src_mtime, dst),
{
    match dst {
        None => Some(PlanReason::Missing),
        Some((dst_size, dst_mtime)) => {
            if src_size != dst_size {
                Some(PlanReason::SizeDiffers)
            } else if is_newer(src_mtime, dst_mtime) {
                Some(PlanReason::Newer)
            } else {
                None
            }
        },
    }
}

pub fn needs_copy(src_size: u64, src_mtime: Option<i64>, dst: Option<(u64, Option<i64>)>) -> (r:
    bool)
    ensures
        r == spec_needs_copy(src_size, src_mtime, dst),
{
    match dst {
        None => true,
        Some((dst_size, dst_mtime)) => src_size != dst_size || is_newer(src_mtime, dst_mtime),
    }
}

/// The planner and the sync engine agree: a file is planned exactly when
/// the sync would copy it.
pub proof fn law_plan_agrees_with_sync(
    src_size: u64,
    src_mtime: Option<i64>,
    dst: Option<(u64, Option<i64>)>,
)
    ensures
        spec_copy_reason(src_size, src_mtime, dst).is_some() == spec_needs_copy(
            src_size,
            src_mtime,
            dst,
        ),
{
}

/// A second sync finds nothing to do: once a file is copied with its size
/// and mtime, it no longer needs copying.
pub proof fn law_copied_file_is_up_to_date(size: u64, mtime: Option<i64>)
    ensures
        !spec_needs_copy(size, mtime, Some((size, mtime))),
        spec_copy_reason(size, mtime, Some((size, mtime))).is_none(),
{
}

/// Per-file copy decision of a folder transfer under an overwrite policy.
pub open spec fn spec_policy_allows(
    policy: OverwritePolicy,
    src_size: u64,
    src_mtime: Option<i64>,
    dst: Option<(u64, Option<i64>)>,
) -> bool {
    match policy {
        OverwritePolicy::Overwrite => true,
        OverwritePolicy::Skip => dst.is_none(),
        OverwritePolicy::OnlyNewer => spec_needs_copy(src_size, src_mtime, dst),
    }
}

pub fn policy_allows(
    policy: OverwritePolicy,
    src_size: u64,
    src_mtime: Option<i64>,
    dst: Option<(u64, Option<i64>)>,
) -> (r: bool)
    ensures
        r == spec_policy_allows(policy, src_size, src_mtime, dst),
{
    match policy {
        OverwritePolicy::Overwrite => true,
        OverwritePolicy::Skip => dst.is_none(),
        OverwritePolicy::OnlyNewer => needs_copy(src_size, src_mtime, dst),
    }
}

/// Every policy copies a file that is missing at the destination, and
/// `Skip` never replaces an existing one.
pub proof fn law_policies_on_missing_and_existing(
    policy: OverwritePolicy,
    src_size: u64,
    src_mtime: Option<i64>,
    dst: (u64, Option<i64>),
)
    ensures
        spec_policy_allows(policy, src_size, src_mtime, None),
        !spec_policy_allows(OverwritePolicy::Skip, src_size, src_mtime, Some(dst)),
        spec_policy_allows(OverwritePolicy::Overwrite, src_size, src_mtime, Some(dst)),
{
}

/// The copy rule over all inputs: a missing destination is copied, a
/// destination of another size is copied, and at the same size a source
/// modified more than 2 seconds after the destination is copied as newer,
/// while one that is not (older, the same, or within the 2-second
/// tolerance) is left alone, as is a file with either time unknown.
pub proof fn law_copy_rule(size: u64, other: u64, s: i64, d: i64, sm: Option<i64>, dm: Option<i64>)
    ensures
        spec_needs_copy(size, sm, None),
        spec_copy_reason(size, sm, None) == Some(PlanReason::Missing),
        size != other ==> spec_needs_copy(size, sm, Some((other, dm))),
        size != other ==> spec_copy_reason(size, sm, Some((other, dm))) == Some(PlanReason::SizeDiffers),
        s > d + 2 ==> spec_needs_copy(size, Some(s), Some((size, Some(d)))),
        s > d + 2 ==> spec_copy_reason(size, Some(s), Some((size, Some(d)))) == Some(PlanReason::Newer),
        s <= d + 2 ==> !spec_needs_copy(size, Some(s), Some((size, Some(d)))),
        s <= d + 2 ==> spec_copy_reason(size, Some(s), Some((size, Some(d)))).is_none(),
        !spec_needs_copy(size, None, Some((size, dm))),
        !spec_needs_copy(size, sm, Some((size, None))),
{
}

/// The overwrite policies over all inputs: every policy copies onto a
/// missing destination; over an existing one, Overwrite always copies, Skip
/// never does, and OnlyNewer copies exactly when the sizes differ or the
/// source is more than 2 seconds newer.
pub proof fn law_overwrite_policies(size: u64, other: u64, s: i64, d: i64, sm: Option<i64>, dm: Option<i64>)
    ensures
        spec_policy_allows(OverwritePolicy::Overwrite, size, sm, None),
        spec_policy_allows(OverwritePolicy::Skip, size, sm, None),
        spec_policy_allows(OverwritePolicy::OnlyNewer, size, sm, None),
        spec_policy_allows(OverwritePolicy::Overwrite, size, sm, Some((other, dm))),
        !spec_policy_allows(OverwritePolicy::Skip, size, sm, Some((other, dm))),
        size != other ==> spec_policy_allows(OverwritePolicy::OnlyNewer, size, sm, Some((other, dm))),
        s > d + 2 ==> spec_policy_allows(OverwritePolicy::OnlyNewer, size, Some(s), Some((size, Some(d)))),
        s <= d + 2 ==> !spec_policy_allows(OverwritePolicy::OnlyNewer, size, Some(s), Some((size, Some(d)))),
        !spec_policy_allows(OverwritePolicy::OnlyNewer, size, sm, Some((size, None))),
{
}

// ---------------------------------------------------------------------------
// Paths
// ---------------------------------------------------------------------------

/// The directory prefix children of `base` share: `base` itself when it
/// already ends in `/`, otherwise `base` followed by `/`.
pub open spec fn dir_prefix(base: Seq<char>) -> Seq<char> {
    if base.len() > 0 && base.last() == '/' {
        base
    } else {
        base.push('/')
    }
}

/// `base/name`, without doubling a trailing slash.
pub open spec fn join_path(base: Seq<char>, name: Seq<char>) -> Seq<char> {
    dir_prefix(base) + name
}

pub fn join(base: &str, name: &str) -> (r: String)
    ensures
        r@ == join_path(base@, name@),
{
    let mut v = chars_of(base);
    if !(v.len() > 0 && v[v.len() - 1] == '/') {
        v.push('/');
    }
    push_str(&mut v, name);
    string_of(v.as_slice())
}

// ---------------------------------------------------------------------------
// Recursive delete
// ---------------------------------------------------------------------------

/// Recursively delete a remote directory. Symlinks are unlinked, never
/// followed: recursing through a link would delete the target's contents.
///
/// Whatever happens, only paths at or inside `path` are removed and nothing
/// is created; on success `path` and everything below it are gone. On a
/// session that keeps its record of calls: every listing is of `path` or of
/// a directory reached from it through real directories only, every
/// deletion is at or inside `path`, the run stops at the first failed call
/// and returns its error, it succeeds exactly when every call succeeded, and
/// a success ends with the removal of `path` itself.
pub fn remove_dir_all<T: Transport + ?Sized>(t: &mut T, path: &str) -> (r: Result<()>)
    ensures
        submap(final(t).tree(), old(t).tree()),
        same_outside(old(t).tree(), final(t).tree(), path@),
        r is Ok ==> !final(t).tree().contains_key(path@),
        r is Ok ==> forall|n: Seq<char>|
            valid_name(n) ==> !(#[trigger] final(t).tree().contains_key(join_path(path@, n))),
        r is Ok ==> forall|names: Seq<Seq<char>>|
            #[trigger] dir_chain(old(t).tree(), path@, names) ==> !final(t).tree().contains_key(
                path_of(path@, names),
            ),
        final(t).keeps_record() == old(t).keeps_record(),
        old(t).keeps_record() ==> extends_calls(final(t).calls(), old(t).calls()),
        old(t).keeps_record() ==> run_outcome(calls_since(old(t).calls(), final(t).calls()), r),
        old(t).keeps_record() ==> delete_calls_ok(
            old(t).tree(),
            path@,
            calls_since(old(t).calls(), final(t).calls()),
        ),
        old(t).keeps_record() && r is Ok ==> calls_since(old(t).calls(), final(t).calls()).last() == (
            CallKind::RemoveDir,
            path@,
            None::<Error>,
        ),
{
    let ghost fuel = subtree_size(t.tree(), path@) + 1;
    let ghost t0 = t.tree();
    let r = remove_tree(t, path, Ghost(fuel));
    proof {
        if r is Ok {
            assert forall|n: Seq<char>| valid_name(n) implies !(#[trigger] t.tree().contains_key(
                join_path(path@, n),
            )) by {
                let names = seq![n];
                assert(dir_chain(t0, path@, names));
                assert(path_of(path@, names) == join_path(path@, n));
            }
        }
    }
    r
}

/// `after` is `before` with more calls appended.
pub open spec fn extends_calls(after: Seq<CallRecord>, before: Seq<CallRecord>) -> bool {
    before.len() <= after.len() && after.subrange(0, before.len() as int) == before
}

/// The calls appended to `before` to give `after`.
pub open spec fn calls_since(before: Seq<CallRecord>, after: Seq<CallRecord>) -> Seq<CallRecord> {
    after.subrange(before.len() as int, after.len() as int)
}

/// Every call in `cs` succeeded.
pub open spec fn all_ok(cs: Seq<CallRecord>) -> bool {
    forall|i: int| 0 <= i < cs.len() ==> (#[trigger] cs[i]).2.is_none()
}

/// A run of calls that stops at the first failure: on success every call
/// succeeded; on an error, every call but the last succeeded and the last
/// returned that error.
pub open spec fn run_outcome(cs: Seq<CallRecord>, r: Result<()>) -> bool {
    match r {
        Ok(_) => all_ok(cs),
        Err(e) => cs.len() > 0 && all_ok(cs.drop_last()) && cs.last().2 == Some(e),
    }
}

/// The calls of a recursive delete of `root`: every listing is of `root` or
/// of a directory reached from it through real directories (never through
/// a link), and every deletion is of a path at or inside `root`.
pub open spec fn delete_calls_ok(tree: Map<Seq<char>, RemoteNode>, root: Seq<char>, cs: Seq<CallRecord>) -> bool {
    forall|i: int|
        0 <= i < cs.len() ==> if (#[trigger] cs[i]).0 == CallKind::List {
            exists|names: Seq<Seq<char>>| reached(tree, root, names, cs[i].1)
        } else {
            within(root, cs[i].1)
        }
}

/// Appending runs of calls.
proof fn lemma_calls_concat(a: Seq<CallRecord>, b: Seq<CallRecord>, c: Seq<CallRecord>)
    requires
        extends_calls(b, a),
        extends_calls(c, b),
    ensures
        extends_calls(c, a),
        calls_since(a, c) =~= calls_since(a, b) + calls_since(b, c),
{
    assert(c.subrange(0, a.len() as int) =~= c.subrange(0, b.len() as int).subrange(0, a.len() as int));
}

/// A real path of a smaller tree is one of the larger.
proof fn lemma_real_path_submap(
    small: Map<Seq<char>, RemoteNode>,
    big: Map<Seq<char>, RemoteNode>,
    dir: Seq<char>,
    filter: Seq<(Seq<char>, bool)>,
    names: Seq<Seq<char>>,
)
    requires
        submap(small, big),
        real_dir_path(small, dir, filter, names),
    ensures
        real_dir_path(big, dir, filter, names),
    decreases names.len(),
{
    if names.len() > 1 {
        lemma_real_path_submap(small, big, join_path(dir, names[0]), filter, names.drop_first());
    }
}

/// One more call.
proof fn lemma_push_call(a: Seq<CallRecord>, x: CallRecord)
    ensures
        extends_calls(a.push(x), a),
        calls_since(a, a.push(x)) =~= seq![x],
{
    assert(a.push(x).subrange(0, a.len() as int) =~= a);
}

/// A run that succeeded so far, followed by one more run.
proof fn lemma_run_concat(prior: Seq<CallRecord>, added: Seq<CallRecord>, r: Result<()>)
    requires
        all_ok(prior),
        run_outcome(added, r),
    ensures
        run_outcome(prior + added, r),
{
    let all = prior + added;
    if r is Ok {
        assert forall|j: int| 0 <= j < all.len() implies (#[trigger] all[j]).2.is_none() by {
            if j < prior.len() {
                assert(all[j] == prior[j]);
            } else {
                assert(all[j] == added[j - prior.len()]);
            }
        }
    } else {
        assert(all.drop_last() =~= prior + added.drop_last());
        let d = all.drop_last();
        assert forall|j: int| 0 <= j < d.len() implies (#[trigger] d[j]).2.is_none() by {
            if j < prior.len() {
                assert(d[j] == prior[j]);
            } else {
                assert(d[j] == added.drop_last()[j - prior.len()]);
            }
        }
        assert(all.last() == added.last());
    }
}

/// Two runs of calls of one delete.
proof fn lemma_delete_calls_concat(
    t0: Map<Seq<char>, RemoteNode>,
    path: Seq<char>,
    a: Seq<CallRecord>,
    b: Seq<CallRecord>,
)
    requires
        delete_calls_ok(t0, path, a),
        delete_calls_ok(t0, path, b),
    ensures
        delete_calls_ok(t0, path, a + b),
{
    let all = a + b;
    assert forall|j: int| 0 <= j < all.len() implies (if (#[trigger] all[j]).0 == CallKind::List {
        exists|names: Seq<Seq<char>>| reached(t0, path, names, all[j].1)
    } else {
        within(path, all[j].1)
    }) by {
        if j < a.len() {
            assert(all[j] == a[j]);
        } else {
            assert(all[j] == b[j - a.len()]);
        }
    }
}

/// The calls of deleting a real subdirectory are calls of deleting its
/// parent.
proof fn lemma_delete_calls_child(
    t0: Map<Seq<char>, RemoteNode>,
    before: Map<Seq<char>, RemoteNode>,
    path: Seq<char>,
    m: Seq<char>,
    prior: Seq<CallRecord>,
    added: Seq<CallRecord>,
)
    requires
        submap(before, t0),
        valid_name(m),
        t0.contains_key(join_path(path, m)),
        t0[join_path(path, m)].is_dir,
        !t0[join_path(path, m)].is_symlink,
        delete_calls_ok(t0, path, prior),
        delete_calls_ok(before, join_path(path, m), added),
    ensures
        delete_calls_ok(t0, path, prior + added),
{
    let child = join_path(path, m);
    lemma_child_below(path, m);
    let all = prior + added;
    assert forall|j: int| 0 <= j < all.len() implies (if (#[trigger] all[j]).0 == CallKind::List {
        exists|names: Seq<Seq<char>>| reached(t0, path, names, all[j].1)
    } else {
        within(path, all[j].1)
    }) by {
        if j < prior.len() {
            assert(all[j] == prior[j]);
        } else {
            let a = added[j - prior.len()];
            assert(all[j] == a);
            if a.0 == CallKind::List {
                let nm = choose|nm: Seq<Seq<char>>| reached(before, child, nm, a.1);
                let names = seq![m] + nm;
                assert(names.drop_first() =~= nm);
                assert(names[0] == m);
                if nm.len() > 0 {
                    lemma_real_path_submap(before, t0, child, Seq::empty(), nm);
                    assert(path_of(path, names) == path_of(child, nm));
                } else {
                    assert(names =~= seq![m]);
                    assert(path_of(path, names) == child);
                }
                assert(!excluded(Seq::<(Seq<char>, bool)>::empty(), m, true));
                assert(real_dir_path(t0, path, Seq::empty(), names));
                assert(reached(t0, path, names, a.1));
            } else {
                assert(within(child, a.1));
            }
        }
    }
}

/// The path reached from `dir` through the components `names`.
pub open spec fn path_of(dir: Seq<char>, names: Seq<Seq<char>>) -> Seq<char>
    decreases names.len(),
{
    if names.len() <= 1 {
        join_path(dir, names[0])
    } else {
        path_of(join_path(dir, names[0]), names.drop_first())
    }
}

/// `names` leads from `dir` through real directories of `tree` (no links),
/// every component a name a listing can show: the path it reaches is part
/// of what a recursive delete of `dir` removes.
pub open spec fn dir_chain(tree: Map<Seq<char>, RemoteNode>, dir: Seq<char>, names: Seq<Seq<char>>) -> bool
    decreases names.len(),
{
    if names.len() == 0 {
        false
    } else if names.len() == 1 {
        valid_name(names[0])
    } else {
        let c = join_path(dir, names[0]);
        &&& valid_name(names[0])
        &&& tree.contains_key(c)
        &&& tree[c].is_dir
        &&& !tree[c].is_symlink
        &&& dir_chain(tree, c, names.drop_first())
    }
}

/// A chain starts with a name a listing can show.
proof fn lemma_chain_head(tree: Map<Seq<char>, RemoteNode>, dir: Seq<char>, names: Seq<Seq<char>>)
    requires
        dir_chain(tree, dir, names),
    ensures
        names.len() > 0,
        valid_name(names[0]),
{
}

/// The path reached through `names` lies at or inside the first component.
proof fn lemma_path_of_within(dir: Seq<char>, names: Seq<Seq<char>>, tree: Map<Seq<char>, RemoteNode>)
    requires
        dir_chain(tree, dir, names),
    ensures
        within(join_path(dir, names[0]), path_of(dir, names)),
    decreases names.len(),
{
    if names.len() > 1 {
        let c = join_path(dir, names[0]);
        let rest = names.drop_first();
        lemma_path_of_within(c, rest, tree);
        lemma_chain_head(tree, c, rest);
        lemma_child_below(c, rest[0]);
        if path_of(c, rest) != join_path(c, rest[0]) {
            lemma_below_trans(c, join_path(c, rest[0]), path_of(c, rest));
        }
    }
}

/// Two different names of one directory have disjoint subtrees.
proof fn lemma_disjoint_children(p: Seq<char>, a: Seq<char>, b: Seq<char>, k: Seq<char>)
    requires
        valid_name(a),
        valid_name(b),
        a != b,
        within(join_path(p, a), k),
    ensures
        !within(join_path(p, b), k),
{
    let pre = dir_prefix(p);
    let ca = join_path(p, a);
    let cb = join_path(p, b);
    if within(cb, k) {
        // `k` continues `pre` with `a` and with `b`; after each comes the end
        // of `k` or a '/', which neither name holds.
        assert forall|i: int| 0 <= i < a.len() && i < b.len() implies a[i] == b[i] by {
            if k == ca {
                assert(k[pre.len() + i] == a[i]);
            } else {
                assert(k.subrange(0, dir_prefix(ca).len() as int) == dir_prefix(ca));
                assert(dir_prefix(ca)[pre.len() + i] == a[i]);
                assert(k[pre.len() + i] == a[i]);
            }
            if k == cb {
                assert(k[pre.len() + i] == b[i]);
            } else {
                assert(k.subrange(0, dir_prefix(cb).len() as int) == dir_prefix(cb));
                assert(dir_prefix(cb)[pre.len() + i] == b[i]);
                assert(k[pre.len() + i] == b[i]);
            }
        }
        assert(a.last() != '/') by {
            assert(a[a.len() - 1] == a.last());
        }
        assert(b.last() != '/') by {
            assert(b[b.len() - 1] == b.last());
        }
        if a.len() == b.len() {
            assert(a =~= b);
        } else if a.len() < b.len() {
            // Right after `a` in `k` comes the end or a '/', but `b` goes on
            // with a character that is no '/'.
            assert(!crate::text::has_char(b, '/'));
            assert(b[a.len() as int] != '/');
            assert(k.len() > pre.len() + a.len());
            assert(k != ca);
            assert(dir_prefix(ca) == ca.push('/'));
            assert(k.subrange(0, dir_prefix(ca).len() as int) == dir_prefix(ca));
            assert(ca.len() == pre.len() + a.len());
            assert(dir_prefix(ca)[ca.len() as int] == '/');
            assert(k.subrange(0, dir_prefix(ca).len() as int)[ca.len() as int] == k[ca.len() as int]);
            assert(k[(pre.len() + a.len()) as int] == '/');
            if k == cb {
                assert(k[(pre.len() + a.len()) as int] == b[a.len() as int]);
            } else {
                assert(k.subrange(0, dir_prefix(cb).len() as int) == dir_prefix(cb));
                assert(dir_prefix(cb)[(pre.len() + a.len()) as int] == b[a.len() as int]);
            }
        } else {
            assert(!crate::text::has_char(a, '/'));
            assert(a[b.len() as int] != '/');
            assert(k.len() > pre.len() + b.len());
            assert(k != cb);
            assert(dir_prefix(cb) == cb.push('/'));
            assert(k.subrange(0, dir_prefix(cb).len() as int) == dir_prefix(cb));
            assert(cb.len() == pre.len() + b.len());
            assert(dir_prefix(cb)[cb.len() as int] == '/');
            assert(k.subrange(0, dir_prefix(cb).len() as int)[cb.len() as int] == k[cb.len() as int]);
            assert(k[(pre.len() + b.len()) as int] == '/');
            if k == ca {
                assert(k[(pre.len() + b.len()) as int] == a[b.len() as int]);
            } else {
                assert(k.subrange(0, dir_prefix(ca).len() as int) == dir_prefix(ca));
                assert(dir_prefix(ca)[(pre.len() + b.len()) as int] == a[b.len() as int]);
            }
        }
    }
}

/// A chain through a directory whose contents two trees agree on is a chain
/// of both.
proof fn lemma_chain_same_inside(
    a: Map<Seq<char>, RemoteNode>,
    b: Map<Seq<char>, RemoteNode>,
    dir: Seq<char>,
    names: Seq<Seq<char>>,
)
    requires
        dir_chain(a, dir, names),
        forall|k: Seq<char>|
            within(join_path(dir, names[0]), k) ==> (#[trigger] b.contains_key(k) == a.contains_key(k) && (
            a.contains_key(k) ==> b[k] == a[k])),
    ensures
        dir_chain(b, dir, names),
    decreases names.len(),
{
    if names.len() > 1 {
        let c = join_path(dir, names[0]);
        let rest = names.drop_first();
        assert(within(c, c));
        assert(b.contains_key(c));
        lemma_chain_head(a, c, rest);
        lemma_child_below(c, rest[0]);
        assert forall|k: Seq<char>| within(join_path(c, rest[0]), k) implies (#[trigger] b.contains_key(k)
            == a.contains_key(k) && (a.contains_key(k) ==> b[k] == a[k])) by {
            assert(strictly_below(c, k));
            assert(within(c, k));
        }
        lemma_chain_same_inside(a, b, c, rest);
    }
}

#[verifier::spinoff_prover]
fn remove_tree<T: Transport + ?Sized>(t: &mut T, path: &str, Ghost(fuel): Ghost<nat>) -> (r:
    Result<()>)
    requires
        subtree_size(old(t).tree(), path@) < fuel,
    ensures
        submap(final(t).tree(), old(t).tree()),
        same_outside(old(t).tree(), final(t).tree(), path@),
        r is Ok ==> !final(t).tree().contains_key(path@),
        r is Ok ==> forall|names: Seq<Seq<char>>|
            #[trigger] dir_chain(old(t).tree(), path@, names) ==> !final(t).tree().contains_key(
                path_of(path@, names),
            ),
        final(t).keeps_record() == old(t).keeps_record(),
        old(t).keeps_record() ==> extends_calls(final(t).calls(), old(t).calls()),
        old(t).keeps_record() ==> run_outcome(calls_since(old(t).calls(), final(t).calls()), r),
        old(t).keeps_record() ==> delete_calls_ok(
            old(t).tree(),
            path@,
            calls_since(old(t).calls(), final(t).calls()),
        ),
        old(t).keeps_record() && r is Ok ==> calls_since(old(t).calls(), final(t).calls()).last() == (
            CallKind::RemoveDir,
            path@,
            None::<Error>,
        ),
    decreases fuel,
{
    let ghost t0 = t.tree();
    let ghost c0 = t.calls();
    let ghost kr = t.keeps_record();
    let listed = t.list_dir(path);
    proof {
        if kr {
            lemma_push_call(c0, (CallKind::List, path@, outcome(listed)));
            assert(reached(t0, path@, Seq::empty(), path@));
            let cs = calls_since(c0, t.calls());
            assert forall|j: int| 0 <= j < cs.len() implies (if (#[trigger] cs[j]).0 == CallKind::List {
                exists|names: Seq<Seq<char>>| reached(t0, path@, names, cs[j].1)
            } else {
                within(path@, cs[j].1)
            }) by {
                assert(cs[j].1 == path@);
            }
        }
    }
    let entries = match listed {
        Ok(v) => v,
        Err(e) => {
            return Err(e);
        },
    };
    let mut i: usize = 0;
    while i < entries.len()
        invariant
            i <= entries.len(),
            t0 == old(t).tree(),
            c0 == old(t).calls(),
            kr == old(t).keeps_record(),
            t.keeps_record() == kr,
            kr ==> extends_calls(t.calls(), c0),
            kr ==> all_ok(calls_since(c0, t.calls())),
            kr ==> calls_since(c0, t.calls()).len() > 0,
            kr ==> delete_calls_ok(t0, path@, calls_since(c0, t.calls())),
            t0.dom().finite(),
            is_listing(t0, path@, entries@),
            submap(t.tree(), t0),
            same_outside(t0, t.tree(), path@),
            subtree_size(t0, path@) < fuel,
            forall|names: Seq<Seq<char>>|
                #[trigger] dir_chain(t0, path@, names) && listed_before(entries@, i as int, names[0])
                    ==> !t.tree().contains_key(path_of(path@, names)),
            forall|n: Seq<char>, k: Seq<char>|
                #![trigger within(join_path(path@, n), k)]
                valid_name(n) && !listed_before(entries@, i as int, n) && within(join_path(path@, n), k)
                    ==> (t.tree().contains_key(k) == t0.contains_key(k) && (t0.contains_key(k)
                    ==> t.tree()[k] == t0[k])),
        decreases entries.len() - i,
    {
        let e = &entries[i];
        let child = join(path, e.name.as_str());
        let ghost before = t.tree();
        let ghost m = e.name@;
        proof {
            lemma_child_below(path@, e.name@);
            assert(valid_name(entries@[i as int].name@));
            assert(reports(entries@[i as int], t0[join_path(path@, m)]));
        }
        if e.is_dir && !e.is_symlink {
            proof {
                lemma_child_subtree_smaller(t.tree(), t0, path@, e.name@);
            }
            let ghost cb = t.calls();
            let sub = remove_tree(t, child.as_str(), Ghost(subtree_size(t0, path@)));
            proof {
                if kr {
                    lemma_calls_concat(c0, cb, t.calls());
                    lemma_delete_calls_child(t0, before, path@, m, calls_since(c0, cb), calls_since(cb, t.calls()));
                    lemma_run_concat(calls_since(c0, cb), calls_since(cb, t.calls()), sub);
                }
            }
            match sub {
                Ok(_) => {},
                Err(e) => {
                    return Err(e);
                },
            }
            proof {
                assert forall|names: Seq<Seq<char>>|
                    #[trigger] dir_chain(t0, path@, names) && listed_before(entries@, i + 1, names[0])
                        implies !t.tree().contains_key(path_of(path@, names)) by {
                    if listed_before(entries@, i as int, names[0]) {
                        assert(!before.contains_key(path_of(path@, names)));
                    } else {
                        let j = choose|j: int| 0 <= j < i + 1 && (#[trigger] entries@[j]).name@ == names[0];
                        assert(j == i);
                        if names.len() > 1 {
                            let rest = names.drop_first();
                            assert(dir_chain(t0, child@, rest));
                            lemma_chain_head(t0, child@, rest);
                            lemma_child_below(child@, rest[0]);
                            assert forall|k: Seq<char>| within(join_path(child@, rest[0]), k) implies (
                            #[trigger] before.contains_key(k) == t0.contains_key(k) && (t0.contains_key(k)
                                ==> before[k] == t0[k])) by {
                                assert(strictly_below(child@, k));
                                assert(within(join_path(path@, m), k));
                            }
                            lemma_chain_same_inside(t0, before, child@, rest);
                            assert(path_of(path@, names) == path_of(child@, rest));
                        }
                    }
                }
                assert forall|n: Seq<char>, k: Seq<char>|
                    #![trigger within(join_path(path@, n), k)]
                    valid_name(n) && !listed_before(entries@, i + 1, n) && within(join_path(path@, n), k)
                        implies (t.tree().contains_key(k) == t0.contains_key(k) && (t0.contains_key(k)
                    ==> t.tree()[k] == t0[k])) by {
                    assert(n != m) by {
                        assert(entries@[i as int].name@ == m);
                    }
                    assert(!listed_before(entries@, i as int, n)) by {
                        if listed_before(entries@, i as int, n) {
                            let j = choose|j: int| 0 <= j < i && (#[trigger] entries@[j]).name@ == n;
                            assert(0 <= j < i + 1 && entries@[j].name@ == n);
                        }
                    }
                    lemma_disjoint_children(path@, n, m, k);
                    assert(!within(child@, k));
                    assert(same_outside(before, t.tree(), child@));
                    assert(t.tree().contains_key(k) == before.contains_key(k));
                    assert(within(join_path(path@, n), k));
                    assert(before.contains_key(k) == t0.contains_key(k));
                }
            }
        } else {
            let ghost cb = t.calls();
            let gone = t.remove_file(child.as_str());
            proof {
                if kr {
                    lemma_push_call(cb, (CallKind::RemoveFile, child@, outcome(gone)));
                    lemma_calls_concat(c0, cb, t.calls());
                    let one = calls_since(cb, t.calls());
                    assert(within(path@, child@));
                    assert(delete_calls_ok(t0, path@, one));
                    lemma_delete_calls_concat(t0, path@, calls_since(c0, cb), one);
                    if gone is Err {
                        assert(one.drop_last().len() == 0);
                    }
                    lemma_run_concat(calls_since(c0, cb), one, gone);
                }
            }
            match gone {
                Ok(_) => {},
                Err(e) => {
                    return Err(e);
                },
            }
            proof {
                assert forall|names: Seq<Seq<char>>|
                    #[trigger] dir_chain(t0, path@, names) && listed_before(entries@, i + 1, names[0])
                        implies !t.tree().contains_key(path_of(path@, names)) by {
                    if listed_before(entries@, i as int, names[0]) {
                        assert(!before.contains_key(path_of(path@, names)));
                    } else {
                        let j = choose|j: int| 0 <= j < i + 1 && (#[trigger] entries@[j]).name@ == names[0];
                        assert(j == i);
                        assert(names.len() == 1);
                    }
                }
                assert forall|n: Seq<char>, k: Seq<char>|
                    #![trigger within(join_path(path@, n), k)]
                    valid_name(n) && !listed_before(entries@, i + 1, n) && within(join_path(path@, n), k)
                        implies (t.tree().contains_key(k) == t0.contains_key(k) && (t0.contains_key(k)
                    ==> t.tree()[k] == t0[k])) by {
                    assert(n != m) by {
                        assert(entries@[i as int].name@ == m);
                    }
                    assert(!listed_before(entries@, i as int, n)) by {
                        if listed_before(entries@, i as int, n) {
                            let j = choose|j: int| 0 <= j < i && (#[trigger] entries@[j]).name@ == n;
                            assert(0 <= j < i + 1 && entries@[j].name@ == n);
                        }
                    }
                    assert(within(join_path(path@, m), join_path(path@, m)));
                    lemma_disjoint_children(path@, m, n, join_path(path@, m));
                }
            }
        }
        i = i + 1;
    }
    let ghost cur = t.tree();
    let ghost cb = t.calls();
    let r = t.remove_dir(path);
    proof {
        if kr {
            lemma_push_call(cb, (CallKind::RemoveDir, path@, outcome(r)));
            lemma_calls_concat(c0, cb, t.calls());
            let one = calls_since(cb, t.calls());
            assert(within(path@, path@));
            assert(delete_calls_ok(t0, path@, one));
            lemma_delete_calls_concat(t0, path@, calls_since(c0, cb), one);
            if r is Err {
                assert(one.drop_last().len() == 0);
            }
            lemma_run_concat(calls_since(c0, cb), one, r);
        }
        if r is Ok {
            assert forall|names: Seq<Seq<char>>|
                #[trigger] dir_chain(t0, path@, names) implies !t.tree().contains_key(path_of(path@, names)) by {
                lemma_chain_head(t0, path@, names);
                if t0.contains_key(join_path(path@, names[0])) {
                    let j = choose|j: int| 0 <= j < entries@.len() && entries@[j].name@ == names[0];
                    assert(listed_before(entries@, entries@.len() as int, names[0]));
                } else {
                    assert(names.len() == 1);
                }
            }
        }
    }
    r
}

// ---------------------------------------------------------------------------
// Recursive search
// ---------------------------------------------------------------------------

/// A search hit `(full path, entry)` is a path under `root` whose name
/// matches `mask`, reported faithfully from `tree`, and reached from `root`
/// through real directories only (never through a link).
pub open spec fn is_hit(
    tree: Map<Seq<char>, RemoteNode>,
    root: Seq<char>,
    mask: Seq<char>,
    hit: (String, Entry),
) -> bool {
    &&& strictly_below(root, hit.0@)
    &&& tree.contains_key(hit.0@)
    &&& reports(hit.1, tree[hit.0@])
    &&& valid_name(hit.1.name@)
    &&& glob(encode_utf8(mask), encode_utf8(hit.1.name@))
    &&& exists|d: Seq<char>| hit.0@ == join_path(d, hit.1.name@)
    &&& exists|names: Seq<Seq<char>>| #[trigger] dir_chain(tree, root, names) && path_of(root, names) == hit.0@
}

/// `dir` is `root`, or is reached from it through the real directories
/// `names` (never a link).
pub open spec fn reached(
    tree: Map<Seq<char>, RemoteNode>,
    root: Seq<char>,
    names: Seq<Seq<char>>,
    dir: Seq<char>,
) -> bool {
    if names.len() == 0 {
        dir == root
    } else {
        real_dir_path(tree, root, Seq::empty(), names) && path_of(root, names) == dir
    }
}

/// One more real directory extends a reach.
proof fn lemma_reach_step(
    tree: Map<Seq<char>, RemoteNode>,
    root: Seq<char>,
    names: Seq<Seq<char>>,
    m: Seq<char>,
)
    requires
        names.len() > 0 ==> real_dir_path(tree, root, Seq::empty(), names),
    ensures
        path_of(root, names.push(m)) == join_path(
            if names.len() == 0 {
                root
            } else {
                path_of(root, names)
            },
            m,
        ),
        valid_name(m) ==> dir_chain(tree, root, names.push(m)),
        ({
            let c = join_path(
                if names.len() == 0 {
                    root
                } else {
                    path_of(root, names)
                },
                m,
            );
            valid_name(m) && tree.contains_key(c) && tree[c].is_dir && !tree[c].is_symlink ==> real_dir_path(
                tree,
                root,
                Seq::empty(),
                names.push(m),
            )
        }),
    decreases names.len(),
{
    let e: Seq<(Seq<char>, bool)> = Seq::empty();
    assert(!excluded(e, m, true));
    let np = names.push(m);
    if names.len() == 0 {
        assert(np.len() == 1 && np[0] == m);
        assert(path_of(root, np) == join_path(root, m));
    } else {
        let c0 = join_path(root, names[0]);
        let rest = names.drop_first();
        assert(np.drop_first() =~= rest.push(m));
        assert(np[0] == names[0]);
        assert(np.len() > 1);
        assert(path_of(root, np) == path_of(c0, rest.push(m)));
        if rest.len() > 0 {
            lemma_reach_step(tree, c0, rest, m);
            assert(path_of(root, names) == path_of(c0, rest));
        } else {
            let rp = rest.push(m);
            assert(rp.len() == 1 && rp[0] == m);
            assert(names.len() == 1);
            assert(path_of(root, names) == c0);
            assert(path_of(c0, rp) == join_path(c0, m));
        }
    }
}

/// Everything inside a directory inside `root` is inside `root`.
pub proof fn lemma_below_trans(root: Seq<char>, dir: Seq<char>, k: Seq<char>)
    requires
        within(root, dir),
        strictly_below(dir, k),
    ensures
        strictly_below(root, k),
{
    if dir != root {
        let pr = dir_prefix(root);
        let pd = dir_prefix(dir);
        assert(pd.subrange(0, pr.len() as int) =~= dir.subrange(0, pr.len() as int));
        assert(k.subrange(0, pr.len() as int) =~= pd.subrange(0, pr.len() as int));
    }
}

/// Every call of `f` returns `true`: the search is never cancelled.
pub open spec fn always_true<F: FnMut() -> bool>(f: F) -> bool {
    forall|b: bool| #[trigger] call_ensures(f, (), b) ==> b
}

/// Every call of `f` returns `false`: the search is cancelled at once.
pub open spec fn never_true<F: FnMut() -> bool>(f: F) -> bool {
    forall|b: bool| #[trigger] call_ensures(f, (), b) ==> !b
}

/// `n` is an entry directly inside `dir` whose name matches `mask`.
pub open spec fn top_match(tree: Map<Seq<char>, RemoteNode>, dir: Seq<char>, mask: Seq<char>, n: Seq<char>) -> bool {
    &&& valid_name(n)
    &&& tree.contains_key(join_path(dir, n))
    &&& glob(encode_utf8(mask), encode_utf8(n))
}

/// Some hit is at `path`.
pub open spec fn has_hit(hits: Seq<(String, Entry)>, path: Seq<char>) -> bool {
    exists|i: int| 0 <= i < hits.len() && (#[trigger] hits[i]).0@ == path
}

/// None of the directories that `names` passes through from `dir` (the
/// last name aside) is on the `unlisted` record.
pub open spec fn chain_clear(unlisted: Set<Seq<char>>, dir: Seq<char>, names: Seq<Seq<char>>) -> bool
    decreases names.len(),
{
    if names.len() <= 1 {
        true
    } else {
        let c = join_path(dir, names[0]);
        !unlisted.contains(c) && chain_clear(unlisted, c, names.drop_first())
    }
}

/// The path reached from `dir` through `names`, going only through real
/// directories (never a link), is an entry of `tree` whose name matches
/// `mask`.
pub open spec fn nested_match(
    tree: Map<Seq<char>, RemoteNode>,
    dir: Seq<char>,
    mask: Seq<char>,
    names: Seq<Seq<char>>,
) -> bool {
    &&& dir_chain(tree, dir, names)
    &&& tree.contains_key(path_of(dir, names))
    &&& glob(encode_utf8(mask), encode_utf8(names.last()))
}

/// A chain clear of a larger record is clear of a smaller one.
proof fn lemma_chain_clear_anti(f: Set<Seq<char>>, g: Set<Seq<char>>, dir: Seq<char>, names: Seq<Seq<char>>)
    requires
        f.subset_of(g),
        chain_clear(g, dir, names),
    ensures
        chain_clear(f, dir, names),
    decreases names.len(),
{
    if names.len() > 1 {
        lemma_chain_clear_anti(f, g, join_path(dir, names[0]), names.drop_first());
    }
}

/// Hits only accumulate.
proof fn lemma_hits_extend(a: Seq<(String, Entry)>, b: Seq<(String, Entry)>, path: Seq<char>)
    requires
        b.len() <= a.len(),
        a.subrange(0, b.len() as int) == b,
        has_hit(b, path),
    ensures
        has_hit(a, path),
{
    let i = choose|i: int| 0 <= i < b.len() && (#[trigger] b[i]).0@ == path;
    assert(a.subrange(0, b.len() as int)[i] == a[i]);
}

/// Recursively search the remote tree for names matching `mask` (e.g.
/// "*.log"). Stops at `limit` results; `keep_going` is polled so a caller can
/// cancel. Returns full remote paths with their entries. Searching never
/// changes the remote tree.
pub fn find<T: Transport + ?Sized, F: FnMut() -> bool>(
    t: &mut T,
    base: &str,
    mask: &str,
    limit: usize,
    keep_going: &mut F,
) -> (r: Result<Vec<(String, Entry)>>)
    requires
        call_requires(*old(keep_going), ()),
    ensures
        final(t).tree() == old(t).tree(),
        r matches Ok(hits) ==> hits.len() <= limit,
        r matches Ok(hits) ==> forall|i: int|
            0 <= i < hits.len() ==> is_hit(old(t).tree(), base@, mask@, #[trigger] hits@[i]),
        r matches Ok(hits) ==> hits.len() < limit && always_true(*old(keep_going)) ==> forall|n: Seq<char>|
            top_match(old(t).tree(), base@, mask@, n) ==> #[trigger] has_hit(hits@, join_path(base@, n)),
        r matches Ok(hits) ==> hits.len() < limit && always_true(*old(keep_going)) ==> forall|names: Seq<Seq<char>>|
            nested_match(old(t).tree(), base@, mask@, names) && chain_clear(final(t).unlisted(), base@, names)
                ==> #[trigger] has_hit(hits@, path_of(base@, names)),
        old(t).unlisted().subset_of(final(t).unlisted()),
        limit == 0 ==> (r matches Ok(hits) && hits.len() == 0),
        never_true(*old(keep_going)) ==> (r matches Ok(hits) && hits.len() == 0) && final(t).unlisted()
            == old(t).unlisted(),
        r is Err ==> limit > 0 && call_ensures(*old(keep_going), (), true) && final(t).unlisted()
            == old(t).unlisted().insert(base@),
        final(t).keeps_record() == old(t).keeps_record(),
        old(t).keeps_record() ==> extends_calls(final(t).calls(), old(t).calls()),
        old(t).keeps_record() ==> (r matches Err(e) ==> calls_since(old(t).calls(), final(t).calls())
            == seq![(CallKind::List, base@, Some(e))]),
        old(t).keeps_record() && calls_since(old(t).calls(), final(t).calls()).len() == 0 ==> (r matches Ok(
            hits,
        ) && hits.len() == 0) && (limit > 0 ==> call_ensures(*old(keep_going), (), false)),
{
    let mut out: Vec<(String, Entry)> = Vec::new();
    let ghost fuel = subtree_size(t.tree(), base@) + 1;
    let mb = mask.as_bytes();
    find_inner(
        t,
        base,
        mb,
        limit,
        keep_going,
        &mut out,
        Ghost(base@),
        Ghost(mask@),
        Ghost(fuel),
        Ghost(Seq::empty()),
    )?;
    Ok(out)
}

#[verifier::spinoff_prover]
fn find_inner<T: Transport + ?Sized, F: FnMut() -> bool>(
    t: &mut T,
    dir: &str,
    mask: &[u8],
    limit: usize,
    keep_going: &mut F,
    out: &mut Vec<(String, Entry)>,
    Ghost(root): Ghost<Seq<char>>,
    Ghost(mask_chars): Ghost<Seq<char>>,
    Ghost(fuel): Ghost<nat>,
    Ghost(trail): Ghost<Seq<Seq<char>>>,
) -> (r: Result<()>)
    requires
        call_requires(*old(keep_going), ()),
        mask@ == encode_utf8(mask_chars),
        within(root, dir@),
        reached(old(t).tree(), root, trail, dir@),
        subtree_size(old(t).tree(), dir@) < fuel,
        old(out).len() <= limit,
        forall|i: int|
            0 <= i < old(out).len() ==> is_hit(old(t).tree(), root, mask_chars, #[trigger] old(out)@[i]),
    ensures
        final(t).tree() == old(t).tree(),
        *final(keep_going) == *old(keep_going),
        final(out).len() <= limit,
        forall|i: int|
            0 <= i < final(out).len() ==> is_hit(old(t).tree(), root, mask_chars, #[trigger] final(out)@[i]),
        old(out).len() <= final(out).len(),
        final(out)@.subrange(0, old(out).len() as int) == old(out)@,
        r is Ok && final(out).len() < limit && always_true(*old(keep_going)) ==> forall|n: Seq<char>|
            top_match(old(t).tree(), dir@, mask_chars, n) ==> #[trigger] has_hit(final(out)@, join_path(dir@, n)),
        old(out).len() >= limit ==> r is Ok && final(out)@ == old(out)@,
        never_true(*old(keep_going)) ==> r is Ok && final(out)@ == old(out)@ && final(t).unlisted()
            == old(t).unlisted(),
        r is Err ==> old(out).len() < limit && call_ensures(*old(keep_going), (), true) && final(out)@
            == old(out)@,
        old(t).unlisted().subset_of(final(t).unlisted()),
        r is Err ==> final(t).unlisted() == old(t).unlisted().insert(dir@) && final(out)@ == old(out)@,
        r is Ok && final(out).len() < limit && always_true(*old(keep_going)) ==> forall|names: Seq<Seq<char>>|
            nested_match(old(t).tree(), dir@, mask_chars, names) && chain_clear(final(t).unlisted(), dir@, names)
                ==> #[trigger] has_hit(final(out)@, path_of(dir@, names)),
        final(t).keeps_record() == old(t).keeps_record(),
        old(t).keeps_record() ==> extends_calls(final(t).calls(), old(t).calls()),
        old(t).keeps_record() ==> (r matches Err(e) ==> calls_since(old(t).calls(), final(t).calls())
            == seq![(CallKind::List, dir@, Some(e))]),
        old(t).keeps_record() && calls_since(old(t).calls(), final(t).calls()).len() == 0 ==> r is Ok
            && final(out)@ == old(out)@ && (old(out).len() < limit ==> call_ensures(
            *old(keep_going),
            (),
            false,
        )),
    decreases fuel,
{
    let ghost start = out@;
    let ghost c0 = t.calls();
    let ghost kr = t.keeps_record();
    proof {
        assert(c0.subrange(0, c0.len() as int) =~= c0);
    }
    assert(start.subrange(0, start.len() as int) =~= start);
    if out.len() >= limit || !keep_going() {
        return Ok(());
    }
    let ghost t0 = t.tree();
    let ghost u0 = t.unlisted();
    let listed = t.list_dir(dir);
    proof {
        if kr {
            lemma_push_call(c0, (CallKind::List, dir@, outcome(listed)));
        }
    }
    let entries = match listed {
        Ok(v) => v,
        Err(e) => {
            return Err(e);
        },
    };
    let mut i: usize = 0;
    while i < entries.len()
        invariant
            i <= entries.len(),
            call_ensures(*old(keep_going), (), true),
            c0 == old(t).calls(),
            kr == old(t).keeps_record(),
            t.keeps_record() == kr,
            kr ==> extends_calls(t.calls(), c0),
            kr ==> calls_since(c0, t.calls()).len() > 0,
            reached(t0, root, trail, dir@),
            u0 == old(t).unlisted(),
            u0.subset_of(t.unlisted()),
            always_true(*keep_going) && out.len() < limit ==> forall|names: Seq<Seq<char>>|
                nested_match(t0, dir@, mask_chars, names) && names.len() > 1 && chain_clear(
                    t.unlisted(),
                    dir@,
                    names,
                ) && listed_before(entries@, i as int, names[0]) ==> #[trigger] has_hit(
                    out@,
                    path_of(dir@, names),
                ),
            call_requires(*keep_going, ()),
            *keep_going == *old(keep_going),
            mask@ == encode_utf8(mask_chars),
            within(root, dir@),
            t0.dom().finite(),
            t.tree() == t0,
            t0 == old(t).tree(),
            is_listing(t0, dir@, entries@),
            subtree_size(t0, dir@) < fuel,
            out.len() <= limit,
            forall|j: int| 0 <= j < out.len() ==> is_hit(t0, root, mask_chars, #[trigger] out@[j]),
            start == old(out)@,
            start.len() < limit,
            start.len() <= out.len(),
            out@.subrange(0, start.len() as int) == start,
            always_true(*keep_going) ==> forall|n: Seq<char>|
                top_match(t0, dir@, mask_chars, n) && listed_before(entries@, i as int, n) ==> #[trigger] has_hit(
                    out@,
                    join_path(dir@, n),
                ),
        decreases entries.len() - i,
    {
        if out.len() >= limit || !keep_going() {
            return Ok(());
        }
        let ghost before_all = out@;
        let ghost u_start = t.unlisted();
        let ghost mut rec_ok = false;
        let e = &entries[i];
        let full = join(dir, e.name.as_str());
        proof {
            assert(valid_name(entries@[i as int].name@));
            lemma_child_below(dir@, e.name@);
            lemma_below_trans(root, dir@, full@);
        }
        let nb = e.name.as_str().as_bytes();
        if glob_match(mask, nb) {
            let ghost before = out@;
            let hit = (full.clone(), e.duplicate());
            proof {
                assert(hit.0@ == join_path(dir@, hit.1.name@));
                lemma_reach_step(t0, root, trail, e.name@);
                assert(dir_chain(t0, root, trail.push(e.name@)));
            }
            out.push(hit);
            assert forall|j: int| 0 <= j < out.len() implies is_hit(
                t0,
                root,
                mask_chars,
                #[trigger] out@[j],
            ) by {
                if j < before.len() {
                    assert(out@[j] == before[j]);
                }
            }
        }
        let ghost after_push = out@;
        proof {
            assert(after_push.subrange(0, before_all.len() as int) =~= before_all);
            assert(after_push.subrange(0, start.len() as int) =~= before_all.subrange(0, start.len() as int));
            if always_true(*keep_going) {
                assert forall|n: Seq<char>|
                    top_match(t0, dir@, mask_chars, n) && listed_before(entries@, i + 1, n) implies #[trigger] has_hit(
                        after_push,
                        join_path(dir@, n),
                    ) by {
                    if listed_before(entries@, i as int, n) {
                        lemma_hits_extend(after_push, before_all, join_path(dir@, n));
                    } else {
                        let j = choose|j: int| 0 <= j < i + 1 && (#[trigger] entries@[j]).name@ == n;
                        assert(j == i);
                        assert(after_push[after_push.len() - 1].0@ == join_path(dir@, n));
                    }
                }
            }
        }
        if e.is_dir && !e.is_symlink {
            proof {
                lemma_child_subtree_smaller(t0, t0, dir@, e.name@);
            }
            proof {
                lemma_reach_step(t0, root, trail, e.name@);
                assert(reports(entries@[i as int], t0[full@]));
            }
            let ghost cb = t.calls();
            let res = find_inner(
                t,
                full.as_str(),
                mask,
                limit,
                keep_going,
                out,
                Ghost(root),
                Ghost(mask_chars),
                Ghost(subtree_size(t0, dir@)),
                Ghost(trail.push(e.name@)),
            );
            proof {
                rec_ok = res is Ok;
                if kr {
                    lemma_calls_concat(c0, cb, t.calls());
                }
                assert(out@.subrange(0, start.len() as int) =~= out@.subrange(0, after_push.len() as int).subrange(
                    0,
                    start.len() as int,
                ));
                if always_true(*keep_going) {
                    assert forall|n: Seq<char>|
                        top_match(t0, dir@, mask_chars, n) && listed_before(entries@, i + 1, n) implies #[trigger] has_hit(
                            out@,
                            join_path(dir@, n),
                        ) by {
                        lemma_hits_extend(out@, after_push, join_path(dir@, n));
                    }
                }
            }
        }
        proof {
            assert(out@.subrange(0, before_all.len() as int) =~= before_all) by {
                assert(out@.subrange(0, after_push.len() as int) == after_push);
                assert(out@.subrange(0, before_all.len() as int) =~= out@.subrange(
                    0,
                    after_push.len() as int,
                ).subrange(0, before_all.len() as int));
            }
            if always_true(*keep_going) && out.len() < limit {
                assert forall|names: Seq<Seq<char>>|
                    nested_match(t0, dir@, mask_chars, names) && names.len() > 1 && chain_clear(
                        t.unlisted(),
                        dir@,
                        names,
                    ) && listed_before(entries@, i + 1, names[0]) implies #[trigger] has_hit(
                        out@,
                        path_of(dir@, names),
                    ) by {
                    if listed_before(entries@, i as int, names[0]) {
                        lemma_chain_clear_anti(u_start, t.unlisted(), dir@, names);
                        lemma_hits_extend(out@, before_all, path_of(dir@, names));
                    } else {
                        let j = choose|j: int| 0 <= j < i + 1 && (#[trigger] entries@[j]).name@ == names[0];
                        assert(j == i);
                        let rest = names.drop_first();
                        assert(join_path(dir@, names[0]) == full@);
                        assert(reports(entries@[i as int], t0[full@]));
                        assert(rec_ok);
                        assert(path_of(dir@, names) == path_of(full@, rest));
                        assert(rest.last() == names.last());
                        assert(nested_match(t0, full@, mask_chars, rest));
                    }
                }
            }
        }
        i = i + 1;
    }
    proof {
        if always_true(*keep_going) {
            assert forall|n: Seq<char>|
                top_match(t0, dir@, mask_chars, n) implies #[trigger] has_hit(out@, join_path(dir@, n)) by {
                let j = choose|j: int| 0 <= j < entries@.len() && entries@[j].name@ == n;
                assert(listed_before(entries@, entries@.len() as int, n));
            }
            if out.len() < limit {
                assert forall|names: Seq<Seq<char>>|
                    nested_match(t0, dir@, mask_chars, names) && chain_clear(t.unlisted(), dir@, names)
                        implies #[trigger] has_hit(out@, path_of(dir@, names)) by {
                    lemma_chain_head(t0, dir@, names);
                    if t0.contains_key(join_path(dir@, names[0])) {
                        let j = choose|j: int| 0 <= j < entries@.len() && entries@[j].name@ == names[0];
                        assert(listed_before(entries@, entries@.len() as int, names[0]));
                    }
                    if names.len() == 1 {
                        assert(path_of(dir@, names) == join_path(dir@, names[0]));
                        assert(top_match(t0, dir@, mask_chars, names[0]));
                    }
                }
            }
        }
    }
    Ok(())
}

// ---------------------------------------------------------------------------
// Sync planning
// ---------------------------------------------------------------------------

/// One entry of a snapshot of the local side of a transfer: what the
/// planner needs to know of a local file or directory. Directories carry
/// their own entries.
#[derive(Debug)]
pub struct LocalEntry {
    pub name: String,
    pub is_dir: bool,
    pub size: u64,
    pub mtime: Option<i64>,
    pub children: Vec<LocalEntry>,
}

/// Which files a transfer copies: a sync copies what is missing, resized or
/// newer; a folder transfer follows its overwrite policy.
#[derive(Debug, Clone, Copy, PartialEq, Eq, Structural)]
pub enum CopyRule {
    Sync,
    Policy(OverwritePolicy),
}

pub open spec fn rule_copies(
    rule: CopyRule,
    src_size: u64,
    src_mtime: Option<i64>,
    dst: Option<(u64, Option<i64>)>,
) -> bool {
    match rule {
        CopyRule::Sync => spec_needs_copy(src_size, src_mtime, dst),
        CopyRule::Policy(p) => spec_policy_allows(p, src_size, src_mtime, dst),
    }
}

pub fn rule_copies_exec(
    rule: CopyRule,
    src_size: u64,
    src_mtime: Option<i64>,
    dst: Option<(u64, Option<i64>)>,
) -> (r: bool)
    ensures
        r == rule_copies(rule, src_size, src_mtime, dst),
{
    match rule {
        CopyRule::Sync => needs_copy(src_size, src_mtime, dst),
        CopyRule::Policy(p) => policy_allows(p, src_size, src_mtime, dst),
    }
}

/// One entry of a sync dry run.
#[derive(Debug, Clone)]
pub struct PlanItem {
    /// Path relative to the sync roots, e.g. "sub/file.txt".
    pub rel: String,
    pub size: u64,
    pub reason: PlanReason,
}

/// A sync dry run: the files that would be copied and the destination
/// directories that must exist first (both relative to the roots). In
/// mirror mode, `deletes` holds destination-relative paths to remove.
#[derive(Debug, Clone, Default)]
pub struct SyncPlan {
    pub items: Vec<PlanItem>,
    pub dirs: Vec<String>,
    pub deletes: Vec<String>,
}

/// A file a transfer would copy, relative to the roots.
#[derive(Debug, Clone)]
pub struct TransferItem {
    pub rel: String,
    pub size: u64,
    /// Why the file differs from the destination, when it does.
    pub reason: Option<PlanReason>,
}

/// Everything a transfer would do: files to copy, destination directories
/// to create first, and how many files it leaves alone.
#[derive(Debug, Clone, Default)]
pub struct TransferPlan {
    pub items: Vec<TransferItem>,
    pub dirs: Vec<String>,
    pub skipped: usize,
}

/// `rel/name`, or just `name` at the roots.
pub open spec fn rel_path(rel: Seq<char>, name: Seq<char>) -> Seq<char> {
    if rel.len() == 0 {
        name
    } else {
        rel.push('/') + name
    }
}

pub fn rel_join(rel: &str, name: &str) -> (r: String)
    ensures
        r@ == rel_path(rel@, name@),
{
    let mut v = chars_of(rel);
    if v.len() == 0 {
        return crate::text::owned(name);
    }
    v.push('/');
    push_str(&mut v, name);
    string_of(v.as_slice())
}

/// The size and mtime of the first non-directory entry called `name`.
pub open spec fn listed_file(es: Seq<Entry>, name: Seq<char>) -> Option<(u64, Option<i64>)>
    decreases es.len(),
{
    if es.len() == 0 {
        None
    } else if es[0].name@ == name && !es[0].is_dir {
        Some((es[0].size, es[0].mtime))
    } else {
        listed_file(es.drop_first(), name)
    }
}

/// Is a directory called `name` listed?
pub open spec fn listed_dir(es: Seq<Entry>, name: Seq<char>) -> bool {
    exists|i: int| 0 <= i < es.len() && es[i].name@ == name && es[i].is_dir
}

/// Is anything called `name` listed?
pub open spec fn listed_name(es: Seq<Entry>, name: Seq<char>) -> bool {
    exists|i: int| 0 <= i < es.len() && es[i].name@ == name
}

fn find_listed_file(es: &Vec<Entry>, name: &str) -> (r: Option<(u64, Option<i64>)>)
    ensures
        r == listed_file(es@, name@),
{
    let mut k: usize = 0;
    assert(es@.subrange(0, es@.len() as int) =~= es@);
    while k < es.len()
        invariant
            k <= es.len(),
            listed_file(es@, name@) == listed_file(es@.subrange(k as int, es@.len() as int), name@),
        decreases es.len() - k,
    {
        let ghost rest = es@.subrange(k as int, es@.len() as int);
        assert(rest[0] == es@[k as int]);
        if str_eq(es[k].name.as_str(), name) && !es[k].is_dir {
            return Some((es[k].size, es[k].mtime));
        }
        assert(rest.drop_first() =~= es@.subrange(k + 1, es@.len() as int));
        k = k + 1;
    }
    None
}

fn has_listed_dir(es: &Vec<Entry>, name: &str) -> (r: bool)
    ensures
        r == listed_dir(es@, name@),
{
    let mut k: usize = 0;
    while k < es.len()
        invariant
            k <= es.len(),
            forall|i: int| 0 <= i < k ==> !(#[trigger] es@[i].name@ == name@ && es@[i].is_dir),
        decreases es.len() - k,
    {
        if es[k].is_dir && str_eq(es[k].name.as_str(), name) {
            return true;
        }
        k = k + 1;
    }
    false
}

fn has_listed_name(es: &Vec<Entry>, name: &str) -> (r: bool)
    ensures
        r == listed_name(es@, name@),
{
    let mut k: usize = 0;
    while k < es.len()
        invariant
            k <= es.len(),
            forall|i: int| 0 <= i < k ==> !(#[trigger] es@[i].name@ == name@),
        decreases es.len() - k,
    {
        if str_eq(es[k].name.as_str(), name) {
            return true;
        }
        k = k + 1;
    }
    false
}

/// Index of the first local entry called `name`.
pub open spec fn local_index(es: Seq<LocalEntry>, name: Seq<char>) -> Option<int>
    decreases es.len(),
{
    if es.len() == 0 {
        None
    } else if es[0].name@ == name {
        Some(0)
    } else {
        match local_index(es.drop_first(), name) {
            Some(i) => Some(i + 1),
            None => None,
        }
    }
}

fn find_local(es: &Vec<LocalEntry>, name: &str) -> (r: Option<usize>)
    ensures
        match r {
            Some(i) => local_index(es@, name@) == Some(i as int) && i < es.len() && es@[i as int].name@
                == name@,
            None => local_index(es@, name@).is_none(),
        },
{
    let mut k: usize = 0;
    assert(es@.subrange(0, es@.len() as int) =~= es@);
    while k < es.len()
        invariant
            k <= es.len(),
            local_index(es@, name@) == match local_index(
                es@.subrange(k as int, es@.len() as int),
                name@,
            ) {
                Some(i) => Some(i + k),
                None => None,
            },
        decreases es.len() - k,
    {
        let ghost rest = es@.subrange(k as int, es@.len() as int);
        assert(rest[0] == es@[k as int]);
        if str_eq(es[k].name.as_str(), name) {
            assert(local_index(rest, name@) == Some(0int));
            return Some(k);
        }
        assert(rest.drop_first() =~= es@.subrange(k + 1, es@.len() as int));
        k = k + 1;
    }
    None
}

/// The size and mtime of the local entry called `name` (file or directory,
/// as filesystem metadata reports either).
pub open spec fn local_meta(es: Seq<LocalEntry>, name: Seq<char>) -> Option<(u64, Option<i64>)> {
    match local_index(es, name) {
        Some(i) => Some((es[i].size, es[i].mtime)),
        None => None,
    }
}

/// `dir` is the remote directory reached from `root` by the relative path
/// `rel`.
pub open spec fn at_rel(root: Seq<char>, rel: Seq<char>, dir: Seq<char>) -> bool {
    if rel.len() == 0 {
        dir == root
    } else {
        dir == join_path(root, rel) && rel.last() != '/'
    }
}

/// Moving one level down keeps remote directory and relative path in step.
pub proof fn lemma_at_rel_child(root: Seq<char>, rel: Seq<char>, dir: Seq<char>, n: Seq<char>)
    requires
        at_rel(root, rel, dir),
        valid_name(n),
    ensures
        at_rel(root, rel_path(rel, n), join_path(dir, n)),
        join_path(dir, n) == join_path(root, rel_path(rel, n)),
{
    assert(n.last() != '/') by {
        assert(n[n.len() - 1] == n.last());
    }
    if rel.len() > 0 {
        assert(dir.last() == rel.last());
        assert(dir_prefix(dir) == dir.push('/'));
        assert(join_path(dir, n) =~= join_path(root, rel_path(rel, n)));
    }
    assert(rel_path(rel, n).last() == n.last());
}

/// A transfer's remote-side file, as the plan refers to it.
pub open spec fn remote_item(
    tree: Map<Seq<char>, RemoteNode>,
    root: Seq<char>,
    item: TransferItem,
) -> bool {
    &&& tree.contains_key(join_path(root, item.rel@))
    &&& !tree[join_path(root, item.rel@)].is_dir
    &&& item.size == tree[join_path(root, item.rel@)].size
}

/// In a sync, every planned file carries the reason it differs.
pub open spec fn items_explained(rule: CopyRule, items: Seq<TransferItem>) -> bool {
    rule == CopyRule::Sync ==> forall|i: int| 0 <= i < items.len() ==> (#[trigger] items[i]).reason.is_some()
}

/// `p` is the relative path of some remote file a download must copy.
pub open spec fn download_source(
    tree: Map<Seq<char>, RemoteNode>,
    dir: Seq<char>,
    rel: Seq<char>,
    local: Seq<LocalEntry>,
    filter: Seq<(Seq<char>, bool)>,
    rule: CopyRule,
    p: Seq<char>,
) -> bool {
    exists|names: Seq<Seq<char>>|
        #[trigger] download_wants(tree, dir, rel, local, filter, rule, names) && rel_of(rel, names) == p
}

/// Some entry before index `k` is called `n`.
pub open spec fn listed_before(es: Seq<Entry>, k: int, n: Seq<char>) -> bool {
    exists|j: int| 0 <= j < k && (#[trigger] es[j]).name@ == n
}

/// `names` leads from `dir` through real directories of `tree` (never a
/// link), each with a name a listing can show and kept by the filter.
pub open spec fn real_dir_path(
    tree: Map<Seq<char>, RemoteNode>,
    dir: Seq<char>,
    filter: Seq<(Seq<char>, bool)>,
    names: Seq<Seq<char>>,
) -> bool
    decreases names.len(),
{
    if names.len() == 0 {
        false
    } else {
        let c = join_path(dir, names[0]);
        &&& valid_name(names[0])
        &&& tree.contains_key(c)
        &&& tree[c].is_dir
        &&& !tree[c].is_symlink
        &&& !excluded(filter, names[0], true)
        &&& (names.len() == 1 || real_dir_path(tree, c, filter, names.drop_first()))
    }
}

/// `d` (relative to the roots) is a real, kept remote directory below `dir`
/// (which sits at `rel`).
pub open spec fn remote_dir_source(
    tree: Map<Seq<char>, RemoteNode>,
    dir: Seq<char>,
    rel: Seq<char>,
    filter: Seq<(Seq<char>, bool)>,
    d: Seq<char>,
) -> bool {
    exists|names: Seq<Seq<char>>| #[trigger] real_dir_path(tree, dir, filter, names) && rel_of(rel, names) == d
}

#[verifier::spinoff_prover]
fn plan_download<T: Transport + ?Sized>(
    t: &mut T,
    local: &Vec<LocalEntry>,
    remote: &str,
    filter: &Filter,
    rule: CopyRule,
    rel: &str,
    plan: &mut TransferPlan,
    Ghost(root): Ghost<Seq<char>>,
    Ghost(fuel): Ghost<nat>,
) -> (r: Result<()>)
    requires
        subtree_size(old(t).tree(), remote@) < fuel,
        at_rel(root, rel@, remote@),
        forall|i: int| 0 <= i < old(plan).items.len() ==> remote_item(old(t).tree(), root, #[trigger] old(plan).items@[i]),
        items_explained(rule, old(plan).items@),
    ensures
        final(t).tree() == old(t).tree(),
        forall|i: int| 0 <= i < final(plan).items.len() ==> remote_item(old(t).tree(), root, #[trigger] final(plan).items@[i]),
        items_explained(rule, final(plan).items@),
        extends(final(plan).items@, old(plan).items@),
        r is Ok ==> forall|names: Seq<Seq<char>>|
            #[trigger] download_wants(old(t).tree(), remote@, rel@, local@, filter@, rule, names) ==> has_item(
                final(plan).items@,
                rel_of(rel@, names),
            ),
        forall|i: int|
            old(plan).items.len() <= i < final(plan).items.len() ==> download_source(
                old(t).tree(),
                remote@,
                rel@,
                local@,
                filter@,
                rule,
                (#[trigger] final(plan).items@[i]).rel@,
            ),
        old(plan).dirs.len() <= final(plan).dirs.len(),
        final(plan).dirs@.subrange(0, old(plan).dirs.len() as int) == old(plan).dirs@,
        forall|i: int|
            old(plan).dirs.len() <= i < final(plan).dirs.len() ==> remote_dir_source(
                old(t).tree(),
                remote@,
                rel@,
                filter@,
                (#[trigger] final(plan).dirs@[i])@,
            ),
    decreases fuel,
{
    let ghost t0 = t.tree();
    let ghost dstart = plan.dirs@;
    assert(dstart.subrange(0, dstart.len() as int) =~= dstart);
    let ghost start = plan.items@;
    assert(start.subrange(0, start.len() as int) =~= start);
    let entries = t.list_dir(remote)?;
    let mut k: usize = 0;
    while k < entries.len()
        invariant
            k <= entries.len(),
            t0 == old(t).tree(),
            t.tree() == t0,
            t0.dom().finite(),
            is_listing(t0, remote@, entries@),
            subtree_size(t0, remote@) < fuel,
            at_rel(root, rel@, remote@),
            forall|i: int| 0 <= i < plan.items.len() ==> remote_item(t0, root, #[trigger] plan.items@[i]),
            items_explained(rule, plan.items@),
            start == old(plan).items@,
            extends(plan.items@, start),
            forall|names: Seq<Seq<char>>|
                #[trigger] download_wants(t0, remote@, rel@, local@, filter@, rule, names) && listed_before(
                    entries@,
                    k as int,
                    names[0],
                ) ==> has_item(plan.items@, rel_of(rel@, names)),
            forall|i: int|
                start.len() <= i < plan.items.len() ==> download_source(
                    t0,
                    remote@,
                    rel@,
                    local@,
                    filter@,
                    rule,
                    (#[trigger] plan.items@[i]).rel@,
                ),
            dstart == old(plan).dirs@,
            dstart.len() <= plan.dirs.len(),
            plan.dirs@.subrange(0, dstart.len() as int) == dstart,
            forall|i: int|
                dstart.len() <= i < plan.dirs.len() ==> remote_dir_source(
                    t0,
                    remote@,
                    rel@,
                    filter@,
                    (#[trigger] plan.dirs@[i])@,
                ),
        decreases entries.len() - k,
    {
        let e = &entries[k];
        let ghost before = plan.items@;
        let ghost dbefore = plan.dirs@;
        proof {
            assert(valid_name(entries@[k as int].name@));
            lemma_at_rel_child(root, rel@, remote@, e.name@);
            assert(reports(entries@[k as int], t0[join_path(remote@, e.name@)]));
        }
        if filter.excludes(e.name.as_str(), e.is_dir) || (e.is_dir && e.is_symlink) {
            proof {
                assert forall|names: Seq<Seq<char>>|
                    #[trigger] download_wants(t0, remote@, rel@, local@, filter@, rule, names) && listed_before(
                        entries@,
                        k + 1,
                        names[0],
                    ) implies has_item(plan.items@, rel_of(rel@, names)) by {
                    if !listed_before(entries@, k as int, names[0]) {
                        let j = choose|j: int| 0 <= j < k + 1 && (#[trigger] entries@[j]).name@ == names[0];
                        assert(j == k);
                    }
                }
            }
            k = k + 1;
            continue;
        }
        let child_rel = rel_join(rel, e.name.as_str());
        if e.is_dir {
            let child_remote = join(remote, e.name.as_str());
            let found = find_local(local, e.name.as_str());
            let no_children: Vec<LocalEntry> = Vec::new();
            let sub: &Vec<LocalEntry> = match found {
                Some(i) => if local[i].is_dir {
                    &local[i].children
                } else {
                    &no_children
                },
                None => &no_children,
            };
            assert(sub@ =~= sub_local(local@, e.name@));
            let local_is_dir = match found {
                Some(i) => local[i].is_dir,
                None => false,
            };
            if !local_is_dir {
                plan.dirs.push(child_rel.clone());
                proof {
                    let one = seq![e.name@];
                    assert(one.len() == 1 && one[0] == e.name@);
                    assert(real_dir_path(t0, remote@, filter@, one));
                    assert(rel_of(rel@, one) == child_rel@);
                    assert(plan.dirs@.subrange(0, dstart.len() as int) =~= dbefore.subrange(0, dstart.len() as int));
                    assert forall|i: int| dstart.len() <= i < plan.dirs.len() implies remote_dir_source(
                        t0,
                        remote@,
                        rel@,
                        filter@,
                        (#[trigger] plan.dirs@[i])@,
                    ) by {
                        if i < dbefore.len() {
                            assert(plan.dirs@[i] == dbefore[i]);
                        } else {
                            assert(plan.dirs@[i]@ == child_rel@);
                        }
                    }
                }
            }
            let ghost dmid = plan.dirs@;
            proof {
                lemma_child_subtree_smaller(t0, t0, remote@, e.name@);
            }
            let ghost mid = plan.items@;
            assert(mid == before);
            let res = plan_download(
                t,
                sub,
                child_remote.as_str(),
                filter,
                rule,
                child_rel.as_str(),
                plan,
                Ghost(root),
                Ghost(subtree_size(t0, remote@)),
            );
            assert(extends(plan.items@, start)) by {
                assert(plan.items@.subrange(0, start.len() as int) =~= plan.items@.subrange(
                    0,
                    before.len() as int,
                ).subrange(0, start.len() as int));
            }
            assert forall|i: int| start.len() <= i < plan.items.len() implies download_source(
                t0,
                remote@,
                rel@,
                local@,
                filter@,
                rule,
                (#[trigger] plan.items@[i]).rel@,
            ) by {
                if i < before.len() {
                    assert(plan.items@.subrange(0, before.len() as int)[i] == plan.items@[i]);
                    assert(before[i] == plan.items@[i]);
                } else {
                    let p = plan.items@[i].rel@;
                    assert(download_source(t0, child_remote@, child_rel@, sub@, filter@, rule, p));
                    let tail = choose|names: Seq<Seq<char>>|
                        #[trigger] download_wants(t0, child_remote@, child_rel@, sub@, filter@, rule, names)
                            && rel_of(child_rel@, names) == p;
                    let names = seq![e.name@] + tail;
                    assert(names.drop_first() =~= tail);
                    assert(names[0] == e.name@);
                    assert(download_wants(t0, remote@, rel@, local@, filter@, rule, names));
                    assert(rel_of(rel@, names) == p);
                }
            }
            proof {
                assert(plan.dirs@.subrange(0, dstart.len() as int) =~= plan.dirs@.subrange(
                    0,
                    dmid.len() as int,
                ).subrange(0, dstart.len() as int));
                assert forall|i: int| dstart.len() <= i < plan.dirs.len() implies remote_dir_source(
                    t0,
                    remote@,
                    rel@,
                    filter@,
                    (#[trigger] plan.dirs@[i])@,
                ) by {
                    if i < dmid.len() {
                        assert(plan.dirs@.subrange(0, dmid.len() as int)[i] == plan.dirs@[i]);
                        assert(dmid[i] == plan.dirs@[i]);
                    } else {
                        let d = plan.dirs@[i]@;
                        assert(remote_dir_source(t0, child_remote@, child_rel@, filter@, d));
                        let tail = choose|names: Seq<Seq<char>>|
                            #[trigger] real_dir_path(t0, child_remote@, filter@, names) && rel_of(child_rel@, names) == d;
                        let names = seq![e.name@] + tail;
                        assert(names.drop_first() =~= tail);
                        assert(names[0] == e.name@);
                        assert(real_dir_path(t0, remote@, filter@, names));
                        assert(rel_of(rel@, names) == d);
                    }
                }
            }
            if res.is_err() {
                return res;
            }
            proof {
                assert forall|names: Seq<Seq<char>>|
                    #[trigger] download_wants(t0, remote@, rel@, local@, filter@, rule, names) && listed_before(
                        entries@,
                        k + 1,
                        names[0],
                    ) implies has_item(plan.items@, rel_of(rel@, names)) by {
                    if listed_before(entries@, k as int, names[0]) {
                        lemma_extends_keeps(plan.items@, before, rel_of(rel@, names));
                    } else {
                        let j = choose|j: int| 0 <= j < k + 1 && (#[trigger] entries@[j]).name@ == names[0];
                        assert(j == k);
                        assert(names.len() > 1);
                        assert(download_wants(
                            t0,
                            child_remote@,
                            child_rel@,
                            sub@,
                            filter@,
                            rule,
                            names.drop_first(),
                        ));
                    }
                }
            }
        } else {
            let dst = match find_local(local, e.name.as_str()) {
                Some(i) => Some((local[i].size, local[i].mtime)),
                None => None,
            };
            assert(dst == local_meta(local@, e.name@));
            if rule_copies_exec(rule, e.size, e.mtime, dst) {
                let item = TransferItem {
                    rel: child_rel,
                    size: e.size,
                    reason: copy_reason(e.size, e.mtime, dst),
                };
                plan.items.push(item);
                proof {
                    assert forall|i: int| 0 <= i < plan.items.len() implies remote_item(
                        t0,
                        root,
                        #[trigger] plan.items@[i],
                    ) by {
                        if i < before.len() {
                            assert(plan.items@[i] == before[i]);
                        }
                    }
                    assert(plan.items@.subrange(0, before.len() as int) =~= before);
                    assert forall|i: int| start.len() <= i < plan.items.len() implies download_source(
                        t0,
                        remote@,
                        rel@,
                        local@,
                        filter@,
                        rule,
                        (#[trigger] plan.items@[i]).rel@,
                    ) by {
                        if i < before.len() {
                            assert(before[i] == plan.items@[i]);
                        } else {
                            let names = seq![e.name@];
                            assert(download_wants(t0, remote@, rel@, local@, filter@, rule, names));
                            assert(rel_of(rel@, names) == plan.items@[i].rel@);
                        }
                    }
                    assert(extends(plan.items@, start)) by {
                        assert(plan.items@.subrange(0, start.len() as int) =~= before.subrange(
                            0,
                            start.len() as int,
                        ));
                    }
                    assert forall|names: Seq<Seq<char>>|
                        #[trigger] download_wants(t0, remote@, rel@, local@, filter@, rule, names) && listed_before(
                            entries@,
                            k + 1,
                            names[0],
                        ) implies has_item(plan.items@, rel_of(rel@, names)) by {
                        if listed_before(entries@, k as int, names[0]) {
                            lemma_extends_keeps(plan.items@, before, rel_of(rel@, names));
                        } else {
                            let j = choose|j: int| 0 <= j < k + 1 && (#[trigger] entries@[j]).name@ == names[0];
                            assert(j == k);
                            assert(names.len() == 1);
                            assert(plan.items@[before.len() as int].rel@ == rel_of(rel@, names));
                        }
                    }
                }
            } else {
                plan.skipped = plan.skipped.saturating_add(1);
                proof {
                    assert forall|names: Seq<Seq<char>>|
                        #[trigger] download_wants(t0, remote@, rel@, local@, filter@, rule, names) && listed_before(
                            entries@,
                            k + 1,
                            names[0],
                        ) implies has_item(plan.items@, rel_of(rel@, names)) by {
                        if !listed_before(entries@, k as int, names[0]) {
                            let j = choose|j: int| 0 <= j < k + 1 && (#[trigger] entries@[j]).name@ == names[0];
                            assert(j == k);
                        }
                    }
                }
            }
        }
        k = k + 1;
    }
    proof {
        assert forall|names: Seq<Seq<char>>|
            #[trigger] download_wants(t0, remote@, rel@, local@, filter@, rule, names) implies has_item(
                plan.items@,
                rel_of(rel@, names),
            ) by {
            assert(valid_name(names[0]) && t0.contains_key(join_path(remote@, names[0])));
            let j = choose|j: int| 0 <= j < entries@.len() && entries@[j].name@ == names[0];
            assert(listed_before(entries@, entries@.len() as int, names[0]));
        }
    }
    Ok(())
}

/// What the server holds at `name` inside `dir`, as an upload compares
/// against it: the size and mtime of a file there, or nothing (missing, a
/// directory, or not a name a listing can show).
pub open spec fn remote_file_meta(
    tree: Map<Seq<char>, RemoteNode>,
    dir: Seq<char>,
    name: Seq<char>,
) -> Option<(u64, Option<i64>)> {
    if valid_name(name) && tree.contains_key(join_path(dir, name)) && !tree[join_path(
        dir,
        name,
    )].is_dir {
        Some((tree[join_path(dir, name)].size, tree[join_path(dir, name)].mtime))
    } else {
        None
    }
}

/// `p` (relative to the roots) is a file an upload of the local entries
/// `local` into remote directory `dir` (at relative path `rel`) must copy: it
/// is reached through directories the filter keeps, is kept itself, and
/// `rule` copies it given what the server holds at its destination.
pub open spec fn upload_wants(
    tree: Map<Seq<char>, RemoteNode>,
    dir: Seq<char>,
    rel: Seq<char>,
    local: Seq<LocalEntry>,
    filter: Seq<(Seq<char>, bool)>,
    rule: CopyRule,
    p: Seq<char>,
) -> bool
    decreases local,
{
    if local.len() == 0 {
        false
    } else {
        upload_wants(tree, dir, rel, local.drop_last(), filter, rule, p) || entry_wants(
            tree,
            dir,
            rel,
            local.last(),
            filter,
            rule,
            p,
        )
    }
}

/// `p` is a file the upload of local entry `e` (inside `dir`, at `rel`) must
/// copy.
pub open spec fn entry_wants(
    tree: Map<Seq<char>, RemoteNode>,
    dir: Seq<char>,
    rel: Seq<char>,
    e: LocalEntry,
    filter: Seq<(Seq<char>, bool)>,
    rule: CopyRule,
    p: Seq<char>,
) -> bool
    decreases e,
{
    &&& !excluded(filter, e.name@, e.is_dir)
    &&& if e.is_dir {
        upload_wants(
            tree,
            join_path(dir, e.name@),
            rel_path(rel, e.name@),
            e.children@,
            filter,
            rule,
            p,
        )
    } else {
        p == rel_path(rel, e.name@) && rule_copies(
            rule,
            e.size,
            e.mtime,
            remote_file_meta(tree, dir, e.name@),
        )
    }
}

/// `p` (relative to the roots) is a file, of `size` bytes, among the local
/// entries `local` (at relative path `rel`), reached through directories the
/// filter keeps and kept itself.
pub open spec fn local_source(
    rel: Seq<char>,
    local: Seq<LocalEntry>,
    filter: Seq<(Seq<char>, bool)>,
    p: Seq<char>,
    size: u64,
) -> bool
    decreases local,
{
    if local.len() == 0 {
        false
    } else {
        local_source(rel, local.drop_last(), filter, p, size) || entry_source(
            rel,
            local.last(),
            filter,
            p,
            size,
        )
    }
}

/// `p` is a file, of `size` bytes, of local entry `e` (at `rel`).
pub open spec fn entry_source(
    rel: Seq<char>,
    e: LocalEntry,
    filter: Seq<(Seq<char>, bool)>,
    p: Seq<char>,
    size: u64,
) -> bool
    decreases e,
{
    &&& !excluded(filter, e.name@, e.is_dir)
    &&& if e.is_dir {
        local_source(rel_path(rel, e.name@), e.children@, filter, p, size)
    } else {
        p == rel_path(rel, e.name@) && size == e.size
    }
}

/// What an upload planner that could not list `dir` (so assumes it empty)
/// or could list it knows of the file `name` there.
pub open spec fn dest_meta(
    tree: Map<Seq<char>, RemoteNode>,
    unlisted: Set<Seq<char>>,
    dir: Seq<char>,
    name: Seq<char>,
) -> Option<(u64, Option<i64>)> {
    if unlisted.contains(dir) {
        None
    } else {
        remote_file_meta(tree, dir, name)
    }
}

/// `p` (of `size` bytes) is a kept local file among `local` (at `rel`, to go
/// into remote directory `dir`) that `rule` copies, given what the server
/// holds at its destination, or given nothing there when the listing of its
/// destination directory failed (`unlisted`).
pub open spec fn upload_picks(
    tree: Map<Seq<char>, RemoteNode>,
    unlisted: Set<Seq<char>>,
    dir: Seq<char>,
    rel: Seq<char>,
    local: Seq<LocalEntry>,
    filter: Seq<(Seq<char>, bool)>,
    rule: CopyRule,
    p: Seq<char>,
    size: u64,
) -> bool
    decreases local,
{
    if local.len() == 0 {
        false
    } else {
        upload_picks(tree, unlisted, dir, rel, local.drop_last(), filter, rule, p, size) || entry_picks(
            tree,
            unlisted,
            dir,
            rel,
            local.last(),
            filter,
            rule,
            p,
            size,
        )
    }
}

/// [`upload_picks`] for one local entry.
pub open spec fn entry_picks(
    tree: Map<Seq<char>, RemoteNode>,
    unlisted: Set<Seq<char>>,
    dir: Seq<char>,
    rel: Seq<char>,
    e: LocalEntry,
    filter: Seq<(Seq<char>, bool)>,
    rule: CopyRule,
    p: Seq<char>,
    size: u64,
) -> bool
    decreases e,
{
    &&& !excluded(filter, e.name@, e.is_dir)
    &&& if e.is_dir {
        upload_picks(
            tree,
            unlisted,
            join_path(dir, e.name@),
            rel_path(rel, e.name@),
            e.children@,
            filter,
            rule,
            p,
            size,
        )
    } else {
        &&& p == rel_path(rel, e.name@)
        &&& size == e.size
        &&& rule_copies(rule, e.size, e.mtime, dest_meta(tree, unlisted, dir, e.name@))
    }
}

/// Picking from one more entry.
proof fn lemma_picks_step(
    tree: Map<Seq<char>, RemoteNode>,
    unlisted: Set<Seq<char>>,
    dir: Seq<char>,
    rel: Seq<char>,
    local: Seq<LocalEntry>,
    k: int,
    filter: Seq<(Seq<char>, bool)>,
    rule: CopyRule,
    p: Seq<char>,
    size: u64,
)
    requires
        0 <= k < local.len(),
    ensures
        upload_picks(tree, unlisted, dir, rel, local.subrange(0, k + 1), filter, rule, p, size) == (
        upload_picks(tree, unlisted, dir, rel, local.subrange(0, k), filter, rule, p, size) || entry_picks(
            tree,
            unlisted,
            dir,
            rel,
            local[k],
            filter,
            rule,
            p,
            size,
        )),
{
    let pre = local.subrange(0, k + 1);
    assert(pre.drop_last() =~= local.subrange(0, k));
    assert(pre.last() == local[k]);
}

/// More failed listings only make more files copied.
proof fn lemma_picks_mono(
    tree: Map<Seq<char>, RemoteNode>,
    f: Set<Seq<char>>,
    g: Set<Seq<char>>,
    dir: Seq<char>,
    rel: Seq<char>,
    local: Seq<LocalEntry>,
    filter: Seq<(Seq<char>, bool)>,
    rule: CopyRule,
    p: Seq<char>,
    size: u64,
)
    requires
        f.subset_of(g),
        upload_picks(tree, f, dir, rel, local, filter, rule, p, size),
    ensures
        upload_picks(tree, g, dir, rel, local, filter, rule, p, size),
    decreases local,
{
    if local.len() > 0 {
        if upload_picks(tree, f, dir, rel, local.drop_last(), filter, rule, p, size) {
            lemma_picks_mono(tree, f, g, dir, rel, local.drop_last(), filter, rule, p, size);
        } else {
            lemma_entry_picks_mono(tree, f, g, dir, rel, local.last(), filter, rule, p, size);
        }
    }
}

proof fn lemma_entry_picks_mono(
    tree: Map<Seq<char>, RemoteNode>,
    f: Set<Seq<char>>,
    g: Set<Seq<char>>,
    dir: Seq<char>,
    rel: Seq<char>,
    e: LocalEntry,
    filter: Seq<(Seq<char>, bool)>,
    rule: CopyRule,
    p: Seq<char>,
    size: u64,
)
    requires
        f.subset_of(g),
        entry_picks(tree, f, dir, rel, e, filter, rule, p, size),
    ensures
        entry_picks(tree, g, dir, rel, e, filter, rule, p, size),
    decreases e,
{
    if e.is_dir {
        lemma_picks_mono(
            tree,
            f,
            g,
            join_path(dir, e.name@),
            rel_path(rel, e.name@),
            e.children@,
            filter,
            rule,
            p,
            size,
        );
    } else {
        lemma_rule_copies_missing(rule, e.size, e.mtime);
    }
}

/// The server holds a directory called `n` in `dir`.
pub open spec fn remote_has_dir(tree: Map<Seq<char>, RemoteNode>, dir: Seq<char>, n: Seq<char>) -> bool {
    valid_name(n) && tree.contains_key(join_path(dir, n)) && tree[join_path(dir, n)].is_dir
}

/// `d` (relative to the roots) is a directory an upload of `local` into
/// `dir` (at `rel`) must create: a kept local directory, reached through
/// kept directories, that the server does not hold as a directory.
pub open spec fn upload_dir_wants(
    tree: Map<Seq<char>, RemoteNode>,
    dir: Seq<char>,
    rel: Seq<char>,
    local: Seq<LocalEntry>,
    filter: Seq<(Seq<char>, bool)>,
    d: Seq<char>,
) -> bool
    decreases local,
{
    if local.len() == 0 {
        false
    } else {
        upload_dir_wants(tree, dir, rel, local.drop_last(), filter, d) || entry_dir_wants(
            tree,
            dir,
            rel,
            local.last(),
            filter,
            d,
        )
    }
}

/// [`upload_dir_wants`] for one local entry.
pub open spec fn entry_dir_wants(
    tree: Map<Seq<char>, RemoteNode>,
    dir: Seq<char>,
    rel: Seq<char>,
    e: LocalEntry,
    filter: Seq<(Seq<char>, bool)>,
    d: Seq<char>,
) -> bool
    decreases e,
{
    &&& !excluded(filter, e.name@, e.is_dir)
    &&& e.is_dir
    &&& ((d == rel_path(rel, e.name@) && !remote_has_dir(tree, dir, e.name@)) || upload_dir_wants(
        tree,
        join_path(dir, e.name@),
        rel_path(rel, e.name@),
        e.children@,
        filter,
        d,
    ))
}

/// `d` is a kept local directory, reached through kept directories, that
/// the planner may create: the server does not hold it as a directory, or
/// the planner did not look (`blind`: it overwrites anyway) or could not
/// list its parent (`unlisted`).
pub open spec fn upload_dir_picks(
    tree: Map<Seq<char>, RemoteNode>,
    unlisted: Set<Seq<char>>,
    blind: bool,
    dir: Seq<char>,
    rel: Seq<char>,
    local: Seq<LocalEntry>,
    filter: Seq<(Seq<char>, bool)>,
    d: Seq<char>,
) -> bool
    decreases local,
{
    if local.len() == 0 {
        false
    } else {
        upload_dir_picks(tree, unlisted, blind, dir, rel, local.drop_last(), filter, d) || entry_dir_picks(
            tree,
            unlisted,
            blind,
            dir,
            rel,
            local.last(),
            filter,
            d,
        )
    }
}

/// [`upload_dir_picks`] for one local entry.
pub open spec fn entry_dir_picks(
    tree: Map<Seq<char>, RemoteNode>,
    unlisted: Set<Seq<char>>,
    blind: bool,
    dir: Seq<char>,
    rel: Seq<char>,
    e: LocalEntry,
    filter: Seq<(Seq<char>, bool)>,
    d: Seq<char>,
) -> bool
    decreases e,
{
    &&& !excluded(filter, e.name@, e.is_dir)
    &&& e.is_dir
    &&& ((d == rel_path(rel, e.name@) && (blind || unlisted.contains(dir) || !remote_has_dir(tree, dir, e.name@)))
        || upload_dir_picks(
        tree,
        unlisted,
        blind,
        join_path(dir, e.name@),
        rel_path(rel, e.name@),
        e.children@,
        filter,
        d,
    ))
}

proof fn lemma_dir_wants_step(
    tree: Map<Seq<char>, RemoteNode>,
    dir: Seq<char>,
    rel: Seq<char>,
    local: Seq<LocalEntry>,
    k: int,
    filter: Seq<(Seq<char>, bool)>,
    d: Seq<char>,
)
    requires
        0 <= k < local.len(),
    ensures
        upload_dir_wants(tree, dir, rel, local.subrange(0, k + 1), filter, d) == (upload_dir_wants(
            tree,
            dir,
            rel,
            local.subrange(0, k),
            filter,
            d,
        ) || entry_dir_wants(tree, dir, rel, local[k], filter, d)),
{
    let pre = local.subrange(0, k + 1);
    assert(pre.drop_last() =~= local.subrange(0, k));
    assert(pre.last() == local[k]);
}

proof fn lemma_dir_picks_step(
    tree: Map<Seq<char>, RemoteNode>,
    unlisted: Set<Seq<char>>,
    blind: bool,
    dir: Seq<char>,
    rel: Seq<char>,
    local: Seq<LocalEntry>,
    k: int,
    filter: Seq<(Seq<char>, bool)>,
    d: Seq<char>,
)
    requires
        0 <= k < local.len(),
    ensures
        upload_dir_picks(tree, unlisted, blind, dir, rel, local.subrange(0, k + 1), filter, d) == (
        upload_dir_picks(tree, unlisted, blind, dir, rel, local.subrange(0, k), filter, d)
            || entry_dir_picks(tree, unlisted, blind, dir, rel, local[k], filter, d)),
{
    let pre = local.subrange(0, k + 1);
    assert(pre.drop_last() =~= local.subrange(0, k));
    assert(pre.last() == local[k]);
}

proof fn lemma_dir_picks_mono(
    tree: Map<Seq<char>, RemoteNode>,
    f: Set<Seq<char>>,
    g: Set<Seq<char>>,
    blind: bool,
    dir: Seq<char>,
    rel: Seq<char>,
    local: Seq<LocalEntry>,
    filter: Seq<(Seq<char>, bool)>,
    d: Seq<char>,
)
    requires
        f.subset_of(g),
        upload_dir_picks(tree, f, blind, dir, rel, local, filter, d),
    ensures
        upload_dir_picks(tree, g, blind, dir, rel, local, filter, d),
    decreases local,
{
    if local.len() > 0 {
        if upload_dir_picks(tree, f, blind, dir, rel, local.drop_last(), filter, d) {
            lemma_dir_picks_mono(tree, f, g, blind, dir, rel, local.drop_last(), filter, d);
        } else {
            lemma_entry_dir_picks_mono(tree, f, g, blind, dir, rel, local.last(), filter, d);
        }
    }
}

proof fn lemma_entry_dir_picks_mono(
    tree: Map<Seq<char>, RemoteNode>,
    f: Set<Seq<char>>,
    g: Set<Seq<char>>,
    blind: bool,
    dir: Seq<char>,
    rel: Seq<char>,
    e: LocalEntry,
    filter: Seq<(Seq<char>, bool)>,
    d: Seq<char>,
)
    requires
        f.subset_of(g),
        entry_dir_picks(tree, f, blind, dir, rel, e, filter, d),
    ensures
        entry_dir_picks(tree, g, blind, dir, rel, e, filter, d),
    decreases e,
{
    if upload_dir_picks(
        tree,
        f,
        blind,
        join_path(dir, e.name@),
        rel_path(rel, e.name@),
        e.children@,
        filter,
        d,
    ) {
        lemma_dir_picks_mono(
            tree,
            f,
            g,
            blind,
            join_path(dir, e.name@),
            rel_path(rel, e.name@),
            e.children@,
            filter,
            d,
        );
    }
}

/// A source from one more entry.
proof fn lemma_local_source_step(
    rel: Seq<char>,
    local: Seq<LocalEntry>,
    k: int,
    filter: Seq<(Seq<char>, bool)>,
    p: Seq<char>,
    size: u64,
)
    requires
        0 <= k < local.len(),
    ensures
        local_source(rel, local.subrange(0, k + 1), filter, p, size) == (local_source(
            rel,
            local.subrange(0, k),
            filter,
            p,
            size,
        ) || entry_source(rel, local[k], filter, p, size)),
{
    let pre = local.subrange(0, k + 1);
    assert(pre.drop_last() =~= local.subrange(0, k));
    assert(pre.last() == local[k]);
}

/// The local entries inside the local entry called `name`, when that is a
/// directory (none otherwise).
pub open spec fn sub_local(local: Seq<LocalEntry>, name: Seq<char>) -> Seq<LocalEntry> {
    match local_index(local, name) {
        Some(i) => if local[i].is_dir {
            local[i].children@
        } else {
            Seq::empty()
        },
        None => Seq::empty(),
    }
}

/// The relative path of the file reached from `rel` through `names`.
pub open spec fn rel_of(rel: Seq<char>, names: Seq<Seq<char>>) -> Seq<char>
    decreases names.len(),
{
    if names.len() <= 1 {
        rel_path(rel, names[0])
    } else {
        rel_of(rel_path(rel, names[0]), names.drop_first())
    }
}

/// The remote file reached from directory `dir` (at relative path `rel`)
/// through the path components `names` is one a download into the local
/// entries `local` must copy: every component is a name a listing shows,
/// every directory on the way is a real directory (not a link) the filter
/// keeps, the file is kept, and `rule` copies it given what the local side
/// holds at its place.
pub open spec fn download_wants(
    tree: Map<Seq<char>, RemoteNode>,
    dir: Seq<char>,
    rel: Seq<char>,
    local: Seq<LocalEntry>,
    filter: Seq<(Seq<char>, bool)>,
    rule: CopyRule,
    names: Seq<Seq<char>>,
) -> bool
    decreases names.len(),
{
    if names.len() == 0 {
        false
    } else {
        let n = names[0];
        let k = join_path(dir, n);
        &&& valid_name(n)
        &&& tree.contains_key(k)
        &&& !excluded(filter, n, tree[k].is_dir)
        &&& if names.len() == 1 {
            !tree[k].is_dir && rule_copies(rule, tree[k].size, tree[k].mtime, local_meta(local, n))
        } else {
            tree[k].is_dir && !tree[k].is_symlink && download_wants(
                tree,
                k,
                rel_path(rel, n),
                sub_local(local, n),
                filter,
                rule,
                names.drop_first(),
            )
        }
    }
}

/// Wanting from one more entry.
proof fn lemma_upload_wants_step(
    tree: Map<Seq<char>, RemoteNode>,
    dir: Seq<char>,
    rel: Seq<char>,
    local: Seq<LocalEntry>,
    k: int,
    filter: Seq<(Seq<char>, bool)>,
    rule: CopyRule,
    p: Seq<char>,
)
    requires
        0 <= k < local.len(),
    ensures
        upload_wants(tree, dir, rel, local.subrange(0, k + 1), filter, rule, p) == (upload_wants(
            tree,
            dir,
            rel,
            local.subrange(0, k),
            filter,
            rule,
            p,
        ) || entry_wants(tree, dir, rel, local[k], filter, rule, p)),
{
    let pre = local.subrange(0, k + 1);
    assert(pre.drop_last() =~= local.subrange(0, k));
    assert(pre.last() == local[k]);
}

/// Some planned item copies `p`.
pub open spec fn has_item(items: Seq<TransferItem>, p: Seq<char>) -> bool {
    exists|i: int| 0 <= i < items.len() && (#[trigger] items[i]).rel@ == p
}

/// `a` is where `b` started: planning only appends.
pub open spec fn extends(a: Seq<TransferItem>, b: Seq<TransferItem>) -> bool {
    b.len() <= a.len() && a.subrange(0, b.len() as int) == b
}

/// An appended plan still holds what it held.
proof fn lemma_extends_keeps(a: Seq<TransferItem>, b: Seq<TransferItem>, p: Seq<char>)
    requires
        extends(a, b),
        has_item(b, p),
    ensures
        has_item(a, p),
{
    let i = choose|i: int| 0 <= i < b.len() && (#[trigger] b[i]).rel@ == p;
    assert(a.subrange(0, b.len() as int)[i] == a[i]);
}

/// Every rule copies a file the destination does not have.
proof fn lemma_rule_copies_missing(rule: CopyRule, size: u64, mtime: Option<i64>)
    ensures
        rule_copies(rule, size, mtime, None),
{
}

/// A successful listing tells what the server holds at each name.
proof fn lemma_listed_file_meta(
    tree: Map<Seq<char>, RemoteNode>,
    dir: Seq<char>,
    es: Seq<Entry>,
    name: Seq<char>,
)
    requires
        is_listing(tree, dir, es),
    ensures
        listed_file(es, name) == remote_file_meta(tree, dir, name),
    decreases es.len(),
{
    lemma_listed_file_in(es, name);
    if listed_file(es, name) is None && remote_file_meta(tree, dir, name) is Some {
        let i = choose|i: int| 0 <= i < es.len() && es[i].name@ == name;
        lemma_listed_file_none(es, name, i);
        assert(reports(es[i], tree[join_path(dir, es[i].name@)]));
    }
}

/// The first non-directory entry called `name`, when there is one.
proof fn lemma_listed_file_in(es: Seq<Entry>, name: Seq<char>)
    ensures
        listed_file(es, name) matches Some(m) ==> exists|i: int|
            0 <= i < es.len() && #[trigger] es[i].name@ == name && !es[i].is_dir && m == (
                es[i].size,
                es[i].mtime,
            ),
    decreases es.len(),
{
    if es.len() > 0 && !(es[0].name@ == name && !es[0].is_dir) {
        lemma_listed_file_in(es.drop_first(), name);
        if listed_file(es, name) is Some {
            let i = choose|i: int|
                0 <= i < es.drop_first().len() && #[trigger] es.drop_first()[i].name@ == name
                    && !es.drop_first()[i].is_dir;
            assert(es[i + 1] == es.drop_first()[i]);
        }
    }
}

/// No non-directory entry is called `name` when none is found.
proof fn lemma_listed_file_none(es: Seq<Entry>, name: Seq<char>, i: int)
    requires
        listed_file(es, name) is None,
        0 <= i < es.len(),
        es[i].name@ == name,
    ensures
        es[i].is_dir,
    decreases es.len(),
{
    if i > 0 && !(es[0].name@ == name && !es[0].is_dir) {
        lemma_listed_file_none(es.drop_first(), name, i - 1);
    }
}

/// A list that only grew still holds what it held.
proof fn lemma_names_hold_extend(a: Seq<String>, b: Seq<String>, n: Seq<char>)
    requires
        b.len() <= a.len(),
        a.subrange(0, b.len() as int) == b,
        names_hold(b, n),
    ensures
        names_hold(a, n),
{
    let j = choose|j: int| 0 <= j < b.len() && (#[trigger] b[j])@ == n;
    assert(a.subrange(0, b.len() as int)[j] == a[j]);
}

/// How many files a walk of the local entries `local` reaches: every
/// non-directory the filter keeps, inside directories it keeps.
pub open spec fn kept_files(local: Seq<LocalEntry>, filter: Seq<(Seq<char>, bool)>) -> nat
    decreases local,
{
    if local.len() == 0 {
        0
    } else {
        let e = local[local.len() - 1];
        kept_files(local.subrange(0, local.len() - 1), filter) + if excluded(filter, e.name@, e.is_dir) {
            0
        } else if e.is_dir {
            kept_files(e.children@, filter)
        } else {
            1
        }
    }
}

/// `v` as a `usize` count that stops at `usize::MAX`.
pub open spec fn capped(v: int) -> usize {
    if v > usize::MAX {
        usize::MAX
    } else {
        v as usize
    }
}

/// Adding to a capped count caps the sum.
proof fn lemma_capped_add(x: int, y: int)
    requires
        0 <= x,
        0 <= y,
    ensures
        capped(capped(x) + y) == capped(x + y),
{
}

/// One more entry of the walk.
proof fn lemma_kept_files_step(local: Seq<LocalEntry>, k: int, filter: Seq<(Seq<char>, bool)>)
    requires
        0 <= k < local.len(),
    ensures
        kept_files(local.subrange(0, k + 1), filter) == kept_files(local.subrange(0, k), filter) + if excluded(
            filter,
            local[k].name@,
            local[k].is_dir,
        ) {
            0
        } else if local[k].is_dir {
            kept_files(local[k].children@, filter)
        } else {
            1
        },
{
    let pre = local.subrange(0, k + 1);
    assert(pre.subrange(0, pre.len() - 1) =~= local.subrange(0, k));
    assert(pre[pre.len() - 1] == local[k]);
}

#[verifier::spinoff_prover]
fn plan_upload<T: Transport + ?Sized>(
    t: &mut T,
    local: &Vec<LocalEntry>,
    remote: &str,
    filter: &Filter,
    rule: CopyRule,
    rel: &str,
    plan: &mut TransferPlan,
) -> (r: Result<()>)
    requires
        items_explained(rule, old(plan).items@),
    ensures
        r is Ok,
        final(t).tree() == old(t).tree(),
        items_explained(rule, final(plan).items@),
        extends(final(plan).items@, old(plan).items@),
        forall|p: Seq<char>|
            #[trigger] upload_wants(old(t).tree(), remote@, rel@, local@, filter@, rule, p) ==> has_item(
                final(plan).items@,
                p,
            ),
        forall|i: int|
            old(plan).items.len() <= i < final(plan).items.len() ==> local_source(
                rel@,
                local@,
                filter@,
                (#[trigger] final(plan).items@[i]).rel@,
                final(plan).items@[i].size,
            ),
        old(t).unlisted().subset_of(final(t).unlisted()),
        forall|i: int|
            old(plan).items.len() <= i < final(plan).items.len() ==> upload_picks(
                old(t).tree(),
                final(t).unlisted(),
                remote@,
                rel@,
                local@,
                filter@,
                rule,
                (#[trigger] final(plan).items@[i]).rel@,
                final(plan).items@[i].size,
            ),
        old(plan).dirs.len() <= final(plan).dirs.len(),
        final(plan).dirs@.subrange(0, old(plan).dirs.len() as int) == old(plan).dirs@,
        forall|d: Seq<char>|
            #[trigger] upload_dir_wants(old(t).tree(), remote@, rel@, local@, filter@, d) ==> names_hold(
                final(plan).dirs@,
                d,
            ),
        forall|i: int|
            old(plan).dirs.len() <= i < final(plan).dirs.len() ==> upload_dir_picks(
                old(t).tree(),
                final(t).unlisted(),
                rule == CopyRule::Policy(OverwritePolicy::Overwrite),
                remote@,
                rel@,
                local@,
                filter@,
                (#[trigger] final(plan).dirs@[i])@,
            ),
        final(plan).items.len() - old(plan).items.len() <= kept_files(local@, filter@),
        final(plan).skipped == capped(
            old(plan).skipped + kept_files(local@, filter@) - (final(plan).items.len() - old(plan).items.len()),
        ),
    decreases local@,
{
    let ghost sk0 = plan.skipped;
    let ghost t0 = t.tree();
    let ghost u0 = t.unlisted();
    let ghost dstart = plan.dirs@;
    assert(dstart.subrange(0, dstart.len() as int) =~= dstart);
    let overwrite = rule == CopyRule::Policy(OverwritePolicy::Overwrite);
    let mut listed_ok = false;
    let remote_entries: Vec<Entry> = if overwrite {
        Vec::new()
    } else {
        match t.list_dir(remote) {
            Ok(v) => {
                listed_ok = true;
                v
            },
            Err(_) => Vec::new(),
        }
    };
    assert(listed_ok ==> is_listing(t0, remote@, remote_entries@));
    assert(!listed_ok ==> remote_entries@.len() == 0);
    let ghost start = plan.items@;
    assert(start.subrange(0, start.len() as int) =~= start);
    assert(local@.subrange(0, 0) =~= Seq::<LocalEntry>::empty());
    let mut k: usize = 0;
    while k < local.len()
        invariant
            k <= local.len(),
            t.tree() == t0,
            t0 == old(t).tree(),
            items_explained(rule, plan.items@),
            start == old(plan).items@,
            extends(plan.items@, start),
            listed_ok ==> is_listing(t0, remote@, remote_entries@),
            !listed_ok ==> remote_entries@.len() == 0,
            overwrite == (rule == CopyRule::Policy(OverwritePolicy::Overwrite)),
            forall|p: Seq<char>|
                #[trigger] upload_wants(t0, remote@, rel@, local@.subrange(0, k as int), filter@, rule, p)
                    ==> has_item(plan.items@, p),
            forall|i: int|
                start.len() <= i < plan.items.len() ==> local_source(
                    rel@,
                    local@.subrange(0, k as int),
                    filter@,
                    (#[trigger] plan.items@[i]).rel@,
                    plan.items@[i].size,
                ),
            u0 == old(t).unlisted(),
            u0.subset_of(t.unlisted()),
            !listed_ok && !overwrite ==> t.unlisted().contains(remote@),
            forall|i: int|
                start.len() <= i < plan.items.len() ==> upload_picks(
                    t0,
                    t.unlisted(),
                    remote@,
                    rel@,
                    local@.subrange(0, k as int),
                    filter@,
                    rule,
                    (#[trigger] plan.items@[i]).rel@,
                    plan.items@[i].size,
                ),
            dstart == old(plan).dirs@,
            dstart.len() <= plan.dirs.len(),
            plan.dirs@.subrange(0, dstart.len() as int) == dstart,
            forall|d: Seq<char>|
                #[trigger] upload_dir_wants(t0, remote@, rel@, local@.subrange(0, k as int), filter@, d)
                    ==> names_hold(plan.dirs@, d),
            forall|i: int|
                dstart.len() <= i < plan.dirs.len() ==> upload_dir_picks(
                    t0,
                    t.unlisted(),
                    overwrite,
                    remote@,
                    rel@,
                    local@.subrange(0, k as int),
                    filter@,
                    (#[trigger] plan.dirs@[i])@,
                ),
            sk0 == old(plan).skipped,
            plan.items.len() - start.len() <= kept_files(local@.subrange(0, k as int), filter@),
            plan.skipped == capped(
                sk0 + kept_files(local@.subrange(0, k as int), filter@) - (plan.items.len() - start.len()),
            ),
        decreases local.len() - k,
    {
        let e = &local[k];
        let ghost sk_before = plan.skipped;
        let ghost n_before = plan.items.len();
        proof {
            lemma_kept_files_step(local@, k as int, filter@);
        }
        let ghost before = plan.items@;
        let ghost ub = t.unlisted();
        let ghost dbefore = plan.dirs@;
        proof {
            let pre = local@.subrange(0, k + 1);
            assert(pre.drop_last() =~= local@.subrange(0, k as int));
            assert(pre.last() == local@[k as int]);
        }
        if filter.excludes(e.name.as_str(), e.is_dir) {
            assert forall|p: Seq<char>|
                #[trigger] upload_wants(t0, remote@, rel@, local@.subrange(0, k + 1), filter@, rule, p)
                    implies has_item(plan.items@, p) by {
                lemma_upload_wants_step(t0, remote@, rel@, local@, k as int, filter@, rule, p);
                assert(!entry_wants(t0, remote@, rel@, local@[k as int], filter@, rule, p));
            }
            assert forall|i: int| start.len() <= i < plan.items.len() implies local_source(
                rel@,
                local@.subrange(0, k + 1),
                filter@,
                (#[trigger] plan.items@[i]).rel@,
                plan.items@[i].size,
            ) by {
                lemma_local_source_step(rel@, local@, k as int, filter@, plan.items@[i].rel@, plan.items@[i].size);
            }
            assert forall|i: int| start.len() <= i < plan.items.len() implies upload_picks(
                t0,
                t.unlisted(),
                remote@,
                rel@,
                local@.subrange(0, k + 1),
                filter@,
                rule,
                (#[trigger] plan.items@[i]).rel@,
                plan.items@[i].size,
            ) by {
                lemma_picks_step(t0, t.unlisted(), remote@, rel@, local@, k as int, filter@, rule, plan.items@[i].rel@, plan.items@[i].size);
            }
            assert forall|d: Seq<char>|
                #[trigger] upload_dir_wants(t0, remote@, rel@, local@.subrange(0, k + 1), filter@, d)
                    implies names_hold(plan.dirs@, d) by {
                lemma_dir_wants_step(t0, remote@, rel@, local@, k as int, filter@, d);
            }
            assert forall|i: int| dstart.len() <= i < plan.dirs.len() implies upload_dir_picks(
                t0,
                t.unlisted(),
                overwrite,
                remote@,
                rel@,
                local@.subrange(0, k + 1),
                filter@,
                (#[trigger] plan.dirs@[i])@,
            ) by {
                lemma_dir_picks_step(t0, t.unlisted(), overwrite, remote@, rel@, local@, k as int, filter@, plan.dirs@[i]@);
            }
            k = k + 1;
            continue;
        }
        let child_rel = rel_join(rel, e.name.as_str());
        if e.is_dir {
            let need_dir = !has_listed_dir(&remote_entries, e.name.as_str());
            if need_dir {
                plan.dirs.push(child_rel.clone());
            }
            let ghost dmid = plan.dirs@;
            proof {
                assert(dmid.subrange(0, dbefore.len() as int) =~= dbefore);
                assert(dmid.subrange(0, dstart.len() as int) =~= dbefore.subrange(0, dstart.len() as int));
                if listed_ok && remote_has_dir(t0, remote@, e.name@) {
                    let j = choose|j: int| 0 <= j < remote_entries@.len() && remote_entries@[j].name@ == e.name@;
                    assert(reports(remote_entries@[j], t0[join_path(remote@, e.name@)]));
                    assert(listed_dir(remote_entries@, e.name@));
                }
                if need_dir {
                    assert(dmid[dmid.len() - 1]@ == child_rel@);
                    assert(names_hold(dmid, child_rel@));
                }
            }
            let child_remote = join(remote, e.name.as_str());
            assert(decreases_to!(local@ => local@[k as int].children@));
            let res = plan_upload(t, &e.children, child_remote.as_str(), filter, rule, child_rel.as_str(), plan);
            assert(res is Ok);
            proof {
                let kp = kept_files(local@.subrange(0, k as int), filter@);
                let kc = kept_files(local@[k as int].children@, filter@);
                lemma_capped_add(sk0 + kp - (n_before - start.len()), kc - (plan.items.len() - n_before));
            }
            proof {
                assert(extends(plan.items@, start)) by {
                    assert(plan.items@.subrange(0, start.len() as int) =~= plan.items@.subrange(
                        0,
                        before.len() as int,
                    ).subrange(0, start.len() as int));
                }
                assert forall|p: Seq<char>|
                    #[trigger] upload_wants(t0, remote@, rel@, local@.subrange(0, k + 1), filter@, rule, p)
                        implies has_item(plan.items@, p) by {
                    lemma_upload_wants_step(t0, remote@, rel@, local@, k as int, filter@, rule, p);
                    if upload_wants(t0, remote@, rel@, local@.subrange(0, k as int), filter@, rule, p) {
                        lemma_extends_keeps(plan.items@, before, p);
                    } else {
                        assert(entry_wants(t0, remote@, rel@, local@[k as int], filter@, rule, p));
                        assert(upload_wants(t0, child_remote@, child_rel@, local@[k as int].children@, filter@, rule, p));
                    }
                }
                assert forall|i: int| start.len() <= i < plan.items.len() implies local_source(
                    rel@,
                    local@.subrange(0, k + 1),
                    filter@,
                    (#[trigger] plan.items@[i]).rel@,
                    plan.items@[i].size,
                ) by {
                    lemma_local_source_step(rel@, local@, k as int, filter@, plan.items@[i].rel@, plan.items@[i].size);
                    if i < before.len() {
                        assert(plan.items@.subrange(0, before.len() as int)[i] == plan.items@[i]);
                        assert(before[i] == plan.items@[i]);
                    } else {
                        assert(local_source(child_rel@, local@[k as int].children@, filter@, plan.items@[i].rel@, plan.items@[i].size));
                    }
                }
                assert forall|i: int| start.len() <= i < plan.items.len() implies upload_picks(
                    t0,
                    t.unlisted(),
                    remote@,
                    rel@,
                    local@.subrange(0, k + 1),
                    filter@,
                    rule,
                    (#[trigger] plan.items@[i]).rel@,
                    plan.items@[i].size,
                ) by {
                    lemma_picks_step(t0, t.unlisted(), remote@, rel@, local@, k as int, filter@, rule, plan.items@[i].rel@, plan.items@[i].size);
                    if i < before.len() {
                        assert(plan.items@.subrange(0, before.len() as int)[i] == plan.items@[i]);
                        assert(before[i] == plan.items@[i]);
                        lemma_picks_mono(t0, ub, t.unlisted(), remote@, rel@, local@.subrange(0, k as int), filter@, rule, plan.items@[i].rel@, plan.items@[i].size);
                    } else {
                        assert(upload_picks(t0, t.unlisted(), child_remote@, child_rel@, local@[k as int].children@, filter@, rule, plan.items@[i].rel@, plan.items@[i].size));
                    }
                }
                assert(plan.dirs@.subrange(0, dmid.len() as int) == dmid);
                assert(plan.dirs@.subrange(0, dstart.len() as int) =~= plan.dirs@.subrange(
                    0,
                    dmid.len() as int,
                ).subrange(0, dstart.len() as int));
                assert(plan.dirs@.subrange(0, dbefore.len() as int) =~= plan.dirs@.subrange(
                    0,
                    dmid.len() as int,
                ).subrange(0, dbefore.len() as int));
                assert forall|d: Seq<char>|
                    #[trigger] upload_dir_wants(t0, remote@, rel@, local@.subrange(0, k + 1), filter@, d)
                        implies names_hold(plan.dirs@, d) by {
                    lemma_dir_wants_step(t0, remote@, rel@, local@, k as int, filter@, d);
                    if upload_dir_wants(t0, remote@, rel@, local@.subrange(0, k as int), filter@, d) {
                        lemma_names_hold_extend(plan.dirs@, dbefore, d);
                    } else if d == child_rel@ && !remote_has_dir(t0, remote@, e.name@) {
                        lemma_names_hold_extend(plan.dirs@, dmid, d);
                    } else {
                        assert(upload_dir_wants(t0, child_remote@, child_rel@, local@[k as int].children@, filter@, d));
                    }
                }
                assert forall|i: int| dstart.len() <= i < plan.dirs.len() implies upload_dir_picks(
                    t0,
                    t.unlisted(),
                    overwrite,
                    remote@,
                    rel@,
                    local@.subrange(0, k + 1),
                    filter@,
                    (#[trigger] plan.dirs@[i])@,
                ) by {
                    lemma_dir_picks_step(t0, t.unlisted(), overwrite, remote@, rel@, local@, k as int, filter@, plan.dirs@[i]@);
                    if i < dbefore.len() {
                        assert(plan.dirs@.subrange(0, dbefore.len() as int)[i] == plan.dirs@[i]);
                        assert(dbefore[i] == plan.dirs@[i]);
                        lemma_dir_picks_mono(t0, ub, t.unlisted(), overwrite, remote@, rel@, local@.subrange(0, k as int), filter@, plan.dirs@[i]@);
                    } else if i < dmid.len() {
                        assert(plan.dirs@.subrange(0, dmid.len() as int)[i] == plan.dirs@[i]);
                        assert(dmid[i] == plan.dirs@[i]);
                        assert(plan.dirs@[i]@ == child_rel@);
                        assert(ub.subset_of(t.unlisted()));
                        assert(entry_dir_picks(t0, t.unlisted(), overwrite, remote@, rel@, local@[k as int], filter@, plan.dirs@[i]@));
                    } else {
                        assert(upload_dir_picks(t0, t.unlisted(), overwrite, child_remote@, child_rel@, local@[k as int].children@, filter@, plan.dirs@[i]@));
                    }
                }
            }
        } else {
            let dst = find_listed_file(&remote_entries, e.name.as_str());
            proof {
                assert forall|d: Seq<char>|
                    #[trigger] upload_dir_wants(t0, remote@, rel@, local@.subrange(0, k + 1), filter@, d)
                        implies names_hold(plan.dirs@, d) by {
                    lemma_dir_wants_step(t0, remote@, rel@, local@, k as int, filter@, d);
                }
                assert forall|i: int| dstart.len() <= i < plan.dirs.len() implies upload_dir_picks(
                    t0,
                    t.unlisted(),
                    overwrite,
                    remote@,
                    rel@,
                    local@.subrange(0, k + 1),
                    filter@,
                    (#[trigger] plan.dirs@[i])@,
                ) by {
                    lemma_dir_picks_step(t0, t.unlisted(), overwrite, remote@, rel@, local@, k as int, filter@, plan.dirs@[i]@);
                }
            }
            proof {
                if listed_ok {
                    lemma_listed_file_meta(t0, remote@, remote_entries@, e.name@);
                }
                lemma_rule_copies_missing(rule, e.size, e.mtime);
            }
            if rule_copies_exec(rule, e.size, e.mtime, dst) {
                let item = TransferItem {
                    rel: child_rel,
                    size: e.size,
                    reason: copy_reason(e.size, e.mtime, dst),
                };
                plan.items.push(item);
                proof {
                    assert(plan.items@.subrange(0, before.len() as int) =~= before);
                    assert(extends(plan.items@, start)) by {
                        assert(plan.items@.subrange(0, start.len() as int) =~= before.subrange(
                            0,
                            start.len() as int,
                        ));
                    }
                    assert(plan.items@[before.len() as int].rel@ == rel_path(rel@, e.name@));
                    assert forall|p: Seq<char>|
                        #[trigger] upload_wants(t0, remote@, rel@, local@.subrange(0, k + 1), filter@, rule, p)
                            implies has_item(plan.items@, p) by {
                        lemma_upload_wants_step(t0, remote@, rel@, local@, k as int, filter@, rule, p);
                        if upload_wants(t0, remote@, rel@, local@.subrange(0, k as int), filter@, rule, p) {
                            lemma_extends_keeps(plan.items@, before, p);
                        } else {
                            assert(plan.items@[before.len() as int].rel@ == p);
                        }
                    }
                    assert forall|i: int| start.len() <= i < plan.items.len() implies local_source(
                        rel@,
                        local@.subrange(0, k + 1),
                        filter@,
                        (#[trigger] plan.items@[i]).rel@,
                        plan.items@[i].size,
                    ) by {
                        lemma_local_source_step(rel@, local@, k as int, filter@, plan.items@[i].rel@, plan.items@[i].size);
                        if i < before.len() {
                            assert(before[i] == plan.items@[i]);
                        } else {
                            assert(entry_source(rel@, local@[k as int], filter@, plan.items@[i].rel@, plan.items@[i].size));
                        }
                    }
                    assert(rule_copies(rule, e.size, e.mtime, dest_meta(t0, t.unlisted(), remote@, e.name@))) by {
                        lemma_rule_copies_missing(rule, e.size, e.mtime);
                    }
                    assert forall|i: int| start.len() <= i < plan.items.len() implies upload_picks(
                        t0,
                        t.unlisted(),
                        remote@,
                        rel@,
                        local@.subrange(0, k + 1),
                        filter@,
                        rule,
                        (#[trigger] plan.items@[i]).rel@,
                        plan.items@[i].size,
                    ) by {
                        lemma_picks_step(t0, t.unlisted(), remote@, rel@, local@, k as int, filter@, rule, plan.items@[i].rel@, plan.items@[i].size);
                        if i < before.len() {
                            assert(before[i] == plan.items@[i]);
                        } else {
                            assert(entry_picks(t0, t.unlisted(), remote@, rel@, local@[k as int], filter@, rule, plan.items@[i].rel@, plan.items@[i].size));
                        }
                    }
                }
            } else {
                plan.skipped = plan.skipped.saturating_add(1);
                proof {
                    lemma_capped_add(sk0 + kept_files(local@.subrange(0, k as int), filter@) - (plan.items.len() - start.len()), 1);
                }
                assert forall|p: Seq<char>|
                    #[trigger] upload_wants(t0, remote@, rel@, local@.subrange(0, k + 1), filter@, rule, p)
                        implies has_item(plan.items@, p) by {
                    lemma_upload_wants_step(t0, remote@, rel@, local@, k as int, filter@, rule, p);
                    assert(!entry_wants(t0, remote@, rel@, local@[k as int], filter@, rule, p));
                }
                assert forall|i: int| start.len() <= i < plan.items.len() implies local_source(
                    rel@,
                    local@.subrange(0, k + 1),
                    filter@,
                    (#[trigger] plan.items@[i]).rel@,
                    plan.items@[i].size,
                ) by {
                    lemma_local_source_step(rel@, local@, k as int, filter@, plan.items@[i].rel@, plan.items@[i].size);
                }
                assert forall|i: int| start.len() <= i < plan.items.len() implies upload_picks(
                    t0,
                    t.unlisted(),
                    remote@,
                    rel@,
                    local@.subrange(0, k + 1),
                    filter@,
                    rule,
                    (#[trigger] plan.items@[i]).rel@,
                    plan.items@[i].size,
                ) by {
                    lemma_picks_step(t0, t.unlisted(), remote@, rel@, local@, k as int, filter@, rule, plan.items@[i].rel@, plan.items@[i].size);
                }
            }
        }
        k = k + 1;
    }
    assert(local@.subrange(0, local@.len() as int) =~= local@);
    Ok(())
}

/// An upload plan of `local` into `remote` copies every file the upload
/// must copy, and only kept local files, each with its local size, that the
/// rule copies given the destination (or given nothing there, where the
/// destination directory could not be listed: `unlisted`).
pub open spec fn upload_plan_ok(
    tree: Map<Seq<char>, RemoteNode>,
    unlisted: Set<Seq<char>>,
    remote: Seq<char>,
    local: Seq<LocalEntry>,
    filter: Seq<(Seq<char>, bool)>,
    rule: CopyRule,
    items: Seq<TransferItem>,
) -> bool {
    &&& forall|p: Seq<char>|
        #[trigger] upload_wants(tree, remote, Seq::empty(), local, filter, rule, p) ==> has_item(
            items,
            p,
        )
    &&& forall|i: int|
        0 <= i < items.len() ==> local_source(
            Seq::empty(),
            local,
            filter,
            (#[trigger] items[i]).rel@,
            items[i].size,
        )
    &&& forall|i: int|
        0 <= i < items.len() ==> upload_picks(
            tree,
            unlisted,
            remote,
            Seq::empty(),
            local,
            filter,
            rule,
            (#[trigger] items[i]).rel@,
            items[i].size,
        )
}

/// The directories of an upload plan: every one the upload must create, and
/// only ones the planner may create ([`upload_dir_picks`]).
pub open spec fn upload_dirs_ok(
    tree: Map<Seq<char>, RemoteNode>,
    unlisted: Set<Seq<char>>,
    blind: bool,
    remote: Seq<char>,
    local: Seq<LocalEntry>,
    filter: Seq<(Seq<char>, bool)>,
    dirs: Seq<String>,
) -> bool {
    &&& forall|d: Seq<char>|
        #[trigger] upload_dir_wants(tree, remote, Seq::empty(), local, filter, d) ==> names_hold(dirs, d)
    &&& forall|i: int|
        0 <= i < dirs.len() ==> upload_dir_picks(
            tree,
            unlisted,
            blind,
            remote,
            Seq::empty(),
            local,
            filter,
            (#[trigger] dirs[i])@,
        )
}

/// A download plan of `remote` into `local` copies exactly the files the
/// download must copy, each with its remote size.
pub open spec fn download_plan_ok(
    tree: Map<Seq<char>, RemoteNode>,
    remote: Seq<char>,
    local: Seq<LocalEntry>,
    filter: Seq<(Seq<char>, bool)>,
    rule: CopyRule,
    items: Seq<TransferItem>,
) -> bool {
    &&& forall|names: Seq<Seq<char>>|
        #[trigger] download_wants(tree, remote, Seq::empty(), local, filter, rule, names) ==> has_item(
            items,
            rel_of(Seq::empty(), names),
        )
    &&& forall|i: int|
        0 <= i < items.len() ==> {
            &&& download_source(tree, remote, Seq::empty(), local, filter, rule, (#[trigger] items[i]).rel@)
            &&& remote_item(tree, remote, items[i])
        }
}

/// Plan a transfer between the local snapshot `local` (the entries of the
/// local root) and the remote directory `remote`: which files to copy under
/// `rule`, which destination directories to create, how many files are left
/// alone (on an upload, every kept local file not copied). Planning only
/// lists: it never changes the remote side. When downloading, every planned
/// file is a file of the remote tree, with its size.
pub fn plan_transfer<T: Transport + ?Sized>(
    t: &mut T,
    local: &Vec<LocalEntry>,
    remote: &str,
    direction: SyncDirection,
    filter: &Filter,
    rule: CopyRule,
) -> (r: Result<TransferPlan>)
    ensures
        final(t).tree() == old(t).tree(),
        r matches Ok(p) ==> items_explained(rule, p.items@),
        direction == SyncDirection::Upload ==> r is Ok,
        direction == SyncDirection::Upload ==> old(t).unlisted().subset_of(final(t).unlisted()),
        r matches Ok(p) ==> direction == SyncDirection::Upload ==> upload_plan_ok(
            old(t).tree(),
            final(t).unlisted(),
            remote@,
            local@,
            filter@,
            rule,
            p.items@,
        ),
        r matches Ok(p) ==> direction == SyncDirection::Download ==> download_plan_ok(
            old(t).tree(),
            remote@,
            local@,
            filter@,
            rule,
            p.items@,
        ),
        r matches Ok(p) ==> direction == SyncDirection::Download ==> forall|i: int|
            0 <= i < p.dirs.len() ==> remote_dir_source(
                old(t).tree(),
                remote@,
                Seq::empty(),
                filter@,
                (#[trigger] p.dirs@[i])@,
            ),
        r matches Ok(p) ==> direction == SyncDirection::Upload ==> upload_dirs_ok(
            old(t).tree(),
            final(t).unlisted(),
            rule == CopyRule::Policy(OverwritePolicy::Overwrite),
            remote@,
            local@,
            filter@,
            p.dirs@,
        ),
        r matches Ok(p) ==> direction == SyncDirection::Upload ==> p.items.len() <= kept_files(local@, filter@)
            && p.skipped == capped(kept_files(local@, filter@) - p.items.len()),
{
    let mut plan = TransferPlan { items: Vec::new(), dirs: Vec::new(), skipped: 0 };
    let top = String::new();
    assert(top@ =~= Seq::<char>::empty());
    match direction {
        SyncDirection::Upload => {
            plan_upload(t, local, remote, filter, rule, top.as_str(), &mut plan)?;
        },
        SyncDirection::Download => {
            let ghost fuel = subtree_size(t.tree(), remote@) + 1;
            plan_download(
                t,
                local,
                remote,
                filter,
                rule,
                top.as_str(),
                &mut plan,
                Ghost(remote@),
                Ghost(fuel),
            )?;
        },
    }
    Ok(plan)
}

/// Downloads are planned deterministically up to order: any two plans of
/// the same remote tree and local side copy the same files, so a sync copies
/// exactly what its preview listed.
pub proof fn law_download_plans_agree(
    tree: Map<Seq<char>, RemoteNode>,
    remote: Seq<char>,
    local: Seq<LocalEntry>,
    filter: Seq<(Seq<char>, bool)>,
    rule: CopyRule,
    a: Seq<TransferItem>,
    b: Seq<TransferItem>,
    p: Seq<char>,
)
    requires
        download_plan_ok(tree, remote, local, filter, rule, a),
        download_plan_ok(tree, remote, local, filter, rule, b),
    ensures
        has_item(a, p) == has_item(b, p),
{
    if has_item(a, p) {
        let i = choose|i: int| 0 <= i < a.len() && (#[trigger] a[i]).rel@ == p;
        assert(download_source(tree, remote, Seq::empty(), local, filter, rule, a[i].rel@));
    }
    if has_item(b, p) {
        let i = choose|i: int| 0 <= i < b.len() && (#[trigger] b[i]).rel@ == p;
        assert(download_source(tree, remote, Seq::empty(), local, filter, rule, b[i].rel@));
    }
}

/// `d` is `root` or a path that starts with it.
pub open spec fn path_under(root: Seq<char>, d: Seq<char>) -> bool {
    root.len() <= d.len() && d.subrange(0, root.len() as int) == root
}

/// A path joined onto one under `root` is under `root`.
proof fn lemma_under_join(root: Seq<char>, dir: Seq<char>, n: Seq<char>)
    requires
        path_under(root, dir),
    ensures
        path_under(root, join_path(dir, n)),
{
    let j = join_path(dir, n);
    assert(j.subrange(0, dir.len() as int) =~= dir);
    assert(j.subrange(0, root.len() as int) =~= dir.subrange(0, root.len() as int));
}

/// Where no directory under `root` failed to list, a picked file is one
/// the upload must copy.
proof fn lemma_picks_wanted(
    tree: Map<Seq<char>, RemoteNode>,
    unlisted: Set<Seq<char>>,
    root: Seq<char>,
    dir: Seq<char>,
    rel: Seq<char>,
    local: Seq<LocalEntry>,
    filter: Seq<(Seq<char>, bool)>,
    rule: CopyRule,
    p: Seq<char>,
    size: u64,
)
    requires
        path_under(root, dir),
        forall|d: Seq<char>| #[trigger] unlisted.contains(d) ==> !path_under(root, d),
        upload_picks(tree, unlisted, dir, rel, local, filter, rule, p, size),
    ensures
        upload_wants(tree, dir, rel, local, filter, rule, p),
    decreases local,
{
    if local.len() > 0 {
        if upload_picks(tree, unlisted, dir, rel, local.drop_last(), filter, rule, p, size) {
            lemma_picks_wanted(tree, unlisted, root, dir, rel, local.drop_last(), filter, rule, p, size);
        } else {
            lemma_entry_picks_wanted(tree, unlisted, root, dir, rel, local.last(), filter, rule, p, size);
        }
    }
}

proof fn lemma_entry_picks_wanted(
    tree: Map<Seq<char>, RemoteNode>,
    unlisted: Set<Seq<char>>,
    root: Seq<char>,
    dir: Seq<char>,
    rel: Seq<char>,
    e: LocalEntry,
    filter: Seq<(Seq<char>, bool)>,
    rule: CopyRule,
    p: Seq<char>,
    size: u64,
)
    requires
        path_under(root, dir),
        forall|d: Seq<char>| #[trigger] unlisted.contains(d) ==> !path_under(root, d),
        entry_picks(tree, unlisted, dir, rel, e, filter, rule, p, size),
    ensures
        entry_wants(tree, dir, rel, e, filter, rule, p),
    decreases e,
{
    if e.is_dir {
        lemma_under_join(root, dir, e.name@);
        lemma_picks_wanted(
            tree,
            unlisted,
            root,
            join_path(dir, e.name@),
            rel_path(rel, e.name@),
            e.children@,
            filter,
            rule,
            p,
            size,
        );
    } else {
        assert(!unlisted.contains(dir));
    }
}

proof fn lemma_dir_picks_wanted(
    tree: Map<Seq<char>, RemoteNode>,
    unlisted: Set<Seq<char>>,
    root: Seq<char>,
    dir: Seq<char>,
    rel: Seq<char>,
    local: Seq<LocalEntry>,
    filter: Seq<(Seq<char>, bool)>,
    d: Seq<char>,
)
    requires
        path_under(root, dir),
        forall|x: Seq<char>| #[trigger] unlisted.contains(x) ==> !path_under(root, x),
        upload_dir_picks(tree, unlisted, false, dir, rel, local, filter, d),
    ensures
        upload_dir_wants(tree, dir, rel, local, filter, d),
    decreases local,
{
    if local.len() > 0 {
        if upload_dir_picks(tree, unlisted, false, dir, rel, local.drop_last(), filter, d) {
            lemma_dir_picks_wanted(tree, unlisted, root, dir, rel, local.drop_last(), filter, d);
        } else {
            lemma_entry_dir_picks_wanted(tree, unlisted, root, dir, rel, local.last(), filter, d);
        }
    }
}

proof fn lemma_entry_dir_picks_wanted(
    tree: Map<Seq<char>, RemoteNode>,
    unlisted: Set<Seq<char>>,
    root: Seq<char>,
    dir: Seq<char>,
    rel: Seq<char>,
    e: LocalEntry,
    filter: Seq<(Seq<char>, bool)>,
    d: Seq<char>,
)
    requires
        path_under(root, dir),
        forall|x: Seq<char>| #[trigger] unlisted.contains(x) ==> !path_under(root, x),
        entry_dir_picks(tree, unlisted, false, dir, rel, e, filter, d),
    ensures
        entry_dir_wants(tree, dir, rel, e, filter, d),
    decreases e,
{
    assert(!unlisted.contains(dir));
    if !(d == rel_path(rel, e.name@) && !remote_has_dir(tree, dir, e.name@)) {
        lemma_under_join(root, dir, e.name@);
        lemma_dir_picks_wanted(
            tree,
            unlisted,
            root,
            join_path(dir, e.name@),
            rel_path(rel, e.name@),
            e.children@,
            filter,
            d,
        );
    }
}

/// Directories to create are planned deterministically where every listing
/// under `remote` succeeded: two such sync plans of the same remote tree and
/// local side create the same directories.
proof fn lemma_upload_dirs_agree(
    tree: Map<Seq<char>, RemoteNode>,
    ua: Set<Seq<char>>,
    ub: Set<Seq<char>>,
    remote: Seq<char>,
    local: Seq<LocalEntry>,
    filter: Seq<(Seq<char>, bool)>,
    a: Seq<String>,
    b: Seq<String>,
    d: Seq<char>,
)
    requires
        upload_dirs_ok(tree, ua, false, remote, local, filter, a),
        upload_dirs_ok(tree, ub, false, remote, local, filter, b),
        forall|x: Seq<char>| #[trigger] ua.contains(x) ==> !path_under(remote, x),
        forall|x: Seq<char>| #[trigger] ub.contains(x) ==> !path_under(remote, x),
    ensures
        names_hold(a, d) == names_hold(b, d),
{
    assert(path_under(remote, remote)) by {
        assert(remote.subrange(0, remote.len() as int) =~= remote);
    }
    if names_hold(a, d) {
        let i = choose|i: int| 0 <= i < a.len() && (#[trigger] a[i])@ == d;
        lemma_dir_picks_wanted(tree, ua, remote, remote, Seq::empty(), local, filter, d);
    }
    if names_hold(b, d) {
        let i = choose|i: int| 0 <= i < b.len() && (#[trigger] b[i])@ == d;
        lemma_dir_picks_wanted(tree, ub, remote, remote, Seq::empty(), local, filter, d);
    }
}

/// Uploads are planned deterministically up to order where every listing
/// under `remote` succeeded: two such plans of the same remote tree and
/// local side copy the same files, so a sync copies exactly what its preview
/// listed.
pub proof fn law_upload_plans_agree(
    tree: Map<Seq<char>, RemoteNode>,
    ua: Set<Seq<char>>,
    ub: Set<Seq<char>>,
    remote: Seq<char>,
    local: Seq<LocalEntry>,
    filter: Seq<(Seq<char>, bool)>,
    rule: CopyRule,
    a: Seq<TransferItem>,
    b: Seq<TransferItem>,
    p: Seq<char>,
)
    requires
        upload_plan_ok(tree, ua, remote, local, filter, rule, a),
        upload_plan_ok(tree, ub, remote, local, filter, rule, b),
        forall|d: Seq<char>| #[trigger] ua.contains(d) ==> !path_under(remote, d),
        forall|d: Seq<char>| #[trigger] ub.contains(d) ==> !path_under(remote, d),
    ensures
        has_item(a, p) == has_item(b, p),
{
    assert(path_under(remote, remote)) by {
        assert(remote.subrange(0, remote.len() as int) =~= remote);
    }
    if has_item(a, p) {
        let i = choose|i: int| 0 <= i < a.len() && (#[trigger] a[i]).rel@ == p;
        assert(upload_picks(tree, ua, remote, Seq::empty(), local, filter, rule, a[i].rel@, a[i].size));
        lemma_picks_wanted(tree, ua, remote, remote, Seq::empty(), local, filter, rule, p, a[i].size);
    }
    if has_item(b, p) {
        let i = choose|i: int| 0 <= i < b.len() && (#[trigger] b[i]).rel@ == p;
        assert(upload_picks(tree, ub, remote, Seq::empty(), local, filter, rule, b[i].rel@, b[i].size));
        lemma_picks_wanted(tree, ub, remote, remote, Seq::empty(), local, filter, rule, p, b[i].size);
    }
}

/// A sync plan item as the transfer item it comes from.
pub open spec fn as_transfer(it: PlanItem) -> TransferItem {
    TransferItem { rel: it.rel, size: it.size, reason: Some(it.reason) }
}

/// A sync plan's items as transfer items.
pub open spec fn transfer_view(items: Seq<PlanItem>) -> Seq<TransferItem> {
    items.map_values(|it: PlanItem| as_transfer(it))
}

/// A sync planned item always carries its reason.
fn to_plan_item(item: TransferItem) -> (r: PlanItem)
    requires
        item.reason.is_some(),
    ensures
        r.rel == item.rel,
        r.size == item.size,
        Some(r.reason) == item.reason,
{
    let reason = match item.reason {
        Some(x) => x,
        None => PlanReason::Missing,
    };
    PlanItem { rel: item.rel, size: item.size, reason }
}

/// Compute what a sync would copy, without copying anything.
pub fn plan_sync<T: Transport + ?Sized>(
    t: &mut T,
    local: &Vec<LocalEntry>,
    remote: &str,
    direction: SyncDirection,
    filter: &Filter,
) -> (r: Result<SyncPlan>)
    ensures
        final(t).tree() == old(t).tree(),
        direction == SyncDirection::Upload ==> r is Ok,
        r matches Ok(p) ==> sync_plan_ok(
            old(t).tree(),
            final(t).unlisted(),
            local@,
            remote@,
            direction,
            filter@,
            false,
            p,
        ),
{
    plan_sync_opts(t, local, remote, direction, filter, &SyncOptions { delete: false })
}

/// A planned mirror deletion, as a path relative to the destination root:
/// an entry, not excluded, with no counterpart on the source side, reached
/// through directories real on both sides ([`upload_delete_ok`],
/// [`download_delete_ok`]; on a download, where a remote listing failed,
/// every kept local entry there counts).
pub open spec fn mirror_delete_ok(
    tree: Map<Seq<char>, RemoteNode>,
    unlisted: Set<Seq<char>>,
    local: Seq<LocalEntry>,
    remote: Seq<char>,
    direction: SyncDirection,
    filter: Seq<(Seq<char>, bool)>,
    d: Seq<char>,
) -> bool {
    match direction {
        SyncDirection::Upload => upload_delete_ok(tree, local, remote, filter, Seq::empty(), d),
        SyncDirection::Download => download_delete_ok(tree, unlisted, local, remote, filter, Seq::empty(), d),
    }
}

/// The deletions of a mirror plan are complete: every stray at any depth
/// ([`upload_stray_at`] on an upload, [`download_stray_at`] on a download)
/// whose way down crosses no failed listing is among them, by its path
/// relative to the destination root.
pub open spec fn mirror_complete(
    tree: Map<Seq<char>, RemoteNode>,
    unlisted: Set<Seq<char>>,
    local: Seq<LocalEntry>,
    remote: Seq<char>,
    direction: SyncDirection,
    filter: Seq<(Seq<char>, bool)>,
    deletes: Seq<String>,
) -> bool {
    !unlisted.contains(remote) ==> match direction {
        SyncDirection::Upload => forall|names: Seq<Seq<char>>|
            #[trigger] upload_stray_at(tree, local, remote, filter, names) && chain_clear(unlisted, remote, names)
                ==> names_hold(deletes, rel_of(Seq::empty(), names)),
        SyncDirection::Download => forall|names: Seq<Seq<char>>|
            #[trigger] download_stray_at(tree, local, remote, filter, names) && chain_clear(unlisted, remote, names)
                ==> names_hold(deletes, rel_of(Seq::empty(), names)),
    }
}

/// What a sync preview promises: the copies of [`upload_plan_ok`] or
/// [`download_plan_ok`] under the sync rule; the directories to create
/// ([`upload_dirs_ok`], or only real, kept remote directories on a
/// download); and, in mirror mode, exactly the strays to delete
/// ([`mirror_delete_ok`], [`mirror_complete`]), none otherwise.
pub open spec fn sync_plan_ok(
    tree: Map<Seq<char>, RemoteNode>,
    unlisted: Set<Seq<char>>,
    local: Seq<LocalEntry>,
    remote: Seq<char>,
    direction: SyncDirection,
    filter: Seq<(Seq<char>, bool)>,
    delete: bool,
    p: SyncPlan,
) -> bool {
    &&& !delete ==> p.deletes.len() == 0
    &&& delete ==> mirror_complete(tree, unlisted, local, remote, direction, filter, p.deletes@)
    &&& forall|i: int|
        0 <= i < p.deletes.len() ==> mirror_delete_ok(
            tree,
            unlisted,
            local,
            remote,
            direction,
            filter,
            #[trigger] p.deletes@[i]@,
        )
    &&& direction == SyncDirection::Upload ==> upload_plan_ok(
        tree,
        unlisted,
        remote,
        local,
        filter,
        CopyRule::Sync,
        transfer_view(p.items@),
    )
    &&& direction == SyncDirection::Download ==> download_plan_ok(
        tree,
        remote,
        local,
        filter,
        CopyRule::Sync,
        transfer_view(p.items@),
    )
    &&& direction == SyncDirection::Download ==> forall|i: int|
        0 <= i < p.dirs.len() ==> remote_dir_source(tree, remote, Seq::empty(), filter, (#[trigger] p.dirs@[i])@)
    &&& direction == SyncDirection::Upload ==> upload_dirs_ok(
        tree,
        unlisted,
        false,
        remote,
        local,
        filter,
        p.dirs@,
    )
}

/// Mirror mode changes only the deletions of a preview: with and without it,
/// a sync of the same trees plans the same copies, and on an upload the same
/// directories to create (for an upload, where no listing under `remote`
/// failed).
pub proof fn law_mirror_keeps_copies(
    tree: Map<Seq<char>, RemoteNode>,
    ua: Set<Seq<char>>,
    ub: Set<Seq<char>>,
    local: Seq<LocalEntry>,
    remote: Seq<char>,
    direction: SyncDirection,
    filter: Seq<(Seq<char>, bool)>,
    plain: SyncPlan,
    mirror: SyncPlan,
    p: Seq<char>,
)
    requires
        sync_plan_ok(tree, ua, local, remote, direction, filter, false, plain),
        sync_plan_ok(tree, ub, local, remote, direction, filter, true, mirror),
        forall|d: Seq<char>| #[trigger] ua.contains(d) ==> !path_under(remote, d),
        forall|d: Seq<char>| #[trigger] ub.contains(d) ==> !path_under(remote, d),
    ensures
        plain.deletes.len() == 0,
        has_item(transfer_view(plain.items@), p) == has_item(transfer_view(mirror.items@), p),
        direction == SyncDirection::Upload ==> names_hold(plain.dirs@, p) == names_hold(mirror.dirs@, p),
{
    match direction {
        SyncDirection::Upload => {
            lemma_upload_dirs_agree(tree, ua, ub, remote, local, filter, plain.dirs@, mirror.dirs@, p);
            law_upload_plans_agree(
                tree,
                ua,
                ub,
                remote,
                local,
                filter,
                CopyRule::Sync,
                transfer_view(plain.items@),
                transfer_view(mirror.items@),
                p,
            );
        },
        SyncDirection::Download => {
            law_download_plans_agree(
                tree,
                remote,
                local,
                filter,
                CopyRule::Sync,
                transfer_view(plain.items@),
                transfer_view(mirror.items@),
                p,
            );
        },
    }
}

/// Like [`plan_sync`] but with extra options (mirror mode adds the
/// destination entries to delete).
pub fn plan_sync_opts<T: Transport + ?Sized>(
    t: &mut T,
    local: &Vec<LocalEntry>,
    remote: &str,
    direction: SyncDirection,
    filter: &Filter,
    opts: &SyncOptions,
) -> (r: Result<SyncPlan>)
    ensures
        final(t).tree() == old(t).tree(),
        direction == SyncDirection::Upload ==> r is Ok,
        direction == SyncDirection::Upload ==> old(t).unlisted().subset_of(final(t).unlisted()),
        r matches Ok(p) ==> sync_plan_ok(
            old(t).tree(),
            final(t).unlisted(),
            local@,
            remote@,
            direction,
            filter@,
            opts.delete,
            p,
        ),
{
    let ghost t0 = t.tree();
    let tp = plan_transfer(t, local, remote, direction, filter, CopyRule::Sync)?;
    let ghost tis = tp.items@;
    let ghost u1 = t.unlisted();
    let mut items: Vec<PlanItem> = Vec::new();
    let mut src = tp.items;
    let mut k: usize = 0;
    let n = src.len();
    while k < n
        invariant
            k <= n == tis.len(),
            src@ == tis,
            items.len() == k,
            items_explained(CopyRule::Sync, tis),
            transfer_view(items@) == tis.subrange(0, k as int),
        decreases n - k,
    {
        let it = TransferItem {
            rel: src[k].rel.clone(),
            size: src[k].size,
            reason: src[k].reason,
        };
        assert(tis[k as int].reason.is_some());
        let ghost before = items@;
        items.push(to_plan_item(it));
        assert(transfer_view(items@) =~= tis.subrange(0, k + 1)) by {
            assert(transfer_view(items@) =~= transfer_view(before).push(as_transfer(items@[k as int])));
        }
        k = k + 1;
    }
    assert(tis.subrange(0, n as int) =~= tis);
    let deletes = if opts.delete {
        collect_deletes(t, local, remote, direction, filter)
    } else {
        Vec::new()
    };
    proof {
        if direction == SyncDirection::Upload {
            let v = transfer_view(items@);
            assert forall|i: int| 0 <= i < v.len() implies upload_picks(
                t0,
                t.unlisted(),
                remote@,
                Seq::empty(),
                local@,
                filter@,
                CopyRule::Sync,
                (#[trigger] v[i]).rel@,
                v[i].size,
            ) by {
                assert(upload_picks(t0, u1, remote@, Seq::empty(), local@, filter@, CopyRule::Sync, tis[i].rel@, tis[i].size));
                lemma_picks_mono(t0, u1, t.unlisted(), remote@, Seq::empty(), local@, filter@, CopyRule::Sync, v[i].rel@, v[i].size);
            }
            let ds = tp.dirs@;
            assert forall|i: int| 0 <= i < ds.len() implies upload_dir_picks(
                t0,
                t.unlisted(),
                false,
                remote@,
                Seq::empty(),
                local@,
                filter@,
                (#[trigger] ds[i])@,
            ) by {
                lemma_dir_picks_mono(t0, u1, t.unlisted(), false, remote@, Seq::empty(), local@, filter@, ds[i]@);
            }
        }
    }
    let plan = SyncPlan { items, dirs: tp.dirs, deletes };
    assert(!opts.delete ==> plan.deletes@.len() == 0);
    Ok(plan)
}

/// A local entry that a download mirror deletes: not excluded, and with no
/// remote counterpart of its name under `remote`.
pub open spec fn local_stray(
    tree: Map<Seq<char>, RemoteNode>,
    remote: Seq<char>,
    filter: Seq<(Seq<char>, bool)>,
    e: LocalEntry,
) -> bool {
    &&& !excluded(filter, e.name@, e.is_dir)
    &&& !(valid_name(e.name@) && tree.contains_key(join_path(remote, e.name@)))
}

/// Some string of `names` is `n`.
pub open spec fn names_hold(names: Seq<String>, n: Seq<char>) -> bool {
    exists|j: int| 0 <= j < names.len() && (#[trigger] names[j])@ == n
}

/// `names` leads from remote directory `dir` (with local entries `local`)
/// through directories real on both sides and kept by the filter to an
/// entry a mirror upload removes ([`remote_stray`]).
pub open spec fn upload_stray_at(
    tree: Map<Seq<char>, RemoteNode>,
    local: Seq<LocalEntry>,
    dir: Seq<char>,
    filter: Seq<(Seq<char>, bool)>,
    names: Seq<Seq<char>>,
) -> bool
    decreases names.len(),
{
    if names.len() == 0 {
        false
    } else if names.len() == 1 {
        remote_stray(tree, local, dir, filter, names[0])
    } else {
        let n = names[0];
        let c = join_path(dir, n);
        &&& valid_name(n)
        &&& tree.contains_key(c)
        &&& tree[c].is_dir
        &&& !tree[c].is_symlink
        &&& !excluded(filter, n, true)
        &&& local_index(local, n) matches Some(i)
        &&& 0 <= i < local.len()
        &&& local[i].is_dir
        &&& upload_stray_at(tree, local[i].children@, c, filter, names.drop_first())
    }
}

/// `d` (relative to the roots) names an entry a mirror upload of `local`
/// into `dir` (at `rel`) removes ([`upload_stray_at`]).
pub open spec fn upload_delete_ok(
    tree: Map<Seq<char>, RemoteNode>,
    local: Seq<LocalEntry>,
    dir: Seq<char>,
    filter: Seq<(Seq<char>, bool)>,
    rel: Seq<char>,
    d: Seq<char>,
) -> bool {
    exists|names: Seq<Seq<char>>| #[trigger] upload_stray_at(tree, local, dir, filter, names) && rel_of(rel, names) == d
}

/// The mirror deletions of an upload below remote directory `remote` (at
/// `rel`), appended to `out`: every stray reached through directories real
/// on both sides, as a path relative to the roots.
#[verifier::spinoff_prover]
fn upload_deletes<T: Transport + ?Sized>(
    t: &mut T,
    local: &Vec<LocalEntry>,
    remote: &str,
    filter: &Filter,
    rel: &str,
    out: &mut Vec<String>,
)
    ensures
        final(t).tree() == old(t).tree(),
        old(t).unlisted().subset_of(final(t).unlisted()),
        old(out).len() <= final(out).len(),
        final(out)@.subrange(0, old(out).len() as int) == old(out)@,
        forall|i: int|
            old(out).len() <= i < final(out).len() ==> upload_delete_ok(
                old(t).tree(),
                local@,
                remote@,
                filter@,
                rel@,
                (#[trigger] final(out)@[i])@,
            ),
        !final(t).unlisted().contains(remote@) ==> forall|names: Seq<Seq<char>>|
            #[trigger] upload_stray_at(old(t).tree(), local@, remote@, filter@, names) && chain_clear(
                final(t).unlisted(),
                remote@,
                names,
            ) ==> names_hold(final(out)@, rel_of(rel@, names)),
    decreases local@,
{
    let ghost t0 = t.tree();
    let ghost u0 = t.unlisted();
    let ghost ostart = out@;
    assert(ostart.subrange(0, ostart.len() as int) =~= ostart);
    let listed = t.list_dir(remote);
    let ok = listed.is_ok();
    let entries = match listed {
        Ok(v) => v,
        Err(_) => Vec::new(),
    };
    let mut k: usize = 0;
    while k < entries.len()
        invariant
            k <= entries.len(),
            t.tree() == t0,
            t0 == old(t).tree(),
            t0.dom().finite(),
            u0 == old(t).unlisted(),
            u0.subset_of(t.unlisted()),
            ok ==> is_listing(t0, remote@, entries@),
            !ok ==> entries@.len() == 0 && t.unlisted().contains(remote@),
            ostart == old(out)@,
            ostart.len() <= out.len(),
            out@.subrange(0, ostart.len() as int) == ostart,
            forall|i: int|
                ostart.len() <= i < out.len() ==> upload_delete_ok(
                    t0,
                    local@,
                    remote@,
                    filter@,
                    rel@,
                    (#[trigger] out@[i])@,
                ),
            forall|names: Seq<Seq<char>>|
                #[trigger] upload_stray_at(t0, local@, remote@, filter@, names) && chain_clear(
                    t.unlisted(),
                    remote@,
                    names,
                ) && listed_before(entries@, k as int, names[0]) ==> names_hold(out@, rel_of(rel@, names)),
        decreases entries.len() - k,
    {
        let e = &entries[k];
        let ghost m = e.name@;
        let ghost c = join_path(remote@, m);
        let ghost ub = t.unlisted();
        let ghost obefore = out@;
        let ghost mut recursed = false;
        let ghost mut pushed = false;
        let ghost mut li: int = 0;
        proof {
            assert(valid_name(entries@[k as int].name@));
            assert(reports(entries@[k as int], t0[c]));
        }
        let child_remote = join(remote, e.name.as_str());
        let child_rel = rel_join(rel, e.name.as_str());
        if !filter.excludes(e.name.as_str(), e.is_dir) {
            let found = find_local(local, e.name.as_str());
            let mut into: Option<usize> = None;
            if e.is_dir && !e.is_symlink {
                match found {
                    Some(i) => {
                        if local[i].is_dir {
                            into = Some(i);
                        }
                    },
                    None => {},
                }
            }
            match into {
                Some(i) => {
                    assert(decreases_to!(local@ => local@[i as int].children@));
                    upload_deletes(t, &local[i].children, child_remote.as_str(), filter, child_rel.as_str(), out);
                    proof {
                        recursed = true;
                        li = i as int;
                    }
                },
                None => {
                    if (e.is_dir && !e.is_symlink) || found.is_none() {
                        out.push(child_rel.clone());
                        proof {
                            pushed = true;
                        }
                    }
                },
            }
        }
        proof {
            assert(out@.subrange(0, obefore.len() as int) =~= obefore) by {
                if recursed {
                } else if pushed {
                } else {
                }
            }
            assert(out@.subrange(0, ostart.len() as int) =~= obefore.subrange(0, ostart.len() as int)) by {
                assert(out@.subrange(0, ostart.len() as int) =~= out@.subrange(0, obefore.len() as int).subrange(
                    0,
                    ostart.len() as int,
                ));
            }
            assert forall|i: int| ostart.len() <= i < out.len() implies upload_delete_ok(
                t0,
                local@,
                remote@,
                filter@,
                rel@,
                (#[trigger] out@[i])@,
            ) by {
                if i < obefore.len() {
                    assert(out@.subrange(0, obefore.len() as int)[i] == out@[i]);
                    assert(obefore[i] == out@[i]);
                } else if pushed {
                    assert(i == obefore.len());
                    assert(out@[i]@ == child_rel@);
                    let names = seq![m];
                    assert(names.len() == 1 && names[0] == m);
                    assert(upload_stray_at(t0, local@, remote@, filter@, names));
                    assert(rel_of(rel@, names) == child_rel@);
                } else {
                    let d = out@[i]@;
                    assert(upload_delete_ok(t0, local@[li].children@, c, filter@, child_rel@, d));
                    let rest = choose|rest: Seq<Seq<char>>|
                        #[trigger] upload_stray_at(t0, local@[li].children@, c, filter@, rest) && rel_of(child_rel@, rest) == d;
                    let names = seq![m] + rest;
                    assert(names.drop_first() =~= rest);
                    assert(names[0] == m);
                    assert(upload_stray_at(t0, local@, remote@, filter@, names));
                    assert(rel_of(rel@, names) == d);
                }
            }
            assert forall|names: Seq<Seq<char>>|
                #[trigger] upload_stray_at(t0, local@, remote@, filter@, names) && chain_clear(
                    t.unlisted(),
                    remote@,
                    names,
                ) && listed_before(entries@, k + 1, names[0]) implies names_hold(out@, rel_of(rel@, names)) by {
                if listed_before(entries@, k as int, names[0]) {
                    lemma_chain_clear_anti(ub, t.unlisted(), remote@, names);
                    lemma_names_hold_extend(out@, obefore, rel_of(rel@, names));
                } else {
                    let j = choose|j: int| 0 <= j < k + 1 && (#[trigger] entries@[j]).name@ == names[0];
                    assert(j == k);
                    if names.len() == 1 {
                        assert(pushed);
                        assert(rel_of(rel@, names) == child_rel@);
                        assert(out@[out.len() - 1]@ == child_rel@);
                    } else {
                        let rest = names.drop_first();
                        assert(recursed);
                        assert(rel_of(rel@, names) == rel_of(child_rel@, rest));
                        assert(upload_stray_at(t0, local@[li].children@, c, filter@, rest));
                    }
                }
            }
        }
        k = k + 1;
    }
    proof {
        if !t.unlisted().contains(remote@) {
            assert forall|names: Seq<Seq<char>>|
                #[trigger] upload_stray_at(t0, local@, remote@, filter@, names) && chain_clear(
                    t.unlisted(),
                    remote@,
                    names,
                ) implies names_hold(out@, rel_of(rel@, names)) by {
                assert(valid_name(names[0]) && t0.contains_key(join_path(remote@, names[0])));
                let j = choose|j: int| 0 <= j < entries@.len() && entries@[j].name@ == names[0];
                assert(listed_before(entries@, entries@.len() as int, names[0]));
            }
        }
    }
}

/// `names` leads from remote directory `dir`, through the local entry `e`
/// and directories real on both sides and kept by the filter, to a local
/// entry a mirror download removes ([`local_stray`]).
pub open spec fn download_stray_from(
    tree: Map<Seq<char>, RemoteNode>,
    e: LocalEntry,
    dir: Seq<char>,
    filter: Seq<(Seq<char>, bool)>,
    names: Seq<Seq<char>>,
) -> bool
    decreases names.len(), 0int, 0int,
{
    if names.len() == 0 {
        false
    } else if names.len() == 1 {
        names[0] == e.name@ && local_stray(tree, dir, filter, e)
    } else {
        let n = names[0];
        let c = join_path(dir, n);
        &&& n == e.name@
        &&& e.is_dir
        &&& !excluded(filter, n, true)
        &&& valid_name(n)
        &&& tree.contains_key(c)
        &&& tree[c].is_dir
        &&& !tree[c].is_symlink
        &&& download_stray_at(tree, e.children@, c, filter, names.drop_first())
    }
}

/// [`download_stray_from`] through some entry of `local`.
pub open spec fn download_stray_at(
    tree: Map<Seq<char>, RemoteNode>,
    local: Seq<LocalEntry>,
    dir: Seq<char>,
    filter: Seq<(Seq<char>, bool)>,
    names: Seq<Seq<char>>,
) -> bool
    decreases names.len(), 1int, local.len(),
{
    if local.len() == 0 {
        false
    } else {
        download_stray_at(tree, local.drop_last(), dir, filter, names) || download_stray_from(
            tree,
            local.last(),
            dir,
            filter,
            names,
        )
    }
}

/// Like [`download_stray_from`], where the remote side of the last
/// directory may also have been unknown (its listing failed: `unlisted`),
/// in which case every kept entry there counts.
pub open spec fn download_gone_from(
    tree: Map<Seq<char>, RemoteNode>,
    unlisted: Set<Seq<char>>,
    e: LocalEntry,
    dir: Seq<char>,
    filter: Seq<(Seq<char>, bool)>,
    names: Seq<Seq<char>>,
) -> bool
    decreases names.len(), 0int, 0int,
{
    if names.len() == 0 {
        false
    } else if names.len() == 1 {
        &&& names[0] == e.name@
        &&& !excluded(filter, e.name@, e.is_dir)
        &&& (unlisted.contains(dir) || !(valid_name(e.name@) && tree.contains_key(join_path(dir, e.name@))))
    } else {
        let n = names[0];
        let c = join_path(dir, n);
        &&& n == e.name@
        &&& e.is_dir
        &&& !excluded(filter, n, true)
        &&& valid_name(n)
        &&& tree.contains_key(c)
        &&& tree[c].is_dir
        &&& !tree[c].is_symlink
        &&& download_gone_at(tree, unlisted, e.children@, c, filter, names.drop_first())
    }
}

/// [`download_gone_from`] through some entry of `local`.
pub open spec fn download_gone_at(
    tree: Map<Seq<char>, RemoteNode>,
    unlisted: Set<Seq<char>>,
    local: Seq<LocalEntry>,
    dir: Seq<char>,
    filter: Seq<(Seq<char>, bool)>,
    names: Seq<Seq<char>>,
) -> bool
    decreases names.len(), 1int, local.len(),
{
    if local.len() == 0 {
        false
    } else {
        download_gone_at(tree, unlisted, local.drop_last(), dir, filter, names) || download_gone_from(
            tree,
            unlisted,
            local.last(),
            dir,
            filter,
            names,
        )
    }
}

/// Through entry `i` of `local` is through some entry of it.
proof fn lemma_gone_at_intro(
    tree: Map<Seq<char>, RemoteNode>,
    unlisted: Set<Seq<char>>,
    local: Seq<LocalEntry>,
    i: int,
    dir: Seq<char>,
    filter: Seq<(Seq<char>, bool)>,
    names: Seq<Seq<char>>,
)
    requires
        0 <= i < local.len(),
        download_gone_from(tree, unlisted, local[i], dir, filter, names),
    ensures
        download_gone_at(tree, unlisted, local, dir, filter, names),
    decreases local.len(),
{
    if i < local.len() - 1 {
        lemma_gone_at_intro(tree, unlisted, local.drop_last(), i, dir, filter, names);
    }
}

/// Through some entry of `local` is through a particular one.
proof fn lemma_gone_at_elim(
    tree: Map<Seq<char>, RemoteNode>,
    unlisted: Set<Seq<char>>,
    local: Seq<LocalEntry>,
    dir: Seq<char>,
    filter: Seq<(Seq<char>, bool)>,
    names: Seq<Seq<char>>,
) -> (i: int)
    requires
        download_gone_at(tree, unlisted, local, dir, filter, names),
    ensures
        0 <= i < local.len(),
        download_gone_from(tree, unlisted, local[i], dir, filter, names),
    decreases local.len(),
{
    if download_gone_from(tree, unlisted, local.last(), dir, filter, names) {
        local.len() - 1
    } else {
        lemma_gone_at_elim(tree, unlisted, local.drop_last(), dir, filter, names)
    }
}

/// Through entry `i` of `local` is through some entry of it.
proof fn lemma_stray_at_intro(
    tree: Map<Seq<char>, RemoteNode>,
    local: Seq<LocalEntry>,
    i: int,
    dir: Seq<char>,
    filter: Seq<(Seq<char>, bool)>,
    names: Seq<Seq<char>>,
)
    requires
        0 <= i < local.len(),
        download_stray_from(tree, local[i], dir, filter, names),
    ensures
        download_stray_at(tree, local, dir, filter, names),
    decreases local.len(),
{
    if i < local.len() - 1 {
        lemma_stray_at_intro(tree, local.drop_last(), i, dir, filter, names);
    }
}

/// Through some entry of `local` is through a particular one.
proof fn lemma_stray_at_elim(
    tree: Map<Seq<char>, RemoteNode>,
    local: Seq<LocalEntry>,
    dir: Seq<char>,
    filter: Seq<(Seq<char>, bool)>,
    names: Seq<Seq<char>>,
) -> (i: int)
    requires
        download_stray_at(tree, local, dir, filter, names),
    ensures
        0 <= i < local.len(),
        download_stray_from(tree, local[i], dir, filter, names),
    decreases local.len(),
{
    if download_stray_from(tree, local.last(), dir, filter, names) {
        local.len() - 1
    } else {
        lemma_stray_at_elim(tree, local.drop_last(), dir, filter, names)
    }
}

/// `d` (relative to the roots) names a local entry a mirror download of
/// `dir` into `local` (at `rel`) removes ([`download_gone_at`]).
pub open spec fn download_delete_ok(
    tree: Map<Seq<char>, RemoteNode>,
    unlisted: Set<Seq<char>>,
    local: Seq<LocalEntry>,
    dir: Seq<char>,
    filter: Seq<(Seq<char>, bool)>,
    rel: Seq<char>,
    d: Seq<char>,
) -> bool {
    exists|names: Seq<Seq<char>>|
        #[trigger] download_gone_at(tree, unlisted, local, dir, filter, names) && rel_of(rel, names) == d
}

/// More failed listings keep what counted as gone.
proof fn lemma_gone_from_mono(
    tree: Map<Seq<char>, RemoteNode>,
    f: Set<Seq<char>>,
    g: Set<Seq<char>>,
    e: LocalEntry,
    dir: Seq<char>,
    filter: Seq<(Seq<char>, bool)>,
    names: Seq<Seq<char>>,
)
    requires
        f.subset_of(g),
        download_gone_from(tree, f, e, dir, filter, names),
    ensures
        download_gone_from(tree, g, e, dir, filter, names),
    decreases names.len(),
{
    if names.len() > 1 {
        let c = join_path(dir, names[0]);
        let rest = names.drop_first();
        let i = lemma_gone_at_elim(tree, f, e.children@, c, filter, rest);
        lemma_gone_from_mono(tree, f, g, e.children@[i], c, filter, rest);
        lemma_gone_at_intro(tree, g, e.children@, i, c, filter, rest);
    }
}

/// Does the listing show a real directory (not a link) called `name`?
fn has_listed_real_dir(es: &Vec<Entry>, name: &str) -> (r: bool)
    ensures
        r == exists|j: int| 0 <= j < es@.len() && (#[trigger] es@[j]).name@ == name@ && es@[j].is_dir && !es@[j].is_symlink,
{
    let mut k: usize = 0;
    while k < es.len()
        invariant
            k <= es.len(),
            forall|j: int| 0 <= j < k ==> !((#[trigger] es@[j]).name@ == name@ && es@[j].is_dir && !es@[j].is_symlink),
        decreases es.len() - k,
    {
        if es[k].is_dir && !es[k].is_symlink && crate::text::str_eq(es[k].name.as_str(), name) {
            return true;
        }
        k = k + 1;
    }
    false
}

/// The mirror deletions of a download of remote directory `remote` into the
/// local entries `local` (at `rel`), appended to `out`: every local stray
/// reached through directories real on both sides, as a path relative to
/// the roots; where a listing failed, every kept entry there.
#[verifier::spinoff_prover]
fn download_deletes<T: Transport + ?Sized>(
    t: &mut T,
    local: &Vec<LocalEntry>,
    remote: &str,
    filter: &Filter,
    rel: &str,
    out: &mut Vec<String>,
)
    ensures
        final(t).tree() == old(t).tree(),
        old(t).unlisted().subset_of(final(t).unlisted()),
        old(out).len() <= final(out).len(),
        final(out)@.subrange(0, old(out).len() as int) == old(out)@,
        forall|i: int|
            old(out).len() <= i < final(out).len() ==> download_delete_ok(
                old(t).tree(),
                final(t).unlisted(),
                local@,
                remote@,
                filter@,
                rel@,
                (#[trigger] final(out)@[i])@,
            ),
        !final(t).unlisted().contains(remote@) ==> forall|names: Seq<Seq<char>>|
            #[trigger] download_stray_at(old(t).tree(), local@, remote@, filter@, names) && chain_clear(
                final(t).unlisted(),
                remote@,
                names,
            ) ==> names_hold(final(out)@, rel_of(rel@, names)),
        forall|x: Seq<char>|
            #[trigger] final(t).unlisted().contains(x) ==> old(t).unlisted().contains(x) || x == remote@
                || strictly_below(remote@, x),
        !old(t).unlisted().contains(remote@) && final(t).unlisted().contains(remote@) ==> forall|i: int|
            0 <= i < local.len() && !excluded(filter@, (#[trigger] local@[i]).name@, local@[i].is_dir)
                ==> names_hold(final(out)@, rel_path(rel@, local@[i].name@)),
    decreases local@,
{
    let ghost t0 = t.tree();
    let ghost u0 = t.unlisted();
    let ghost ostart = out@;
    assert(ostart.subrange(0, ostart.len() as int) =~= ostart);
    let listed = t.list_dir(remote);
    let ok = listed.is_ok();
    let entries = match listed {
        Ok(v) => v,
        Err(_) => Vec::new(),
    };
    let mut k: usize = 0;
    while k < local.len()
        invariant
            k <= local.len(),
            t.tree() == t0,
            t0 == old(t).tree(),
            t0.dom().finite(),
            u0 == old(t).unlisted(),
            u0.subset_of(t.unlisted()),
            ok ==> is_listing(t0, remote@, entries@),
            !ok ==> entries@.len() == 0 && t.unlisted().contains(remote@),
            ostart == old(out)@,
            ostart.len() <= out.len(),
            out@.subrange(0, ostart.len() as int) == ostart,
            forall|i: int|
                ostart.len() <= i < out.len() ==> download_delete_ok(
                    t0,
                    t.unlisted(),
                    local@,
                    remote@,
                    filter@,
                    rel@,
                    (#[trigger] out@[i])@,
                ),
            ok ==> forall|i: int, names: Seq<Seq<char>>|
                0 <= i < k && #[trigger] download_stray_from(t0, local@[i], remote@, filter@, names) && chain_clear(
                    t.unlisted(),
                    remote@,
                    names,
                ) ==> names_hold(out@, rel_of(rel@, names)),
            forall|x: Seq<char>|
                #[trigger] t.unlisted().contains(x) ==> u0.contains(x) || (!ok && x == remote@) || strictly_below(
                    remote@,
                    x,
                ),
            !ok ==> forall|i: int|
                0 <= i < k && !excluded(filter@, (#[trigger] local@[i]).name@, local@[i].is_dir) ==> names_hold(
                    out@,
                    rel_path(rel@, local@[i].name@),
                ),
        decreases local.len() - k,
    {
        let e = &local[k];
        let ghost m = e.name@;
        let ghost c = join_path(remote@, m);
        let ghost ub = t.unlisted();
        let ghost obefore = out@;
        let ghost mut recursed = false;
        let ghost mut pushed = false;
        let child_remote = join(remote, e.name.as_str());
        let child_rel = rel_join(rel, e.name.as_str());
        if !filter.excludes(e.name.as_str(), e.is_dir) {
            if has_listed_name(&entries, e.name.as_str()) {
                if e.is_dir && has_listed_real_dir(&entries, e.name.as_str()) {
                    assert(decreases_to!(local@ => local@[k as int].children@));
                    download_deletes(t, &e.children, child_remote.as_str(), filter, child_rel.as_str(), out);
                    proof {
                        recursed = true;
                    }
                }
            } else {
                out.push(child_rel.clone());
                proof {
                    pushed = true;
                }
            }
        }
        proof {
            assert(out@.subrange(0, obefore.len() as int) =~= obefore);
            assert(out@.subrange(0, ostart.len() as int) =~= obefore.subrange(0, ostart.len() as int)) by {
                assert(out@.subrange(0, ostart.len() as int) =~= out@.subrange(0, obefore.len() as int).subrange(
                    0,
                    ostart.len() as int,
                ));
            }
            if recursed {
                assert(ok);
                let j = choose|j: int|
                    0 <= j < entries@.len() && (#[trigger] entries@[j]).name@ == m && entries@[j].is_dir
                        && !entries@[j].is_symlink;
                assert(reports(entries@[j], t0[join_path(remote@, entries@[j].name@)]));
                assert(valid_name(m));
            }
            assert forall|i: int| ostart.len() <= i < out.len() implies download_delete_ok(
                t0,
                t.unlisted(),
                local@,
                remote@,
                filter@,
                rel@,
                (#[trigger] out@[i])@,
            ) by {
                if i < obefore.len() {
                    assert(out@.subrange(0, obefore.len() as int)[i] == out@[i]);
                    assert(obefore[i] == out@[i]);
                    let d = out@[i]@;
                    assert(download_delete_ok(t0, ub, local@, remote@, filter@, rel@, d));
                    let names = choose|names: Seq<Seq<char>>|
                        #[trigger] download_gone_at(t0, ub, local@, remote@, filter@, names) && rel_of(rel@, names) == d;
                    let x = lemma_gone_at_elim(t0, ub, local@, remote@, filter@, names);
                    lemma_gone_from_mono(t0, ub, t.unlisted(), local@[x], remote@, filter@, names);
                    lemma_gone_at_intro(t0, t.unlisted(), local@, x, remote@, filter@, names);
                } else if pushed {
                    assert(i == obefore.len());
                    assert(out@[i]@ == child_rel@);
                    let names = seq![m];
                    assert(names.len() == 1 && names[0] == m);
                    if ok {
                        if valid_name(m) && t0.contains_key(c) {
                            let j = choose|j: int| 0 <= j < entries@.len() && entries@[j].name@ == m;
                            assert(listed_name(entries@, m));
                        }
                    }
                    assert(download_gone_from(t0, t.unlisted(), local@[k as int], remote@, filter@, names));
                    lemma_gone_at_intro(t0, t.unlisted(), local@, k as int, remote@, filter@, names);
                    assert(rel_of(rel@, names) == child_rel@);
                } else {
                    assert(recursed) by {
                        if !recursed {
                            assert(out@ =~= obefore);
                        }
                    }
                    let j = choose|j: int|
                        0 <= j < entries@.len() && (#[trigger] entries@[j]).name@ == m && entries@[j].is_dir
                            && !entries@[j].is_symlink;
                    assert(reports(entries@[j], t0[join_path(remote@, entries@[j].name@)]));
                    assert(t0.contains_key(c) && t0[c].is_dir && !t0[c].is_symlink);
                    let d = out@[i]@;
                    assert(download_delete_ok(t0, t.unlisted(), local@[k as int].children@, c, filter@, child_rel@, d));
                    let rest = choose|rest: Seq<Seq<char>>|
                        #[trigger] download_gone_at(t0, t.unlisted(), local@[k as int].children@, c, filter@, rest)
                            && rel_of(child_rel@, rest) == d;
                    let x = lemma_gone_at_elim(t0, t.unlisted(), local@[k as int].children@, c, filter@, rest);
                    assert(rest.len() > 0);
                    let names = seq![m] + rest;
                    assert(names.drop_first() =~= rest);
                    assert(names[0] == m);
                    assert(names.len() > 1);
                    assert(download_gone_from(t0, t.unlisted(), local@[k as int], remote@, filter@, names));
                    lemma_gone_at_intro(t0, t.unlisted(), local@, k as int, remote@, filter@, names);
                    assert(rel_of(rel@, names) == d);
                }
            }
            if ok {
                assert forall|i: int, names: Seq<Seq<char>>|
                    0 <= i < k + 1 && #[trigger] download_stray_from(t0, local@[i], remote@, filter@, names) && chain_clear(
                        t.unlisted(),
                        remote@,
                        names,
                    ) implies names_hold(out@, rel_of(rel@, names)) by {
                    if i < k {
                        lemma_chain_clear_anti(ub, t.unlisted(), remote@, names);
                        lemma_names_hold_extend(out@, obefore, rel_of(rel@, names));
                    } else if names.len() == 1 {
                        assert(!listed_name(entries@, m)) by {
                            if listed_name(entries@, m) {
                                let j = choose|j: int| 0 <= j < entries@.len() && entries@[j].name@ == m;
                                assert(valid_name(entries@[j].name@));
                            }
                        }
                        assert(pushed);
                        assert(rel_of(rel@, names) == child_rel@);
                        assert(out@[out.len() - 1]@ == child_rel@);
                    } else {
                        let rest = names.drop_first();
                        let j = choose|j: int| 0 <= j < entries@.len() && entries@[j].name@ == m;
                        assert(reports(entries@[j], t0[join_path(remote@, entries@[j].name@)]));
                        assert(listed_name(entries@, m));
                        assert(recursed);
                        assert(rel_of(rel@, names) == rel_of(child_rel@, rest));
                        assert(download_stray_at(t0, local@[k as int].children@, c, filter@, rest));
                    }
                }
            }
        }
        proof {
            assert forall|x: Seq<char>| #[trigger] t.unlisted().contains(x) implies u0.contains(x) || (!ok && x
                == remote@) || strictly_below(remote@, x) by {
                if !ub.contains(x) {
                    assert(recursed);
                    lemma_child_below(remote@, m);
                }
            }
            if !ok {
                assert forall|i: int|
                    0 <= i < k + 1 && !excluded(filter@, (#[trigger] local@[i]).name@, local@[i].is_dir) implies names_hold(
                    out@,
                    rel_path(rel@, local@[i].name@),
                ) by {
                    if i < k {
                        lemma_names_hold_extend(out@, obefore, rel_path(rel@, local@[i].name@));
                    } else {
                        assert(pushed);
                        assert(out@[out.len() - 1]@ == child_rel@);
                    }
                }
            }
        }
        k = k + 1;
    }
    proof {
        if !t.unlisted().contains(remote@) {
            assert forall|names: Seq<Seq<char>>|
                #[trigger] download_stray_at(t0, local@, remote@, filter@, names) && chain_clear(
                    t.unlisted(),
                    remote@,
                    names,
                ) implies names_hold(out@, rel_of(rel@, names)) by {
                let i = lemma_stray_at_elim(t0, local@, remote@, filter@, names);
            }
        }
    }
}

/// The mirror deletions of a sync between `local` and remote directory
/// `remote`, as paths relative to the destination root: every stray at any
/// depth ([`mirror_complete`]), and nothing else ([`mirror_delete_ok`]). On
/// a download whose listing of `remote` fails, every local entry the filter
/// keeps is among them.
pub fn collect_deletes<T: Transport + ?Sized>(
    t: &mut T,
    local: &Vec<LocalEntry>,
    remote: &str,
    direction: SyncDirection,
    filter: &Filter,
) -> (r: Vec<String>)
    ensures
        final(t).tree() == old(t).tree(),
        old(t).unlisted().subset_of(final(t).unlisted()),
        forall|i: int|
            0 <= i < r.len() ==> mirror_delete_ok(
                old(t).tree(),
                final(t).unlisted(),
                local@,
                remote@,
                direction,
                filter@,
                #[trigger] r@[i]@,
            ),
        mirror_complete(old(t).tree(), final(t).unlisted(), local@, remote@, direction, filter@, r@),
        direction == SyncDirection::Download && !old(t).unlisted().contains(remote@) && final(t).unlisted().contains(
            remote@,
        ) ==> forall|i: int|
            0 <= i < local.len() && !excluded(filter@, (#[trigger] local@[i]).name@, local@[i].is_dir)
                ==> names_hold(r@, local@[i].name@),
{
    let mut out: Vec<String> = Vec::new();
    let root = String::new();
    proof {
        assert(root@ =~= Seq::<char>::empty());
    }
    match direction {
        SyncDirection::Upload => upload_deletes(t, local, remote, filter, root.as_str(), &mut out),
        SyncDirection::Download => download_deletes(t, local, remote, filter, root.as_str(), &mut out),
    }
    out
}

/// A remote entry directly inside `remote` that a mirror upload keeps
/// untouched, with everything inside it: one the filter excludes, or a
/// non-directory (or link) whose name exists locally.
pub open spec fn remote_kept(
    tree: Map<Seq<char>, RemoteNode>,
    local: Seq<LocalEntry>,
    remote: Seq<char>,
    filter: Seq<(Seq<char>, bool)>,
    n: Seq<char>,
) -> bool {
    let c = join_path(remote, n);
    &&& valid_name(n)
    &&& tree.contains_key(c)
    &&& (excluded(filter, n, tree[c].is_dir) || ((!tree[c].is_dir || tree[c].is_symlink) && local_index(
        local,
        n,
    ).is_some()))
}

/// A remote entry directly inside `remote` that a mirror upload removes: one
/// the filter keeps, that is a real directory with no local directory of its
/// name, or a file or link with no local entry of its name.
pub open spec fn remote_stray(
    tree: Map<Seq<char>, RemoteNode>,
    local: Seq<LocalEntry>,
    remote: Seq<char>,
    filter: Seq<(Seq<char>, bool)>,
    n: Seq<char>,
) -> bool {
    let c = join_path(remote, n);
    &&& valid_name(n)
    &&& tree.contains_key(c)
    &&& !excluded(filter, n, tree[c].is_dir)
    &&& if tree[c].is_dir && !tree[c].is_symlink {
        !(local_index(local, n) matches Some(i) && local[i].is_dir)
    } else {
        local_index(local, n).is_none()
    }
}

/// Some call in `cs` failed on `remote` itself or at or inside `c`.
pub open spec fn failed_within(cs: Seq<CallRecord>, remote: Seq<char>, c: Seq<char>) -> bool {
    exists|i: int| 0 <= i < cs.len() && (#[trigger] cs[i]).2.is_some() && (cs[i].1 == remote || within(c, cs[i].1))
}

/// A failure recorded stays recorded as calls are appended.
proof fn lemma_failed_grow(
    c0: Seq<CallRecord>,
    a: Seq<CallRecord>,
    b: Seq<CallRecord>,
    remote: Seq<char>,
    c: Seq<char>,
)
    requires
        extends_calls(a, c0),
        extends_calls(b, a),
        failed_within(calls_since(c0, a), remote, c),
    ensures
        failed_within(calls_since(c0, b), remote, c),
{
    lemma_calls_concat(c0, a, b);
    let x = calls_since(c0, a);
    let i = choose|i: int| 0 <= i < x.len() && (#[trigger] x[i]).2.is_some() && (x[i].1 == remote || within(c, x[i].1));
    assert(calls_since(c0, b)[i] == x[i]);
}

/// A failure in the appended calls is a failure of the whole run.
proof fn lemma_failed_tail(
    c0: Seq<CallRecord>,
    a: Seq<CallRecord>,
    b: Seq<CallRecord>,
    remote: Seq<char>,
    c: Seq<char>,
)
    requires
        extends_calls(a, c0),
        extends_calls(b, a),
        failed_within(calls_since(a, b), remote, c),
    ensures
        failed_within(calls_since(c0, b), remote, c),
{
    lemma_calls_concat(c0, a, b);
    let x = calls_since(a, b);
    let i = choose|i: int| 0 <= i < x.len() && (#[trigger] x[i]).2.is_some() && (x[i].1 == remote || within(c, x[i].1));
    assert(calls_since(c0, b)[calls_since(c0, a).len() + i] == x[i]);
}

/// A real directory path from `dir` real leads to the chain of it.
proof fn lemma_real_is_chain(
    tree: Map<Seq<char>, RemoteNode>,
    dir: Seq<char>,
    filter: Seq<(Seq<char>, bool)>,
    names: Seq<Seq<char>>,
)
    requires
        real_dir_path(tree, dir, filter, names),
    ensures
        dir_chain(tree, dir, names),
    decreases names.len(),
{
    if names.len() > 1 {
        lemma_real_is_chain(tree, join_path(dir, names[0]), filter, names.drop_first());
    }
}

/// What a delete reached lies at or inside where it started.
proof fn lemma_reached_within(tree: Map<Seq<char>, RemoteNode>, c: Seq<char>, names: Seq<Seq<char>>, p: Seq<char>)
    requires
        reached(tree, c, names, p),
    ensures
        within(c, p),
{
    if names.len() > 0 {
        lemma_real_is_chain(tree, c, Seq::empty(), names);
        lemma_path_of_within(c, names, tree);
        lemma_chain_head(tree, c, names);
        lemma_child_below(c, names[0]);
    }
}

/// `p` is `dir` or a directory that `names` passes through on the way to
/// the entry it reaches.
pub open spec fn on_way(dir: Seq<char>, names: Seq<Seq<char>>, p: Seq<char>) -> bool
    decreases names.len(),
{
    p == dir || (names.len() > 1 && on_way(join_path(dir, names[0]), names.drop_first(), p))
}

/// Some call in `cs` failed on a directory on the way from `remote` down
/// `names`, or at or inside the entry `names` reaches.
pub open spec fn failed_along(cs: Seq<CallRecord>, remote: Seq<char>, names: Seq<Seq<char>>) -> bool {
    exists|i: int|
        0 <= i < cs.len() && (#[trigger] cs[i]).2.is_some() && (on_way(remote, names, cs[i].1) || within(
            path_of(remote, names),
            cs[i].1,
        ))
}

/// A failure along a way stays recorded as calls are appended.
proof fn lemma_failed_along_grow(
    c0: Seq<CallRecord>,
    a: Seq<CallRecord>,
    b: Seq<CallRecord>,
    remote: Seq<char>,
    names: Seq<Seq<char>>,
)
    requires
        extends_calls(a, c0),
        extends_calls(b, a),
        failed_along(calls_since(c0, a), remote, names),
    ensures
        failed_along(calls_since(c0, b), remote, names),
{
    lemma_calls_concat(c0, a, b);
    let x = calls_since(c0, a);
    let i = choose|i: int|
        0 <= i < x.len() && (#[trigger] x[i]).2.is_some() && (on_way(remote, names, x[i].1) || within(
            path_of(remote, names),
            x[i].1,
        ));
    assert(calls_since(c0, b)[i] == x[i]);
}

/// A failure along a way in the appended calls is one of the whole run.
proof fn lemma_failed_along_tail(
    c0: Seq<CallRecord>,
    a: Seq<CallRecord>,
    b: Seq<CallRecord>,
    remote: Seq<char>,
    names: Seq<Seq<char>>,
)
    requires
        extends_calls(a, c0),
        extends_calls(b, a),
        failed_along(calls_since(a, b), remote, names),
    ensures
        failed_along(calls_since(c0, b), remote, names),
{
    lemma_calls_concat(c0, a, b);
    let x = calls_since(a, b);
    let i = choose|i: int|
        0 <= i < x.len() && (#[trigger] x[i]).2.is_some() && (on_way(remote, names, x[i].1) || within(
            path_of(remote, names),
            x[i].1,
        ));
    assert(calls_since(c0, b)[calls_since(c0, a).len() + i] == x[i]);
}

/// A failure along the way below the first directory of `names` is one
/// along the whole way.
proof fn lemma_failed_along_up(cs: Seq<CallRecord>, remote: Seq<char>, names: Seq<Seq<char>>)
    requires
        names.len() > 1,
        failed_along(cs, join_path(remote, names[0]), names.drop_first()),
    ensures
        failed_along(cs, remote, names),
{
    let c = join_path(remote, names[0]);
    let rest = names.drop_first();
    let i = choose|i: int|
        0 <= i < cs.len() && (#[trigger] cs[i]).2.is_some() && (on_way(c, rest, cs[i].1) || within(
            path_of(c, rest),
            cs[i].1,
        ));
    assert(on_way(c, rest, cs[i].1) ==> on_way(remote, names, cs[i].1));
}

/// Trees that agree inside `dir` have the same strays below it.
proof fn lemma_stray_agree(
    a: Map<Seq<char>, RemoteNode>,
    b: Map<Seq<char>, RemoteNode>,
    local: Seq<LocalEntry>,
    dir: Seq<char>,
    filter: Seq<(Seq<char>, bool)>,
    names: Seq<Seq<char>>,
)
    requires
        forall|p: Seq<char>| #[trigger] within(dir, p) ==> same_at(a, b, p),
        upload_stray_at(a, local, dir, filter, names),
    ensures
        upload_stray_at(b, local, dir, filter, names),
    decreases names.len(),
{
    let c = join_path(dir, names[0]);
    lemma_child_below(dir, names[0]);
    assert(within(dir, c));
    if names.len() > 1 {
        let i = local_index(local, names[0])->0;
        assert forall|p: Seq<char>| #[trigger] within(c, p) implies same_at(a, b, p) by {
            assert(within(dir, p));
        }
        lemma_stray_agree(a, b, local[i].children@, c, filter, names.drop_first());
    }
}

/// `after` and `before` agree at path `k`.
pub open spec fn same_at(before: Map<Seq<char>, RemoteNode>, after: Map<Seq<char>, RemoteNode>, k: Seq<char>) -> bool {
    &&& after.contains_key(k) == before.contains_key(k)
    &&& before.contains_key(k) ==> after[k] == before[k]
}

/// Mirror deletion on the remote side of an upload sync: remove remote
/// entries that have no local counterpart (directories recursively, without
/// following symlinks). Failures deleting a single entry are not fatal, so
/// it always succeeds. Only paths inside `remote` are ever removed, nothing
/// is created, and excluded entries and files that exist locally are left
/// as they were, with everything inside them.
#[verifier::spinoff_prover]
pub fn delete_extraneous_remote<T: Transport + ?Sized>(
    t: &mut T,
    local: &Vec<LocalEntry>,
    remote: &str,
    filter: &Filter,
) -> (r: Result<()>)
    ensures
        r is Ok,
        submap(final(t).tree(), old(t).tree()),
        same_outside(old(t).tree(), final(t).tree(), remote@),
        forall|n: Seq<char>, k: Seq<char>|
            #![trigger within(join_path(remote@, n), k)]
            remote_kept(old(t).tree(), local@, remote@, filter@, n) && within(join_path(remote@, n), k)
                ==> same_at(old(t).tree(), final(t).tree(), k),
        final(t).keeps_record() == old(t).keeps_record(),
        old(t).keeps_record() ==> extends_calls(final(t).calls(), old(t).calls()),
        old(t).keeps_record() ==> forall|names: Seq<Seq<char>>|
            #[trigger] upload_stray_at(old(t).tree(), local@, remote@, filter@, names) ==> !final(t).tree().contains_key(
                path_of(remote@, names),
            ) || failed_along(calls_since(old(t).calls(), final(t).calls()), remote@, names),
    decreases local@,
{
    let ghost t0 = t.tree();
    let ghost c0 = t.calls();
    let ghost kr = t.keeps_record();
    let listed = t.list_dir(remote);
    let ok = listed.is_ok();
    proof {
        if kr {
            lemma_push_call(c0, (CallKind::List, remote@, outcome(listed)));
            assert(calls_since(c0, t.calls())[0] == (CallKind::List, remote@, outcome(listed)));
        }
    }
    let entries = match listed {
        Ok(v) => v,
        Err(_) => Vec::new(),
    };
    let mut k: usize = 0;
    while k < entries.len()
        invariant
            k <= entries.len(),
            t0 == old(t).tree(),
            ok ==> is_listing(t0, remote@, entries@),
            !ok ==> entries@.len() == 0,
            submap(t.tree(), t0),
            same_outside(t0, t.tree(), remote@),
            c0 == old(t).calls(),
            kr == old(t).keeps_record(),
            t.keeps_record() == kr,
            kr ==> extends_calls(t.calls(), c0),
            kr ==> calls_since(c0, t.calls()).len() > 0,
            kr ==> calls_since(c0, t.calls())[0].1 == remote@,
            kr && !ok ==> calls_since(c0, t.calls())[0].2.is_some(),
            kr ==> forall|n: Seq<char>|
                #[trigger] remote_stray(t0, local@, remote@, filter@, n) && listed_before(entries@, k as int, n)
                    ==> !t.tree().contains_key(join_path(remote@, n)) || failed_within(
                    calls_since(c0, t.calls()),
                    remote@,
                    join_path(remote@, n),
                ),
            kr ==> forall|names: Seq<Seq<char>>|
                #[trigger] upload_stray_at(t0, local@, remote@, filter@, names) && names.len() > 1 && listed_before(
                    entries@,
                    k as int,
                    names[0],
                ) ==> !t.tree().contains_key(path_of(remote@, names)) || failed_along(
                    calls_since(c0, t.calls()),
                    remote@,
                    names,
                ),
            forall|n: Seq<char>, p: Seq<char>|
                #![trigger within(join_path(remote@, n), p)]
                valid_name(n) && (remote_kept(t0, local@, remote@, filter@, n) || !listed_before(
                    entries@,
                    k as int,
                    n,
                )) && within(join_path(remote@, n), p) ==> same_at(t0, t.tree(), p),
        decreases entries.len() - k,
    {
        let e = &entries[k];
        let ghost before = t.tree();
        let ghost cb = t.calls();
        let ghost m = e.name@;
        let ghost c = join_path(remote@, m);
        let child_remote = join(remote, e.name.as_str());
        let found = find_local(local, e.name.as_str());
        let skip = filter.excludes(e.name.as_str(), e.is_dir) || !has_valid_name(e.name.as_str());
        let ghost mut acted = false;
        let ghost mut handled = false;
        let ghost mut recursed = false;
        let ghost mut ri: int = 0;
        if !skip {
            proof {
                lemma_child_below(remote@, e.name@);
                assert(reports(entries@[k as int], t0[c]));
            }
            if e.is_dir && !e.is_symlink {
                let mut wipe = true;
                match found {
                    Some(i) => {
                        if local[i].is_dir {
                            assert(decreases_to!(local@ => local@[i as int].children@));
                            let _ = delete_extraneous_remote(t, &local[i].children, child_remote.as_str(), filter);
                            wipe = false;
                            proof {
                                recursed = true;
                                ri = i as int;
                            }
                        }
                    },
                    None => {},
                }
                if wipe {
                    let gone = remove_dir_all(t, child_remote.as_str());
                    proof {
                        if kr {
                            let added = calls_since(cb, t.calls());
                            if gone is Err {
                                let j = added.len() - 1;
                                assert(added[j].2.is_some());
                                if added[j].0 == CallKind::List {
                                    let nm = choose|nm: Seq<Seq<char>>| reached(before, child_remote@, nm, added[j].1);
                                    lemma_reached_within(before, child_remote@, nm, added[j].1);
                                }
                                assert(failed_within(added, remote@, c));
                                lemma_failed_tail(c0, cb, t.calls(), remote@, c);
                            }
                        }
                        handled = true;
                    }
                }
                proof {
                    acted = true;
                    assert(!remote_kept(t0, local@, remote@, filter@, m));
                }
            } else if found.is_none() {
                let gone = t.remove_file(child_remote.as_str());
                proof {
                    if kr {
                        lemma_push_call(cb, (CallKind::RemoveFile, c, outcome(gone)));
                        if gone is Err {
                            let added = calls_since(cb, t.calls());
                            assert(added[0].2.is_some() && within(c, added[0].1));
                            lemma_failed_tail(c0, cb, t.calls(), remote@, c);
                        }
                    }
                    handled = true;
                    acted = true;
                    assert(!remote_kept(t0, local@, remote@, filter@, m));
                }
            }
        }
        proof {
            if !skip {
                assert(same_outside(before, t.tree(), c));
            }
            if !acted {
                assert(t.tree() == before);
            }
            assert forall|n: Seq<char>, p: Seq<char>|
                #![trigger within(join_path(remote@, n), p)]
                valid_name(n) && (remote_kept(t0, local@, remote@, filter@, n) || !listed_before(
                    entries@,
                    k + 1,
                    n,
                )) && within(join_path(remote@, n), p) implies same_at(t0, t.tree(), p) by {
                if !listed_before(entries@, k + 1, n) {
                    assert(!listed_before(entries@, k as int, n)) by {
                        if listed_before(entries@, k as int, n) {
                            let j = choose|j: int| 0 <= j < k && (#[trigger] entries@[j]).name@ == n;
                            assert(0 <= j < k + 1 && entries@[j].name@ == n);
                        }
                    }
                    assert(n != m) by {
                        assert(entries@[k as int].name@ == m);
                    }
                }
                if n == m {
                    assert(listed_before(entries@, k + 1, m)) by {
                        assert(entries@[k as int].name@ == m);
                    }
                }
                assert(same_at(t0, before, p));
                if acted {
                    if n != m {
                        lemma_disjoint_children(remote@, n, m, p);
                        assert(!within(c, p));
                        assert(same_outside(before, t.tree(), c));
                        assert(t.tree().contains_key(p) == before.contains_key(p));
                        assert(same_at(before, t.tree(), p));
                    } else {
                        assert(remote_kept(t0, local@, remote@, filter@, m));
                        assert(false);
                    }
                } else {
                    assert(same_at(before, t.tree(), p));
                }
            }
        }
        proof {
            if kr {
                if t.calls() == cb {
                    assert(cb.subrange(0, cb.len() as int) =~= cb);
                }
                assert(extends_calls(t.calls(), cb));
                lemma_calls_concat(c0, cb, t.calls());
                assert(calls_since(c0, t.calls())[0] == calls_since(c0, cb)[0]);
                assert forall|n: Seq<char>|
                    #[trigger] remote_stray(t0, local@, remote@, filter@, n) && listed_before(entries@, k + 1, n)
                        implies !t.tree().contains_key(join_path(remote@, n)) || failed_within(
                        calls_since(c0, t.calls()),
                        remote@,
                        join_path(remote@, n),
                    ) by {
                    if listed_before(entries@, k as int, n) {
                        if before.contains_key(join_path(remote@, n)) {
                            lemma_failed_grow(c0, cb, t.calls(), remote@, join_path(remote@, n));
                        }
                    } else {
                        let j = choose|j: int| 0 <= j < k + 1 && (#[trigger] entries@[j]).name@ == n;
                        assert(j == k);
                        assert(n == m);
                        assert(handled);
                    }
                }
                assert(submap(t.tree(), before));
                assert forall|names: Seq<Seq<char>>|
                    #[trigger] upload_stray_at(t0, local@, remote@, filter@, names) && names.len() > 1 && listed_before(
                        entries@,
                        k + 1,
                        names[0],
                    ) implies !t.tree().contains_key(path_of(remote@, names)) || failed_along(
                        calls_since(c0, t.calls()),
                        remote@,
                        names,
                    ) by {
                    if listed_before(entries@, k as int, names[0]) {
                        if before.contains_key(path_of(remote@, names)) {
                            lemma_failed_along_grow(c0, cb, t.calls(), remote@, names);
                        }
                    } else {
                        let j = choose|j: int| 0 <= j < k + 1 && (#[trigger] entries@[j]).name@ == names[0];
                        assert(j == k);
                        assert(names[0] == m);
                        let rest = names.drop_first();
                        assert(recursed);
                        let li = local_index(local@, m)->0;
                        assert(ri == li);
                        assert forall|p: Seq<char>| #[trigger] within(c, p) implies same_at(t0, before, p) by {
                            assert(within(join_path(remote@, m), p));
                        }
                        lemma_stray_agree(t0, before, local@[li].children@, c, filter@, rest);
                        assert(path_of(remote@, names) == path_of(c, rest));
                        if t.tree().contains_key(path_of(remote@, names)) {
                            lemma_failed_along_up(calls_since(cb, t.calls()), remote@, names);
                            lemma_failed_along_tail(c0, cb, t.calls(), remote@, names);
                        }
                    }
                }
            }
        }
        k = k + 1;
    }
    proof {
        if kr {
            assert forall|names: Seq<Seq<char>>|
                #[trigger] upload_stray_at(t0, local@, remote@, filter@, names) implies !t.tree().contains_key(
                    path_of(remote@, names),
                ) || failed_along(calls_since(c0, t.calls()), remote@, names) by {
                let cs = calls_since(c0, t.calls());
                if !ok {
                    assert(on_way(remote@, names, cs[0].1));
                } else if names.len() == 1 {
                    assert(remote_stray(t0, local@, remote@, filter@, names[0]));
                    assert(listed_before(entries@, entries.len() as int, names[0])) by {
                        let j = choose|j: int| 0 <= j < entries@.len() && entries@[j].name@ == names[0];
                    }
                    if t.tree().contains_key(path_of(remote@, names)) {
                        let i = choose|i: int|
                            0 <= i < cs.len() && (#[trigger] cs[i]).2.is_some() && (cs[i].1 == remote@ || within(
                                join_path(remote@, names[0]),
                                cs[i].1,
                            ));
                        assert(on_way(remote@, names, cs[i].1) || within(path_of(remote@, names), cs[i].1));
                    }
                } else {
                    assert(listed_before(entries@, entries.len() as int, names[0])) by {
                        let j = choose|j: int| 0 <= j < entries@.len() && entries@[j].name@ == names[0];
                    }
                }
            }
        }
    }
    Ok(())
}

/// Is `n` a single path component (not empty, no `/`, not `.` or `..`)?
pub fn has_valid_name(n: &str) -> (r: bool)
    ensures
        r == valid_name(n@),
{
    let cs = chars_of(n);
    if cs.len() == 0 || crate::text::find_char(&cs, '/').is_some() {
        return false;
    }
    if cs.len() == 1 && cs[0] == '.' {
        assert(cs@ =~= seq!['.']);
        return false;
    }
    if cs.len() == 2 && cs[0] == '.' && cs[1] == '.' {
        assert(cs@ =~= seq!['.', '.']);
        return false;
    }
    true
}

// ---------------------------------------------------------------------------
// Carrying out a plan
// ---------------------------------------------------------------------------

/// `a + b` in 64-bit wrapping arithmetic.
pub open spec fn wrap_add(a: u64, b: u64) -> u64 {
    if a + b > u64::MAX {
        (a + b - u64::MAX - 1) as u64
    } else {
        (a + b) as u64
    }
}

/// The byte counts `vs` added up in 64-bit wrapping arithmetic.
pub open spec fn wrap_sum(vs: Seq<u64>) -> u64
    decreases vs.len(),
{
    if vs.len() == 0 {
        0
    } else {
        wrap_add(wrap_sum(vs.drop_last()), vs.last())
    }
}

/// `xfer` can copy the file of `item` (from or to `join(remote, rel)` and
/// `join(local, rel)`) and report `res`.
pub open spec fn copied_with<G: FnMut(&str, &str, u64) -> Result<u64>>(
    xfer: G,
    remote: Seq<char>,
    local: Seq<char>,
    item: TransferItem,
    res: Result<u64>,
) -> bool {
    exists|a: &str, b: &str|
        a@ == join_path(remote, item.rel@) && b@ == join_path(local, item.rel@) && #[trigger] call_ensures(
            xfer,
            (a, b, item.size),
            res,
        )
}

/// `cb` was told of the start of `item` (as `join(remote, rel)`, with its
/// size and direction) and answered `go`.
pub open spec fn announced<F: FnMut(XferEvent) -> bool>(
    cb: F,
    remote: Seq<char>,
    item: TransferItem,
    download: bool,
    go: bool,
) -> bool {
    exists|a: &str|
        a@ == join_path(remote, item.rel@) && #[trigger] call_ensures(
            cb,
            (XferEvent::Start { name: a, total: item.size, download },),
            go,
        )
}

/// `item` went through in full: announced and let through, copied with `v`
/// bytes reported, and reported done and let through.
pub open spec fn item_done<G: FnMut(&str, &str, u64) -> Result<u64>, F: FnMut(XferEvent) -> bool>(
    xfer: G,
    cb: F,
    remote: Seq<char>,
    local: Seq<char>,
    download: bool,
    item: TransferItem,
    v: u64,
) -> bool {
    &&& announced(cb, remote, item, download, true)
    &&& copied_with(xfer, remote, local, item, Ok(v))
    &&& call_ensures(cb, (XferEvent::DoneFile,), true)
}

/// How the run ended at `item` with error `e`: its announcement was
/// answered `false` (cancelled before any copy of it), its copy failed with
/// `e`, or its completion was answered `false` (cancelled).
pub open spec fn item_stopped<G: FnMut(&str, &str, u64) -> Result<u64>, F: FnMut(XferEvent) -> bool>(
    xfer: G,
    cb: F,
    remote: Seq<char>,
    local: Seq<char>,
    download: bool,
    item: TransferItem,
    e: Error,
) -> bool {
    ||| e == Error::Cancelled && announced(cb, remote, item, download, false)
    ||| announced(cb, remote, item, download, true) && copied_with(xfer, remote, local, item, Err(e))
    ||| e == Error::Cancelled && announced(cb, remote, item, download, true) && (exists|v: u64|
        copied_with(xfer, remote, local, item, Ok(v))) && call_ensures(cb, (XferEvent::DoneFile,), false)
}

/// Carry out a transfer plan, file by file in plan order: announce each
/// file to `cb`, copy it with `xfer` (given the remote and the local path),
/// report it done. A `false` from `cb` cancels with no further copy; a
/// failed copy ends the run with its error. On success the result is the
/// sum of the copied byte counts. Directories are the caller's to create
/// beforehand.
pub fn execute_plan<G: FnMut(&str, &str, u64) -> Result<u64>, F: FnMut(XferEvent) -> bool>(
    plan: &TransferPlan,
    remote: &str,
    local: &str,
    download: bool,
    xfer: &mut G,
    cb: &mut F,
) -> (r: Result<u64>)
    requires
        forall|a: &str, b: &str, n: u64| call_requires(*old(xfer), (a, b, n)),
        forall|ev: XferEvent| call_requires(*old(cb), (ev,)),
    ensures
        r matches Ok(n) ==> exists|vs: Seq<u64>|
            {
                &&& vs.len() == plan.items.len()
                &&& n == wrap_sum(vs)
                &&& forall|i: int|
                    0 <= i < vs.len() ==> item_done(
                        *old(xfer),
                        *old(cb),
                        remote@,
                        local@,
                        download,
                        plan.items@[i],
                        #[trigger] vs[i],
                    )
            },
        r matches Err(e) ==> exists|vs: Seq<u64>|
            {
                &&& vs.len() < plan.items.len()
                &&& forall|i: int|
                    0 <= i < vs.len() ==> item_done(
                        *old(xfer),
                        *old(cb),
                        remote@,
                        local@,
                        download,
                        plan.items@[i],
                        #[trigger] vs[i],
                    )
                &&& item_stopped(*old(xfer), *old(cb), remote@, local@, download, plan.items@[vs.len() as int], e)
            },
{
    let mut bytes: u64 = 0;
    let mut k: usize = 0;
    let ghost mut vs: Seq<u64> = Seq::empty();
    while k < plan.items.len()
        invariant
            k <= plan.items.len(),
            *xfer == *old(xfer),
            *cb == *old(cb),
            forall|a: &str, b: &str, n: u64| call_requires(*xfer, (a, b, n)),
            forall|ev: XferEvent| call_requires(*cb, (ev,)),
            vs.len() == k,
            bytes == wrap_sum(vs),
            forall|i: int|
                0 <= i < vs.len() ==> item_done(
                    *old(xfer),
                    *old(cb),
                    remote@,
                    local@,
                    download,
                    plan.items@[i],
                    #[trigger] vs[i],
                ),
        decreases plan.items.len() - k,
    {
        let item = &plan.items[k];
        let child_remote = join(remote, item.rel.as_str());
        let child_local = join(local, item.rel.as_str());
        let name = child_remote.as_str();
        let go = cb(XferEvent::Start { name, total: item.size, download });
        proof {
            assert(announced(*old(cb), remote@, plan.items@[k as int], download, go));
        }
        if !go {
            return Err(Error::Cancelled);
        }
        let res = xfer(child_remote.as_str(), child_local.as_str(), item.size);
        proof {
            assert(copied_with(*old(xfer), remote@, local@, plan.items@[k as int], res));
        }
        let n = match res {
            Ok(n) => n,
            Err(e) => {
                return Err(e);
            },
        };
        let done = cb(XferEvent::DoneFile);
        if !done {
            return Err(Error::Cancelled);
        }
        let ghost prev = vs;
        proof {
            vs = vs.push(n);
            assert(vs.drop_last() =~= prev);
        }
        bytes = bytes.wrapping_add(n);
        k = k + 1;
    }
    Ok(bytes)
}

} // verus!
