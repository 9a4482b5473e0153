//! Saved connection sites, WinSCP-style: protocol, endpoint, auth method, key
//! file and S3 bucket/region. Site names may contain "/" to group sites into
//! folders: "Work/web1" shows as "web1" inside a "Work" folder.
//!
//! Also holds the WinSCP.ini importer and the mapping to and from the
//! cross-platform interchange records.

use vstd::prelude::*;

use crate::text::{
    chars_eq, chars_of, lines, lines_of, owned, parse_u32, parse_unsigned, push_str, slice_vec, split_once,
    split_once_chars, starts_with, starts_with_chars, str_eq, string_of, to_lowercase, trim,
    trim_chars, unicode_lowercase, views,
};

verus! {

/// A saved site.
#[derive(Debug, Clone)]
pub struct Site {
    pub name: String,
    /// Index into the protocol list: 0=SFTP, 1=FTP, 2=FTPS, 3=S3.
    pub proto: u32,
    pub host: String,
    pub port: String,
    pub user: String,
    /// Index into the auth list: 0=password, 1=key file, 2=agent.
    pub auth: u32,
    pub key_path: String,
    pub bucket: String,
    pub region: String,
}

/// The folder of a site name: the part before the first "/", when that part
/// is not empty.
pub open spec fn spec_folder(name: Seq<char>) -> Option<Seq<char>> {
    match split_once(name, '/') {
        Some((f, _)) => if f.len() > 0 {
            Some(f)
        } else {
            None
        },
        None => None,
    }
}

/// The name shown in a list: the folder prefix stripped.
pub open spec fn spec_display_name(name: Seq<char>) -> Seq<char> {
    match split_once(name, '/') {
        Some((f, rest)) => if f.len() > 0 {
            rest
        } else {
            name
        },
        None => name,
    }
}

/// A site's fields as plain values.
pub struct SiteView {
    pub name: Seq<char>,
    pub proto: u32,
    pub host: Seq<char>,
    pub port: Seq<char>,
    pub user: Seq<char>,
    pub auth: u32,
    pub key_path: Seq<char>,
    pub bucket: Seq<char>,
    pub region: Seq<char>,
}

impl View for Site {
    type V = SiteView;

    open spec fn view(&self) -> SiteView {
        SiteView {
            name: self.name@,
            proto: self.proto,
            host: self.host@,
            port: self.port@,
            user: self.user@,
            auth: self.auth,
            key_path: self.key_path@,
            bucket: self.bucket@,
            region: self.region@,
        }
    }
}

/// The views of a sequence of sites.
pub open spec fn site_views(s: Seq<Site>) -> Seq<SiteView> {
    s.map_values(|x: Site| x@)
}

impl Site {
    /// A field-for-field copy.
    pub fn duplicate(&self) -> (r: Site)
        ensures
            r@ == self@,
    {
        Site {
            name: self.name.clone(),
            proto: self.proto,
            host: self.host.clone(),
            port: self.port.clone(),
            user: self.user.clone(),
            auth: self.auth,
            key_path: self.key_path.clone(),
            bucket: self.bucket.clone(),
            region: self.region.clone(),
        }
    }

    /// WinSCP-style folder: the part before the first "/", if any.
    pub fn folder(&self) -> (r: Option<String>)
        ensures
            match r {
                Some(f) => spec_folder(self.name@) == Some(f@),
                None => spec_folder(self.name@).is_none(),
            },
    {
        let cs = chars_of(self.name.as_str());
        match split_once_chars(&cs, '/') {
            Some((f, _)) => if f.len() > 0 {
                Some(string_of(f.as_slice()))
            } else {
                None
            },
            None => None,
        }
    }

    /// Name shown in the list (folder prefix stripped).
    pub fn display_name(&self) -> (r: String)
        ensures
            r@ == spec_display_name(self.name@),
    {
        let cs = chars_of(self.name.as_str());
        match split_once_chars(&cs, '/') {
            Some((f, rest)) => if f.len() > 0 {
                string_of(rest.as_slice())
            } else {
                self.name.clone()
            },
            None => self.name.clone(),
        }
    }
}

// ---------------------------------------------------------------------------
// Ordering
// ---------------------------------------------------------------------------

/// Strict lexicographic order of character sequences (the order `String`
/// comparison gives, since UTF-8 preserves code point order).
pub open spec fn lex_lt(a: Seq<char>, b: Seq<char>) -> bool
    decreases a.len(),
{
    if b.len() == 0 {
        false
    } else if a.len() == 0 {
        true
    } else if a[0] != b[0] {
        (a[0] as u32) < (b[0] as u32)
    } else {
        lex_lt(a.drop_first(), b.drop_first())
    }
}

pub fn lex_less(a: &Vec<char>, b: &Vec<char>) -> (r: bool)
    ensures
        r == lex_lt(a@, b@),
{
    let mut k: usize = 0;
    assert(a@.subrange(0, a@.len() as int) =~= a@);
    assert(b@.subrange(0, b@.len() as int) =~= b@);
    while k < a.len() && k < b.len() && a[k] == b[k]
        invariant
            k <= a.len(),
            k <= b.len(),
            lex_lt(a@, b@) == lex_lt(
                a@.subrange(k as int, a@.len() as int),
                b@.subrange(k as int, b@.len() as int),
            ),
        decreases a.len() - k,
    {
        assert(a@.subrange(k as int, a@.len() as int).drop_first() =~= a@.subrange(
            k + 1,
            a@.len() as int,
        ));
        assert(b@.subrange(k as int, b@.len() as int).drop_first() =~= b@.subrange(
            k + 1,
            b@.len() as int,
        ));
        k = k + 1;
    }
    if k == b.len() {
        return false;
    }
    if k == a.len() {
        return true;
    }
    (a[k] as u32) < (b[k] as u32)
}

/// `lex_lt` is irreflexive.
pub proof fn lemma_lex_irrefl(a: Seq<char>)
    ensures
        !lex_lt(a, a),
    decreases a.len(),
{
    if a.len() > 0 {
        lemma_lex_irrefl(a.drop_first());
    }
}

/// `lex_lt` is transitive.
pub proof fn lemma_lex_trans(a: Seq<char>, b: Seq<char>, c: Seq<char>)
    requires
        lex_lt(a, b),
        lex_lt(b, c),
    ensures
        lex_lt(a, c),
    decreases a.len(),
{
    if a.len() > 0 && b.len() > 0 && c.len() > 0 && a[0] == b[0] && b[0] == c[0] {
        lemma_lex_trans(a.drop_first(), b.drop_first(), c.drop_first());
    }
}

/// Two different sequences are ordered one way or the other.
pub proof fn lemma_lex_total(a: Seq<char>, b: Seq<char>)
    requires
        a != b,
    ensures
        lex_lt(a, b) || lex_lt(b, a),
    decreases a.len(),
{
    if a.len() > 0 && b.len() > 0 && a[0] == b[0] {
        if a.drop_first() == b.drop_first() {
            assert(a =~= seq![a[0]] + a.drop_first());
            assert(b =~= seq![b[0]] + b.drop_first());
        }
        lemma_lex_total(a.drop_first(), b.drop_first());
    } else if a.len() > 0 && b.len() > 0 {
        lemma_char_code(a[0], b[0]);
    } else if a.len() == 0 && b.len() == 0 {
        assert(a =~= b);
    }
}

proof fn lemma_char_code(c: char, d: char)
    requires
        c != d,
    ensures
        (c as u32) != (d as u32),
{
    assert(c as u32 == c as int);
    assert(d as u32 == d as int);
}

/// "Not after" is transitive for `lex_lt`.
pub proof fn lemma_lex_le_trans(a: Seq<char>, b: Seq<char>, c: Seq<char>)
    requires
        !lex_lt(b, a),
        !lex_lt(c, b),
    ensures
        !lex_lt(c, a),
{
    if lex_lt(c, a) {
        if a == b {
        } else {
            lemma_lex_total(a, b);
            lemma_lex_trans(c, a, b);
        }
    }
}

/// The sort key of a site: ungrouped sites first, then folders
/// alphabetically, each group alphabetical by display name (both compared
/// case-insensitively).
pub open spec fn site_key(name: Seq<char>) -> (bool, Seq<char>, Seq<char>) {
    (
        spec_folder(name).is_some(),
        unicode_lowercase(
            match spec_folder(name) {
                Some(f) => f,
                None => Seq::empty(),
            },
        ),
        unicode_lowercase(spec_display_name(name)),
    )
}

/// Strict order of site keys.
pub open spec fn key_lt(a: (bool, Seq<char>, Seq<char>), b: (bool, Seq<char>, Seq<char>)) -> bool {
    if a.0 != b.0 {
        !a.0
    } else if a.1 != b.1 {
        lex_lt(a.1, b.1)
    } else {
        lex_lt(a.2, b.2)
    }
}

/// `x` sorts strictly before `y`.
pub open spec fn site_before(x: SiteView, y: SiteView) -> bool {
    key_lt(site_key(x.name), site_key(y.name))
}

/// Stable insertion of `x` into the sorted `s`: after every element whose
/// key is not greater.
pub open spec fn insert_sorted(s: Seq<SiteView>, x: SiteView) -> Seq<SiteView>
    decreases s.len(),
{
    if s.len() == 0 {
        seq![x]
    } else if site_before(x, s.last()) {
        insert_sorted(s.drop_last(), x).push(s.last())
    } else {
        s.push(x)
    }
}

/// The stable sort of `s` by site key.
pub open spec fn sort_sites(s: Seq<SiteView>) -> Seq<SiteView>
    decreases s.len(),
{
    if s.len() == 0 {
        Seq::empty()
    } else {
        insert_sorted(sort_sites(s.drop_last()), s.last())
    }
}

fn key_of(site: &Site) -> (r: (bool, Vec<char>, Vec<char>))
    ensures
        r.0 == site_key(site.name@).0,
        r.1@ == site_key(site.name@).1,
        r.2@ == site_key(site.name@).2,
{
    let f = site.folder();
    let is_grouped = f.is_some();
    let fl = match f {
        Some(x) => to_lowercase(x.as_str()),
        None => {
            let e = String::new();
            to_lowercase(e.as_str())
        },
    };
    let d = site.display_name();
    let dl = to_lowercase(d.as_str());
    (is_grouped, chars_of(fl.as_str()), chars_of(dl.as_str()))
}

fn key_less(a: &(bool, Vec<char>, Vec<char>), b: &(bool, Vec<char>, Vec<char>)) -> (r: bool)
    ensures
        r == key_lt((a.0, a.1@, a.2@), (b.0, b.1@, b.2@)),
{
    if a.0 != b.0 {
        !a.0
    } else if !crate::text::chars_eq(&a.1, &b.1) {
        lex_less(&a.1, &b.1)
    } else {
        lex_less(&a.2, &b.2)
    }
}

/// Inserting at position `j` found by scanning from the back is the stable
/// insertion.
proof fn lemma_insert_at(s: Seq<SiteView>, x: SiteView, j: int)
    requires
        0 <= j <= s.len(),
        forall|i: int| j <= i < s.len() ==> site_before(x, #[trigger] s[i]),
        j > 0 ==> !site_before(x, s[j - 1]),
    ensures
        insert_sorted(s, x) == s.subrange(0, j).push(x) + s.subrange(j, s.len() as int),
    decreases s.len(),
{
    if s.len() == 0 {
        assert(s.subrange(0, j).push(x) + s.subrange(j, s.len() as int) =~= seq![x]);
    } else if j == s.len() {
        assert(s.subrange(0, j).push(x) + s.subrange(j, s.len() as int) =~= s.push(x));
    } else {
        assert(site_before(x, s.last()));
        let t = s.drop_last();
        assert forall|i: int| j <= i < t.len() implies site_before(x, #[trigger] t[i]) by {
            assert(t[i] == s[i]);
        }
        if j > 0 {
            assert(t[j - 1] == s[j - 1]);
        }
        lemma_insert_at(t, x, j);
        assert((t.subrange(0, j).push(x) + t.subrange(j, t.len() as int)).push(s.last()) =~= s.subrange(
            0,
            j,
        ).push(x) + s.subrange(j, s.len() as int));
    }
}

/// The keys of `out`, computed once.
spec fn keys_match(keys: Seq<(bool, Vec<char>, Vec<char>)>, out: Seq<Site>) -> bool {
    &&& keys.len() == out.len()
    &&& forall|i: int|
        0 <= i < keys.len() ==> (#[trigger] keys[i]).0 == site_key(out[i].name@).0 && keys[i].1@
            == site_key(out[i].name@).1 && keys[i].2@ == site_key(out[i].name@).2
}

/// Sort sites so folder groups sit together (see [`site_key`]); stable.
pub fn sort_sites_exec(sites: Vec<Site>) -> (r: Vec<Site>)
    ensures
        site_views(r@) == sort_sites(site_views(sites@)),
{
    let mut out: Vec<Site> = Vec::new();
    let mut keys: Vec<(bool, Vec<char>, Vec<char>)> = Vec::new();
    let mut k: usize = 0;
    assert(site_views(sites@).subrange(0, 0) =~= Seq::<SiteView>::empty());
    assert(site_views(out@) =~= Seq::<SiteView>::empty());
    while k < sites.len()
        invariant
            k <= sites.len(),
            site_views(out@) == sort_sites(site_views(sites@).subrange(0, k as int)),
            keys_match(keys@, out@),
        decreases sites.len() - k,
    {
        let x = sites[k].duplicate();
        proof {
            let sv = site_views(sites@);
            assert(sv.subrange(0, k + 1).drop_last() =~= sv.subrange(0, k as int));
            assert(sv.subrange(0, k + 1).last() == x@);
        }
        let kx = key_of(&x);
        let mut j: usize = out.len();
        while j > 0 && key_less(&kx, &keys[j - 1])
            invariant
                j <= out@.len(),
                keys_match(keys@, out@),
                kx.0 == site_key(x.name@).0,
                kx.1@ == site_key(x.name@).1,
                kx.2@ == site_key(x.name@).2,
                forall|i: int| j <= i < out@.len() ==> site_before(x@, #[trigger] site_views(out@)[i]),
            decreases j,
        {
            assert(keys@[j - 1].0 == site_key(out@[j - 1].name@).0);
            j = j - 1;
        }
        proof {
            if j > 0 {
                assert(keys@[j - 1].0 == site_key(out@[j - 1].name@).0);
                assert(site_views(out@)[j - 1] == out@[j - 1]@);
            }
            lemma_insert_at(site_views(out@), x@, j as int);
        }
        let ghost before = out@;
        let ghost kbefore = keys@;
        out.insert(j, x);
        keys.insert(j, kx);
        proof {
            let sb = site_views(before);
            assert(site_views(out@) =~= sb.subrange(0, j as int).push(x@) + sb.subrange(
                j as int,
                sb.len() as int,
            ));
            assert forall|i: int| 0 <= i < keys@.len() implies (#[trigger] keys@[i]).0 == site_key(
                out@[i].name@,
            ).0 && keys@[i].1@ == site_key(out@[i].name@).1 && keys@[i].2@ == site_key(
                out@[i].name@,
            ).2 by {
                if i < j {
                    assert(keys@[i] == kbefore[i]);
                    assert(out@[i] == before[i]);
                } else if i > j {
                    assert(keys@[i] == kbefore[i - 1]);
                    assert(out@[i] == before[i - 1]);
                }
            }
        }
        k = k + 1;
    }
    assert(site_views(sites@).subrange(0, sites@.len() as int) =~= site_views(sites@));
    out
}

// ---------------------------------------------------------------------------
// The store
// ---------------------------------------------------------------------------

/// The saved sites, kept sorted by [`site_key`]. Persisting them is the
/// caller's business.
#[derive(Debug, Clone)]
pub struct SitesStore {
    pub sites: Vec<Site>,
}

impl View for SitesStore {
    type V = Seq<SiteView>;

    open spec fn view(&self) -> Seq<SiteView> {
        site_views(self.sites@)
    }
}

/// The first site called `name`, if any.
pub open spec fn site_index(s: Seq<SiteView>, name: Seq<char>) -> Option<int>
    decreases s.len(),
{
    if s.len() == 0 {
        None
    } else if s[0].name == name {
        Some(0)
    } else {
        match site_index(s.drop_first(), name) {
            Some(i) => Some(i + 1),
            None => None,
        }
    }
}

/// `s` with `site` replacing the first same-named entry, or appended.
pub open spec fn upsert(s: Seq<SiteView>, site: SiteView) -> Seq<SiteView> {
    match site_index(s, site.name) {
        Some(i) => s.update(i, site),
        None => s.push(site),
    }
}

/// What adding `site` makes of the sorted store `s`.
pub open spec fn store_add(s: Seq<SiteView>, site: SiteView) -> Seq<SiteView> {
    sort_sites(upsert(s, site))
}

fn find_site(s: &Vec<Site>, name: &str) -> (r: Option<usize>)
    ensures
        match r {
            Some(i) => site_index(site_views(s@), name@) == Some(i as int) && i < s.len(),
            None => site_index(site_views(s@), name@).is_none(),
        },
{
    let ghost sv = site_views(s@);
    let mut k: usize = 0;
    assert(sv.subrange(0, sv.len() as int) =~= sv);
    while k < s.len()
        invariant
            k <= s.len(),
            sv == site_views(s@),
            site_index(sv, name@) == match site_index(sv.subrange(k as int, sv.len() as int), name@) {
                Some(i) => Some(i + k),
                None => None,
            },
        decreases s.len() - k,
    {
        let ghost rest = sv.subrange(k as int, sv.len() as int);
        assert(rest[0] == s@[k as int]@);
        if str_eq(s[k].name.as_str(), name) {
            assert(site_index(rest, name@) == Some(0int));
            return Some(k);
        }
        assert(rest.drop_first() =~= sv.subrange(k + 1, sv.len() as int));
        k = k + 1;
    }
    None
}

impl SitesStore {
    pub fn new() -> (r: Self)
        ensures
            r@.len() == 0,
    {
        SitesStore { sites: Vec::new() }
    }

    /// Sorted store holding `sites`.
    pub fn from_sites(sites: Vec<Site>) -> (r: Self)
        ensures
            r@ == sort_sites(site_views(sites@)),
    {
        SitesStore { sites: sort_sites_exec(sites) }
    }

    /// Add a site, replacing a same-named entry rather than duplicating it.
    pub fn add(&mut self, site: Site)
        ensures
            final(self)@ == store_add(old(self)@, site@),
    {
        let mut sites: Vec<Site> = Vec::new();
        std::mem::swap(&mut sites, &mut self.sites);
        let ghost before = sites@;
        let ghost sv = site@;
        match find_site(&sites, site.name.as_str()) {
            Some(i) => {
                sites.set(i, site);
                assert(site_views(sites@) =~= site_views(before).update(i as int, sv));
            },
            None => {
                sites.push(site);
                assert(site_views(sites@) =~= site_views(before).push(sv));
            },
        }
        self.sites = sort_sites_exec(sites);
    }

    /// Rename the site at `index` (empty names and bad indices are ignored).
    pub fn rename(&mut self, index: usize, new_name: &str)
        ensures
            if new_name@.len() == 0 || index >= old(self)@.len() {
                final(self)@ == old(self)@
            } else {
                final(self)@ == sort_sites(
                    old(self)@.update(index as int, SiteView { name: new_name@, ..old(self)@[index as int] }),
                )
            },
    {
        if new_name.is_empty() {
            return;
        }
        if index < self.sites.len() {
            let mut sites: Vec<Site> = Vec::new();
            std::mem::swap(&mut sites, &mut self.sites);
            let ghost before = sites@;
            let mut s = sites[index].duplicate();
            s.name = owned(new_name);
            sites.set(index, s);
            assert(site_views(sites@) =~= site_views(before).update(
                index as int,
                SiteView { name: new_name@, ..site_views(before)[index as int] },
            ));
            self.sites = sort_sites_exec(sites);
        }
    }

    /// Remove the site at `index` (bad indices are ignored).
    pub fn remove(&mut self, index: usize)
        ensures
            index < old(self).sites.len() ==> final(self).sites@ == old(self).sites@.remove(
                index as int,
            ),
            index >= old(self).sites.len() ==> final(self).sites@ == old(self).sites@,
    {
        if index < self.sites.len() {
            self.sites.remove(index);
        }
    }
}

// ---------------------------------------------------------------------------
// Percent decoding
// ---------------------------------------------------------------------------

/// The value of an ASCII hex digit.
pub open spec fn hex_val(b: u8) -> Option<u8> {
    if 48 <= b <= 57 {
        Some((b - 48) as u8)
    } else if 97 <= b <= 102 {
        Some((b - 97 + 10) as u8)
    } else if 65 <= b <= 70 {
        Some((b - 65 + 10) as u8)
    } else {
        None
    }
}

fn hex_digit(b: u8) -> (r: Option<u8>)
    ensures
        r == hex_val(b),
{
    if 48 <= b && b <= 57 {
        Some(b - 48)
    } else if 97 <= b && b <= 102 {
        Some(b - 97 + 10)
    } else if 65 <= b && b <= 70 {
        Some(b - 65 + 10)
    } else {
        None
    }
}

/// WinSCP's `%XX` escapes decoded byte-wise; a `%` not followed by two hex
/// digits stays literal, and NUL bytes (escaped or not) are dropped.
pub open spec fn percent_decode(b: Seq<u8>) -> Seq<u8>
    decreases b.len(),
{
    if b.len() == 0 {
        Seq::empty()
    } else if b[0] == 37u8 && 2 < b.len() && hex_val(b[1]).is_some() && hex_val(b[2]).is_some() {
        let v = (hex_val(b[1]).unwrap() * 16 + hex_val(b[2]).unwrap()) as u8;
        (if v != 0 {
            seq![v]
        } else {
            Seq::empty()
        }) + percent_decode(b.subrange(3, b.len() as int))
    } else {
        (if b[0] != 0 {
            seq![b[0]]
        } else {
            Seq::empty()
        }) + percent_decode(b.drop_first())
    }
}

/// Bytes with no `%` and no 0 decode to themselves.
proof fn lemma_percent_decode_plain(b: Seq<u8>)
    requires
        !b.contains(37u8),
        !b.contains(0u8),
    ensures
        percent_decode(b) == b,
    decreases b.len(),
{
    if b.len() > 0 {
        assert(b[0] != 37u8 && b[0] != 0u8) by {
            assert(b.contains(b[0]));
        }
        let t = b.drop_first();
        assert(!t.contains(37u8)) by {
            if t.contains(37u8) {
                let k = choose|k: int| 0 <= k < t.len() && t[k] == 37u8;
                assert(b[k + 1] == 37u8);
            }
        }
        assert(!t.contains(0u8)) by {
            if t.contains(0u8) {
                let k = choose|k: int| 0 <= k < t.len() && t[k] == 0u8;
                assert(b[k + 1] == 0u8);
            }
        }
        lemma_percent_decode_plain(t);
        assert(seq![b[0]] + t =~= b);
    }
}

/// Decoding leaves alone text whose UTF-8 bytes hold no `%` and no NUL: it
/// comes back unchanged.
pub proof fn law_url_decode_plain(s: Seq<char>)
    requires
        !vstd::utf8::encode_utf8(s).contains(37u8),
        !vstd::utf8::encode_utf8(s).contains(0u8),
    ensures
        vstd::utf8::valid_utf8(percent_decode(vstd::utf8::encode_utf8(s))),
        vstd::utf8::decode_utf8(percent_decode(vstd::utf8::encode_utf8(s))) == s,
{
    lemma_percent_decode_plain(vstd::utf8::encode_utf8(s));
    vstd::utf8::encode_utf8_valid_utf8(s);
    vstd::utf8::encode_utf8_decode_utf8(s);
}

/// The upper-case hex digit of `v` (below 16).
pub open spec fn hex_char(v: int) -> u8 {
    if v < 10 {
        (48 + v) as u8
    } else {
        (55 + v) as u8
    }
}

/// Every byte of `b` written as a `%XX` escape.
pub open spec fn percent_escape(b: Seq<u8>) -> Seq<u8>
    decreases b.len(),
{
    if b.len() == 0 {
        Seq::empty()
    } else {
        seq![37u8, hex_char(b[0] as int / 16), hex_char(b[0] as int % 16)] + percent_escape(b.drop_first())
    }
}

/// Escaped bytes without a 0 decode back to themselves.
proof fn lemma_escape_round_trip(b: Seq<u8>)
    requires
        !b.contains(0u8),
    ensures
        percent_decode(percent_escape(b)) == b,
    decreases b.len(),
{
    if b.len() > 0 {
        let x = b[0];
        let t = b.drop_first();
        assert(x != 0u8) by {
            assert(b.contains(b[0]));
        }
        assert(!t.contains(0u8)) by {
            if t.contains(0u8) {
                let k = choose|k: int| 0 <= k < t.len() && t[k] == 0u8;
                assert(b[k + 1] == 0u8);
            }
        }
        let e = percent_escape(b);
        let hi: int = x as int / 16;
        let lo: int = x as int % 16;
        assert(0 <= hi < 16 && 0 <= lo < 16 && hi * 16 + lo == x) by (nonlinear_arith)
            requires
                hi == x as int / 16,
                lo == x as int % 16,
                0 <= x < 256,
        ;
        assert(e[0] == 37u8 && e[1] == hex_char(hi) && e[2] == hex_char(lo));
        assert(hex_val(hex_char(hi)) == Some(hi as u8));
        assert(hex_val(hex_char(lo)) == Some(lo as u8));
        assert(e.subrange(3, e.len() as int) =~= percent_escape(t));
        lemma_escape_round_trip(t);
        assert(seq![x] + t =~= b);
    }
}

/// `%XX` escapes round-trip: writing every UTF-8 byte of text (none of
/// them a NUL) as `%XX` and decoding gives the text back.
pub proof fn law_url_decode_escapes(s: Seq<char>)
    requires
        !vstd::utf8::encode_utf8(s).contains(0u8),
    ensures
        vstd::utf8::valid_utf8(percent_decode(percent_escape(vstd::utf8::encode_utf8(s)))),
        vstd::utf8::decode_utf8(percent_decode(percent_escape(vstd::utf8::encode_utf8(s)))) == s,
{
    vstd::utf8::encode_utf8_valid_utf8(s);
    vstd::utf8::encode_utf8_decode_utf8(s);
    lemma_escape_round_trip(vstd::utf8::encode_utf8(s));
}

/// What `String::from_utf8_lossy` returns: the bytes decoded as UTF-8, with
/// invalid sequences replaced by U+FFFD.
pub uninterp spec fn utf8_lossy(bytes: Seq<u8>) -> Seq<char>;

/// `String::from_utf8_lossy`: valid UTF-8 decodes as is; invalid sequences
/// become U+FFFD. UTF-8 encodes U+0000 only as the byte 0, so bytes without
/// a 0 decode to text without a NUL.
#[verifier::external_body]
fn lossy_string(bytes: &[u8]) -> (r: String)
    ensures
        r@ == utf8_lossy(bytes@),
        vstd::utf8::valid_utf8(bytes@) ==> r@ == vstd::utf8::decode_utf8(bytes@),
        !bytes@.contains(0u8) ==> !r@.contains('\0'),
{
    String::from_utf8_lossy(bytes).into_owned()
}

/// The decoded bytes never hold a 0.
proof fn lemma_percent_decode_no_nul(b: Seq<u8>)
    ensures
        !percent_decode(b).contains(0u8),
    decreases b.len(),
{
    if b.len() > 0 {
        let rest = if b[0] == 37u8 && 2 < b.len() && hex_val(b[1]).is_some() && hex_val(b[2]).is_some() {
            b.subrange(3, b.len() as int)
        } else {
            b.drop_first()
        };
        lemma_percent_decode_no_nul(rest);
        let d = percent_decode(b);
        if d.contains(0u8) {
            let k = choose|k: int| 0 <= k < d.len() && d[k] == 0u8;
            let head = d.subrange(0, d.len() - percent_decode(rest).len());
            assert(d =~= head + percent_decode(rest));
            if k >= head.len() {
                assert(percent_decode(rest)[k - head.len()] == 0u8);
            }
        }
    }
}

/// Decode WinSCP's %XX escapes (session names, key paths). Works purely on
/// bytes, so no input can make it fail; embedded NULs are stripped, so the
/// result never holds one.
pub fn url_decode(input: &str) -> (r: String)
    ensures
        r@ == utf8_lossy(percent_decode(vstd::utf8::encode_utf8(input@))),
        vstd::utf8::valid_utf8(percent_decode(vstd::utf8::encode_utf8(input@))) ==> r@
            == vstd::utf8::decode_utf8(percent_decode(vstd::utf8::encode_utf8(input@))),
        !r@.contains('\0'),
{
    let bytes = input.as_bytes();
    let mut out: Vec<u8> = Vec::new();
    let mut i: usize = 0;
    assert(bytes@.subrange(0, bytes@.len() as int) =~= bytes@);
    while i < bytes.len()
        invariant
            i <= bytes.len(),
            out@ + percent_decode(bytes@.subrange(i as int, bytes@.len() as int)) == percent_decode(
                bytes@,
            ),
        decreases bytes.len() - i,
    {
        let ghost rest = bytes@.subrange(i as int, bytes@.len() as int);
        assert(rest[0] == bytes@[i as int]);
        if bytes[i] == 37u8 && 2 < bytes.len() - i {
            assert(rest[1] == bytes@[i + 1] && rest[2] == bytes@[i + 2]);
            let h = hex_digit(bytes[i + 1]);
            let l = hex_digit(bytes[i + 2]);
            if h.is_some() && l.is_some() {
                let v: u8 = h.unwrap() * 16 + l.unwrap();
                let ghost before = out@;
                if v != 0 {
                    out.push(v);
                }
                assert(rest.subrange(3, rest.len() as int) =~= bytes@.subrange(
                    i + 3,
                    bytes@.len() as int,
                ));
                assert(out@ + percent_decode(bytes@.subrange(i + 3, bytes@.len() as int)) =~= before
                    + percent_decode(rest));
                i = i + 3;
                continue;
            }
        }
        let ghost before = out@;
        if bytes[i] != 0 {
            out.push(bytes[i]);
        }
        assert(rest.drop_first() =~= bytes@.subrange(i + 1, bytes@.len() as int));
        assert(out@ + percent_decode(bytes@.subrange(i + 1, bytes@.len() as int)) =~= before
            + percent_decode(rest));
        i = i + 1;
    }
    assert(out@ =~= out@ + Seq::<u8>::empty());
    proof {
        lemma_percent_decode_no_nul(bytes@);
    }
    lossy_string(out.as_slice())
}

// ---------------------------------------------------------------------------
// WinSCP.ini import
// ---------------------------------------------------------------------------

/// One `[Sessions\…]` block of a WinSCP.ini, as read so far.
#[derive(Debug)]
pub struct WinScpSession {
    pub name: String,
    pub host: String,
    pub port: Option<String>,
    pub user: String,
    pub fs_protocol: u32,
    pub ftp_secure: bool,
    pub key_path: String,
}

/// A session block's fields as plain values.
pub struct SessionView {
    pub name: Seq<char>,
    pub host: Seq<char>,
    pub port: Option<Seq<char>>,
    pub user: Seq<char>,
    pub fs_protocol: u32,
    pub ftp_secure: bool,
    pub key_path: Seq<char>,
}

impl View for WinScpSession {
    type V = SessionView;

    open spec fn view(&self) -> SessionView {
        SessionView {
            name: self.name@,
            host: self.host@,
            port: match self.port {
                Some(p) => Some(p@),
                None => None,
            },
            user: self.user@,
            fs_protocol: self.fs_protocol,
            ftp_secure: self.ftp_secure,
            key_path: self.key_path@,
        }
    }
}

/// A fresh block for the session called `name`.
pub open spec fn new_session(name: Seq<char>) -> SessionView {
    SessionView {
        name,
        host: Seq::empty(),
        port: None,
        user: Seq::empty(),
        fs_protocol: 0,
        ftp_secure: false,
        key_path: Seq::empty(),
    }
}

/// `url_decode` as a function of the characters.
pub open spec fn url_decoded(s: Seq<char>) -> Seq<char> {
    utf8_lossy(percent_decode(vstd::utf8::encode_utf8(s)))
}

/// WinSCP's FSProtocol: 5 is FTP (FtpSecure upgrades it to FTPS), 7 is S3,
/// everything else is the SSH family, which is SFTP here.
pub open spec fn session_proto(s: SessionView) -> u32 {
    if s.fs_protocol == 5 {
        if s.ftp_secure {
            2
        } else {
            1
        }
    } else if s.fs_protocol == 7 {
        3
    } else {
        0
    }
}

/// The port a protocol listens on when the session names none.
pub open spec fn default_port_text(proto: u32) -> Seq<char> {
    if proto == 1 || proto == 2 {
        "21"@
    } else if proto == 3 {
        "443"@
    } else {
        "22"@
    }
}

/// The site a finished session block becomes; none without a host or name.
pub open spec fn session_site(s: SessionView) -> Option<SiteView> {
    if s.host.len() == 0 || s.name.len() == 0 {
        None
    } else {
        let proto = session_proto(s);
        Some(
            SiteView {
                name: s.name,
                proto,
                host: s.host,
                port: match s.port {
                    Some(p) => p,
                    None => default_port_text(proto),
                },
                user: s.user,
                auth: if s.key_path.len() > 0 && proto == 0 {
                    1
                } else {
                    0
                },
                key_path: s.key_path,
                bucket: Seq::empty(),
                region: Seq::empty(),
            },
        )
    }
}

/// The store once the block `s` is finished.
pub open spec fn store_after_flush(store: Seq<SiteView>, s: SessionView) -> Seq<SiteView> {
    match session_site(s) {
        Some(v) => store_add(store, v),
        None => store,
    }
}

/// A `key=value` line applied to the block `s`; other lines leave it as is.
pub open spec fn session_set(s: SessionView, line: Seq<char>) -> SessionView {
    match split_once(line, '=') {
        Some((key, value)) => if key == "HostName"@ {
            SessionView { host: value, ..s }
        } else if key == "PortNumber"@ {
            SessionView { port: Some(value), ..s }
        } else if key == "UserName"@ {
            SessionView { user: value, ..s }
        } else if key == "FSProtocol"@ {
            SessionView {
                fs_protocol: match parse_unsigned(value, u32::MAX as nat) {
                    Some(v) => v as u32,
                    None => 0,
                },
                ..s
            }
        } else if key == "FtpSecure"@ {
            SessionView { ftp_secure: value != "0"@, ..s }
        } else if key == "PublicKeyFile"@ {
            SessionView { key_path: url_decoded(value), ..s }
        } else {
            s
        },
        None => s,
    }
}

/// The (still encoded) session name of a `[Sessions\name]` header line.
pub open spec fn header_name(line: Seq<char>) -> Option<Seq<char>> {
    let p = "[Sessions\\"@;
    if starts_with(line, p) && line.len() > p.len() && line.last() == ']' {
        Some(line.subrange(p.len() as int, line.len() - 1))
    } else {
        None
    }
}

/// The importer's state between lines.
pub struct IniState {
    pub store: Seq<SiteView>,
    pub current: Option<SessionView>,
    pub count: nat,
}

/// The state after finishing the current block, if any.
pub open spec fn ini_flush(st: IniState) -> IniState {
    match st.current {
        Some(s) => IniState {
            store: store_after_flush(st.store, s),
            current: None,
            count: if session_site(s).is_some() {
                st.count + 1
            } else {
                st.count
            },
        },
        None => st,
    }
}

/// One line of the file: a `[` line finishes the current block and may open
/// a new one (not for the "Default%20Settings" block); other lines set a
/// field of the open block.
pub open spec fn ini_line(st: IniState, raw: Seq<char>) -> IniState {
    let line = trim(raw);
    if line.len() > 0 && line[0] == '[' {
        let flushed = ini_flush(st);
        IniState {
            current: match header_name(line) {
                Some(n) => if n != "Default%20Settings"@ {
                    Some(new_session(url_decoded(n)))
                } else {
                    None
                },
                None => None,
            },
            ..flushed
        }
    } else {
        match st.current {
            Some(s) => IniState { current: Some(session_set(s, line)), ..st },
            None => st,
        }
    }
}

/// The lines `ls` read in order.
pub open spec fn ini_fold(st: IniState, ls: Seq<Seq<char>>) -> IniState
    decreases ls.len(),
{
    if ls.len() == 0 {
        st
    } else {
        ini_line(ini_fold(st, ls.drop_last()), ls.last())
    }
}

/// Importing the WinSCP.ini text `ini` into the store `store`.
pub open spec fn winscp_import(store: Seq<SiteView>, ini: Seq<char>) -> IniState {
    ini_flush(ini_fold(IniState { store, current: None, count: 0 }, lines(ini)))
}

pub open spec fn session_views(o: Option<WinScpSession>) -> Option<SessionView> {
    match o {
        Some(s) => Some(s@),
        None => None,
    }
}

impl WinScpSession {
    /// A block for `name` with nothing set yet.
    pub fn named(name: String) -> (r: Self)
        ensures
            r@ == new_session(name@),
    {
        WinScpSession {
            name,
            host: String::new(),
            port: None,
            user: String::new(),
            fs_protocol: 0,
            ftp_secure: false,
            key_path: String::new(),
        }
    }

    /// Apply one `key=value` line.
    pub fn apply(self, line: &Vec<char>) -> (r: Self)
        ensures
            r@ == session_set(self@, line@),
    {
        let mut s = self;
        match split_once_chars(line, '=') {
            Some((key, value)) => {
                if chars_eq(&key, &chars_of("HostName")) {
                    s.host = string_of(value.as_slice());
                } else if chars_eq(&key, &chars_of("PortNumber")) {
                    s.port = Some(string_of(value.as_slice()));
                } else if chars_eq(&key, &chars_of("UserName")) {
                    s.user = string_of(value.as_slice());
                } else if chars_eq(&key, &chars_of("FSProtocol")) {
                    s.fs_protocol = match parse_u32(&value) {
                        Some(v) => v,
                        None => 0,
                    };
                } else if chars_eq(&key, &chars_of("FtpSecure")) {
                    s.ftp_secure = !chars_eq(&value, &chars_of("0"));
                } else if chars_eq(&key, &chars_of("PublicKeyFile")) {
                    let v = string_of(value.as_slice());
                    s.key_path = url_decode(v.as_str());
                }
                s
            },
            None => s,
        }
    }
}

fn header_of(line: &Vec<char>) -> (r: Option<Vec<char>>)
    ensures
        match r {
            Some(n) => header_name(line@) == Some(n@),
            None => header_name(line@).is_none(),
        },
{
    let p = chars_of("[Sessions\\");
    if starts_with_chars(line, &p) && line.len() > p.len() && line[line.len() - 1] == ']' {
        Some(slice_vec(line, p.len(), line.len() - 1))
    } else {
        None
    }
}

impl SitesStore {
    /// Turn a finished block into a site and add it; false (and nothing
    /// added) when it has no host or no name.
    pub fn flush_winscp(&mut self, s: WinScpSession) -> (r: bool)
        ensures
            r == session_site(s@).is_some(),
            final(self)@ == store_after_flush(old(self)@, s@),
    {
        if s.host.as_str().is_empty() || s.name.as_str().is_empty() {
            return false;
        }
        let proto: u32 = if s.fs_protocol == 5 {
            if s.ftp_secure {
                2
            } else {
                1
            }
        } else if s.fs_protocol == 7 {
            3
        } else {
            0
        };
        let port = match s.port {
            Some(p) => p,
            None => if proto == 1 || proto == 2 {
                owned("21")
            } else if proto == 3 {
                owned("443")
            } else {
                owned("22")
            },
        };
        let auth: u32 = if !s.key_path.as_str().is_empty() && proto == 0 {
            1
        } else {
            0
        };
        self.add(
            Site {
                name: s.name,
                proto,
                host: s.host,
                port,
                user: s.user,
                auth,
                key_path: s.key_path,
                bucket: String::new(),
                region: String::new(),
            },
        );
        true
    }

    /// Import sessions from a WinSCP.ini file (`[Sessions\Name]` blocks).
    /// Session names are URL-encoded and may contain "/" folders, which map
    /// straight onto the folder grouping. Returns the number imported, or an
    /// error when there was none.
    pub fn import_winscp_ini(&mut self, ini: &str) -> (r: Result<usize, String>)
        ensures
            final(self)@ == winscp_import(old(self)@, ini@).store,
            match r {
                Ok(n) => winscp_import(old(self)@, ini@).count > 0 && n as nat == winscp_import(
                    old(self)@,
                    ini@,
                ).count,
                Err(e) => winscp_import(old(self)@, ini@).count == 0
                    && e@ == "no [Sessions\\…] entries found — is this a WinSCP.ini?"@,
            },
    {
        let ls = lines_of(ini);
        let ghost st0 = IniState { store: self@, current: None, count: 0 };
        let mut count: usize = 0;
        let mut current: Option<WinScpSession> = None;
        let mut k: usize = 0;
        assert(views(ls@).subrange(0, 0) =~= Seq::<Seq<char>>::empty());
        while k < ls.len()
            invariant
                k <= ls.len(),
                views(ls@) == lines(ini@),
                st0 == (IniState { store: old(self)@, current: None, count: 0 }),
                ini_fold(st0, views(ls@).subrange(0, k as int)) == (IniState {
                    store: self@,
                    current: session_views(current),
                    count: count as nat,
                }),
                count + (if current.is_some() {
                    1int
                } else {
                    0int
                }) <= k,
            decreases ls.len() - k,
        {
            let ghost pre = views(ls@).subrange(0, k as int);
            proof {
                assert(views(ls@).subrange(0, k + 1).drop_last() =~= pre);
                assert(views(ls@).subrange(0, k + 1).last() == ls@[k as int]@);
            }
            let line = trim_chars(&ls[k]);
            if line.len() > 0 && line[0] == '[' {
                let done = current;
                current = None;
                match done {
                    Some(d) => {
                        if self.flush_winscp(d) {
                            count = count + 1;
                        }
                    },
                    None => {},
                }
                match header_of(&line) {
                    Some(name) => {
                        if !chars_eq(&name, &chars_of("Default%20Settings")) {
                            let n = string_of(name.as_slice());
                            current = Some(WinScpSession::named(url_decode(n.as_str())));
                        }
                    },
                    None => {},
                }
            } else {
                let cur = current;
                current = None;
                match cur {
                    Some(s) => {
                        current = Some(s.apply(&line));
                    },
                    None => {},
                }
            }
            k = k + 1;
        }
        assert(views(ls@).subrange(0, ls@.len() as int) =~= views(ls@));
        let done = current;
        match done {
            Some(d) => {
                if self.flush_winscp(d) {
                    count = count + 1;
                }
            },
            None => {},
        }
        if count == 0 {
            return Err(owned("no [Sessions\\…] entries found — is this a WinSCP.ini?"));
        }
        Ok(count)
    }
}

// ---------------------------------------------------------------------------
// Interchange records
// ---------------------------------------------------------------------------

/// A site in the versioned interchange format shared with the macOS app:
/// protocol and auth method by name. Passwords are never part of it.
#[derive(Debug, Clone)]
pub struct SiteExport {
    pub name: String,
    /// sftp | ftp | ftps | s3
    pub protocol: String,
    pub host: String,
    pub port: String,
    pub user: String,
    /// password | key | agent
    pub auth: String,
    pub key_path: String,
    pub bucket: String,
    pub region: String,
}

/// An interchange record's fields as plain values.
pub struct ExportView {
    pub name: Seq<char>,
    pub protocol: Seq<char>,
    pub host: Seq<char>,
    pub port: Seq<char>,
    pub user: Seq<char>,
    pub auth: Seq<char>,
    pub key_path: Seq<char>,
    pub bucket: Seq<char>,
    pub region: Seq<char>,
}

impl View for SiteExport {
    type V = ExportView;

    open spec fn view(&self) -> ExportView {
        ExportView {
            name: self.name@,
            protocol: self.protocol@,
            host: self.host@,
            port: self.port@,
            user: self.user@,
            auth: self.auth@,
            key_path: self.key_path@,
            bucket: self.bucket@,
            region: self.region@,
        }
    }
}

/// The interchange name of a protocol index (taken modulo 4).
pub open spec fn proto_name(p: u32) -> Seq<char> {
    let i = p % 4;
    if i == 0 {
        "sftp"@
    } else if i == 1 {
        "ftp"@
    } else if i == 2 {
        "ftps"@
    } else {
        "s3"@
    }
}

/// The interchange name of an auth index (taken modulo 3).
pub open spec fn auth_name(a: u32) -> Seq<char> {
    let i = a % 3;
    if i == 0 {
        "password"@
    } else if i == 1 {
        "key"@
    } else {
        "agent"@
    }
}

/// The protocol index of an interchange name; unknown names are SFTP.
pub open spec fn proto_code(n: Seq<char>) -> u32 {
    if n == "ftp"@ {
        1
    } else if n == "ftps"@ {
        2
    } else if n == "s3"@ {
        3
    } else {
        0
    }
}

/// The auth index of an interchange name; unknown names are password.
pub open spec fn auth_code(n: Seq<char>) -> u32 {
    if n == "key"@ {
        1
    } else if n == "agent"@ {
        2
    } else {
        0
    }
}

pub open spec fn export_view(v: SiteView) -> ExportView {
    ExportView {
        name: v.name,
        protocol: proto_name(v.proto),
        host: v.host,
        port: v.port,
        user: v.user,
        auth: auth_name(v.auth),
        key_path: v.key_path,
        bucket: v.bucket,
        region: v.region,
    }
}

pub open spec fn import_view(e: ExportView) -> SiteView {
    SiteView {
        name: e.name,
        proto: proto_code(e.protocol),
        host: e.host,
        port: e.port,
        user: e.user,
        auth: auth_code(e.auth),
        key_path: e.key_path,
        bucket: e.bucket,
        region: e.region,
    }
}

impl SiteExport {
    /// A field-for-field copy.
    pub fn duplicate(&self) -> (r: Self)
        ensures
            r@ == self@,
    {
        SiteExport {
            name: self.name.clone(),
            protocol: self.protocol.clone(),
            host: self.host.clone(),
            port: self.port.clone(),
            user: self.user.clone(),
            auth: self.auth.clone(),
            key_path: self.key_path.clone(),
            bucket: self.bucket.clone(),
            region: self.region.clone(),
        }
    }

    pub fn from_site(site: &Site) -> (r: Self)
        ensures
            r@ == export_view(site@),
    {
        let i: u32 = site.proto % 4;
        let protocol = if i == 0 {
            owned("sftp")
        } else if i == 1 {
            owned("ftp")
        } else if i == 2 {
            owned("ftps")
        } else {
            owned("s3")
        };
        let a: u32 = site.auth % 3;
        let auth = if a == 0 {
            owned("password")
        } else if a == 1 {
            owned("key")
        } else {
            owned("agent")
        };
        SiteExport {
            name: site.name.clone(),
            protocol,
            host: site.host.clone(),
            port: site.port.clone(),
            user: site.user.clone(),
            auth,
            key_path: site.key_path.clone(),
            bucket: site.bucket.clone(),
            region: site.region.clone(),
        }
    }

    pub fn into_site(self) -> (r: Site)
        ensures
            r@ == import_view(self@),
    {
        let p = chars_of(self.protocol.as_str());
        let proto: u32 = if chars_eq(&p, &chars_of("ftp")) {
            1
        } else if chars_eq(&p, &chars_of("ftps")) {
            2
        } else if chars_eq(&p, &chars_of("s3")) {
            3
        } else {
            0
        };
        let a = chars_of(self.auth.as_str());
        let auth: u32 = if chars_eq(&a, &chars_of("key")) {
            1
        } else if chars_eq(&a, &chars_of("agent")) {
            2
        } else {
            0
        };
        Site {
            name: self.name,
            proto,
            host: self.host,
            port: self.port,
            user: self.user,
            auth,
            key_path: self.key_path,
            bucket: self.bucket,
            region: self.region,
        }
    }
}

/// The store after adding each of `xs` in turn.
pub open spec fn add_all(s: Seq<SiteView>, xs: Seq<SiteView>) -> Seq<SiteView>
    decreases xs.len(),
{
    if xs.len() == 0 {
        s
    } else {
        store_add(add_all(s, xs.drop_last()), xs.last())
    }
}

/// The sites that interchange records stand for.
pub open spec fn imported_views(rs: Seq<SiteExport>) -> Seq<SiteView> {
    rs.map_values(|e: SiteExport| import_view(e@))
}

impl SitesStore {
    /// The interchange records of all sites, in store order.
    pub fn export_records(&self) -> (r: Vec<SiteExport>)
        ensures
            r@.len() == self@.len(),
            forall|i: int| 0 <= i < r@.len() ==> (#[trigger] r@[i])@ == export_view(self@[i]),
    {
        let mut out: Vec<SiteExport> = Vec::new();
        let mut k: usize = 0;
        while k < self.sites.len()
            invariant
                k <= self.sites.len(),
                out@.len() == k,
                forall|i: int| 0 <= i < k ==> (#[trigger] out@[i])@ == export_view(self@[i]),
            decreases self.sites.len() - k,
        {
            let e = SiteExport::from_site(&self.sites[k]);
            out.push(e);
            k = k + 1;
        }
        out
    }

    /// Merge interchange records, each added in turn (same-named sites are
    /// replaced). Returns the number of records.
    pub fn merge_records(&mut self, records: Vec<SiteExport>) -> (r: usize)
        ensures
            r == records.len(),
            final(self)@ == add_all(old(self)@, imported_views(records@)),
    {
        let ghost xs = imported_views(records@);
        let mut k: usize = 0;
        assert(xs.subrange(0, 0) =~= Seq::<SiteView>::empty());
        while k < records.len()
            invariant
                k <= records.len(),
                xs == imported_views(records@),
                self@ == add_all(old(self)@, xs.subrange(0, k as int)),
            decreases records.len() - k,
        {
            assert(xs.subrange(0, k + 1).drop_last() =~= xs.subrange(0, k as int));
            let site = records[k].duplicate().into_site();
            self.add(site);
            k = k + 1;
        }
        assert(xs.subrange(0, xs.len() as int) =~= xs);
        records.len()
    }
}

/// The keyring account of a site: `proto://user@host:port`, the protocol in
/// lower case.
pub open spec fn account_spec(proto: Seq<char>, user: Seq<char>, host: Seq<char>, port: Seq<char>) -> Seq<char> {
    unicode_lowercase(proto) + "://"@ + user + "@"@ + host + ":"@ + port
}

/// Account key for the password store: proto://user@host:port.
pub fn account(proto: &str, user: &str, host: &str, port: &str) -> (r: String)
    ensures
        r@ == account_spec(proto@, user@, host@, port@),
{
    let lp = to_lowercase(proto);
    let mut cs = chars_of(lp.as_str());
    push_str(&mut cs, "://");
    push_str(&mut cs, user);
    push_str(&mut cs, "@");
    push_str(&mut cs, host);
    push_str(&mut cs, ":");
    push_str(&mut cs, port);
    string_of(cs.as_slice())
}

// ---------------------------------------------------------------------------
// Laws
// ---------------------------------------------------------------------------

/// Exporting a site and importing the record gives the site back, for every
/// site whose protocol and auth indices are in range.
pub proof fn law_interchange_round_trip(v: SiteView)
    requires
        v.proto < 4,
        v.auth < 3,
    ensures
        import_view(export_view(v)) == v,
{
    reveal_strlit("sftp");
    reveal_strlit("ftp");
    reveal_strlit("ftps");
    reveal_strlit("s3");
    reveal_strlit("password");
    reveal_strlit("key");
    reveal_strlit("agent");
    assert("sftp"@.len() == 4 && "ftp"@.len() == 3 && "ftps"@.len() == 4 && "s3"@.len() == 2);
    assert("sftp"@[0] == 's' && "ftps"@[0] == 'f');
    assert("password"@.len() == 8 && "key"@.len() == 3 && "agent"@.len() == 5);
    let e = export_view(v);
    assert(proto_code(e.protocol) == v.proto);
    assert(auth_code(e.auth) == v.auth);
}

proof fn lemma_insert_sorted(s: Seq<SiteView>, x: SiteView)
    ensures
        insert_sorted(s, x).len() == s.len() + 1,
        insert_sorted(s, x).contains(x),
        forall|y: SiteView| s.contains(y) ==> #[trigger] insert_sorted(s, x).contains(y),
    decreases s.len(),
{
    if s.len() == 0 {
        assert(insert_sorted(s, x)[0] == x);
    } else if site_before(x, s.last()) {
        let t = s.drop_last();
        lemma_insert_sorted(t, x);
        let r = insert_sorted(s, x);
        assert(r == insert_sorted(t, x).push(s.last()));
        let w = choose|i: int| 0 <= i < insert_sorted(t, x).len() && insert_sorted(t, x)[i] == x;
        assert(r[w] == x);
        assert forall|y: SiteView| s.contains(y) implies #[trigger] r.contains(y) by {
            let i = choose|i: int| 0 <= i < s.len() && s[i] == y;
            if i == s.len() - 1 {
                assert(r[r.len() - 1] == y);
            } else {
                assert(t[i] == y);
                assert(t.contains(y));
                assert(insert_sorted(t, x).contains(y));
                let m = choose|m: int| 0 <= m < insert_sorted(t, x).len() && insert_sorted(t, x)[m] == y;
                assert(r[m] == y);
            }
        }
    } else {
        let r = s.push(x);
        assert(r[s.len() as int] == x);
        assert forall|y: SiteView| s.contains(y) implies #[trigger] r.contains(y) by {
            let i = choose|i: int| 0 <= i < s.len() && s[i] == y;
            assert(r[i] == y);
        }
    }
}

proof fn lemma_sort_sites(t: Seq<SiteView>)
    ensures
        sort_sites(t).len() == t.len(),
        forall|y: SiteView| t.contains(y) ==> #[trigger] sort_sites(t).contains(y),
    decreases t.len(),
{
    if t.len() > 0 {
        let u = t.drop_last();
        lemma_sort_sites(u);
        lemma_insert_sorted(sort_sites(u), t.last());
        assert forall|y: SiteView| t.contains(y) implies #[trigger] sort_sites(t).contains(y) by {
            let i = choose|i: int| 0 <= i < t.len() && t[i] == y;
            if i < t.len() - 1 {
                assert(u[i] == y);
                assert(u.contains(y));
                assert(sort_sites(u).contains(y));
            }
        }
    }
}

proof fn lemma_site_index_found(s: Seq<SiteView>, i: int)
    requires
        0 <= i < s.len(),
    ensures
        site_index(s, s[i].name).is_some(),
        site_index(s, s[i].name).unwrap() < s.len(),
        0 <= site_index(s, s[i].name).unwrap(),
    decreases s.len(),
{
    if s[0].name != s[i].name {
        lemma_site_index_found(s.drop_first(), i - 1);
    }
}

proof fn lemma_site_index_bound(s: Seq<SiteView>, name: Seq<char>)
    ensures
        site_index(s, name) matches Some(i) ==> 0 <= i < s.len() && s[i].name == name,
    decreases s.len(),
{
    if s.len() > 0 && s[0].name != name {
        lemma_site_index_bound(s.drop_first(), name);
    }
}

/// `s` is in store order: no site sorts strictly before an earlier one.
pub open spec fn sites_sorted(s: Seq<SiteView>) -> bool {
    forall|i: int, j: int| 0 <= i < j < s.len() ==> !site_before(#[trigger] s[j], #[trigger] s[i])
}

/// "Not after" is transitive for site keys.
proof fn lemma_key_le_trans(a: SiteView, b: SiteView, c: SiteView)
    requires
        !site_before(b, a),
        !site_before(c, b),
    ensures
        !site_before(c, a),
{
    let ka = site_key(a.name);
    let kb = site_key(b.name);
    let kc = site_key(c.name);
    if ka.0 == kb.0 && kb.0 == kc.0 {
        if ka.1 == kb.1 && kb.1 == kc.1 {
            lemma_lex_le_trans(ka.2, kb.2, kc.2);
        } else if ka.1 == kb.1 {
            lemma_lex_total(kb.1, kc.1);
        } else if kb.1 == kc.1 {
            lemma_lex_total(ka.1, kb.1);
        } else {
            lemma_lex_total(ka.1, kb.1);
            lemma_lex_total(kb.1, kc.1);
            lemma_lex_le_trans(ka.1, kb.1, kc.1);
            if ka.1 == kc.1 {
                lemma_lex_irrefl(ka.1);
            }
        }
    }
}

/// `site_before` is asymmetric.
proof fn lemma_before_asym(a: SiteView, b: SiteView)
    requires
        site_before(a, b),
    ensures
        !site_before(b, a),
{
    let ka = site_key(a.name);
    let kb = site_key(b.name);
    if ka.0 == kb.0 && ka.1 == kb.1 {
        if lex_lt(kb.2, ka.2) {
            lemma_lex_trans(ka.2, kb.2, ka.2);
            lemma_lex_irrefl(ka.2);
        }
    } else if ka.0 == kb.0 {
        if lex_lt(kb.1, ka.1) {
            lemma_lex_trans(ka.1, kb.1, ka.1);
            lemma_lex_irrefl(ka.1);
        }
    }
}

/// What `insert_sorted` holds: `x` and the sites of `s`.
proof fn lemma_insert_members(s: Seq<SiteView>, x: SiteView)
    ensures
        forall|y: SiteView| #[trigger] insert_sorted(s, x).contains(y) ==> y == x || s.contains(y),
    decreases s.len(),
{
    if s.len() > 0 && site_before(x, s.last()) {
        let t = s.drop_last();
        lemma_insert_members(t, x);
        assert forall|y: SiteView| #[trigger] insert_sorted(s, x).contains(y) implies y == x
            || s.contains(y) by {
            let r = insert_sorted(s, x);
            let k = choose|k: int| 0 <= k < r.len() && r[k] == y;
            if k < r.len() - 1 {
                assert(insert_sorted(t, x)[k] == y);
                assert(insert_sorted(t, x).contains(y));
                if y != x {
                    let m = choose|m: int| 0 <= m < t.len() && t[m] == y;
                    assert(s[m] == y);
                }
            } else {
                assert(s[s.len() - 1] == y);
            }
        }
    } else if s.len() > 0 {
        assert forall|y: SiteView| #[trigger] s.push(x).contains(y) implies y == x || s.contains(y) by {
            let k = choose|k: int| 0 <= k < s.push(x).len() && s.push(x)[k] == y;
            if k < s.len() {
                assert(s[k] == y);
            }
        }
    } else {
        assert forall|y: SiteView| #[trigger] seq![x].contains(y) implies y == x || s.contains(y) by {
            let k = choose|k: int| 0 <= k < 1 && seq![x][k] == y;
        }
    }
}

/// Stable insertion keeps a sorted store sorted.
proof fn lemma_insert_keeps_sorted(s: Seq<SiteView>, x: SiteView)
    requires
        sites_sorted(s),
    ensures
        sites_sorted(insert_sorted(s, x)),
    decreases s.len(),
{
    if s.len() == 0 {
    } else if site_before(x, s.last()) {
        let t = s.drop_last();
        assert(sites_sorted(t)) by {
            assert forall|i: int, j: int| 0 <= i < j < t.len() implies !site_before(
                #[trigger] t[j],
                #[trigger] t[i],
            ) by {
                assert(t[i] == s[i] && t[j] == s[j]);
            }
        }
        lemma_insert_keeps_sorted(t, x);
        lemma_insert_members(t, x);
        lemma_before_asym(x, s.last());
        let u = insert_sorted(t, x);
        let r = u.push(s.last());
        assert forall|i: int, j: int| 0 <= i < j < r.len() implies !site_before(
            #[trigger] r[j],
            #[trigger] r[i],
        ) by {
            if j < r.len() - 1 {
                assert(r[i] == u[i] && r[j] == u[j]);
            } else {
                assert(r[i] == u[i]);
                assert(u.contains(u[i]));
                if u[i] != x {
                    let m = choose|m: int| 0 <= m < t.len() && t[m] == u[i];
                    assert(s[m] == u[i]);
                    assert(s[s.len() - 1] == s.last());
                }
            }
        }
    } else {
        let r = s.push(x);
        assert forall|i: int, j: int| 0 <= i < j < r.len() implies !site_before(
            #[trigger] r[j],
            #[trigger] r[i],
        ) by {
            if j < s.len() {
                assert(r[i] == s[i] && r[j] == s[j]);
            } else {
                assert(r[i] == s[i]);
                if i < s.len() - 1 {
                    assert(!site_before(s[s.len() - 1], s[i]));
                    lemma_key_le_trans(s[i], s.last(), x);
                }
            }
        }
    }
}

/// Sorting puts the sites in store order.
pub proof fn law_sort_sites_sorted(s: Seq<SiteView>)
    ensures
        sites_sorted(sort_sites(s)),
    decreases s.len(),
{
    if s.len() > 0 {
        law_sort_sites_sorted(s.drop_last());
        lemma_insert_keeps_sorted(sort_sites(s.drop_last()), s.last());
    }
}

/// Whatever the store held, after adding a site it is in store order:
/// ungrouped sites first, then folders alphabetically, each group
/// alphabetical by display name (case-insensitively).
pub proof fn law_add_keeps_order(s: Seq<SiteView>, x: SiteView)
    ensures
        sites_sorted(store_add(s, x)),
{
    law_sort_sites_sorted(upsert(s, x));
}

/// After a site is added, the store holds it exactly as given.
pub proof fn law_add_keeps_site(s: Seq<SiteView>, x: SiteView)
    ensures
        store_add(s, x).contains(x),
{
    let u = upsert(s, x);
    lemma_site_index_bound(s, x.name);
    match site_index(s, x.name) {
        Some(i) => {
            assert(u[i] == x);
        },
        None => {
            assert(u[s.len() as int] == x);
        },
    }
    assert(u.contains(x));
    lemma_sort_sites(u);
}

/// Adding the same site a second time replaces it rather than duplicating:
/// the store keeps its length.
pub proof fn law_add_twice_no_duplicate(s: Seq<SiteView>, x: SiteView)
    ensures
        store_add(store_add(s, x), x).len() == store_add(s, x).len(),
{
    let t = store_add(s, x);
    law_add_keeps_site(s, x);
    let i = choose|i: int| 0 <= i < t.len() && t[i] == x;
    lemma_site_index_found(t, i);
    lemma_sort_sites(upsert(t, x));
}

/// No two sites of `s` share a name.
pub open spec fn names_unique(s: Seq<SiteView>) -> bool {
    forall|i: int, j: int| 0 <= i < j < s.len() ==> (#[trigger] s[i]).name != (#[trigger] s[j]).name
}

/// Inserting into sorted position adds exactly that site.
proof fn lemma_insert_sorted_multiset(s: Seq<SiteView>, x: SiteView)
    ensures
        insert_sorted(s, x).to_multiset() =~= s.to_multiset().insert(x),
    decreases s.len(),
{
    broadcast use vstd::seq_lib::group_to_multiset_ensures;

    if s.len() == 0 {
        assert(insert_sorted(s, x) =~= s.push(x));
    } else if site_before(x, s.last()) {
        let u = s.drop_last();
        lemma_insert_sorted_multiset(u, x);
        assert(s =~= u.push(s.last()));
    }
}

/// Sorting keeps every site, as often as it occurs.
proof fn lemma_sort_sites_multiset(s: Seq<SiteView>)
    ensures
        sort_sites(s).to_multiset() =~= s.to_multiset(),
    decreases s.len(),
{
    broadcast use vstd::seq_lib::group_to_multiset_ensures;

    if s.len() > 0 {
        let u = s.drop_last();
        lemma_sort_sites_multiset(u);
        lemma_insert_sorted_multiset(sort_sites(u), s.last());
        assert(s =~= u.push(s.last()));
    }
}

/// A permutation of a sequence with unique names has unique names.
proof fn lemma_unique_perm(s: Seq<SiteView>, t: Seq<SiteView>)
    requires
        names_unique(s),
        t.to_multiset() == s.to_multiset(),
    ensures
        names_unique(t),
    decreases t.len(),
{
    broadcast use vstd::seq_lib::group_to_multiset_ensures;

    if t.len() > 0 {
        let y = t.last();
        let u = t.drop_last();
        assert(t =~= u.push(y));
        assert(t.contains(y));
        assert(t.to_multiset().count(y) > 0);
        assert(s.to_multiset().count(y) > 0);
        assert(s.contains(y));
        let k = choose|k: int| 0 <= k < s.len() && s[k] == y;
        let r = s.remove(k);
        assert(r.to_multiset() =~= s.to_multiset().remove(y));
        assert(u.to_multiset() =~= t.to_multiset().remove(y));
        assert(names_unique(r)) by {
            assert forall|i: int, j: int| 0 <= i < j < r.len() implies (#[trigger] r[i]).name != (#[trigger] r[j]).name by {
                let a = if i < k { i } else { i + 1 };
                let b = if j < k { j } else { j + 1 };
                assert(r[i] == s[a] && r[j] == s[b]);
            }
        }
        assert(u.to_multiset() =~= r.to_multiset());
        lemma_unique_perm(r, u);
        assert forall|i: int, j: int| 0 <= i < j < t.len() implies (#[trigger] t[i]).name != (#[trigger] t[j]).name by {
            if j == t.len() - 1 {
                assert(t[i] == u[i]);
                assert(u.contains(t[i]));
                assert(u.to_multiset().count(t[i]) > 0);
                assert(r.to_multiset().count(t[i]) > 0);
                assert(r.contains(t[i]));
                let m = choose|m: int| 0 <= m < r.len() && r[m] == t[i];
                let a = if m < k { m } else { m + 1 };
                assert(s[a] == t[i]);
                assert(a != k);
            } else {
                assert(t[i] == u[i] && t[j] == u[j]);
            }
        }
    }
}

/// Adding a site to the store rearranges the store with that site put in
/// (in place of the one of its name, if any), and keeps names unique: a
/// store in which no two sites share a name still has none after an add.
pub proof fn law_add_permutes(s: Seq<SiteView>, x: SiteView)
    ensures
        store_add(s, x).to_multiset() == upsert(s, x).to_multiset(),
        names_unique(s) ==> names_unique(store_add(s, x)),
{
    lemma_sort_sites_multiset(upsert(s, x));
    if names_unique(s) {
        lemma_site_index_bound(s, x.name);
        assert(names_unique(upsert(s, x))) by {
            match site_index(s, x.name) {
                Some(i) => {},
                None => {
                    assert forall|i: int| 0 <= i < s.len() implies s[i].name != x.name by {
                        lemma_site_index_found(s, i);
                    }
                },
            }
        }
        lemma_unique_perm(upsert(s, x), store_add(s, x));
    }
}

/// `after` holds at least the sites of `before` and at most one more per
/// session counted in between.
pub open spec fn grew_by_count(before: IniState, after: IniState) -> bool {
    &&& before.count <= after.count
    &&& before.store.len() <= after.store.len()
    &&& after.store.len() <= before.store.len() + (after.count - before.count)
}

/// Finishing a block adds at most the one site it counts.
proof fn lemma_flush_growth(st: IniState)
    ensures
        grew_by_count(st, ini_flush(st)),
{
    if let Some(x) = st.current {
        if let Some(v) = session_site(x) {
            lemma_sort_sites(upsert(st.store, v));
            lemma_site_index_bound(st.store, v.name);
        }
    }
}

/// Reading lines adds at most one site per session counted.
proof fn lemma_fold_growth(st: IniState, ls: Seq<Seq<char>>)
    ensures
        grew_by_count(st, ini_fold(st, ls)),
    decreases ls.len(),
{
    if ls.len() > 0 {
        let mid = ini_fold(st, ls.drop_last());
        lemma_fold_growth(st, ls.drop_last());
        let line = trim(ls.last());
        if line.len() > 0 && line[0] == '[' {
            lemma_flush_growth(mid);
        }
    }
}

/// A WinSCP.ini import never shrinks the store, and grows it by at most the
/// number of sessions it reports imported (an imported session whose name
/// is already saved replaces that site).
pub proof fn law_import_count(store: Seq<SiteView>, ini: Seq<char>)
    ensures
        store.len() <= winscp_import(store, ini).store.len(),
        winscp_import(store, ini).store.len() <= store.len() + winscp_import(store, ini).count,
{
    let st = IniState { store, current: None, count: 0 };
    let folded = ini_fold(st, lines(ini));
    lemma_fold_growth(st, lines(ini));
    lemma_flush_growth(folded);
}

/// A `key=value` line splits at the `=` that ends a key without one.
proof fn lemma_split_key(k: Seq<char>, v: Seq<char>)
    requires
        forall|i: int| 0 <= i < k.len() ==> k[i] != '=',
    ensures
        split_once(k + seq!['='] + v, '=') == Some((k, v)),
{
    let line = k + seq!['='] + v;
    crate::text::lemma_index_of(line, '=');
    assert(line[k.len() as int] == '=');
    match crate::text::index_of(line, '=') {
        Some(i) => {
            if i < k.len() {
                assert(line[i] == k[i]);
            }
            if i > k.len() {
                assert(line.subrange(0, i)[k.len() as int] == '=');
            }
            assert(line.subrange(0, i) =~= k);
            assert(line.subrange(i + 1, line.len() as int) =~= v);
        },
        None => {
            assert(line[k.len() as int] == '=');
        },
    }
}

/// What a `key=value` line of a WinSCP session block sets, for any value
/// (everything after the first `=`): `HostName`, `UserName` and
/// `PortNumber` take it as given, and `FtpSecure` is on unless it is `0`.
/// The site a finished block gives carries the block's name, host and user,
/// and its port when one was given.
pub proof fn law_session_fields(s: SessionView, v: Seq<char>)
    ensures
        session_set(s, "HostName"@ + seq!['='] + v) == (SessionView { host: v, ..s }),
        session_set(s, "UserName"@ + seq!['='] + v) == (SessionView { user: v, ..s }),
        session_set(s, "PortNumber"@ + seq!['='] + v) == (SessionView { port: Some(v), ..s }),
        session_set(s, "FtpSecure"@ + seq!['='] + v).ftp_secure == (v != "0"@),
        session_site(s) matches Some(site) ==> site.name == s.name && site.host == s.host && site.user
            == s.user,
        session_site(s) matches Some(site) ==> (s.port matches Some(p) ==> site.port == p),
{
    reveal_strlit("HostName");
    reveal_strlit("UserName");
    reveal_strlit("PortNumber");
    reveal_strlit("FtpSecure");
    lemma_split_key("HostName"@, v);
    lemma_split_key("UserName"@, v);
    lemma_split_key("PortNumber"@, v);
    lemma_split_key("FtpSecure"@, v);
    assert("UserName"@[0] != "HostName"@[0]);
    assert("PortNumber"@.len() != "HostName"@.len());
    assert("PortNumber"@.len() != "UserName"@.len());
    assert("FtpSecure"@.len() != "HostName"@.len());
    assert("FtpSecure"@.len() != "UserName"@.len());
    assert("FtpSecure"@.len() != "PortNumber"@.len());
    reveal_strlit("FSProtocol");
    assert("FtpSecure"@.len() != "FSProtocol"@.len());
}

/// Lines that set nothing leave a session block as it was: a line without
/// `=`, and a `key=value` line whose key is none of `HostName`,
/// `PortNumber`, `UserName`, `FSProtocol`, `FtpSecure`, `PublicKeyFile`.
pub proof fn law_session_ignores_other_lines(s: SessionView, line: Seq<char>, k: Seq<char>, v: Seq<char>)
    requires
        forall|i: int| 0 <= i < k.len() ==> k[i] != '=',
        k != "HostName"@,
        k != "PortNumber"@,
        k != "UserName"@,
        k != "FSProtocol"@,
        k != "FtpSecure"@,
        k != "PublicKeyFile"@,
    ensures
        !crate::text::has_char(line, '=') ==> session_set(s, line) == s,
        session_set(s, k + seq!['='] + v) == s,
{
    crate::text::lemma_index_of(line, '=');
    lemma_split_key(k, v);
}

/// A WinSCP session that names no port gets its protocol's well-known
/// port: the same one a URL of that protocol without a port connects to
/// (see `law_url_default_ports`).
pub proof fn law_session_default_port(p: u32)
    requires
        p < 4,
    ensures
        crate::desktop::protocol_named(proto_name(p)) matches Some(q) && default_port_text(p) == crate::text::dec(
            crate::types::spec_default_port(q) as nat,
        ),
{
    reveal_strlit("sftp");
    reveal_strlit("ftp");
    reveal_strlit("ftps");
    reveal_strlit("s3");
    reveal_strlit("21");
    reveal_strlit("22");
    reveal_strlit("443");
    assert("ftp"@.len() == 3 && "sftp"@.len() == 4 && "ftps"@.len() == 4);
    assert("ftp"@ != "sftp"@);
    assert("ftps"@[0] != "sftp"@[0]);
    assert("ftps"@ != "sftp"@ && "ftps"@ != "ftp"@);
    assert("s3"@ != "sftp"@ && "s3"@ != "ftp"@ && "s3"@ != "ftps"@);
    assert(crate::text::digit_char(1) == '1');
    assert(crate::text::digit_char(2) == '2');
    assert(crate::text::digit_char(3) == '3');
    assert(crate::text::digit_char(4) == '4');
    assert(crate::text::dec(2) =~= seq!['2']);
    assert(crate::text::dec(22) =~= seq!['2', '2']);
    assert(crate::text::dec(21) =~= seq!['2', '1']);
    assert(crate::text::dec(4) =~= seq!['4']);
    assert(crate::text::dec(44) =~= seq!['4', '4']);
    assert(crate::text::dec(443) =~= seq!['4', '4', '3']);
}

} // verus!
