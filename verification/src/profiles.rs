//! The desktop app's saved connection profiles: a list kept sorted by name,
//! case-insensitively, where saving a profile replaces the one with the same
//! name. Passwords are never part of a profile (they live in the keyring),
//! and reading and writing the list's file is the caller's.

use vstd::prelude::*;

use crate::sites::{lemma_lex_irrefl, lemma_lex_le_trans, lemma_lex_trans, lex_less, lex_lt};
use crate::text::{chars_of, str_eq, to_lowercase, unicode_lowercase};

verus! {

/// A saved connection profile.
#[derive(Debug, Clone)]
pub struct Site {
    pub name: String,
    pub protocol: String,
    pub host: String,
    pub port: u16,
    pub username: String,
    pub auth_mode: String,
    pub key_path: String,
    pub bucket: String,
    pub region: String,
    pub path: String,
    pub use_jump: bool,
    pub jump_host: String,
    pub jump_port: u16,
    pub jump_user: String,
    pub jump_auth_mode: String,
    pub jump_key_path: String,
}

impl Site {
    /// A copy of this profile.
    pub fn duplicate(&self) -> (r: Site)
        ensures
            r == *self,
    {
        Site {
            name: self.name.clone(),
            protocol: self.protocol.clone(),
            host: self.host.clone(),
            port: self.port,
            username: self.username.clone(),
            auth_mode: self.auth_mode.clone(),
            key_path: self.key_path.clone(),
            bucket: self.bucket.clone(),
            region: self.region.clone(),
            path: self.path.clone(),
            use_jump: self.use_jump,
            jump_host: self.jump_host.clone(),
            jump_port: self.jump_port,
            jump_user: self.jump_user.clone(),
            jump_auth_mode: self.jump_auth_mode.clone(),
            jump_key_path: self.jump_key_path.clone(),
        }
    }
}

/// The sort key of a profile: its name in lower case.
pub open spec fn name_key(s: Site) -> Seq<char> {
    unicode_lowercase(s.name@)
}

/// `x` sorts strictly before `y`.
pub open spec fn profile_before(x: Site, y: Site) -> bool {
    lex_lt(name_key(x), name_key(y))
}

/// Stable insertion of `x` into the sorted `s`: after every profile whose
/// key is not greater.
pub open spec fn insert_profile(s: Seq<Site>, x: Site) -> Seq<Site>
    decreases s.len(),
{
    if s.len() == 0 {
        seq![x]
    } else if profile_before(x, s.last()) {
        insert_profile(s.drop_last(), x).push(s.last())
    } else {
        s.push(x)
    }
}

/// The stable sort of `s` by name, case-insensitively.
pub open spec fn sort_profiles(s: Seq<Site>) -> Seq<Site>
    decreases s.len(),
{
    if s.len() == 0 {
        Seq::empty()
    } else {
        insert_profile(sort_profiles(s.drop_last()), s.last())
    }
}

/// The first profile called `name`, if any.
pub open spec fn profile_index(s: Seq<Site>, name: Seq<char>) -> Option<int>
    decreases s.len(),
{
    if s.len() == 0 {
        None
    } else if s[0].name@ == name {
        Some(0)
    } else {
        match profile_index(s.drop_first(), name) {
            Some(i) => Some(i + 1),
            None => None,
        }
    }
}

/// What saving `site` makes of the list `s`: the first same-named profile
/// replaced (or `site` appended), then sorted.
pub open spec fn saved(s: Seq<Site>, site: Site) -> Seq<Site> {
    sort_profiles(
        match profile_index(s, site.name@) {
            Some(i) => s.update(i, site),
            None => s.push(site),
        },
    )
}

/// Profiles not called `name`.
pub open spec fn named_other(name: Seq<char>) -> spec_fn(Site) -> bool {
    |x: Site| x.name@ != name
}

/// The profiles of `s` not called `name`, in order.
pub open spec fn without(s: Seq<Site>, name: Seq<char>) -> Seq<Site> {
    s.filter(named_other(name))
}

fn find_profile(s: &Vec<Site>, name: &str) -> (r: Option<usize>)
    ensures
        match r {
            Some(i) => profile_index(s@, name@) == Some(i as int) && i < s.len(),
            None => profile_index(s@, name@).is_none(),
        },
{
    let mut k: usize = 0;
    assert(s@.subrange(0, s@.len() as int) =~= s@);
    while k < s.len()
        invariant
            k <= s.len(),
            profile_index(s@, name@) == match profile_index(s@.subrange(k as int, s@.len() as int), name@) {
                Some(i) => Some(i + k),
                None => None,
            },
        decreases s.len() - k,
    {
        let ghost rest = s@.subrange(k as int, s@.len() as int);
        assert(rest[0] == s@[k as int]);
        if str_eq(s[k].name.as_str(), name) {
            assert(profile_index(rest, name@) == Some(0int));
            return Some(k);
        }
        assert(rest.drop_first() =~= s@.subrange(k + 1, s@.len() as int));
        k = k + 1;
    }
    None
}

/// Inserting at position `j` found by scanning from the back is the stable
/// insertion.
proof fn lemma_insert_at(s: Seq<Site>, x: Site, j: int)
    requires
        0 <= j <= s.len(),
        forall|i: int| j <= i < s.len() ==> profile_before(x, #[trigger] s[i]),
        j > 0 ==> !profile_before(x, s[j - 1]),
    ensures
        insert_profile(s, x) == s.subrange(0, j).push(x) + s.subrange(j, s.len() as int),
    decreases s.len(),
{
    if s.len() == 0 {
        assert(s.subrange(0, j).push(x) + s.subrange(j, s.len() as int) =~= seq![x]);
    } else if j == s.len() {
        assert(s.subrange(0, j).push(x) + s.subrange(j, s.len() as int) =~= s.push(x));
    } else {
        assert(profile_before(x, s.last()));
        let t = s.drop_last();
        assert forall|i: int| j <= i < t.len() implies profile_before(x, #[trigger] t[i]) by {
            assert(t[i] == s[i]);
        }
        if j > 0 {
            assert(t[j - 1] == s[j - 1]);
        }
        lemma_insert_at(t, x, j);
        assert((t.subrange(0, j).push(x) + t.subrange(j, t.len() as int)).push(s.last()) =~= s.subrange(
            0,
            j,
        ).push(x) + s.subrange(j, s.len() as int));
    }
}

/// The sort keys of `out`, computed once.
spec fn keys_match(keys: Seq<Vec<char>>, out: Seq<Site>) -> bool {
    &&& keys.len() == out.len()
    &&& forall|i: int| 0 <= i < keys.len() ==> (#[trigger] keys[i])@ == name_key(out[i])
}

fn key_of(site: &Site) -> (r: Vec<char>)
    ensures
        r@ == name_key(*site),
{
    let l = to_lowercase(site.name.as_str());
    chars_of(l.as_str())
}

/// Sort profiles by name, case-insensitively; stable.
pub fn sort_by_name(sites: Vec<Site>) -> (r: Vec<Site>)
    ensures
        r@ == sort_profiles(sites@),
{
    let mut out: Vec<Site> = Vec::new();
    let mut keys: Vec<Vec<char>> = Vec::new();
    let mut k: usize = 0;
    assert(sites@.subrange(0, 0) =~= Seq::<Site>::empty());
    while k < sites.len()
        invariant
            k <= sites.len(),
            out@ == sort_profiles(sites@.subrange(0, k as int)),
            keys_match(keys@, out@),
        decreases sites.len() - k,
    {
        let x = sites[k].duplicate();
        proof {
            assert(sites@.subrange(0, k + 1).drop_last() =~= sites@.subrange(0, k as int));
        }
        let kx = key_of(&x);
        let mut j: usize = out.len();
        while j > 0 && lex_less(&kx, &keys[j - 1])
            invariant
                j <= out@.len(),
                keys_match(keys@, out@),
                kx@ == name_key(x),
                forall|i: int| j <= i < out@.len() ==> profile_before(x, #[trigger] out@[i]),
            decreases j,
        {
            j = j - 1;
        }
        proof {
            lemma_insert_at(out@, x, j as int);
        }
        let ghost before = out@;
        let ghost kbefore = keys@;
        out.insert(j, x);
        keys.insert(j, kx);
        proof {
            assert(out@ =~= before.subrange(0, j as int).push(x) + before.subrange(
                j as int,
                before.len() as int,
            ));
            assert forall|i: int| 0 <= i < keys@.len() implies (#[trigger] keys@[i])@ == name_key(
                out@[i],
            ) by {
                if i < j {
                    assert(keys@[i] == kbefore[i]);
                    assert(out@[i] == before[i]);
                } else if i > j {
                    assert(keys@[i] == kbefore[i - 1]);
                    assert(out@[i] == before[i - 1]);
                }
            }
        }
        k = k + 1;
    }
    assert(sites@.subrange(0, sites@.len() as int) =~= sites@);
    out
}

/// Add or replace a profile (matched by name), keeping the list sorted.
pub fn save_site(sites: Vec<Site>, site: Site) -> (r: Vec<Site>)
    ensures
        r@ == saved(sites@, site),
{
    let mut sites = sites;
    match find_profile(&sites, site.name.as_str()) {
        Some(i) => {
            sites.set(i, site);
        },
        None => {
            sites.push(site);
        },
    }
    sort_by_name(sites)
}

/// The list without the profiles called `name`.
pub fn delete_site(sites: Vec<Site>, name: &str) -> (r: Vec<Site>)
    ensures
        r@ == without(sites@, name@),
{
    let mut out: Vec<Site> = Vec::new();
    let mut k: usize = 0;
    assert(sites@.subrange(0, 0).filter(named_other(name@)) =~= Seq::<Site>::empty());
    while k < sites.len()
        invariant
            k <= sites.len(),
            out@ == sites@.subrange(0, k as int).filter(named_other(name@)),
        decreases sites.len() - k,
    {
        let ghost pre = sites@.subrange(0, k as int);
        proof {
            let nxt = sites@.subrange(0, k + 1);
            assert(nxt.drop_last() =~= pre);
            assert(nxt.last() == sites@[k as int]);
            reveal(Seq::filter);
        }
        if !str_eq(sites[k].name.as_str(), name) {
            out.push(sites[k].duplicate());
        }
        k = k + 1;
    }
    assert(sites@.subrange(0, sites@.len() as int) =~= sites@);
    out
}

// ---------------------------------------------------------------------------
// Laws
// ---------------------------------------------------------------------------

/// `s` is sorted by name, case-insensitively.
pub open spec fn profiles_sorted(s: Seq<Site>) -> bool {
    forall|i: int, j: int| 0 <= i < j < s.len() ==> !profile_before(#[trigger] s[j], #[trigger] s[i])
}

proof fn lemma_insert_members(s: Seq<Site>, x: Site)
    ensures
        insert_profile(s, x).len() == s.len() + 1,
        insert_profile(s, x).contains(x),
        forall|y: Site| s.contains(y) ==> #[trigger] insert_profile(s, x).contains(y),
        forall|y: Site| #[trigger] insert_profile(s, x).contains(y) ==> y == x || s.contains(y),
    decreases s.len(),
{
    let r = insert_profile(s, x);
    if s.len() == 0 {
        assert(r[0] == x);
        assert forall|y: Site| #[trigger] r.contains(y) implies y == x || s.contains(y) by {
            let k = choose|k: int| 0 <= k < r.len() && r[k] == y;
        }
    } else if profile_before(x, s.last()) {
        let t = s.drop_last();
        lemma_insert_members(t, x);
        let u = insert_profile(t, x);
        let w = choose|w: int| 0 <= w < u.len() && u[w] == x;
        assert(r[w] == x);
        assert forall|y: Site| s.contains(y) implies #[trigger] r.contains(y) by {
            let i = choose|i: int| 0 <= i < s.len() && s[i] == y;
            if i == s.len() - 1 {
                assert(r[r.len() - 1] == y);
            } else {
                assert(t[i] == y);
                assert(t.contains(y));
                assert(u.contains(y));
                let m = choose|m: int| 0 <= m < u.len() && u[m] == y;
                assert(r[m] == y);
            }
        }
        assert forall|y: Site| #[trigger] r.contains(y) implies y == x || s.contains(y) by {
            let k = choose|k: int| 0 <= k < r.len() && r[k] == y;
            if k < r.len() - 1 {
                assert(u[k] == y);
                assert(u.contains(y));
                if y != x {
                    let m = choose|m: int| 0 <= m < t.len() && t[m] == y;
                    assert(s[m] == y);
                }
            } else {
                assert(s[s.len() - 1] == y);
            }
        }
    } else {
        assert(r[s.len() as int] == x);
        assert forall|y: Site| s.contains(y) implies #[trigger] r.contains(y) by {
            let i = choose|i: int| 0 <= i < s.len() && s[i] == y;
            assert(r[i] == y);
        }
        assert forall|y: Site| #[trigger] r.contains(y) implies y == x || s.contains(y) by {
            let k = choose|k: int| 0 <= k < r.len() && r[k] == y;
            if k < s.len() {
                assert(s[k] == y);
            }
        }
    }
}

proof fn lemma_insert_keeps_sorted(s: Seq<Site>, x: Site)
    requires
        profiles_sorted(s),
    ensures
        profiles_sorted(insert_profile(s, x)),
    decreases s.len(),
{
    if s.len() == 0 {
    } else if profile_before(x, s.last()) {
        let t = s.drop_last();
        assert(profiles_sorted(t)) by {
            assert forall|i: int, j: int| 0 <= i < j < t.len() implies !profile_before(
                #[trigger] t[j],
                #[trigger] t[i],
            ) by {
                assert(t[i] == s[i] && t[j] == s[j]);
            }
        }
        lemma_insert_keeps_sorted(t, x);
        lemma_insert_members(t, x);
        if lex_lt(name_key(s.last()), name_key(x)) {
            lemma_lex_trans(name_key(x), name_key(s.last()), name_key(x));
            lemma_lex_irrefl(name_key(x));
        }
        let u = insert_profile(t, x);
        let r = u.push(s.last());
        assert forall|i: int, j: int| 0 <= i < j < r.len() implies !profile_before(
            #[trigger] r[j],
            #[trigger] r[i],
        ) by {
            if j < r.len() - 1 {
                assert(r[i] == u[i] && r[j] == u[j]);
            } else {
                assert(r[i] == u[i]);
                assert(u.contains(u[i]));
                if u[i] != x {
                    let m = choose|m: int| 0 <= m < t.len() && t[m] == u[i];
                    assert(s[m] == u[i]);
                    assert(s[s.len() - 1] == s.last());
                }
            }
        }
    } else {
        let r = s.push(x);
        assert forall|i: int, j: int| 0 <= i < j < r.len() implies !profile_before(
            #[trigger] r[j],
            #[trigger] r[i],
        ) by {
            if j < s.len() {
                assert(r[i] == s[i] && r[j] == s[j]);
            } else {
                assert(r[i] == s[i]);
                if i < s.len() - 1 {
                    assert(!profile_before(s[s.len() - 1], s[i]));
                    lemma_lex_le_trans(name_key(s[i]), name_key(s.last()), name_key(x));
                }
            }
        }
    }
}

proof fn lemma_sort_profiles(s: Seq<Site>)
    ensures
        profiles_sorted(sort_profiles(s)),
        sort_profiles(s).len() == s.len(),
        forall|y: Site| s.contains(y) ==> #[trigger] sort_profiles(s).contains(y),
    decreases s.len(),
{
    if s.len() > 0 {
        let u = s.drop_last();
        lemma_sort_profiles(u);
        lemma_insert_keeps_sorted(sort_profiles(u), s.last());
        lemma_insert_members(sort_profiles(u), s.last());
        assert forall|y: Site| s.contains(y) implies #[trigger] sort_profiles(s).contains(y) by {
            let i = choose|i: int| 0 <= i < s.len() && s[i] == y;
            if i < s.len() - 1 {
                assert(u[i] == y);
                assert(u.contains(y));
            }
        }
    }
}

proof fn lemma_profile_index(s: Seq<Site>, name: Seq<char>)
    ensures
        profile_index(s, name) matches Some(i) ==> 0 <= i < s.len() && s[i].name@ == name,
        profile_index(s, name) is None ==> forall|i: int| 0 <= i < s.len() ==> s[i].name@ != name,
    decreases s.len(),
{
    if s.len() > 0 && s[0].name@ != name {
        lemma_profile_index(s.drop_first(), name);
        assert forall|i: int| 0 <= i < s.len() && profile_index(s, name) is None implies s[i].name@
            != name by {
            if i > 0 {
                assert(s.drop_first()[i - 1] == s[i]);
            }
        }
    }
}

/// Whatever the list held, after saving a profile it is sorted by name
/// (case-insensitively) and holds the profile exactly as given.
pub proof fn law_save_keeps_order_and_profile(s: Seq<Site>, x: Site)
    ensures
        profiles_sorted(saved(s, x)),
        saved(s, x).contains(x),
{
    let u = match profile_index(s, x.name@) {
        Some(i) => s.update(i, x),
        None => s.push(x),
    };
    lemma_profile_index(s, x.name@);
    match profile_index(s, x.name@) {
        Some(i) => {
            assert(u[i] == x);
        },
        None => {
            assert(u[s.len() as int] == x);
        },
    }
    lemma_sort_profiles(u);
}

/// Saving the same profile twice replaces it rather than duplicating it:
/// the list keeps its length.
pub proof fn law_save_twice_no_duplicate(s: Seq<Site>, x: Site)
    ensures
        saved(saved(s, x), x).len() == saved(s, x).len(),
{
    let t = saved(s, x);
    law_save_keeps_order_and_profile(s, x);
    let i = choose|i: int| 0 <= i < t.len() && t[i] == x;
    lemma_profile_index(t, x.name@);
    let u = match profile_index(t, x.name@) {
        Some(k) => t.update(k, x),
        None => t.push(x),
    };
    assert(profile_index(t, x.name@) is Some);
    lemma_sort_profiles(u);
    let v = match profile_index(s, x.name@) {
        Some(k) => s.update(k, x),
        None => s.push(x),
    };
    lemma_sort_profiles(v);
}

/// After deleting a name, no profile of that name is left, and every other
/// profile stays.
pub proof fn law_delete_removes_name(s: Seq<Site>, name: Seq<char>)
    ensures
        forall|i: int| 0 <= i < without(s, name).len() ==> (#[trigger] without(s, name)[i]).name@ != name,
        forall|y: Site| s.contains(y) && y.name@ != name ==> #[trigger] without(s, name).contains(y),
{
    let f = named_other(name);
    assert forall|i: int| 0 <= i < without(s, name).len() implies (#[trigger] without(s, name)[i]).name@
        != name by {
        s.lemma_filter_pred(f, i);
    }
    assert forall|y: Site| s.contains(y) && y.name@ != name implies #[trigger] without(s, name).contains(y) by {
        let i = choose|i: int| 0 <= i < s.len() && s[i] == y;
        s.lemma_filter_contains(f, i);
    }
}

} // verus!
