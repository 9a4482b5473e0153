//! Simple `key=value` preferences (default editor, transfer pool size,
//! keepalive interval, default exclude masks): the text format, and the
//! entries it holds in key order. Reading and writing the file is the
//! caller's part.

use vstd::prelude::*;

use crate::sites::{lex_less, lex_lt};
use crate::text::{
    chars_eq, chars_of, lines, lines_of, parse_i64, parse_i64_spec, push_str, split_once,
    split_once_chars, string_of, trim, trim_chars, views,
};

verus! {

/// A preferences file's entries, in key order with distinct keys.
#[derive(Debug, Clone)]
pub struct PrefsFile {
    entries: Vec<(String, String)>,
}

pub open spec fn pair_views(v: Seq<(String, String)>) -> Seq<(Seq<char>, Seq<char>)> {
    v.map_values(|p: (String, String)| (p.0@, p.1@))
}

impl View for PrefsFile {
    type V = Seq<(Seq<char>, Seq<char>)>;

    closed spec fn view(&self) -> Seq<(Seq<char>, Seq<char>)> {
        pair_views(self.entries@)
    }
}

/// The entries after storing `v` under `k`: the value of an existing key is
/// replaced; a new key goes before the first greater key.
pub open spec fn store(s: Seq<(Seq<char>, Seq<char>)>, k: Seq<char>, v: Seq<char>) -> Seq<(Seq<char>, Seq<char>)>
    decreases s.len(),
{
    if s.len() == 0 {
        seq![(k, v)]
    } else if s[0].0 == k {
        s.update(0, (k, v))
    } else if lex_lt(k, s[0].0) {
        seq![(k, v)] + s
    } else {
        seq![s[0]] + store(s.drop_first(), k, v)
    }
}

/// The entries without key `k`.
pub open spec fn unstore(s: Seq<(Seq<char>, Seq<char>)>, k: Seq<char>) -> Seq<(Seq<char>, Seq<char>)>
    decreases s.len(),
{
    if s.len() == 0 {
        s
    } else if s[0].0 == k {
        unstore(s.drop_first(), k)
    } else {
        seq![s[0]] + unstore(s.drop_first(), k)
    }
}

/// The value stored under `k`.
pub open spec fn lookup(s: Seq<(Seq<char>, Seq<char>)>, k: Seq<char>) -> Option<Seq<char>>
    decreases s.len(),
{
    if s.len() == 0 {
        None
    } else if s[0].0 == k {
        Some(s[0].1)
    } else {
        lookup(s.drop_first(), k)
    }
}

/// The entries of the lines `ls`: each line with a `=` stores its trimmed
/// value under its trimmed key, later lines winning.
pub open spec fn parse_prefs(ls: Seq<Seq<char>>) -> Seq<(Seq<char>, Seq<char>)>
    decreases ls.len(),
{
    if ls.len() == 0 {
        Seq::empty()
    } else {
        let prev = parse_prefs(ls.drop_last());
        match split_once(ls.last(), '=') {
            Some((k, v)) => store(prev, trim(k), trim(v)),
            None => prev,
        }
    }
}

/// The file text of the entries: a `key=value` line each.
pub open spec fn render_spec(s: Seq<(Seq<char>, Seq<char>)>) -> Seq<char>
    decreases s.len(),
{
    if s.len() == 0 {
        Seq::empty()
    } else {
        render_spec(s.drop_last()) + s.last().0 + "="@ + s.last().1 + "\n"@
    }
}

/// `get` as a function of the entries: a value only when present and not
/// empty.
pub open spec fn get_spec(s: Seq<(Seq<char>, Seq<char>)>, k: Seq<char>) -> Option<Seq<char>> {
    match lookup(s, k) {
        Some(v) => if v.len() > 0 {
            Some(v)
        } else {
            None
        },
        None => None,
    }
}

proof fn lemma_store_prefix(s: Seq<(Seq<char>, Seq<char>)>, k: Seq<char>, v: Seq<char>, i: int)
    requires
        0 <= i <= s.len(),
        forall|j: int| 0 <= j < i ==> s[j].0 != k && !lex_lt(k, #[trigger] s[j].0),
    ensures
        store(s, k, v) == s.subrange(0, i) + store(s.subrange(i, s.len() as int), k, v),
    decreases i,
{
    if i == 0 {
        assert(s.subrange(0, 0) + store(s.subrange(0, s.len() as int), k, v) =~= store(s, k, v)) by {
            assert(s.subrange(0, s.len() as int) =~= s);
        }
    } else {
        let t = s.drop_first();
        assert forall|j: int| 0 <= j < i - 1 implies t[j].0 != k && !lex_lt(k, #[trigger] t[j].0) by {
            assert(t[j] == s[j + 1]);
        }
        lemma_store_prefix(t, k, v, i - 1);
        assert(t.subrange(i - 1, t.len() as int) =~= s.subrange(i, s.len() as int));
        assert(seq![s[0]] + t.subrange(0, i - 1) =~= s.subrange(0, i));
        assert(s[0].0 != k && !lex_lt(k, s[0].0));
    }
}

fn pair_view_lemma(v: &Vec<(String, String)>, i: usize)
    requires
        i < v.len(),
    ensures
        pair_views(v@)[i as int] == (v@[i as int].0@, v@[i as int].1@),
{
}

impl PrefsFile {
    pub fn new() -> (r: Self)
        ensures
            r@ == Seq::<(Seq<char>, Seq<char>)>::empty(),
    {
        let r = PrefsFile { entries: Vec::new() };
        assert(r@ =~= Seq::<(Seq<char>, Seq<char>)>::empty());
        r
    }

    /// Entry `i` is where storing the key `kc` stops: its own key, or the
    /// first greater one.
    fn slot_stops(&self, i: usize, kc: &Vec<char>) -> (r: bool)
        requires
            i < self.entries.len(),
        ensures
            r == (self@[i as int].0 == kc@ || lex_lt(kc@, self@[i as int].0)),
    {
        pair_view_lemma(&self.entries, i);
        let ec = chars_of(self.entries[i].0.as_str());
        chars_eq(&ec, kc) || lex_less(kc, &ec)
    }

    /// Store `value` under `key` (a `BTreeMap::insert`).
    fn store_pair(&mut self, key: String, value: String)
        ensures
            final(self)@ == store(old(self)@, key@, value@),
    {
        let ghost s = self@;
        let kc = chars_of(key.as_str());
        let mut i: usize = 0;
        while i < self.entries.len() && !self.slot_stops(i, &kc)
            invariant
                i <= self.entries.len(),
                s == pair_views(self.entries@),
                kc@ == key@,
                forall|j: int| 0 <= j < i ==> s[j].0 != key@ && !lex_lt(key@, #[trigger] s[j].0),
            decreases self.entries.len() - i,
        {
            i = i + 1;
        }
        proof {
            lemma_store_prefix(s, key@, value@, i as int);
        }
        let ghost before = self.entries@;
        if i == self.entries.len() {
            self.entries.push((key, value));
            assert(s.subrange(i as int, s.len() as int) =~= Seq::<(Seq<char>, Seq<char>)>::empty());
            assert(pair_views(self.entries@) =~= s.subrange(0, i as int) + seq![(key@, value@)]);
        } else {
            pair_view_lemma(&self.entries, i);
            let ec = chars_of(self.entries[i].0.as_str());
            let ghost rest = s.subrange(i as int, s.len() as int);
            assert(rest[0] == s[i as int]);
            if chars_eq(&ec, &kc) {
                self.entries.set(i, (key, value));
                assert(pair_views(self.entries@) =~= s.subrange(0, i as int) + rest.update(
                    0,
                    (key@, value@),
                ));
            } else {
                self.entries.insert(i, (key, value));
                assert(pair_views(self.entries@) =~= s.subrange(0, i as int) + (seq![(key@, value@)]
                    + rest));
            }
        }
    }

    /// Remove `key` (a `BTreeMap::remove`).
    fn unstore_key(&mut self, key: &str)
        ensures
            final(self)@ == unstore(old(self)@, key@),
    {
        let ghost s = self@;
        let kc = chars_of(key);
        let mut kept: Vec<(String, String)> = Vec::new();
        let mut i: usize = 0;
        let mut old_entries: Vec<(String, String)> = Vec::new();
        std::mem::swap(&mut old_entries, &mut self.entries);
        assert(s.subrange(0, s.len() as int) =~= s);
        while i < old_entries.len()
            invariant
                i <= old_entries.len(),
                s == pair_views(old_entries@),
                kc@ == key@,
                unstore(s, key@) == pair_views(kept@) + unstore(s.subrange(i as int, s.len() as int), key@),
            decreases old_entries.len() - i,
        {
            pair_view_lemma(&old_entries, i);
            let ghost rest = s.subrange(i as int, s.len() as int);
            assert(rest[0] == s[i as int]);
            assert(rest.drop_first() =~= s.subrange(i + 1, s.len() as int));
            let ec = chars_of(old_entries[i].0.as_str());
            if !chars_eq(&ec, &kc) {
                let ghost kb = kept@;
                let k2 = old_entries[i].0.clone();
                let v2 = old_entries[i].1.clone();
                kept.push((k2, v2));
                assert(pair_views(kept@) =~= pair_views(kb).push(s[i as int]));
                assert(pair_views(kb) + unstore(rest, key@) =~= pair_views(kept@) + unstore(
                    s.subrange(i + 1, s.len() as int),
                    key@,
                ));
            }
            i = i + 1;
        }
        assert(unstore(s.subrange(s.len() as int, s.len() as int), key@) =~= Seq::<
            (Seq<char>, Seq<char>),
        >::empty());
        assert(pair_views(kept@) + Seq::<(Seq<char>, Seq<char>)>::empty() =~= pair_views(kept@));
        self.entries = kept;
    }

    /// The entries of a preferences file's text.
    pub fn parse(text: &str) -> (r: Self)
        ensures
            r@ == parse_prefs(lines(text@)),
    {
        let ls = lines_of(text);
        let mut p = PrefsFile::new();
        let mut k: usize = 0;
        assert(views(ls@).subrange(0, 0) =~= Seq::<Seq<char>>::empty());
        while k < ls.len()
            invariant
                k <= ls.len(),
                views(ls@) == lines(text@),
                p@ == parse_prefs(views(ls@).subrange(0, k as int)),
            decreases ls.len() - k,
        {
            assert(views(ls@).subrange(0, k + 1).drop_last() =~= views(ls@).subrange(0, k as int));
            assert(views(ls@).subrange(0, k + 1).last() == ls@[k as int]@);
            match split_once_chars(&ls[k], '=') {
                Some((key, value)) => {
                    let tk = trim_chars(&key);
                    let tv = trim_chars(&value);
                    p.store_pair(string_of(tk.as_slice()), string_of(tv.as_slice()));
                },
                None => {},
            }
            k = k + 1;
        }
        assert(views(ls@).subrange(0, ls@.len() as int) =~= views(ls@));
        p
    }

    /// Non-empty string value for `key`, if present.
    pub fn get(&self, key: &str) -> (r: Option<String>)
        ensures
            match r {
                Some(v) => get_spec(self@, key@) == Some(v@),
                None => get_spec(self@, key@).is_none(),
            },
    {
        let ghost s = self@;
        let kc = chars_of(key);
        let mut i: usize = 0;
        assert(s.subrange(0, s.len() as int) =~= s);
        while i < self.entries.len()
            invariant
                i <= self.entries.len(),
                s == pair_views(self.entries@),
                kc@ == key@,
                lookup(s, key@) == lookup(s.subrange(i as int, s.len() as int), key@),
            decreases self.entries.len() - i,
        {
            pair_view_lemma(&self.entries, i);
            let ghost rest = s.subrange(i as int, s.len() as int);
            assert(rest[0] == s[i as int]);
            let ec = chars_of(self.entries[i].0.as_str());
            if chars_eq(&ec, &kc) {
                if self.entries[i].1.as_str().is_empty() {
                    return None;
                }
                return Some(self.entries[i].1.clone());
            }
            assert(rest.drop_first() =~= s.subrange(i + 1, s.len() as int));
            i = i + 1;
        }
        None
    }

    /// Integer value for `key`, or `default` if missing or not a number.
    pub fn get_int(&self, key: &str, default: i64) -> (r: i64)
        ensures
            r as int == match get_spec(self@, key@) {
                Some(v) => match parse_i64_spec(v) {
                    Some(n) => n,
                    None => default as int,
                },
                None => default as int,
            },
    {
        match self.get(key) {
            Some(v) => {
                let cs = chars_of(v.as_str());
                match parse_i64(&cs) {
                    Some(n) => n,
                    None => default,
                }
            },
            None => default,
        }
    }

    /// Store `value` under `key`; an empty value clears it.
    pub fn set(&mut self, key: &str, value: &str)
        ensures
            value@.len() == 0 ==> final(self)@ == unstore(old(self)@, key@),
            value@.len() > 0 ==> final(self)@ == store(old(self)@, key@, value@),
    {
        if value.is_empty() {
            self.unstore_key(key);
        } else {
            self.store_pair(crate::text::owned(key), crate::text::owned(value));
        }
    }

    /// The file text: a `key=value` line per entry, in key order.
    pub fn render(&self) -> (r: String)
        ensures
            r@ == render_spec(self@),
    {
        let ghost s = self@;
        let mut out: Vec<char> = Vec::new();
        let mut i: usize = 0;
        assert(s.subrange(0, 0) =~= Seq::<(Seq<char>, Seq<char>)>::empty());
        while i < self.entries.len()
            invariant
                i <= self.entries.len(),
                s == pair_views(self.entries@),
                out@ == render_spec(s.subrange(0, i as int)),
            decreases self.entries.len() - i,
        {
            pair_view_lemma(&self.entries, i);
            assert(s.subrange(0, i + 1).drop_last() =~= s.subrange(0, i as int));
            push_str(&mut out, self.entries[i].0.as_str());
            push_str(&mut out, "=");
            push_str(&mut out, self.entries[i].1.as_str());
            push_str(&mut out, "\n");
            i = i + 1;
        }
        assert(s.subrange(0, s.len() as int) =~= s);
        string_of(out.as_slice())
    }
}

/// What was stored under a key is what a lookup of that key finds.
pub proof fn law_store_then_lookup(s: Seq<(Seq<char>, Seq<char>)>, k: Seq<char>, v: Seq<char>)
    ensures
        lookup(store(s, k, v), k) == Some(v),
    decreases s.len(),
{
    if s.len() > 0 && s[0].0 != k && !lex_lt(k, s[0].0) {
        law_store_then_lookup(s.drop_first(), k, v);
        assert((seq![s[0]] + store(s.drop_first(), k, v)).drop_first() =~= store(s.drop_first(), k, v));
    }
}

/// Storing under one key leaves every other key's value alone.
pub proof fn law_store_keeps_others(s: Seq<(Seq<char>, Seq<char>)>, k: Seq<char>, v: Seq<char>, other: Seq<char>)
    requires
        other != k,
    ensures
        lookup(store(s, k, v), other) == lookup(s, other),
    decreases s.len(),
{
    if s.len() == 0 {
        let t = seq![(k, v)];
        assert(store(s, k, v) == t);
        assert(t[0].0 == k);
        assert(t.drop_first() =~= Seq::<(Seq<char>, Seq<char>)>::empty());
        assert(lookup(t, other) == lookup(t.drop_first(), other));
    } else if s[0].0 == k {
        let t = s.update(0, (k, v));
        assert(store(s, k, v) == t);
        assert(t[0].0 == k);
        assert(t.drop_first() =~= s.drop_first());
        assert(lookup(t, other) == lookup(t.drop_first(), other));
    } else if lex_lt(k, s[0].0) {
        let t = seq![(k, v)] + s;
        assert(store(s, k, v) == t);
        assert(t[0].0 == k);
        assert(t.drop_first() =~= s);
        assert(lookup(t, other) == lookup(t.drop_first(), other));
    } else {
        let t = seq![s[0]] + store(s.drop_first(), k, v);
        assert(store(s, k, v) == t);
        assert(t[0] == s[0]);
        assert(t.drop_first() =~= store(s.drop_first(), k, v));
        law_store_keeps_others(s.drop_first(), k, v, other);
    }
}

/// A cleared key is gone.
pub proof fn law_unstore_then_lookup(s: Seq<(Seq<char>, Seq<char>)>, k: Seq<char>)
    ensures
        lookup(unstore(s, k), k).is_none(),
    decreases s.len(),
{
    if s.len() > 0 {
        law_unstore_then_lookup(s.drop_first(), k);
        if s[0].0 != k {
            assert((seq![s[0]] + unstore(s.drop_first(), k)).drop_first() =~= unstore(
                s.drop_first(),
                k,
            ));
        }
    }
}

} // verus!
