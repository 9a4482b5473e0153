//! Character-level text helpers shared by the parsers of this crate.
//!
//! Strings are handled as sequences of `char`s: `chars_of` and `string_of`
//! move between `str`/`String` and `Vec<char>`, and everything else is
//! verified code over `Vec<char>` whose contracts are stated over `Seq<char>`.

use vstd::prelude::*;

verus! {

// ---------------------------------------------------------------------------
// Conversions (std)
// ---------------------------------------------------------------------------

/// The characters of `s`, in order.
pub fn chars_of(s: &str) -> (r: Vec<char>)
    ensures
        r@ == s@,
{
    broadcast use vstd::string::axiom_spec_iter;

    let mut v: Vec<char> = Vec::new();
    for c in it: s.chars()
        invariant
            v@ == it.seq().take(it.index() as int),
    {
        v.push(c);
    }
    v
}

/// `FromIterator<char> for String`: a string made of exactly `cs`.
#[verifier::external_body]
pub(crate) fn string_of(cs: &[char]) -> (r: String)
    ensures
        r@ == cs@,
{
    cs.iter().collect()
}

/// An owned copy of `s`.
pub fn owned(s: &str) -> (r: String)
    ensures
        r@ == s@,
{
    s.to_owned()
}

/// What `str::to_lowercase` returns (full Unicode case mapping).
pub uninterp spec fn unicode_lowercase(s: Seq<char>) -> Seq<char>;

/// `str::to_lowercase`: Unicode lowercase mapping of `s`.
#[verifier::external_body]
pub(crate) fn to_lowercase(s: &str) -> (r: String)
    ensures
        r@ == unicode_lowercase(s@),
{
    s.to_lowercase()
}

// ---------------------------------------------------------------------------
// Whitespace and trimming
// ---------------------------------------------------------------------------

/// Unicode `White_Space`, the set `char::is_whitespace` tests.
pub open spec fn is_ws(c: char) -> bool {
    let u = c as u32;
    ||| 0x09 <= u <= 0x0d
    ||| u == 0x20
    ||| u == 0x85
    ||| u == 0xa0
    ||| u == 0x1680
    ||| 0x2000 <= u <= 0x200a
    ||| u == 0x2028
    ||| u == 0x2029
    ||| u == 0x202f
    ||| u == 0x205f
    ||| u == 0x3000
}

pub fn is_whitespace(c: char) -> (r: bool)
    ensures
        r == is_ws(c),
{
    let u = c as u32;
    (0x09 <= u && u <= 0x0d) || u == 0x20 || u == 0x85 || u == 0xa0 || u == 0x1680 || (0x2000
        <= u && u <= 0x200a) || u == 0x2028 || u == 0x2029 || u == 0x202f || u == 0x205f || u
        == 0x3000
}

/// `s` without its leading whitespace.
pub open spec fn trim_start(s: Seq<char>) -> Seq<char>
    decreases s.len(),
{
    if s.len() > 0 && is_ws(s[0]) {
        trim_start(s.drop_first())
    } else {
        s
    }
}

/// `s` without its trailing whitespace.
pub open spec fn trim_end(s: Seq<char>) -> Seq<char>
    decreases s.len(),
{
    if s.len() > 0 && is_ws(s.last()) {
        trim_end(s.drop_last())
    } else {
        s
    }
}

/// `str::trim`: both ends stripped of whitespace.
pub open spec fn trim(s: Seq<char>) -> Seq<char> {
    trim_end(trim_start(s))
}

/// The index of the first non-whitespace character at or after `i`.
fn skip_ws_from(s: &Vec<char>, i: usize) -> (r: usize)
    requires
        i <= s.len(),
    ensures
        i <= r <= s.len(),
        trim_start(s@.subrange(i as int, s@.len() as int)) == trim_start(
            s@.subrange(r as int, s@.len() as int),
        ),
        r < s.len() ==> !is_ws(s@[r as int]),
{
    let mut k: usize = i;
    while k < s.len() && is_whitespace(s[k])
        invariant
            i <= k <= s.len(),
            trim_start(s@.subrange(i as int, s@.len() as int)) == trim_start(
                s@.subrange(k as int, s@.len() as int),
            ),
        decreases s.len() - k,
    {
        assert(s@.subrange(k as int, s@.len() as int).drop_first() =~= s@.subrange(
            k + 1,
            s@.len() as int,
        ));
        k = k + 1;
    }
    k
}

/// `str::trim` over characters.
pub fn trim_chars(s: &Vec<char>) -> (r: Vec<char>)
    ensures
        r@ == trim(s@),
{
    let start = skip_ws_from(s, 0);
    assert(s@.subrange(0, s@.len() as int) =~= s@);
    let ghost mid = s@.subrange(start as int, s@.len() as int);
    proof {
        if start < s.len() {
            assert(trim_start(mid) == mid);
        } else {
            assert(mid.len() == 0);
        }
    }
    let mut end: usize = s.len();
    while end > start && is_whitespace(s[end - 1])
        invariant
            start <= end <= s.len(),
            trim_end(mid) == trim_end(s@.subrange(start as int, end as int)),
            mid == s@.subrange(start as int, s@.len() as int),
        decreases end,
    {
        assert(s@.subrange(start as int, end as int).drop_last() =~= s@.subrange(
            start as int,
            end - 1,
        ));
        end = end - 1;
    }
    let r = slice_vec(s, start, end);
    proof {
        let t = s@.subrange(start as int, end as int);
        if t.len() > 0 {
            assert(t.last() == s@[end - 1]);
        }
        assert(trim_end(t) == t);
    }
    r
}

/// A copy of `s[from..to]`.
pub fn slice_vec(s: &Vec<char>, from: usize, to: usize) -> (r: Vec<char>)
    requires
        from <= to <= s.len(),
    ensures
        r@ == s@.subrange(from as int, to as int),
{
    let mut r: Vec<char> = Vec::new();
    let mut k: usize = from;
    while k < to
        invariant
            from <= k <= to <= s.len(),
            r@ == s@.subrange(from as int, k as int),
        decreases to - k,
    {
        r.push(s[k]);
        assert(r@ =~= s@.subrange(from as int, k + 1));
        k = k + 1;
    }
    r
}

/// Append all of `b` to `a`.
pub fn push_all(a: &mut Vec<char>, b: &Vec<char>)
    ensures
        final(a)@ == old(a)@ + b@,
{
    let mut k: usize = 0;
    while k < b.len()
        invariant
            k <= b.len(),
            a@ == old(a)@ + b@.subrange(0, k as int),
        decreases b.len() - k,
    {
        a.push(b[k]);
        assert(a@ =~= old(a)@ + b@.subrange(0, k + 1));
        k = k + 1;
    }
    assert(b@.subrange(0, b@.len() as int) =~= b@);
}

/// Append the characters of `s` to `a`.
pub fn push_str(a: &mut Vec<char>, s: &str)
    ensures
        final(a)@ == old(a)@ + s@,
{
    let cs = chars_of(s);
    push_all(a, &cs);
}

/// Character-sequence equality.
pub fn chars_eq(a: &Vec<char>, b: &Vec<char>) -> (r: bool)
    ensures
        r == (a@ == b@),
{
    if a.len() != b.len() {
        return false;
    }
    let mut k: usize = 0;
    while k < a.len()
        invariant
            k <= a.len() == b.len(),
            a@.subrange(0, k as int) == b@.subrange(0, k as int),
        decreases a.len() - k,
    {
        if a[k] != b[k] {
            assert(a@[k as int] != b@[k as int]);
            return false;
        }
        assert(a@.subrange(0, k + 1) =~= a@.subrange(0, k as int).push(a@[k as int]));
        assert(b@.subrange(0, k + 1) =~= b@.subrange(0, k as int).push(b@[k as int]));
        k = k + 1;
    }
    assert(a@ =~= a@.subrange(0, a@.len() as int));
    assert(b@ =~= b@.subrange(0, b@.len() as int));
    true
}

/// String equality by characters.
pub fn str_eq(a: &str, b: &str) -> (r: bool)
    ensures
        r == (a@ == b@),
{
    let x = chars_of(a);
    let y = chars_of(b);
    chars_eq(&x, &y)
}

// ---------------------------------------------------------------------------
// Searching and splitting
// ---------------------------------------------------------------------------

/// Does `c` occur in `s`?
pub open spec fn has_char(s: Seq<char>, c: char) -> bool {
    exists|i: int| 0 <= i < s.len() && s[i] == c
}

/// The first index of `c` in `s`, if any.
pub open spec fn index_of(s: Seq<char>, c: char) -> Option<int>
    decreases s.len(),
{
    if s.len() == 0 {
        None
    } else if s[0] == c {
        Some(0)
    } else {
        match index_of(s.drop_first(), c) {
            Some(i) => Some(i + 1),
            None => None,
        }
    }
}

/// `index_of` finds the first occurrence, and only fails when there is none.
pub proof fn lemma_index_of(s: Seq<char>, c: char)
    ensures
        match index_of(s, c) {
            Some(i) => 0 <= i < s.len() && s[i] == c && !has_char(s.subrange(0, i), c),
            None => !has_char(s, c),
        },
    decreases s.len(),
{
    if s.len() > 0 && s[0] != c {
        lemma_index_of(s.drop_first(), c);
        match index_of(s.drop_first(), c) {
            Some(i) => {
                assert forall|j: int| 0 <= j < i + 1 implies #[trigger] s.subrange(0, i + 1)[j]
                    != c by {
                    if j > 0 {
                        assert(s.subrange(0, i + 1)[j] == s.drop_first().subrange(0, i)[j - 1]);
                    }
                }
            },
            None => {
                assert forall|j: int| 0 <= j < s.len() implies #[trigger] s[j] != c by {
                    if j > 0 {
                        assert(s[j] == s.drop_first()[j - 1]);
                    }
                }
            },
        }
    }
}

pub fn find_char(s: &Vec<char>, c: char) -> (r: Option<usize>)
    ensures
        match r {
            Some(i) => index_of(s@, c) == Some(i as int),
            None => index_of(s@, c).is_none(),
        },
        match r {
            Some(i) => i < s.len() && s@[i as int] == c && !has_char(s@.subrange(0, i as int), c),
            None => !has_char(s@, c),
        },
{
    proof {
        lemma_index_of(s@, c);
    }
    let mut k: usize = 0;
    assert(s@.subrange(0, s@.len() as int) =~= s@);
    while k < s.len()
        invariant
            k <= s.len(),
            index_of(s@, c) == match index_of(s@.subrange(k as int, s@.len() as int), c) {
                Some(i) => Some(i + k),
                None => None,
            },
        decreases s.len() - k,
    {
        if s[k] == c {
            assert(s@.subrange(k as int, s@.len() as int)[0] == c);
            assert(index_of(s@.subrange(k as int, s@.len() as int), c) == Some(0int));
            proof {
                lemma_index_of(s@, c);
            }
            return Some(k);
        }
        assert(s@.subrange(k as int, s@.len() as int).drop_first() =~= s@.subrange(
            k + 1,
            s@.len() as int,
        ));
        k = k + 1;
    }
    None
}

/// The last index of `c` in `s`, if any.
pub open spec fn rindex_of(s: Seq<char>, c: char) -> Option<int>
    decreases s.len(),
{
    if s.len() == 0 {
        None
    } else if s.last() == c {
        Some(s.len() - 1)
    } else {
        rindex_of(s.drop_last(), c)
    }
}

pub proof fn lemma_rindex_of(s: Seq<char>, c: char)
    ensures
        match rindex_of(s, c) {
            Some(i) => 0 <= i < s.len() && s[i] == c && !has_char(s.subrange(i + 1, s.len() as int), c),
            None => !has_char(s, c),
        },
    decreases s.len(),
{
    if s.len() > 0 && s.last() != c {
        let t = s.drop_last();
        lemma_rindex_of(t, c);
        match rindex_of(t, c) {
            Some(i) => {
                assert forall|j: int| 0 <= j < s.len() - (i + 1) implies #[trigger] s.subrange(
                    i + 1,
                    s.len() as int,
                )[j] != c by {
                    if j < t.len() - (i + 1) {
                        assert(s.subrange(i + 1, s.len() as int)[j] == t.subrange(
                            i + 1,
                            t.len() as int,
                        )[j]);
                    }
                }
            },
            None => {
                assert forall|j: int| 0 <= j < s.len() implies s[j] != c by {
                    if j < t.len() {
                        assert(s[j] == t[j]);
                    }
                }
            },
        }
    } else if s.len() > 0 {
        assert(s.subrange(s.len() as int, s.len() as int).len() == 0);
    }
}

/// The last index of `c` in `s`, if any.
pub fn rfind_char(s: &Vec<char>, c: char) -> (r: Option<usize>)
    ensures
        match r {
            Some(i) => i < s.len() && s@[i as int] == c && !has_char(
                s@.subrange(i + 1, s@.len() as int),
                c,
            ) && rindex_of(s@, c) == Some(i as int),
            None => !has_char(s@, c) && rindex_of(s@, c).is_none(),
        },
{
    proof {
        lemma_rindex_of(s@, c);
    }
    let mut k: usize = s.len();
    while k > 0
        invariant
            k <= s.len(),
            !has_char(s@.subrange(k as int, s@.len() as int), c),
        decreases k,
    {
        if s[k - 1] == c {
            proof {
                lemma_rindex_of(s@, c);
                match rindex_of(s@, c) {
                    Some(i) => {
                        if i < k - 1 {
                            assert(s@.subrange(i + 1, s@.len() as int)[k - 1 - (i + 1)] == c);
                        } else if i > k - 1 {
                            assert(s@.subrange(k as int, s@.len() as int)[i - k] == c);
                        }
                    },
                    None => {
                        assert(s@[k - 1] == c);
                    },
                }
            }
            return Some(k - 1);
        }
        assert forall|j: int| 0 <= j < s@.len() - (k - 1) implies #[trigger] s@.subrange(
            k - 1,
            s@.len() as int,
        )[j] != c by {
            if j > 0 {
                assert(s@.subrange(k - 1, s@.len() as int)[j] == s@.subrange(
                    k as int,
                    s@.len() as int,
                )[j - 1]);
            }
        }
        k = k - 1;
    }
    assert(s@.subrange(0, s@.len() as int) =~= s@);
    None
}

/// `str::split_once` on a single character: the text before and after the
/// first occurrence of `d`.
pub open spec fn split_once(s: Seq<char>, d: char) -> Option<(Seq<char>, Seq<char>)> {
    match index_of(s, d) {
        Some(i) => Some((s.subrange(0, i), s.subrange(i + 1, s.len() as int))),
        None => None,
    }
}

/// `c` equals `p` once ASCII upper case is folded to lower case.
pub open spec fn eq_fold(c: char, p: char) -> bool {
    c == p || ('A' <= c <= 'Z' && (c as u32) + 32 == p as u32)
}

/// `p` occurs in `s` at `i`, ignoring ASCII case in `s`.
pub open spec fn occurs_fold_at(s: Seq<char>, p: Seq<char>, i: int) -> bool {
    &&& 0 <= i
    &&& i + p.len() <= s.len()
    &&& forall|j: int| 0 <= j < p.len() ==> eq_fold(#[trigger] s[i + j], p[j])
}

/// `p` occurs somewhere in `s`, ignoring ASCII case in `s`.
pub open spec fn contains_fold(s: Seq<char>, p: Seq<char>) -> bool {
    exists|i: int| occurs_fold_at(s, p, i)
}

pub fn split_once_chars(s: &Vec<char>, d: char) -> (r: Option<(Vec<char>, Vec<char>)>)
    ensures
        match r {
            Some((a, b)) => split_once(s@, d) == Some((a@, b@)),
            None => split_once(s@, d).is_none(),
        },
{
    match find_char(s, d) {
        Some(i) => {
            let a = slice_vec(s, 0, i);
            let b = slice_vec(s, i + 1, s.len());
            Some((a, b))
        },
        None => None,
    }
}

/// `str::split` on a single character: the pieces between occurrences of
/// `d` (always at least one, possibly empty).
pub open spec fn split_on(s: Seq<char>, d: char) -> Seq<Seq<char>>
    decreases s.len(),
{
    if s.len() == 0 {
        seq![Seq::<char>::empty()]
    } else {
        let prev = split_on(s.drop_last(), d);
        if s.last() == d {
            prev.push(Seq::<char>::empty())
        } else {
            prev.update(prev.len() - 1, prev.last().push(s.last()))
        }
    }
}

pub proof fn lemma_split_nonempty(s: Seq<char>, d: char)
    ensures
        split_on(s, d).len() >= 1,
    decreases s.len(),
{
    if s.len() > 0 {
        lemma_split_nonempty(s.drop_last(), d);
    }
}

/// The views of a vector of character vectors.
pub open spec fn views(v: Seq<Vec<char>>) -> Seq<Seq<char>> {
    v.map_values(|x: Vec<char>| x@)
}

pub fn split_chars(s: &Vec<char>, d: char) -> (r: Vec<Vec<char>>)
    ensures
        views(r@) == split_on(s@, d),
{
    let mut done: Vec<Vec<char>> = Vec::new();
    let mut cur: Vec<char> = Vec::new();
    let mut k: usize = 0;
    assert(s@.subrange(0, 0) =~= Seq::<char>::empty());
    assert(views(done@).push(cur@) =~= split_on(s@.subrange(0, 0), d));
    while k < s.len()
        invariant
            k <= s.len(),
            views(done@).push(cur@) == split_on(s@.subrange(0, k as int), d),
        decreases s.len() - k,
    {
        let ghost pre = s@.subrange(0, k as int);
        let ghost next = s@.subrange(0, k + 1);
        assert(next.drop_last() =~= pre);
        assert(next.last() == s@[k as int]);
        proof {
            lemma_split_nonempty(pre, d);
        }
        if s[k] == d {
            done.push(cur);
            cur = Vec::new();
            assert(views(done@).push(cur@) =~= split_on(next, d));
        } else {
            cur.push(s[k]);
            assert(views(done@).push(cur@) =~= split_on(next, d));
        }
        k = k + 1;
    }
    done.push(cur);
    assert(s@.subrange(0, s@.len() as int) =~= s@);
    assert(views(done@) =~= split_on(s@, d));
    done
}

// ---------------------------------------------------------------------------
// Lines
// ---------------------------------------------------------------------------

/// `str::lines`: pieces between `'\n'`, each without a trailing `'\r'`; a
/// final empty piece (text ending in a newline, or empty text) is dropped.
pub open spec fn lines(s: Seq<char>) -> Seq<Seq<char>> {
    let pieces = split_on(s, '\n');
    let kept = if pieces.last().len() == 0 {
        pieces.drop_last()
    } else {
        pieces
    };
    kept.map_values(|p: Seq<char>| strip_cr(p))
}

/// A line without its trailing carriage return.
pub open spec fn strip_cr(p: Seq<char>) -> Seq<char> {
    if p.len() > 0 && p.last() == '\r' {
        p.drop_last()
    } else {
        p
    }
}

pub fn strip_cr_chars(p: Vec<char>) -> (r: Vec<char>)
    ensures
        r@ == strip_cr(p@),
{
    let mut p = p;
    if p.len() > 0 && p[p.len() - 1] == '\r' {
        p.pop();
    }
    p
}

pub fn lines_of(text: &str) -> (r: Vec<Vec<char>>)
    ensures
        views(r@) == lines(text@),
{
    let cs = chars_of(text);
    let mut pieces = split_chars(&cs, '\n');
    proof {
        lemma_split_nonempty(cs@, '\n');
    }
    let n: usize = pieces.len();
    if pieces[n - 1].len() == 0 {
        pieces.pop();
    }
    let ghost kept = views(pieces@);
    assert(kept == {
        let ps = split_on(text@, '\n');
        if ps.last().len() == 0 {
            ps.drop_last()
        } else {
            ps
        }
    }) by {
        assert(views(pieces@) =~= (if split_on(text@, '\n').last().len() == 0 {
            split_on(text@, '\n').drop_last()
        } else {
            split_on(text@, '\n')
        }));
    }
    let mut out: Vec<Vec<char>> = Vec::new();
    let mut k: usize = 0;
    while k < pieces.len()
        invariant
            k <= pieces.len(),
            kept == views(pieces@),
            views(out@) == kept.subrange(0, k as int).map_values(|p: Seq<char>| strip_cr(p)),
        decreases pieces.len() - k,
    {
        let p = pieces[k].clone();
        assert(p@ == kept[k as int]);
        let q = strip_cr_chars(p);
        let ghost before = out@;
        out.push(q);
        assert(views(out@) =~= views(before).push(q@));
        assert(kept.subrange(0, k + 1) =~= kept.subrange(0, k as int).push(kept[k as int]));
        assert(views(out@) =~= kept.subrange(0, k + 1).map_values(|p: Seq<char>| strip_cr(p)));
        k = k + 1;
    }
    assert(kept.subrange(0, kept.len() as int) =~= kept);
    out
}

// ---------------------------------------------------------------------------
// Prefixes
// ---------------------------------------------------------------------------

pub open spec fn starts_with(s: Seq<char>, p: Seq<char>) -> bool {
    p.len() <= s.len() && s.subrange(0, p.len() as int) == p
}

pub fn starts_with_chars(s: &Vec<char>, p: &Vec<char>) -> (r: bool)
    ensures
        r == starts_with(s@, p@),
{
    if p.len() > s.len() {
        return false;
    }
    let head = slice_vec(s, 0, p.len());
    chars_eq(&head, p)
}

/// `str::trim_start_matches` for one character: all leading `c`s removed.
pub open spec fn trim_start_char(s: Seq<char>, c: char) -> Seq<char>
    decreases s.len(),
{
    if s.len() > 0 && s[0] == c {
        trim_start_char(s.drop_first(), c)
    } else {
        s
    }
}

/// `str::trim_end_matches` for one character: all trailing `c`s removed.
pub open spec fn trim_end_char(s: Seq<char>, c: char) -> Seq<char>
    decreases s.len(),
{
    if s.len() > 0 && s.last() == c {
        trim_end_char(s.drop_last(), c)
    } else {
        s
    }
}

pub fn trim_start_char_chars(s: &Vec<char>, c: char) -> (r: Vec<char>)
    ensures
        r@ == trim_start_char(s@, c),
{
    let mut k: usize = 0;
    assert(s@.subrange(0, s@.len() as int) =~= s@);
    while k < s.len() && s[k] == c
        invariant
            k <= s.len(),
            trim_start_char(s@, c) == trim_start_char(s@.subrange(k as int, s@.len() as int), c),
        decreases s.len() - k,
    {
        assert(s@.subrange(k as int, s@.len() as int).drop_first() =~= s@.subrange(
            k + 1,
            s@.len() as int,
        ));
        k = k + 1;
    }
    slice_vec(s, k, s.len())
}

pub fn trim_end_char_chars(s: &Vec<char>, c: char) -> (r: Vec<char>)
    ensures
        r@ == trim_end_char(s@, c),
{
    let mut k: usize = s.len();
    assert(s@.subrange(0, s@.len() as int) =~= s@);
    while k > 0 && s[k - 1] == c
        invariant
            k <= s.len(),
            trim_end_char(s@, c) == trim_end_char(s@.subrange(0, k as int), c),
        decreases k,
    {
        assert(s@.subrange(0, k as int).drop_last() =~= s@.subrange(0, k - 1));
        k = k - 1;
    }
    proof {
        let t = s@.subrange(0, k as int);
        if t.len() > 0 {
            assert(t.last() == s@[k - 1]);
        }
    }
    slice_vec(s, 0, k)
}

// ---------------------------------------------------------------------------
// Decimal numbers
// ---------------------------------------------------------------------------

/// The decimal digit character for `d < 10`.
pub open spec fn digit_char(d: nat) -> char {
    ((48 + d) as u8) as char
}

/// `u64` formatted in decimal (`Display`), without leading zeros.
pub open spec fn dec(n: nat) -> Seq<char>
    decreases n,
{
    if n < 10 {
        seq![digit_char(n)]
    } else {
        dec(n / 10).push(digit_char(n % 10))
    }
}

/// `i64` formatted in decimal (`Display`): a leading `-` for negatives.
pub open spec fn dec_int(n: int) -> Seq<char> {
    if n < 0 {
        seq!['-'] + dec((-n) as nat)
    } else {
        dec(n as nat)
    }
}

pub fn digit(d: u64) -> (c: char)
    requires
        d < 10,
    ensures
        c == digit_char(d as nat),
{
    let b: u8 = 48u8 + d as u8;
    b as char
}

/// Decimal rendering of `n`.
pub fn u64_to_dec(n: u64) -> (r: Vec<char>)
    ensures
        r@ == dec(n as nat),
    decreases n,
{
    if n < 10 {
        let mut v = Vec::new();
        v.push(digit(n));
        v
    } else {
        let mut v = u64_to_dec(n / 10);
        v.push(digit(n % 10));
        v
    }
}

/// Decimal rendering of a signed `n`.
pub fn i64_to_dec(n: i64) -> (r: Vec<char>)
    ensures
        r@ == dec_int(n as int),
{
    if n < 0 {
        let mag: u64 = if n == i64::MIN {
            9223372036854775808u64
        } else {
            (-n) as u64
        };
        let mut v = Vec::new();
        v.push('-');
        let d = u64_to_dec(mag);
        push_all(&mut v, &d);
        assert(v@ =~= seq!['-'] + dec((-(n as int)) as nat));
        v
    } else {
        u64_to_dec(n as u64)
    }
}


// ---------------------------------------------------------------------------
// Substrings
// ---------------------------------------------------------------------------

/// The first index at or after `i` where `p` occurs in `s`.
pub open spec fn sub_index_from(s: Seq<char>, p: Seq<char>, i: int) -> Option<int>
    decreases s.len() + 1 - i,
{
    if i < 0 || i + p.len() > s.len() {
        None
    } else if s.subrange(i, i + p.len()) == p {
        Some(i)
    } else {
        sub_index_from(s, p, i + 1)
    }
}

/// `str::split_once` with a string pattern: the text before and after the
/// first occurrence of `p`.
pub open spec fn split_once_str(s: Seq<char>, p: Seq<char>) -> Option<(Seq<char>, Seq<char>)> {
    match sub_index_from(s, p, 0) {
        Some(i) => Some((s.subrange(0, i), s.subrange(i + p.len(), s.len() as int))),
        None => None,
    }
}

pub proof fn lemma_sub_index_bounds(s: Seq<char>, p: Seq<char>, i: int)
    ensures
        sub_index_from(s, p, i) matches Some(j) ==> i <= j && j + p.len() <= s.len() && s.subrange(
            j,
            j + p.len(),
        ) == p,
    decreases s.len() + 1 - i,
{
    if !(i < 0 || i + p.len() > s.len()) && s.subrange(i, i + p.len()) != p {
        lemma_sub_index_bounds(s, p, i + 1);
    }
}

pub fn split_once_str_chars(s: &Vec<char>, p: &Vec<char>) -> (r: Option<(Vec<char>, Vec<char>)>)
    ensures
        match r {
            Some((a, b)) => split_once_str(s@, p@) == Some((a@, b@)),
            None => split_once_str(s@, p@).is_none(),
        },
{
    if p.len() > s.len() {
        return None;
    }
    if p.len() == 0 {
        assert(s@.subrange(0, 0) =~= p@);
        assert(s@.subrange(0, s@.len() as int) =~= s@);
        return Some((Vec::new(), slice_vec(s, 0, s.len())));
    }
    let last: usize = s.len() - p.len();
    let mut i: usize = 0;
    while i <= last
        invariant
            last == s.len() - p.len(),
            p.len() > 0,
            i <= last + 1,
            sub_index_from(s@, p@, 0) == sub_index_from(s@, p@, i as int),
        decreases last + 1 - i,
    {
        let piece = slice_vec(s, i, i + p.len());
        if chars_eq(&piece, p) {
            let a = slice_vec(s, 0, i);
            let b = slice_vec(s, i + p.len(), s.len());
            return Some((a, b));
        }
        i = i + 1;
    }
    None
}

// ---------------------------------------------------------------------------
// Whitespace-separated tokens
// ---------------------------------------------------------------------------

/// The length of the run of non-whitespace characters that `t` starts with.
pub open spec fn token_len(t: Seq<char>) -> nat
    decreases t.len(),
{
    if t.len() == 0 || is_ws(t[0]) {
        0
    } else {
        1 + token_len(t.drop_first())
    }
}

pub proof fn lemma_token_len(t: Seq<char>)
    ensures
        token_len(t) <= t.len(),
    decreases t.len(),
{
    if t.len() > 0 && !is_ws(t[0]) {
        lemma_token_len(t.drop_first());
    }
}

/// The first `split_whitespace` token of `s`, and the text after it.
pub open spec fn next_token(s: Seq<char>) -> Option<(Seq<char>, Seq<char>)> {
    let t = trim_start(s);
    if t.len() == 0 {
        None
    } else {
        let k = token_len(t) as int;
        Some((t.subrange(0, k), t.subrange(k, t.len() as int)))
    }
}

pub fn next_token_chars(s: &Vec<char>) -> (r: Option<(Vec<char>, Vec<char>)>)
    ensures
        match r {
            Some((a, b)) => next_token(s@) == Some((a@, b@)),
            None => next_token(s@).is_none(),
        },
{
    let start = skip_ws_from(s, 0);
    assert(s@.subrange(0, s@.len() as int) =~= s@);
    let ghost t = s@.subrange(start as int, s@.len() as int);
    proof {
        if start < s.len() {
            assert(trim_start(t) == t);
        } else {
            assert(t.len() == 0);
        }
    }
    if start == s.len() {
        return None;
    }
    let mut end: usize = start;
    while end < s.len() && !is_whitespace(s[end])
        invariant
            start <= end <= s.len(),
            t == s@.subrange(start as int, s@.len() as int),
            token_len(t) == (end - start) + token_len(s@.subrange(end as int, s@.len() as int)),
        decreases s.len() - end,
    {
        let ghost u = s@.subrange(end as int, s@.len() as int);
        assert(u[0] == s@[end as int]);
        assert(u.drop_first() =~= s@.subrange(end + 1, s@.len() as int));
        end = end + 1;
    }
    proof {
        let u = s@.subrange(end as int, s@.len() as int);
        if end < s.len() {
            assert(u[0] == s@[end as int]);
        }
        assert(t.subrange(0, (end - start) as int) =~= s@.subrange(start as int, end as int));
        assert(t.subrange((end - start) as int, t.len() as int) =~= s@.subrange(
            end as int,
            s@.len() as int,
        ));
    }
    Some((slice_vec(s, start, end), slice_vec(s, end, s.len())))
}

// ---------------------------------------------------------------------------
// Parsing decimal numbers (`FromStr` for the integer types)
// ---------------------------------------------------------------------------

pub open spec fn is_digit(c: char) -> bool {
    '0' <= c <= '9'
}

pub open spec fn all_digits(s: Seq<char>) -> bool {
    forall|i: int| 0 <= i < s.len() ==> is_digit(#[trigger] s[i])
}

/// The value of a string of ASCII digits.
pub open spec fn digits_value(s: Seq<char>) -> nat
    decreases s.len(),
{
    if s.len() == 0 {
        0
    } else {
        digits_value(s.drop_last()) * 10 + ((s.last() as int) - 48) as nat
    }
}

/// One or more ASCII digits whose value is at most `max`.
pub open spec fn digits_at_most(body: Seq<char>, max: nat) -> Option<nat> {
    if body.len() > 0 && all_digits(body) && digits_value(body) <= max {
        Some(digits_value(body))
    } else {
        None
    }
}

/// `FromStr` for an unsigned integer type whose largest value is `max`: an
/// optional `+`, then one or more ASCII digits, with a value not above `max`.
pub open spec fn parse_unsigned(s: Seq<char>, max: nat) -> Option<nat> {
    if s.len() > 0 && s[0] == '+' {
        digits_at_most(s.drop_first(), max)
    } else {
        digits_at_most(s, max)
    }
}

/// `FromStr for i64`: an optional sign, then one or more ASCII digits, with
/// a value in range.
pub open spec fn parse_i64_spec(s: Seq<char>) -> Option<int> {
    if s.len() > 0 && s[0] == '-' {
        match digits_at_most(s.drop_first(), 0x8000_0000_0000_0000) {
            Some(v) => Some(-v),
            None => None,
        }
    } else {
        match parse_unsigned(s, 0x7fff_ffff_ffff_ffff) {
            Some(v) => Some(v as int),
            None => None,
        }
    }
}

/// A prefix of a digit string is worth no more than the whole.
pub proof fn lemma_digits_prefix(s: Seq<char>, k: int)
    requires
        all_digits(s),
        0 <= k <= s.len(),
    ensures
        digits_value(s.subrange(0, k)) <= digits_value(s),
    decreases s.len(),
{
    if k < s.len() {
        let t = s.drop_last();
        assert forall|i: int| 0 <= i < t.len() implies is_digit(#[trigger] t[i]) by {
            assert(t[i] == s[i]);
        }
        lemma_digits_prefix(t, k);
        assert(t.subrange(0, k) =~= s.subrange(0, k));
    } else {
        assert(s.subrange(0, k) =~= s);
    }
}

/// The digits `s[from..]`, read as a number not above `max`.
fn digits_from(s: &Vec<char>, from: usize, max: u64) -> (r: Option<u64>)
    requires
        from <= s.len(),
    ensures
        match r {
            Some(v) => digits_at_most(s@.subrange(from as int, s@.len() as int), max as nat) == Some(
                v as nat,
            ),
            None => digits_at_most(s@.subrange(from as int, s@.len() as int), max as nat).is_none(),
        },
{
    let ghost body = s@.subrange(from as int, s@.len() as int);
    if from >= s.len() {
        return None;
    }
    let mut acc: u64 = 0;
    let mut k: usize = from;
    assert(s@.subrange(from as int, from as int) =~= Seq::<char>::empty());
    while k < s.len()
        invariant
            from <= k <= s.len(),
            body == s@.subrange(from as int, s@.len() as int),
            all_digits(s@.subrange(from as int, k as int)),
            acc as nat == digits_value(s@.subrange(from as int, k as int)),
            acc <= max,
        decreases s.len() - k,
    {
        let c = s[k];
        assert(body[k - from] == c);
        if !('0' <= c && c <= '9') {
            assert(!all_digits(body));
            return None;
        }
        let d: u64 = ((c as u32) - 48) as u64;
        let next: u128 = (acc as u128) * 10 + (d as u128);
        let ghost pre = s@.subrange(from as int, k + 1);
        assert(pre.drop_last() =~= s@.subrange(from as int, k as int));
        assert(pre.last() == c);
        assert(next == digits_value(pre));
        assert forall|i: int| 0 <= i < pre.len() implies is_digit(#[trigger] pre[i]) by {
            if i < pre.len() - 1 {
                assert(pre[i] == s@.subrange(from as int, k as int)[i]);
            }
        }
        if next > max as u128 {
            proof {
                if all_digits(body) {
                    assert(body.subrange(0, k + 1 - from) =~= pre);
                    lemma_digits_prefix(body, k + 1 - from);
                }
            }
            return None;
        }
        acc = next as u64;
        k = k + 1;
    }
    Some(acc)
}

/// `str::parse` for an unsigned integer type whose largest value is `max`.
pub fn parse_unsigned_chars(s: &Vec<char>, max: u64) -> (r: Option<u64>)
    ensures
        match r {
            Some(v) => parse_unsigned(s@, max as nat) == Some(v as nat),
            None => parse_unsigned(s@, max as nat).is_none(),
        },
{
    if s.len() > 0 && s[0] == '+' {
        assert(s@.drop_first() =~= s@.subrange(1, s@.len() as int));
        digits_from(s, 1, max)
    } else {
        assert(s@ =~= s@.subrange(0, s@.len() as int));
        digits_from(s, 0, max)
    }
}

/// `str::parse::<u32>`.
pub fn parse_u32(s: &Vec<char>) -> (r: Option<u32>)
    ensures
        match r {
            Some(v) => parse_unsigned(s@, u32::MAX as nat) == Some(v as nat),
            None => parse_unsigned(s@, u32::MAX as nat).is_none(),
        },
{
    match parse_unsigned_chars(s, 0xffff_ffff) {
        Some(v) => Some(v as u32),
        None => None,
    }
}

/// `str::parse::<u16>`.
pub fn parse_u16(s: &Vec<char>) -> (r: Option<u16>)
    ensures
        match r {
            Some(v) => parse_unsigned(s@, u16::MAX as nat) == Some(v as nat),
            None => parse_unsigned(s@, u16::MAX as nat).is_none(),
        },
{
    match parse_unsigned_chars(s, 0xffff) {
        Some(v) => Some(v as u16),
        None => None,
    }
}

/// `str::parse::<i64>`.
pub fn parse_i64(s: &Vec<char>) -> (r: Option<i64>)
    ensures
        match r {
            Some(v) => parse_i64_spec(s@) == Some(v as int),
            None => parse_i64_spec(s@).is_none(),
        },
{
    if s.len() > 0 && s[0] == '-' {
        assert(s@.drop_first() =~= s@.subrange(1, s@.len() as int));
        match digits_from(s, 1, 0x8000_0000_0000_0000) {
            Some(v) => {
                if v == 0x8000_0000_0000_0000 {
                    Some(i64::MIN)
                } else {
                    Some(-(v as i64))
                }
            },
            None => None,
        }
    } else {
        match parse_unsigned_chars(s, 0x7fff_ffff_ffff_ffff) {
            Some(v) => Some(v as i64),
            None => None,
        }
    }
}

// ---------------------------------------------------------------------------
// Octal numbers
// ---------------------------------------------------------------------------

pub open spec fn is_oct_digit(c: char) -> bool {
    '0' <= c <= '7'
}

pub open spec fn all_oct_digits(s: Seq<char>) -> bool {
    forall|i: int| 0 <= i < s.len() ==> is_oct_digit(#[trigger] s[i])
}

/// The value of a string of octal digits.
pub open spec fn oct_value(s: Seq<char>) -> nat
    decreases s.len(),
{
    if s.len() == 0 {
        0
    } else {
        oct_value(s.drop_last()) * 8 + ((s.last() as int) - 48) as nat
    }
}

pub open spec fn oct_at_most(body: Seq<char>, max: nat) -> Option<nat> {
    if body.len() > 0 && all_oct_digits(body) && oct_value(body) <= max {
        Some(oct_value(body))
    } else {
        None
    }
}

/// `u32::from_str_radix(s, 8)`: an optional `+`, then one or more octal
/// digits, with a value that fits.
pub open spec fn parse_octal(s: Seq<char>) -> Option<nat> {
    if s.len() > 0 && s[0] == '+' {
        oct_at_most(s.drop_first(), u32::MAX as nat)
    } else {
        oct_at_most(s, u32::MAX as nat)
    }
}

proof fn lemma_oct_prefix(s: Seq<char>, k: int)
    requires
        all_oct_digits(s),
        0 <= k <= s.len(),
    ensures
        oct_value(s.subrange(0, k)) <= oct_value(s),
    decreases s.len(),
{
    if k < s.len() {
        let t = s.drop_last();
        assert forall|i: int| 0 <= i < t.len() implies is_oct_digit(#[trigger] t[i]) by {
            assert(t[i] == s[i]);
        }
        lemma_oct_prefix(t, k);
        assert(t.subrange(0, k) =~= s.subrange(0, k));
    } else {
        assert(s.subrange(0, k) =~= s);
    }
}

fn oct_from(s: &Vec<char>, from: usize) -> (r: Option<u32>)
    requires
        from <= s.len(),
    ensures
        match r {
            Some(v) => oct_at_most(s@.subrange(from as int, s@.len() as int), u32::MAX as nat)
                == Some(v as nat),
            None => oct_at_most(s@.subrange(from as int, s@.len() as int), u32::MAX as nat).is_none(),
        },
{
    let ghost body = s@.subrange(from as int, s@.len() as int);
    if from >= s.len() {
        return None;
    }
    let mut acc: u64 = 0;
    let mut k: usize = from;
    assert(s@.subrange(from as int, from as int) =~= Seq::<char>::empty());
    while k < s.len()
        invariant
            from <= k <= s.len(),
            body == s@.subrange(from as int, s@.len() as int),
            all_oct_digits(s@.subrange(from as int, k as int)),
            acc as nat == oct_value(s@.subrange(from as int, k as int)),
            acc <= u32::MAX,
        decreases s.len() - k,
    {
        let c = s[k];
        assert(body[k - from] == c);
        if !('0' <= c && c <= '7') {
            assert(!all_oct_digits(body));
            return None;
        }
        let d: u64 = ((c as u32) - 48) as u64;
        let next: u64 = acc * 8 + d;
        let ghost pre = s@.subrange(from as int, k + 1);
        assert(pre.drop_last() =~= s@.subrange(from as int, k as int));
        assert(pre.last() == c);
        assert(next == oct_value(pre));
        assert forall|i: int| 0 <= i < pre.len() implies is_oct_digit(#[trigger] pre[i]) by {
            if i < pre.len() - 1 {
                assert(pre[i] == s@.subrange(from as int, k as int)[i]);
            }
        }
        if next > 0xffff_ffff {
            proof {
                if all_oct_digits(body) {
                    assert(body.subrange(0, k + 1 - from) =~= pre);
                    lemma_oct_prefix(body, k + 1 - from);
                }
            }
            return None;
        }
        acc = next;
        k = k + 1;
    }
    Some(acc as u32)
}

/// `u32::from_str_radix(s, 8)`.
pub fn parse_octal_chars(s: &Vec<char>) -> (r: Option<u32>)
    ensures
        match r {
            Some(v) => parse_octal(s@) == Some(v as nat),
            None => parse_octal(s@).is_none(),
        },
{
    if s.len() > 0 && s[0] == '+' {
        assert(s@.drop_first() =~= s@.subrange(1, s@.len() as int));
        oct_from(s, 1)
    } else {
        assert(s@ =~= s@.subrange(0, s@.len() as int));
        oct_from(s, 0)
    }
}

/// The decimal form of `n`: one or more digits worth `n`.
pub proof fn lemma_dec_digits(n: nat)
    ensures
        dec(n).len() > 0,
        all_digits(dec(n)),
        digits_value(dec(n)) == n,
    decreases n,
{
    if n < 10 {
        let s = dec(n);
        assert(s.drop_last() =~= Seq::<char>::empty());
        assert(digit_char(n) as int == 48 + n);
        assert(digits_value(s) == digits_value(s.drop_last()) * 10 + ((s.last() as int) - 48) as nat);
        assert(digits_value(Seq::<char>::empty()) == 0);
    } else {
        lemma_dec_digits(n / 10);
        let s = dec(n);
        let d = (n % 10) as nat;
        assert(s.drop_last() =~= dec(n / 10));
        assert(s.last() == digit_char(d));
        assert(digit_char(d) as int == 48 + d);
        let q = n / 10;
        assert(q * 10 + d == n) by (nonlinear_arith)
            requires
                q == n / 10,
                d == n % 10,
        ;
        assert(digits_value(s) == digits_value(s.drop_last()) * 10 + ((s.last() as int) - 48) as nat);
        assert forall|i: int| 0 <= i < s.len() implies is_digit(#[trigger] s[i]) by {
            if i < s.len() - 1 {
                assert(s[i] == dec(n / 10)[i]);
            }
        }
    }
}

/// Numbers read back: the decimal form of any `n` up to `max` parses as
/// `n` (as a port, a size, a count).
pub proof fn law_parse_unsigned_dec(n: nat, max: nat)
    requires
        n <= max,
    ensures
        parse_unsigned(dec(n), max) == Some(n),
{
    lemma_dec_digits(n);
    assert(is_digit(dec(n)[0]));
}

} // verus!
