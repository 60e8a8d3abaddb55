//! Character-level helpers shared by the table parser and the locator.

use vstd::prelude::*;
use vstd::string::*;

verus! {

/// The Unicode `White_Space` property, which `char::is_whitespace` tests.
pub open spec fn is_ws(c: char) -> bool {
    let u = c as u32;
    (0x9 <= u && u <= 0xD) || u == 0x20 || u == 0x85 || u == 0xA0 || u == 0x1680 || (0x2000 <= u
        && u <= 0x200A) || u == 0x2028 || u == 0x2029 || u == 0x202F || u == 0x205F || u == 0x3000
}

pub fn is_whitespace(c: char) -> (r: bool)
    ensures
        r == is_ws(c),
{
    let u = c as u32;
    (0x9 <= u && u <= 0xD) || u == 0x20 || u == 0x85 || u == 0xA0 || u == 0x1680 || (0x2000 <= u
        && u <= 0x200A) || u == 0x2028 || u == 0x2029 || u == 0x202F || u == 0x205F || u == 0x3000
}

/// True when every character is whitespace (the text trims to nothing).
pub open spec fn is_blank(s: Seq<char>) -> bool {
    forall|i: int| 0 <= i < s.len() ==> is_ws(#[trigger] s[i])
}

/// The maximal runs of non-whitespace characters of `s`, left to right.
pub open spec fn words(s: Seq<char>) -> Seq<Seq<char>>
    decreases s.len(),
{
    if s.len() == 0 {
        seq![]
    } else {
        let w = words(s.drop_last());
        let c = s.last();
        if is_ws(c) {
            w
        } else if s.len() >= 2 && !is_ws(s[s.len() - 2]) {
            w.update(w.len() - 1, w.last().push(c))
        } else {
            w.push(seq![c])
        }
    }
}

/// `s` begins with `key`.
pub open spec fn has_prefix(s: Seq<char>, key: Seq<char>) -> bool {
    key.len() <= s.len() && s.take(key.len() as int) == key
}

/// The characters of a string slice.
pub fn chars_of(s: &str) -> (r: Vec<char>)
    ensures
        r@ == s@,
{
    let n = s.unicode_len();
    let mut r: Vec<char> = Vec::new();
    let mut i: usize = 0;
    while i < n
        invariant
            n == s@.len(),
            i <= n,
            r@ == s@.take(i as int),
        decreases n - i,
    {
        r.push(s.get_char(i));
        i = i + 1;
        assert(r@ =~= s@.take(i as int));
    }
    assert(r@ =~= s@);
    r
}

/// Whether `t` holds exactly the characters of `lit`.
pub fn is_lit(t: &Vec<char>, lit: &str) -> (r: bool)
    ensures
        r == (t@ == lit@),
{
    let n = lit.unicode_len();
    if t.len() != n {
        return false;
    }
    let mut i: usize = 0;
    while i < n
        invariant
            n == lit@.len(),
            t@.len() == n,
            i <= n,
            forall|k: int| 0 <= k < i ==> t@[k] == lit@[k],
        decreases n - i,
    {
        if t[i] != lit.get_char(i) {
            return false;
        }
        i = i + 1;
    }
    assert(t@ =~= lit@);
    true
}

/// What follows `key` in `t`, where `t` begins with `key`.
pub fn strip_key(t: &Vec<char>, key: &str) -> (r: Option<Vec<char>>)
    ensures
        r is Some <==> has_prefix(t@, key@),
        r is Some ==> r->0@ == t@.skip(key@.len() as int),
{
    let n = key.unicode_len();
    if t.len() < n {
        return None;
    }
    let mut i: usize = 0;
    while i < n
        invariant
            n == key@.len(),
            n <= t@.len(),
            i <= n,
            forall|k: int| 0 <= k < i ==> t@[k] == key@[k],
        decreases n - i,
    {
        if t[i] != key.get_char(i) {
            assert(t@.take(n as int)[i as int] != key@[i as int]);
            return None;
        }
        i = i + 1;
    }
    assert(t@.take(n as int) =~= key@);
    let mut rest: Vec<char> = Vec::new();
    let mut j: usize = n;
    while j < t.len()
        invariant
            n <= j <= t@.len(),
            rest@ == t@.subrange(n as int, j as int),
        decreases t@.len() - j,
    {
        rest.push(t[j]);
        j = j + 1;
        assert(rest@ =~= t@.subrange(n as int, j as int));
    }
    assert(rest@ =~= t@.skip(n as int));
    Some(rest)
}

/// The views of a vector of character vectors.
pub open spec fn views(v: Seq<Vec<char>>) -> Seq<Seq<char>> {
    v.map_values(|t: Vec<char>| t@)
}

/// Splits `s` into its whitespace-separated words.
pub fn split_words(s: &Vec<char>) -> (r: Vec<Vec<char>>)
    ensures
        views(r@) == words(s@),
{
    let mut toks: Vec<Vec<char>> = Vec::new();
    let mut cur: Vec<char> = Vec::new();
    let mut i: usize = 0;
    while i < s.len()
        invariant
            i <= s@.len(),
            cur@.len() > 0 <==> (i > 0 && !is_ws(s@[i - 1])),
            cur@.len() > 0 ==> words(s@.take(i as int)) == views(toks@).push(cur@),
            cur@.len() == 0 ==> words(s@.take(i as int)) == views(toks@),
        decreases s@.len() - i,
    {
        let c = s[i];
        let ghost pre = s@.take(i as int);
        let ghost old_toks = toks@;
        let ghost old_cur = cur@;
        assert(s@.take(i + 1).drop_last() =~= pre);
        if is_whitespace(c) {
            if cur.len() > 0 {
                toks.push(cur);
                cur = Vec::new();
                assert(views(toks@) =~= views(old_toks).push(old_cur));
            }
        } else {
            let in_word = cur.len() > 0;
            cur.push(c);
            if in_word {
                assert(views(toks@).push(cur@) =~= views(old_toks).push(old_cur).update(
                    views(old_toks).len() as int,
                    old_cur.push(c),
                ));
            } else {
                assert(cur@ =~= seq![c]);
            }
        }
        i = i + 1;
    }
    assert(s@.take(i as int) =~= s@);
    if cur.len() > 0 {
        let ghost old_toks = toks@;
        let ghost old_cur = cur@;
        toks.push(cur);
        assert(views(toks@) =~= views(old_toks).push(old_cur));
    }
    toks
}

/// Relies on `String`'s `FromIterator<char>`: the string holds the characters
/// in order.
#[verifier::external_body]
pub(crate) fn string_from_chars(cs: &Vec<char>) -> (r: String)
    ensures
        r@ == cs@,
{
    cs.iter().collect()
}

/// The pieces of `s` between occurrences of `sep` (one more than there are
/// separators).
pub open spec fn split_on(s: Seq<char>, sep: char) -> Seq<Seq<char>>
    decreases s.len(),
{
    if s.len() == 0 {
        seq![seq![]]
    } else {
        let w = split_on(s.drop_last(), sep);
        if s.last() == sep {
            w.push(seq![])
        } else {
            w.update(w.len() - 1, w.last().push(s.last()))
        }
    }
}

/// The index at which the run of whitespace that ends at `i` begins.
pub open spec fn ws_begin(l: Seq<char>, i: int) -> int
    decreases i,
{
    if 0 < i <= l.len() && is_ws(l[i - 1]) {
        ws_begin(l, i - 1)
    } else {
        i
    }
}

/// The index at which the run of whitespace that starts at `i` ends.
pub open spec fn ws_end(l: Seq<char>, i: int) -> int
    decreases l.len() - i,
{
    if 0 <= i < l.len() && is_ws(l[i]) {
        ws_end(l, i + 1)
    } else {
        i
    }
}

/// `l` without leading and trailing whitespace.
pub open spec fn trim(l: Seq<char>) -> Seq<char> {
    let a = ws_end(l, 0);
    let b = ws_begin(l, l.len() as int);
    if a < b {
        l.subrange(a, b)
    } else {
        seq![]
    }
}

/// Trims whitespace from both ends.
pub fn trim_chars(l: &Vec<char>) -> (r: Vec<char>)
    ensures
        r@ == trim(l@),
{
    let mut a: usize = 0;
    while a < l.len() && is_whitespace(l[a])
        invariant
            a <= l@.len(),
            ws_end(l@, a as int) == ws_end(l@, 0),
        decreases l@.len() - a,
    {
        a = a + 1;
    }
    assert(ws_end(l@, a as int) == a);
    let mut b: usize = l.len();
    while b > 0 && is_whitespace(l[b - 1])
        invariant
            b <= l@.len(),
            ws_begin(l@, b as int) == ws_begin(l@, l@.len() as int),
        decreases b,
    {
        b = b - 1;
    }
    assert(ws_begin(l@, b as int) == b);
    let mut r: Vec<char> = Vec::new();
    if a < b {
        let mut k: usize = a;
        while k < b
            invariant
                a <= k <= b,
                b <= l@.len(),
                r@ == l@.subrange(a as int, k as int),
            decreases b - k,
        {
            r.push(l[k]);
            k = k + 1;
            assert(r@ =~= l@.subrange(a as int, k as int));
        }
    }
    assert(a >= b ==> r@ =~= seq![]);
    r
}

/// Splits `s` at every `sep`.
pub fn split_chars(s: &Vec<char>, sep: char) -> (r: Vec<Vec<char>>)
    ensures
        views(r@) == split_on(s@, sep),
{
    let mut out: Vec<Vec<char>> = Vec::new();
    let mut cur: Vec<char> = Vec::new();
    let mut i: usize = 0;
    while i < s.len()
        invariant
            i <= s@.len(),
            split_on(s@.take(i as int), sep) == views(out@).push(cur@),
        decreases s@.len() - i,
    {
        let c = s[i];
        assert(s@.take(i + 1).drop_last() =~= s@.take(i as int));
        if c == sep {
            let ghost old_out = out@;
            let ghost old_cur = cur@;
            out.push(cur);
            cur = Vec::new();
            assert(views(out@) =~= views(old_out).push(old_cur));
        } else {
            let ghost old_cur = cur@;
            cur.push(c);
            assert(views(out@).push(old_cur).update(views(out@).len() as int, old_cur.push(c))
                =~= views(out@).push(cur@));
        }
        i = i + 1;
    }
    assert(s@.take(i as int) =~= s@);
    let ghost old_out = out@;
    let ghost last = cur@;
    out.push(cur);
    assert(views(out@) =~= views(old_out).push(last));
    out
}

} // verus!
