//! Text as the library compares and renders it.

use vstd::prelude::*;
use vstd::string::*;

verus! {

/// Unicode white space.
pub open spec fn is_space(c: char) -> bool {
    ||| '\u{9}' <= c <= '\u{d}'
    ||| c == ' '
    ||| c == '\u{85}'
    ||| c == '\u{a0}'
    ||| c == '\u{1680}'
    ||| '\u{2000}' <= c <= '\u{200a}'
    ||| c == '\u{2028}'
    ||| c == '\u{2029}'
    ||| c == '\u{202f}'
    ||| c == '\u{205f}'
    ||| c == '\u{3000}'
}

fn space(c: char) -> (r: bool)
    ensures
        r == is_space(c),
{
    ('\u{9}' <= c && c <= '\u{d}') || c == ' ' || c == '\u{85}' || c == '\u{a0}' || c == '\u{1680}' || (
    '\u{2000}' <= c && c <= '\u{200a}') || c == '\u{2028}' || c == '\u{2029}' || c == '\u{202f}'
        || c == '\u{205f}' || c == '\u{3000}'
}

/// How many leading characters are white space.
pub open spec fn leading(s: Seq<char>) -> nat
    decreases s.len(),
{
    if s.len() == 0 || !is_space(s[0]) {
        0
    } else {
        1 + leading(s.drop_first())
    }
}

/// How many trailing characters are white space.
pub open spec fn trailing(s: Seq<char>) -> nat
    decreases s.len(),
{
    if s.len() == 0 || !is_space(s.last()) {
        0
    } else {
        1 + trailing(s.drop_last())
    }
}

/// The text without white space at its ends.
pub open spec fn trimmed(s: Seq<char>) -> Seq<char> {
    let front = s.skip(leading(s) as int);
    front.take(front.len() - trailing(front))
}

pub proof fn lemma_leading(s: Seq<char>)
    ensures
        leading(s) <= s.len(),
    decreases s.len(),
{
    if s.len() > 0 && is_space(s[0]) {
        lemma_leading(s.drop_first());
    }
}

pub proof fn lemma_trailing(s: Seq<char>)
    ensures
        trailing(s) <= s.len(),
    decreases s.len(),
{
    if s.len() > 0 && is_space(s.last()) {
        lemma_trailing(s.drop_last());
    }
}

/// A trimmed text has no white space at its ends.
pub proof fn lemma_trim_twice(s: Seq<char>)
    ensures
        trimmed(trimmed(s)) == trimmed(s),
{
    let front = s.skip(leading(s) as int);
    lemma_leading(s);
    lemma_trailing(front);
    lemma_leading_ends(s);
    lemma_trailing_ends(front);
    let t = trimmed(s);
    assert(leading(t) == 0) by {
        if t.len() > 0 {
            assert(t[0] == front[0]);
        }
    }
    assert(t.skip(0) =~= t);
    assert(trailing(t) == 0) by {
        if t.len() > 0 {
            assert(t.last() == front[front.len() - trailing(front) - 1]);
        }
    }
    assert(trimmed(t) =~= t);
}

proof fn lemma_leading_ends(s: Seq<char>)
    ensures
        leading(s) <= s.len(),
        leading(s) < s.len() ==> !is_space(s[leading(s) as int]),
    decreases s.len(),
{
    if s.len() > 0 && is_space(s[0]) {
        lemma_leading_ends(s.drop_first());
    }
}

proof fn lemma_trailing_ends(s: Seq<char>)
    ensures
        trailing(s) <= s.len(),
        trailing(s) < s.len() ==> !is_space(s[s.len() - 1 - trailing(s)]),
    decreases s.len(),
{
    if s.len() > 0 && is_space(s.last()) {
        lemma_trailing_ends(s.drop_last());
    }
}

/// The characters of a text.
pub fn chars_of(s: &str) -> (chars: Vec<char>)
    ensures
        chars@ == s@,
{
    let mut chars: Vec<char> = Vec::new();
    for c in it: s.chars()
        invariant
            chars@ == it.seq().take(it.index()),
            it.seq() == s@,
    {
        assert(it.seq().take(it.index() + 1) =~= it.seq().take(it.index()).push(c));
        chars.push(c);
    }
    assert(chars@ =~= s@);
    chars
}

/// [`String::push`]: the character is appended to the text.
pub assume_specification[ String::push ](s: &mut String, c: char)
    ensures
        final(s)@ == old(s)@.push(c),
;

/// Where the text without white space at its ends starts and ends.
fn trim_range(chars: &Vec<char>) -> (r: (usize, usize))
    ensures
        r.0 <= r.1 <= chars@.len(),
        chars@.subrange(r.0 as int, r.1 as int) == trimmed(chars@),
{
    let ghost s = chars@;
    let n: usize = chars.len();
    let mut lo: usize = 0;
    assert(s.skip(0) =~= s);
    while lo < n && space(chars[lo])
        invariant
            n == s.len(),
            chars@ == s,
            lo <= n,
            leading(s) == lo + leading(s.skip(lo as int)),
        decreases n - lo,
    {
        assert(s.skip(lo as int).drop_first() =~= s.skip(lo + 1));
        lo = lo + 1;
    }
    let ghost front = s.skip(lo as int);
    assert(leading(front) == 0);
    let mut hi: usize = n;
    assert(front.take(front.len() as int) =~= front);
    while hi > lo && space(chars[hi - 1])
        invariant
            n == s.len(),
            chars@ == s,
            lo <= hi <= n,
            front == s.skip(lo as int),
            trailing(front) == n - hi + trailing(front.take(hi - lo)),
        decreases hi,
    {
        assert(front.take(hi - lo).drop_last() =~= front.take(hi - 1 - lo));
        assert(front.take(hi - lo).last() == s[hi - 1]);
        hi = hi - 1;
    }
    if hi > lo {
        assert(front.take(hi - lo).last() == s[hi - 1]);
    }
    assert(s.subrange(lo as int, hi as int) =~= trimmed(s));
    (lo, hi)
}

/// The text without white space at its ends.
pub fn trim(s: &str) -> (t: String)
    ensures
        t@ == trimmed(s@),
{
    let chars = chars_of(s);
    let (lo, hi) = trim_range(&chars);
    s.substring_char(lo, hi).to_owned()
}

/// The characters without white space at their ends.
pub fn trim_chars(chars: &Vec<char>) -> (t: Vec<char>)
    ensures
        t@ == trimmed(chars@),
{
    let (lo, hi) = trim_range(chars);
    let mut t: Vec<char> = Vec::with_capacity(hi - lo);
    for k in lo..hi
        invariant
            lo <= hi <= chars@.len(),
            t@ == chars@.subrange(lo as int, k as int),
    {
        t.push(chars[k]);
        assert(t@ =~= chars@.subrange(lo as int, k + 1));
    }
    t
}

/// An ASCII letter in lower case; any other character as it is.
pub open spec fn lower(c: char) -> char {
    if 'A' <= c <= 'Z' {
        ((c as u8 + 32) as u8) as char
    } else {
        c
    }
}

/// The text with ASCII letters in lower case.
pub open spec fn lowered(s: Seq<char>) -> Seq<char> {
    s.map_values(|c: char| lower(c))
}

/// An ASCII letter in lower case.
pub fn to_lower(c: char) -> (l: char)
    ensures
        l == lower(c),
{
    if 'A' <= c && c <= 'Z' {
        ((c as u8) + 32) as char
    } else {
        c
    }
}

/// Whether two texts differ at most in the case of ASCII letters.
pub fn same_lower(a: &str, b: &str) -> (same: bool)
    ensures
        same == (lowered(a@) == lowered(b@)),
{
    let x = chars_of(a);
    let y = chars_of(b);
    if x.len() != y.len() {
        assert(lowered(a@).len() != lowered(b@).len());
        return false;
    }
    for i in 0..x.len()
        invariant
            x@ == a@,
            y@ == b@,
            x@.len() == y@.len(),
            forall|k: int| 0 <= k < i ==> #[trigger] lowered(a@)[k] == lowered(b@)[k],
    {
        if to_lower(x[i]) != to_lower(y[i]) {
            assert(lowered(a@)[i as int] != lowered(b@)[i as int]);
            return false;
        }
    }
    assert(lowered(a@) =~= lowered(b@));
    true
}

/// The decimal digit as a character.
pub open spec fn digit(d: int) -> char {
    ((48 + d) as u8) as char
}

/// A non-negative integer in decimal.
pub open spec fn decimal(n: nat) -> Seq<char>
    decreases n,
{
    if n < 10 {
        seq![digit(n as int)]
    } else {
        decimal(n / 10).push(digit((n % 10) as int))
    }
}

/// An integer in decimal.
pub open spec fn integer(i: int) -> Seq<char> {
    if i < 0 {
        seq!['-'] + decimal((-i) as nat)
    } else {
        decimal(i as nat)
    }
}

fn digit_text(d: u64) -> (t: &'static str)
    requires
        d < 10,
    ensures
        t@ == seq![digit(d as int)],
{
    proof {
        reveal_strlit("0");
        reveal_strlit("1");
        reveal_strlit("2");
        reveal_strlit("3");
        reveal_strlit("4");
        reveal_strlit("5");
        reveal_strlit("6");
        reveal_strlit("7");
        reveal_strlit("8");
        reveal_strlit("9");
    }
    let t = match d {
        0 => "0",
        1 => "1",
        2 => "2",
        3 => "3",
        4 => "4",
        5 => "5",
        6 => "6",
        7 => "7",
        8 => "8",
        _ => "9",
    };
    assert(t@ =~= seq![digit(d as int)]);
    t
}

/// A non-negative integer in decimal.
pub fn decimal_text(n: u64) -> (t: String)
    ensures
        t@ == decimal(n as nat),
    decreases n,
{
    if n < 10 {
        digit_text(n).to_owned()
    } else {
        let mut t = decimal_text(n / 10);
        t.append(digit_text(n % 10));
        assert(t@ =~= decimal(n as nat));
        t
    }
}

/// An integer in decimal.
pub fn integer_text(i: i64) -> (t: String)
    ensures
        t@ == integer(i as int),
{
    if i < 0 {
        let mut t = "-".to_owned();
        proof {
            reveal_strlit("-");
        }
        let magnitude: u64 = (-(i as i128)) as u64;
        t.append(decimal_text(magnitude).as_str());
        assert(t@ =~= integer(i as int));
        t
    } else {
        decimal_text(i as u64)
    }
}

/// `n` question marks, separated by commas.
pub open spec fn question_marks(n: nat) -> Seq<char>
    decreases n,
{
    if n == 0 {
        Seq::empty()
    } else if n == 1 {
        seq!['?']
    } else {
        question_marks((n - 1) as nat).push(',').push('?')
    }
}

/// A placeholder list (`?,?,…`) for a query with `n` parameters.
pub fn placeholders(n: usize) -> (t: String)
    ensures
        t@ == question_marks(n as nat),
{
    let mut t = "".to_owned();
    proof {
        reveal_strlit("");
    }
    assert(t@ =~= question_marks(0));
    for i in 0..n
        invariant
            t@ == question_marks(i as nat),
    {
        if i > 0 {
            t.push(',');
        }
        t.push('?');
        assert(t@ =~= question_marks(i as nat + 1));
    }
    t
}

/// An optional text by its view.
pub open spec fn opt_text(o: Option<String>) -> Option<Seq<char>> {
    match o {
        Some(s) => Some(s@),
        None => None,
    }
}

/// A copy of an optional text.
pub fn copy_opt(o: &Option<String>) -> (c: Option<String>)
    ensures
        opt_text(c) == opt_text(*o),
{
    match o {
        Some(s) => Some(s.clone()),
        None => None,
    }
}

} // verus!
