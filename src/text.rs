//! Character-level helpers: whitespace, word splitting, digits.

use vstd::prelude::*;

verus! {

/// The characters that `char::is_whitespace` accepts (Unicode White_Space).
pub open spec fn is_space(c: char) -> bool {
    ||| c == '\t' || c == '\n' || c == '\u{0B}' || c == '\u{0C}' || c == '\r' || c == ' '
    ||| c == '\u{85}' || c == '\u{A0}' || c == '\u{1680}'
    ||| ('\u{2000}' <= c && c <= '\u{200A}')
    ||| c == '\u{2028}' || c == '\u{2029}' || c == '\u{202F}' || c == '\u{205F}'
    ||| c == '\u{3000}'
}

pub fn is_space_char(c: char) -> (r: bool)
    ensures
        r == is_space(c),
{
    c == '\t' || c == '\n' || c == '\u{0B}' || c == '\u{0C}' || c == '\r' || c == ' '
        || c == '\u{85}' || c == '\u{A0}' || c == '\u{1680}' || ('\u{2000}' <= c && c
        <= '\u{200A}') || c == '\u{2028}' || c == '\u{2029}' || c == '\u{202F}' || c
        == '\u{205F}' || c == '\u{3000}'
}

/// The characters of `s`, one by one.
pub fn chars_of(s: &str) -> (r: Vec<char>)
    ensures
        r@ == s@,
{
    let mut r: Vec<char> = Vec::new();
    for c in it: s.chars()
        invariant
            r@ == it.seq().take(it.index() as int),
            it.seq() == s@,
    {
        r.push(c);
    }
    r
}


/// Words of `s` (maximal runs of non-space characters), with `cur` the word
/// being read when `s` starts.
pub open spec fn words_from(s: Seq<char>, cur: Seq<char>) -> Seq<Seq<char>>
    decreases s.len(),
{
    if s.len() == 0 {
        if cur.len() > 0 { seq![cur] } else { seq![] }
    } else if is_space(s[0]) {
        (if cur.len() > 0 { seq![cur] } else { seq![] }) + words_from(s.drop_first(), seq![])
    } else {
        words_from(s.drop_first(), cur.push(s[0]))
    }
}

/// The whitespace-separated words of `s`, in order.
pub open spec fn words(s: Seq<char>) -> Seq<Seq<char>> {
    words_from(s, seq![])
}

/// The character sequences held by a sequence of strings.
pub open spec fn views(v: Seq<String>) -> Seq<Seq<char>> {
    v.map_values(|x: String| x@)
}

/// Splits `text` at whitespace, keeping the non-empty words in order.
pub fn split_words(text: &str) -> (r: Vec<String>)
    ensures
        views(r@) == words(text@),
{
    let cs = chars_of(text);
    let n = cs.len();
    let mut r: Vec<String> = Vec::new();
    let mut start: usize = 0;
    let mut i: usize = 0;
    assert(cs@.skip(0) =~= text@);
    assert(cs@.subrange(0, 0) =~= seq![]);
    assert(views(r@) =~= seq![]);
    assert(views(r@) + words(text@) =~= words(text@));
    while i < n
        invariant
            cs@ == text@,
            n == cs@.len(),
            start <= i <= n,
            forall|k: int| start <= k < i ==> !is_space(#[trigger] cs@[k]),
            views(r@) + words_from(cs@.skip(i as int), cs@.subrange(start as int, i as int))
                == words(text@),
        decreases n - i,
    {
        let c = cs[i];
        let ghost rest = cs@.skip(i as int);
        let ghost cur = cs@.subrange(start as int, i as int);
        assert(rest.drop_first() =~= cs@.skip(i + 1));
        assert(rest[0] == c);
        if is_space_char(c) {
            if start < i {
                let w = text.substring_char(start, i);
                let ws = String::from_str(w);
                let ghost before = r@;
                r.push(ws);
                assert(views(r@) =~= views(before) + seq![cur]);
                assert(views(r@) + words_from(cs@.skip(i + 1), seq![]) =~= views(before) + (
                seq![cur] + words_from(cs@.skip(i + 1), seq![])));
            } else {
                assert(cur.len() == 0);
                assert(seq![] + words_from(cs@.skip(i + 1), seq![]) =~= words_from(
                    cs@.skip(i + 1),
                    seq![],
                ));
            }
            i = i + 1;
            start = i;
            assert(cs@.subrange(start as int, i as int) =~= seq![]);
        } else {
            assert(cur.push(c) =~= cs@.subrange(start as int, i + 1));
            i = i + 1;
        }
    }
    let ghost cur = cs@.subrange(start as int, n as int);
    assert(cs@.skip(n as int).len() == 0);
    if start < n {
        let w = text.substring_char(start, n);
        let ws = String::from_str(w);
        let ghost before = r@;
        r.push(ws);
        assert(views(r@) =~= views(before) + seq![cur]);
    } else {
        assert(views(r@) + seq![] =~= views(r@));
    }
    r
}


/// Relies on `String::push`: appends one character.
#[verifier::external_body]
pub(crate) fn push_char(s: &mut String, c: char)
    ensures
        final(s)@ == old(s)@.push(c),
{
    s.push(c);
}

/// A string holding exactly these characters.
pub fn string_from_chars(cs: &Vec<char>) -> (r: String)
    ensures
        r@ == cs@,
{
    let mut r = String::new();
    for i in 0..cs.len()
        invariant
            r@ == cs@.take(i as int),
    {
        push_char(&mut r, cs[i]);
        assert(cs@.take(i + 1) =~= cs@.take(i as int).push(cs@[i as int]));
    }
    assert(cs@.take(cs@.len() as int) =~= cs@);
    r
}

/// The ASCII digit for `n` below ten.
pub open spec fn digit_char(n: int) -> char {
    (n + '0' as int) as char
}

/// Decimal digits of `n`, without leading zeros ("0" for zero).
pub open spec fn nat_digits(n: nat) -> Seq<char>
    decreases n,
{
    if n < 10 {
        seq![digit_char(n as int)]
    } else {
        nat_digits(n / 10).push(digit_char(n as int % 10))
    }
}

/// The decimal digits of `n`.
pub fn digits_of(n: u64) -> (r: Vec<char>)
    ensures
        r@ == nat_digits(n as nat),
{
    // digits are found from the last one backwards
    let mut rev: Vec<char> = Vec::new();
    let mut m = n;
    while m >= 10
        invariant
            nat_digits(n as nat) == nat_digits(m as nat) + rev@.reverse(),
        decreases m,
    {
        let d = (m % 10) as u32;
        let c = char_of_digit(d);
        let ghost before = rev@;
        rev.push(c);
        assert(rev@.reverse() =~= seq![c] + before.reverse());
        assert(nat_digits(m as nat) == nat_digits((m / 10) as nat).push(c));
        assert(nat_digits((m / 10) as nat).push(c) + before.reverse() =~= nat_digits(
            (m / 10) as nat,
        ) + (seq![c] + before.reverse()));
        m = m / 10;
    }
    let mut r: Vec<char> = Vec::new();
    r.push(char_of_digit(m as u32));
    assert(nat_digits(m as nat) =~= r@);
    let k = rev.len();
    let mut i: usize = 0;
    while i < k
        invariant
            k == rev@.len(),
            i <= k,
            nat_digits(n as nat) == r@ + rev@.reverse().skip(i as int),
        decreases k - i,
    {
        let c = rev[k - 1 - i];
        let ghost before = r@;
        r.push(c);
        assert(rev@.reverse()[i as int] == c);
        assert(rev@.reverse().skip(i as int) =~= seq![c] + rev@.reverse().skip(i + 1));
        assert(before + (seq![c] + rev@.reverse().skip(i + 1)) =~= r@ + rev@.reverse().skip(
            i + 1,
        ));
        i = i + 1;
    }
    assert(r@ + rev@.reverse().skip(k as int) =~= r@);
    r
}

/// The ASCII digit for `d` below ten.
pub fn char_of_digit(d: u32) -> (c: char)
    requires
        d < 10,
    ensures
        c == digit_char(d as int),
{
    if d == 0 { '0' } else if d == 1 { '1' } else if d == 2 { '2' } else if d == 3 { '3' }
    else if d == 4 { '4' } else if d == 5 { '5' } else if d == 6 { '6' } else if d == 7 { '7' }
    else if d == 8 { '8' } else { '9' }
}


/// What `str::to_lowercase` returns for a string with these characters.
pub uninterp spec fn lower_of(s: Seq<char>) -> Seq<char>;

/// Relies on `str::to_lowercase`: the result depends on the characters alone.
#[verifier::external_body]
pub(crate) fn lowercase(s: &str) -> (r: String)
    ensures
        r@ == lower_of(s@),
{
    s.to_lowercase()
}

} // verus!
