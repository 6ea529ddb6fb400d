//! Text helpers over `char` sequences: trimming, ASCII case folding and
//! decimal parsing, with their meaning stated over the strings' views.

use vstd::prelude::*;

verus! {

/// Whether a character has the Unicode `White_Space` property, which
/// `char::is_whitespace` decides: tab, line feed, vertical tab, form feed,
/// carriage return, space, next line, no-break space, ogham space mark, the
/// spaces U+2000 to U+200A, line and paragraph separators, narrow no-break
/// space, medium mathematical space and ideographic space.
pub open spec fn is_white_space(c: char) -> bool {
    let v = c as u32;
    ||| 0x9 <= v <= 0xd
    ||| v == 0x20
    ||| v == 0x85
    ||| v == 0xa0
    ||| v == 0x1680
    ||| 0x2000 <= v <= 0x200a
    ||| v == 0x2028
    ||| v == 0x2029
    ||| v == 0x202f
    ||| v == 0x205f
    ||| v == 0x3000
}

/// Whether a character is white space.
pub fn char_is_whitespace(c: char) -> (res: bool)
    ensures
        res == is_white_space(c),
{
    let v = c as u32;
    (0x9 <= v && v <= 0xd) || v == 0x20 || v == 0x85 || v == 0xa0 || v == 0x1680 || (0x2000 <= v && v <= 0x200a)
        || v == 0x2028 || v == 0x2029 || v == 0x202f || v == 0x205f || v == 0x3000
}

/// The characters of a string, in order.
pub fn chars_of(s: &str) -> (res: Vec<char>)
    ensures
        res@ == s@,
{
    let mut res: Vec<char> = Vec::new();
    for c in it: s.chars()
        invariant
            res@ == it.seq().take(it.index() as int),
            it.seq() == s@,
    {
        res.push(c);
    }
    res
}


/// Index of the first character at or after `i` that is not white space,
/// or the length when there is none.
pub open spec fn first_non_ws(s: Seq<char>, i: int) -> int
    decreases s.len() - i,
{
    if i >= s.len() {
        s.len() as int
    } else if !is_white_space(s[i]) {
        i
    } else {
        first_non_ws(s, i + 1)
    }
}

/// One past the last character before `j` that is not white space, or 0.
pub open spec fn end_non_ws(s: Seq<char>, j: int) -> int
    decreases j,
{
    if j <= 0 {
        0
    } else if !is_white_space(s[j - 1]) {
        j
    } else {
        end_non_ws(s, j - 1)
    }
}

/// A string with its leading and trailing white space removed, as `str::trim` does.
pub open spec fn trim_spec(s: Seq<char>) -> Seq<char> {
    let start = first_non_ws(s, 0);
    if start == s.len() {
        seq![]
    } else {
        s.subrange(start, end_non_ws(s, s.len() as int))
    }
}

proof fn lemma_end_after_non_ws(s: Seq<char>, j: int, k: int)
    requires
        0 <= k < j <= s.len(),
        !is_white_space(s[k]),
    ensures
        k < end_non_ws(s, j) <= j,
    decreases j,
{
    if is_white_space(s[j - 1]) {
        lemma_end_after_non_ws(s, j - 1, k);
    }
}

/// Removes leading and trailing white space.
pub fn trim(s: &str) -> (res: String)
    ensures
        res@ == trim_spec(s@),
{
    let cs = chars_of(s);
    let n = cs.len();
    let mut i: usize = 0;
    while i < n && char_is_whitespace(cs[i])
        invariant
            n == s@.len(),
            cs@ == s@,
            i <= n,
            first_non_ws(s@, 0) == first_non_ws(s@, i as int),
        decreases n - i,
    {
        i = i + 1;
    }
    if i == n {
        return String::new();
    }
    proof {
        lemma_end_after_non_ws(s@, n as int, i as int);
    }
    let mut j: usize = n;
    while char_is_whitespace(cs[j - 1])
        invariant
            n == s@.len(),
            cs@ == s@,
            i < j <= n,
            !is_white_space(s@[i as int]),
            end_non_ws(s@, n as int) == end_non_ws(s@, j as int),
        decreases j,
    {
        j = j - 1;
    }
    s.substring_char(i, j).to_owned()
}

/// The code point of a character after ASCII lower-casing, as
/// `to_ascii_lowercase` maps it.
pub open spec fn ascii_lower_code(c: char) -> u32 {
    if 65 <= (c as u32) <= 90 {
        ((c as u32) + 32) as u32
    } else {
        c as u32
    }
}

/// The code point after lower-casing and, where `dash` holds, replacing `_` by `-`.
pub open spec fn folded_code(c: char, dash: bool) -> u32 {
    if dash && c == '_' {
        '-' as u32
    } else {
        ascii_lower_code(c)
    }
}

/// Whether `v`, folded, reads as the word `w` (given in lower case).
pub open spec fn folds_to(v: Seq<char>, w: Seq<char>, dash: bool) -> bool {
    &&& v.len() == w.len()
    &&& forall|i: int| 0 <= i < v.len() ==> folded_code(#[trigger] v[i], dash) == w[i] as u32
}

fn folded_code_exec(c: char, dash: bool) -> (r: u32)
    ensures
        r == folded_code(c, dash),
{
    if dash && c == '_' {
        '-' as u32
    } else if 65 <= (c as u32) && (c as u32) <= 90 {
        (c as u32) + 32
    } else {
        c as u32
    }
}

/// Whether the characters `v`, folded, spell the word `w`.
pub fn folds_to_exec(v: &Vec<char>, w: &str, dash: bool) -> (res: bool)
    ensures
        res == folds_to(v@, w@, dash),
{
    let wc = chars_of(w);
    if v.len() != wc.len() {
        return false;
    }
    let mut i: usize = 0;
    while i < v.len()
        invariant
            v@.len() == wc@.len(),
            wc@ == w@,
            i <= v@.len(),
            forall|k: int| 0 <= k < i ==> folded_code(#[trigger] v@[k], dash) == w@[k] as u32,
        decreases v@.len() - i,
    {
        if folded_code_exec(v[i], dash) != wc[i] as u32 {
            return false;
        }
        i = i + 1;
    }
    true
}

/// Whether two strings hold the same characters.
pub fn str_eq(a: &str, b: &str) -> (res: bool)
    ensures
        res == (a@ == b@),
{
    let ac = chars_of(a);
    let bc = chars_of(b);
    if ac.len() != bc.len() {
        return false;
    }
    let mut i: usize = 0;
    while i < ac.len()
        invariant
            ac@ == a@,
            bc@ == b@,
            ac@.len() == bc@.len(),
            i <= ac@.len(),
            forall|k: int| 0 <= k < i ==> a@[k] == b@[k],
        decreases ac@.len() - i,
    {
        if ac[i] != bc[i] {
            return false;
        }
        i = i + 1;
    }
    assert(a@ =~= b@);
    true
}


/// Whether a character is an ASCII decimal digit.
pub open spec fn is_decimal_digit(c: char) -> bool {
    48 <= (c as u32) <= 57
}

/// The number written by a string of decimal digits (0 for the empty string).
pub open spec fn decimal_value(d: Seq<char>) -> int
    decreases d.len(),
{
    if d.len() == 0 {
        0
    } else {
        decimal_value(d.drop_last()) * 10 + ((d.last() as u32) - 48)
    }
}

/// The digits of an unsigned number: one leading `+` is dropped.
pub open spec fn unsigned_digits(s: Seq<char>) -> Seq<char> {
    if s.len() > 0 && s[0] == '+' {
        s.drop_first()
    } else {
        s
    }
}

/// What `str::parse::<u16>` gives: the value of an optional `+` followed by
/// at least one decimal digit, when it is at most `u16::MAX`.
pub open spec fn parse_u16_spec(s: Seq<char>) -> Option<u16> {
    let d = unsigned_digits(s);
    if d.len() > 0 && (forall|i: int| 0 <= i < d.len() ==> is_decimal_digit(#[trigger] d[i]))
        && decimal_value(d) <= u16::MAX {
        Some(decimal_value(d) as u16)
    } else {
        None
    }
}

spec fn capped(v: int) -> int {
    if v > 65536 {
        65536
    } else {
        v
    }
}

proof fn lemma_decimal_value_nonneg(d: Seq<char>)
    requires
        forall|i: int| 0 <= i < d.len() ==> is_decimal_digit(#[trigger] d[i]),
    ensures
        decimal_value(d) >= 0,
    decreases d.len(),
{
    if d.len() > 0 {
        lemma_decimal_value_nonneg(d.drop_last());
    }
}

/// Parses a port number or any other `u16` written in decimal.
pub fn parse_u16(s: &str) -> (res: Option<u16>)
    ensures
        res == parse_u16_spec(s@),
{
    let cs = chars_of(s);
    let n = cs.len();
    let mut start: usize = 0;
    if n > 0 && cs[0] == '+' {
        start = 1;
    }
    let ghost d = unsigned_digits(s@);
    assert(d =~= s@.subrange(start as int, n as int));
    if start == n {
        return None;
    }
    let mut value: u32 = 0;
    let mut i: usize = start;
    while i < n
        invariant
            cs@ == s@,
            n == s@.len(),
            start <= i <= n,
            d == unsigned_digits(s@),
            d =~= s@.subrange(start as int, n as int),
            forall|k: int| 0 <= k < i - start ==> is_decimal_digit(#[trigger] d[k]),
            value as int == capped(decimal_value(d.take(i - start))),
        decreases n - i,
    {
        let c = cs[i];
        if !((c as u32) >= 48 && (c as u32) <= 57) {
            assert(!is_decimal_digit(d[i - start]));
            return None;
        }
        let dig = (c as u32) - 48;
        let ghost prev = decimal_value(d.take(i - start));
        assert(d.take(i - start + 1).drop_last() =~= d.take(i - start));
        assert(decimal_value(d.take(i - start + 1)) == prev * 10 + dig);
        proof {
            lemma_decimal_value_nonneg(d.take(i - start));
        }
        value = value * 10 + dig;
        if value > 65536 {
            value = 65536;
        }
        i = i + 1;
    }
    assert(d.take(n - start) =~= d);
    if value <= 65535 {
        Some(value as u16)
    } else {
        None
    }
}

} // verus!
