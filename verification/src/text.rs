//! Text, taken as its characters.

use vstd::prelude::*;
use vstd::utf8::{decode_utf8, is_ascii_chars, valid_utf8};

use crate::seqs::{lemma_until, lemma_until_is, split, trim, trim_bounds, until};

verus! {

/// A character with the Unicode property `White_Space`.
pub open spec fn is_whitespace(c: char) -> bool {
    let u = c as u32;
    ||| 0x9 <= u <= 0xd
    ||| u == 0x20
    ||| u == 0x85
    ||| u == 0xa0
    ||| u == 0x1680
    ||| 0x2000 <= u <= 0x200a
    ||| u == 0x2028
    ||| u == 0x2029
    ||| u == 0x202f
    ||| u == 0x205f
    ||| u == 0x3000
}

/// Text without the white space around it.
pub open spec fn trimmed(s: Seq<char>) -> Seq<char> {
    trim(s, |c: char| is_whitespace(c))
}

/// Tells the character `c` from all others.
pub open spec fn is_char(c: char) -> spec_fn(char) -> bool {
    |x: char| x == c
}

/// Text without the characters `c` around it.
pub open spec fn trimmed_of(s: Seq<char>, c: char) -> Seq<char> {
    trim(s, is_char(c))
}

/// The pieces of a text between the characters `c`.
pub open spec fn split_at_char(s: Seq<char>, c: char) -> Seq<Seq<char>> {
    split(s, is_char(c))
}

/// `A` to `Z` in lower case; every other character as it is.
pub open spec fn lower_char(c: char) -> char {
    if 'A' <= c <= 'Z' {
        (c as u32 + 32) as char
    } else {
        c
    }
}

/// Text with `A` to `Z` in lower case.
pub open spec fn ascii_lowercase(s: Seq<char>) -> Seq<char> {
    s.map_values(|c: char| lower_char(c))
}

/// Tells the characters that are not ASCII from all others.
pub open spec fn beyond_ascii() -> spec_fn(char) -> bool {
    |c: char| c > '\u{7f}'
}

/// How many characters of ASCII a text begins with.
pub open spec fn ascii_front(s: Seq<char>) -> nat {
    until(s, beyond_ascii())
}

/// What lower case makes of a text that is not all ASCII, from the first
/// character on that is not.
pub uninterp spec fn lowercase_behind(s: Seq<char>) -> Seq<char>;

/// Text in lower case.
pub open spec fn lowercase(s: Seq<char>) -> Seq<char> {
    if is_ascii_chars(s) {
        ascii_lowercase(s)
    } else {
        ascii_lowercase(s.take(ascii_front(s) as int)) + lowercase_behind(s)
    }
}

/// `needle` stands somewhere in `s`.
pub open spec fn contains_text(s: Seq<char>, needle: Seq<char>) -> bool {
    exists|i: int|
        0 <= i && i + needle.len() <= s.len() && #[trigger] s.subrange(i, i + needle.len())
            == needle
}

/// Text without a pair of double quotes around it.
pub open spec fn unquoted(s: Seq<char>) -> Seq<char> {
    if s.len() >= 2 && s[0] == '"' && s.last() == '"' {
        s.subrange(1, s.len() - 1)
    } else {
        s
    }
}

/// How many characters stand in front of the first line end; all of them where
/// there is none.
pub open spec fn line_len(s: Seq<char>) -> nat
    decreases s.len(),
{
    if s.len() < 2 {
        s.len()
    } else if s[0] == '\r' && s[1] == '\n' {
        0
    } else {
        1 + line_len(s.skip(1))
    }
}

/// The lines of a text.
pub open spec fn lines(s: Seq<char>) -> Seq<Seq<char>>
    decreases s.len(),
{
    let n = line_len(s);
    if n + 2 > s.len() {
        seq![s]
    } else {
        seq![s.take(n as int)] + lines(s.skip(n as int + 2))
    }
}

/// The number that decimal digits stand for.
pub open spec fn decimal_value(digits: Seq<char>) -> nat
    decreases digits.len(),
{
    if digits.len() == 0 {
        0
    } else {
        decimal_value(digits.drop_last()) * 10 + (digits.last() as u32 - '0' as u32) as nat
    }
}

/// `0` to `9`.
pub open spec fn is_digit(c: char) -> bool {
    '0' <= c <= '9'
}

/// The digits of a number that may begin with a plus sign.
pub open spec fn unsigned_digits(s: Seq<char>) -> Seq<char> {
    if s.len() > 0 && s[0] == '+' {
        s.skip(1)
    } else {
        s
    }
}

/// The number below 2^64 that a text gives in decimal.
pub open spec fn u64_of(s: Seq<char>) -> Option<u64> {
    let digits = unsigned_digits(s);
    if digits.len() > 0 && (forall|i: int|
        0 <= i < digits.len() ==> is_digit(#[trigger] digits[i])) && decimal_value(digits)
        <= u64::MAX {
        Some(decimal_value(digits) as u64)
    } else {
        None
    }
}

/// A number in decimal, as bytes.
pub open spec fn decimal(n: nat) -> Seq<u8>
    decreases n,
{
    if n < 10 {
        seq![(48 + n) as u8]
    } else {
        decimal(n / 10).push((48 + n % 10) as u8)
    }
}

/// `str::to_lowercase`: the lower-case equivalent of a text. Characters of
/// ASCII, as far as the text begins with them, are mapped one by one, as ASCII
/// maps them; what becomes of the rest is not said.
#[verifier::external_body]
pub(crate) fn to_lowercase(s: &str) -> (lower: String)
    ensures
        is_ascii_chars(s@) ==> lower@ == ascii_lowercase(s@),
        !is_ascii_chars(s@) ==> lower@ == ascii_lowercase(s@.take(ascii_front(s@) as int))
            + lowercase_behind(s@),
{
    s.to_lowercase()
}

/// `std::str::from_utf8`: the text that bytes encode in UTF-8, where they do.
#[verifier::external_body]
pub(crate) fn from_utf8(bytes: &[u8]) -> (text: Option<&str>)
    ensures
        text is Some == valid_utf8(bytes@),
        text matches Some(s) ==> s@ == decode_utf8(bytes@),
{
    std::str::from_utf8(bytes).ok()
}

/// `String::push`: appends a character.
#[verifier::external_body]
pub(crate) fn push_char(s: &mut String, c: char)
    ensures
        final(s)@ == old(s)@.push(c),
{
    s.push(c)
}

/// The characters of a text.
pub fn chars_of(s: &str) -> (chars: Vec<char>)
    ensures
        chars@ == s@,
{
    let mut chars: Vec<char> = Vec::new();
    for c in it: s.chars()
        invariant
            chars@ == it.seq().take(it.index() as int),
            it.seq() == s@,
    {
        chars.push(c);
        assert(it.seq().take(it.index() + 1) =~= it.seq().take(it.index() as int).push(c));
    }
    assert(s@.take(s@.len() as int) =~= s@);
    chars
}

/// The text that characters make.
pub fn string_of(chars: &[char]) -> (s: String)
    ensures
        s@ == chars@,
{
    let mut s = String::new();
    let mut i: usize = 0;
    while i < chars.len()
        invariant
            i <= chars@.len(),
            s@ == chars@.take(i as int),
        decreases chars@.len() - i,
    {
        push_char(&mut s, chars[i]);
        assert(chars@.take(i + 1) =~= chars@.take(i as int).push(chars@[i as int]));
        i += 1;
    }
    assert(chars@.take(i as int) =~= chars@);
    s
}

/// Whether a character is white space.
pub fn char_is_whitespace(c: char) -> (yes: bool)
    ensures
        yes == is_whitespace(c),
{
    let u: u32 = c as u32;
    (0x9 <= u && u <= 0xd) || u == 0x20 || u == 0x85 || u == 0xa0 || u == 0x1680 || (0x2000 <= u
        && u <= 0x200a) || u == 0x2028 || u == 0x2029 || u == 0x202f || u == 0x205f || u == 0x3000
}

/// Where the text without white space around it begins and ends.
pub fn trim_range(s: &[char]) -> (range: (usize, usize))
    ensures
        range.0 <= range.1 <= s@.len(),
        s@.subrange(range.0 as int, range.1 as int) == trimmed(s@),
{
    trim_bounds(s, char_is_whitespace, Ghost(|c: char| is_whitespace(c)))
}

/// Removes white space from both ends.
pub fn trim_whitespace(s: &[char]) -> (rest: &[char])
    ensures
        rest@ == trimmed(s@),
{
    let (from, to) = trim_range(s);
    vstd::slice::slice_subrange(s, from, to)
}

/// Removes white space from both ends of a text.
pub fn trim_str(s: &str) -> (rest: &str)
    ensures
        rest@ == trimmed(s@),
{
    let chars = chars_of(s);
    let (from, to) = trim_range(chars.as_slice());
    s.substring_char(from, to)
}

/// Removes a character from both ends, as often as it stands there.
pub fn trim_char(s: &[char], c: char) -> (rest: &[char])
    ensures
        rest@ == trimmed_of(s@, c),
{
    let is_it = |x: char| -> (yes: bool)
        ensures
            yes == (x == c),
    {
        x == c
    };
    let (from, to) = trim_bounds(s, is_it, Ghost(is_char(c)));
    vstd::slice::slice_subrange(s, from, to)
}

/// Where a character first stands; behind the end where it does not.
pub fn position_of(s: &[char], c: char) -> (at: usize)
    ensures
        at == until(s@, is_char(c)),
        at <= s@.len(),
{
    let mut at: usize = 0;
    while at < s.len() && s[at] != c
        invariant
            at <= s@.len(),
            forall|i: int| 0 <= i < at ==> #[trigger] s@[i] != c,
        decreases s@.len() - at,
    {
        at += 1;
    }
    proof {
        lemma_until_is(s@, is_char(c), at as nat);
    }
    at
}

/// The pieces that are not empty.
pub open spec fn filled(pieces: Seq<Seq<char>>) -> Seq<Seq<char>>
    decreases pieces.len(),
{
    if pieces.len() == 0 {
        Seq::empty()
    } else if pieces[0].len() == 0 {
        filled(pieces.skip(1))
    } else {
        seq![pieces[0]] + filled(pieces.skip(1))
    }
}

/// Each slice as the text that it holds.
pub open spec fn texts(pieces: Seq<&[char]>) -> Seq<Seq<char>> {
    pieces.map_values(|piece: &[char]| piece@)
}

/// Cuts a text at every character `c`.
pub fn split_chars<'a>(s: &'a [char], c: char) -> (pieces: Vec<&'a [char]>)
    ensures
        texts(pieces@) == split_at_char(s@, c),
{
    let ghost p = is_char(c);
    let mut pieces: Vec<&'a [char]> = Vec::new();
    let mut rest: &'a [char] = s;
    loop
        invariant
            p == is_char(c),
            texts(pieces@) + split(rest@, p) == split(s@, p),
        decreases rest@.len(),
    {
        let ghost before = pieces@;
        let n: usize = position_of(rest, c);
        if n >= rest.len() {
            pieces.push(rest);
            assert(texts(pieces@) =~= texts(before).push(rest@));
            assert(texts(pieces@) =~= texts(before) + seq![rest@]);
            return pieces;
        }
        let piece: &'a [char] = vstd::slice::slice_subrange(rest, 0, n);
        pieces.push(piece);
        proof {
            assert(piece@ =~= rest@.take(n as int));
            assert(rest@.subrange(n + 1, rest@.len() as int) =~= rest@.skip(n + 1));
            assert(texts(pieces@) =~= texts(before) + seq![piece@]);
            assert(texts(pieces@) + split(rest@.skip(n + 1), p) =~= texts(before) + (seq![piece@] + split(rest@.skip(n + 1), p)));
        }
        rest = vstd::slice::slice_subrange(rest, n + 1, rest.len());
    }
}

/// Removes the pieces that are empty.
pub fn filled_of<'a>(pieces: &Vec<&'a [char]>) -> (found: Vec<&'a [char]>)
    ensures
        texts(found@) == filled(texts(pieces@)),
{
    let ghost all = texts(pieces@);
    let mut found: Vec<&'a [char]> = Vec::new();
    let mut i: usize = 0;
    assert(all.skip(0) =~= all);
    assert(texts(found@) + filled(all) =~= filled(all));
    while i < pieces.len()
        invariant
            i <= pieces@.len(),
            all == texts(pieces@),
            texts(found@) + filled(all.skip(i as int)) == filled(all),
        decreases pieces@.len() - i,
    {
        let ghost before = found@;
        let piece: &'a [char] = pieces[i];
        proof {
            assert(all.skip(i as int)[0] == piece@);
            assert(all.skip(i as int).skip(1) =~= all.skip(i + 1));
        }
        if piece.len() != 0 {
            found.push(piece);
            proof {
                assert(texts(found@) =~= texts(before) + seq![piece@]);
                assert(texts(found@) + filled(all.skip(i + 1)) =~= texts(before) + (seq![piece@]
                    + filled(all.skip(i + 1))));
            }
        }
        i += 1;
    }
    assert(all.skip(i as int) =~= Seq::empty());
    assert(texts(found@) + Seq::<Seq<char>>::empty() =~= texts(found@));
    found
}

/// Whether two texts are the same.
pub fn same_chars(a: &[char], b: &[char]) -> (same: bool)
    ensures
        same == (a@ == b@),
{
    a.len() == b.len() && begins_with(a, b)
}

/// Whether `s` is the text `text`.
pub fn is_text(s: &[char], text: &str) -> (same: bool)
    ensures
        same == (s@ == text@),
{
    let chars = chars_of(text);
    same_chars(s, chars.as_slice())
}

/// Whether `s` begins with `prefix`.
pub fn begins_with(s: &[char], prefix: &[char]) -> (yes: bool)
    ensures
        yes == prefix@.is_prefix_of(s@),
        yes && s@.len() == prefix@.len() ==> s@ == prefix@,
        !yes ==> s@ != prefix@,
{
    prefix.len() <= s.len() && chars_at(s, 0, prefix)
}

/// Whether `part` stands in `s` at `at`.
fn chars_at(s: &[char], at: usize, part: &[char]) -> (yes: bool)
    requires
        at + part@.len() <= s@.len(),
    ensures
        yes == (s@.subrange(at as int, at + part@.len()) == part@),
{
    let mut i: usize = 0;
    while i < part.len()
        invariant
            i <= part@.len(),
            at + part@.len() <= s.len(),
            forall|k: int| 0 <= k < i ==> s@[at + k] == part@[k],
        decreases part@.len() - i,
    {
        if s[at + i] != part[i] {
            assert(s@.subrange(at as int, at + part@.len())[i as int] != part@[i as int]);
            return false;
        }
        i += 1;
    }
    assert(s@.subrange(at as int, at + part@.len()) =~= part@);
    true
}

/// Whether `needle` stands somewhere in `s`.
pub fn contains_chars(s: &[char], needle: &[char]) -> (yes: bool)
    ensures
        yes == contains_text(s@, needle@),
{
    if needle.len() > s.len() {
        return false;
    }
    let last: usize = s.len() - needle.len();
    let mut i: usize = 0;
    while i < last
        invariant
            last + needle@.len() == s@.len(),
            i <= last,
            forall|j: int| 0 <= j < i ==> #[trigger] s@.subrange(j, j + needle@.len()) != needle@,
        decreases last - i,
    {
        if chars_at(s, i, needle) {
            return true;
        }
        i += 1;
    }
    chars_at(s, i, needle)
}

/// Removes a pair of double quotes around a text.
pub fn unquote(s: &[char]) -> (rest: &[char])
    ensures
        rest@ == unquoted(s@),
{
    if s.len() >= 2 && s[0] == '"' && s[s.len() - 1] == '"' {
        vstd::slice::slice_subrange(s, 1, s.len() - 1)
    } else {
        s
    }
}

/// The properties of `line_len` hold of one number only.
pub proof fn lemma_line_len_is(s: Seq<char>, n: nat)
    requires
        n <= s.len(),
        forall|i: int| 0 <= i < n && i + 1 < s.len() ==> !(#[trigger] s[i] == '\r' && s[i + 1] == '\n'),
        n < s.len() ==> n + 2 <= s.len() && s[n as int] == '\r' && s[n as int + 1] == '\n',
    ensures
        line_len(s) == n,
    decreases s.len(),
{
    if s.len() >= 2 && n > 0 {
        assert(!(s[0] == '\r' && s[1] == '\n'));
        let rest = s.skip(1);
        assert forall|i: int| 0 <= i < n - 1 && i + 1 < rest.len() implies !(#[trigger] rest[i]
            == '\r' && rest[i + 1] == '\n') by {
            assert(s[i + 1] == rest[i]);
            assert(s[i + 2] == rest[i + 1]);
        }
        lemma_line_len_is(rest, (n - 1) as nat);
    }
}

/// How many characters stand in front of the first line end.
fn first_line_len(s: &[char]) -> (n: usize)
    ensures
        n == line_len(s@),
        n <= s@.len(),
        n < s@.len() ==> n + 2 <= s@.len(),
{
    let mut i: usize = 0;
    while i < s.len() && !(s.len() - i >= 2 && s[i] == '\r' && s[i + 1] == '\n')
        invariant
            i <= s@.len(),
            forall|k: int| 0 <= k < i && k + 1 < s@.len() ==> !(#[trigger] s@[k] == '\r' && s@[k + 1] == '\n'),
        decreases s@.len() - i,
    {
        i += 1;
    }
    proof {
        lemma_line_len_is(s@, i as nat);
    }
    i
}

/// Cuts a text into its lines.
pub fn split_lines<'a>(s: &'a [char]) -> (pieces: Vec<&'a [char]>)
    ensures
        texts(pieces@) == lines(s@),
{
    let mut pieces: Vec<&'a [char]> = Vec::new();
    let mut rest: &'a [char] = s;
    loop
        invariant
            texts(pieces@) + lines(rest@) == lines(s@),
        decreases rest@.len(),
    {
        let ghost before = pieces@;
        let n: usize = first_line_len(rest);
        if n >= rest.len() {
            pieces.push(rest);
            assert(texts(pieces@) =~= texts(before) + seq![rest@]);
            return pieces;
        }
        let piece: &'a [char] = vstd::slice::slice_subrange(rest, 0, n);
        pieces.push(piece);
        proof {
            assert(piece@ =~= rest@.take(n as int));
            assert(rest@.subrange(n + 2, rest@.len() as int) =~= rest@.skip(n + 2));
            assert(texts(pieces@) =~= texts(before) + seq![piece@]);
            assert(texts(pieces@) + lines(rest@.skip(n + 2)) =~= texts(before) + (seq![piece@]
                + lines(rest@.skip(n + 2))));
        }
        rest = vstd::slice::slice_subrange(rest, n + 2, rest.len());
    }
}

/// Puts `A` to `Z` in lower case.
pub fn ascii_lowercase_chars(s: &[char]) -> (lower: Vec<char>)
    ensures
        lower@ == ascii_lowercase(s@),
{
    let mut lower: Vec<char> = Vec::new();
    let mut i: usize = 0;
    while i < s.len()
        invariant
            i <= s@.len(),
            lower@ == ascii_lowercase(s@.take(i as int)),
        decreases s@.len() - i,
    {
        let c: char = s[i];
        let l: char = if 'A' <= c && c <= 'Z' {
            ((c as u8) + 32) as char
        } else {
            c
        };
        lower.push(l);
        assert(lower@ =~= ascii_lowercase(s@.take(i + 1)));
        i += 1;
    }
    assert(s@.take(i as int) =~= s@);
    lower
}

/// Puts a text in lower case.
pub fn lowercase_chars(s: &[char]) -> (lower: Vec<char>)
    ensures
        lower@ == lowercase(s@),
{
    let text = string_of(s);
    let lower = to_lowercase(text.as_str());
    chars_of(lower.as_str())
}

proof fn lemma_decimal_value_grows(digits: Seq<char>, n: int)
    requires
        0 <= n <= digits.len(),
    ensures
        decimal_value(digits.take(n)) <= decimal_value(digits),
    decreases digits.len() - n,
{
    if n < digits.len() {
        lemma_decimal_value_grows(digits, n + 1);
        assert(digits.take(n + 1).drop_last() =~= digits.take(n));
    } else {
        assert(digits.take(n) =~= digits);
    }
}

/// Reads a number below 2^64.
pub fn parse_u64(s: &[char]) -> (n: Option<u64>)
    ensures
        n == u64_of(s@),
{
    let digits: &[char] = if s.len() > 0 && s[0] == '+' {
        assert(s@.subrange(1, s@.len() as int) =~= s@.skip(1));
        vstd::slice::slice_subrange(s, 1, s.len())
    } else {
        s
    };
    if digits.len() == 0 {
        return None;
    }
    let mut n: u64 = 0;
    let mut i: usize = 0;
    assert(digits@.take(0) =~= Seq::empty());
    while i < digits.len()
        invariant
            i <= digits@.len(),
            digits@ == unsigned_digits(s@),
            forall|k: int| 0 <= k < i ==> is_digit(#[trigger] digits@[k]),
            n == decimal_value(digits@.take(i as int)),
        decreases digits@.len() - i,
    {
        let c: char = digits[i];
        if !('0' <= c && c <= '9') {
            assert(!is_digit(digits@[i as int]));
            return None;
        }
        let v: u64 = ((c as u32) - ('0' as u32)) as u64;
        proof {
            assert(digits@.take(i + 1).drop_last() =~= digits@.take(i as int));
            assert(decimal_value(digits@.take(i + 1)) == n * 10 + v);
            lemma_decimal_value_grows(digits@, i + 1);
        }
        n = match n.checked_mul(10) {
            Some(m) => m,
            None => {
                return None;
            },
        };
        n = match n.checked_add(v) {
            Some(m) => m,
            None => {
                return None;
            },
        };
        i += 1;
    }
    assert(digits@.take(i as int) =~= digits@);
    Some(n)
}

/// Writes a number in decimal.
pub fn decimal_bytes(n: u64) -> (digits: Vec<u8>)
    ensures
        digits@ == decimal(n as nat),
    decreases n,
{
    if n < 10 {
        let mut digits: Vec<u8> = Vec::new();
        digits.push(48 + (n as u8));
        digits
    } else {
        let mut digits = decimal_bytes(n / 10);
        digits.push(48 + ((n % 10) as u8));
        digits
    }
}

/// Cutting two texts that are joined by the character they are cut at gives
/// the pieces of both.
pub proof fn lemma_split_join(a: Seq<char>, c: char, b: Seq<char>)
    ensures
        split_at_char(a + seq![c] + b, c) == split_at_char(a, c) + split_at_char(b, c),
    decreases a.len(),
{
    let s = a + seq![c] + b;
    let p = is_char(c);
    let n = until(a, p);
    lemma_until(a, p);
    assert forall|i: int| 0 <= i < n implies !p(#[trigger] s[i]) by {
        assert(s[i] == a[i]);
    }
    if n < a.len() {
        assert(s[n as int] == a[n as int]);
    }
    lemma_until_is(s, p, n);
    if n >= a.len() {
        assert(s.take(n as int) =~= a);
        assert(s.skip(n as int + 1) =~= b);
    } else {
        let rest = a.skip(n as int + 1);
        lemma_split_join(rest, c, b);
        assert(s.take(n as int) =~= a.take(n as int));
        assert(s.skip(n as int + 1) =~= rest + seq![c] + b);
        assert(seq![a.take(n as int)] + (split(rest, p) + split(b, p)) =~= (seq![
            a.take(n as int),
        ] + split(rest, p)) + split(b, p));
    }
}

/// A number in decimal, as characters.
pub open spec fn decimal_text(n: nat) -> Seq<char> {
    decimal(n).map_values(|b: u8| b as char)
}

pub proof fn lemma_decimal_text(n: nat)
    ensures
        decimal_text(n).len() > 0,
        decimal_value(decimal_text(n)) == n,
        forall|i: int|
            0 <= i < decimal_text(n).len() ==> is_digit(#[trigger] decimal_text(n)[i]),
    decreases n,
{
    let text = decimal_text(n);
    if n < 10 {
        assert(text.drop_last() =~= Seq::empty());
        assert(decimal_value(text.drop_last()) == 0);
    } else {
        lemma_decimal_text(n / 10);
        assert(text.drop_last() =~= decimal_text(n / 10));
        assert forall|i: int| 0 <= i < text.len() implies is_digit(#[trigger] text[i]) by {
            if i < text.len() - 1 {
                assert(text[i] == decimal_text(n / 10)[i]);
            }
        }
    }
}

/// A number written in decimal reads as that number.
pub proof fn law_decimal_reads_back(n: u64)
    ensures
        u64_of(decimal_text(n as nat)) == Some(n),
{
    lemma_decimal_text(n as nat);
    assert(is_digit(decimal_text(n as nat)[0]));
}

/// As far as a text begins with ASCII, lower case maps its characters one by one.
pub proof fn lemma_lowercase_front(s: Seq<char>, n: int)
    requires
        0 <= n <= s.len(),
        is_ascii_chars(s.take(n)),
    ensures
        lowercase(s).len() >= n,
        lowercase(s).take(n) == ascii_lowercase(s.take(n)),
{
    assert forall|i: int| 0 <= i < n implies !beyond_ascii()(#[trigger] s[i]) by {
        assert(s.take(n)[i] == s[i]);
    }
    if is_ascii_chars(s) {
        assert(lowercase(s).take(n) =~= ascii_lowercase(s.take(n)));
    } else {
        lemma_until(s, beyond_ascii());
        let front = ascii_front(s) as int;
        if front < n {
            assert(beyond_ascii()(s[front]));
        }
        assert(lowercase(s).take(n) =~= ascii_lowercase(s.take(n)));
    }
}

/// A number is written digit by digit, without zeros in front.
pub proof fn law_numbers_are_written_by_digits(n: nat, digit: nat)
    requires
        digit < 10,
    ensures
        decimal(digit) == seq![(48 + digit) as u8],
        n > 0 ==> decimal(n * 10 + digit) == decimal(n).push((48 + digit) as u8),
{
    if n > 0 {
        assert((n * 10 + digit) / 10 == n);
        assert((n * 10 + digit) % 10 == digit);
    }
}

/// White space of ASCII is the space and the five controls from the tab on, and
/// beyond ASCII only what Unicode says is white space.
pub proof fn law_white_space_is_known(c: char)
    ensures
        c <= '\u{7f}' ==> (is_whitespace(c) <==> (c == ' ' || c == '\t' || c == '\n' || c
            == '\u{b}' || c == '\u{c}' || c == '\r')),
        c > '\u{7f}' ==> (is_whitespace(c) <==> (c == '\u{85}' || c == '\u{a0}' || c == '\u{1680}'
            || '\u{2000}' <= c <= '\u{200a}' || c == '\u{2028}' || c == '\u{2029}' || c
            == '\u{202f}' || c == '\u{205f}' || c == '\u{3000}')),
{
}

/// Double quotes come off in pairs, and nothing else does.
pub proof fn law_quotes_come_off_in_pairs(s: Seq<char>)
    ensures
        unquoted(seq!['"'] + s + seq!['"']) == s,
        s.len() < 2 || s[0] != '"' || s.last() != '"' ==> unquoted(s) == s,
{
    let q = seq!['"'] + s + seq!['"'];
    assert(q.subrange(1, q.len() - 1) =~= s);
}

} // verus!
