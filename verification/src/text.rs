//! Characters and text: character classes, decimal numbers, and building strings.

use vstd::prelude::*;

verus! {

/// Whether `c` has the Unicode `Alphabetic` property.
pub uninterp spec fn char_is_alphabetic(c: char) -> bool;

/// Calls `char::is_alphabetic`. Its documentation: true iff `c` has the
/// Unicode `Alphabetic` derived property. The contract names that result
/// and states only what holds of ASCII characters, where the property holds
/// exactly of the Latin letters; of other characters it says nothing more.
#[verifier::external_body]
pub(crate) fn is_alphabetic(c: char) -> (res: bool)
    ensures
        res == char_is_alphabetic(c),
        (c as u32) < 128 ==> (res <==> (('a' <= c && c <= 'z') || ('A' <= c && c <= 'Z'))),
{
    c.is_alphabetic()
}

/// Whether two string slices hold the same characters.
pub fn str_eq(a: &str, b: &str) -> (res: bool)
    ensures
        res == (a@ == b@),
{
    let x = a.to_string();
    let y = b.to_string();
    x == y
}

/// Whether `c` has the Unicode `White_Space` property: tab, line feed,
/// vertical tab, form feed, carriage return, space, next line, no-break
/// space, Ogham space mark, the spaces from en quad to hair space, line and
/// paragraph separators, narrow no-break space, medium mathematical space
/// and ideographic space.
pub open spec fn char_is_whitespace(c: char) -> bool {
    let v = c as u32;
    ||| 0x9 <= v && v <= 0xD
    ||| v == 0x20 || v == 0x85 || v == 0xA0 || v == 0x1680
    ||| 0x2000 <= v && v <= 0x200A
    ||| v == 0x2028 || v == 0x2029 || v == 0x202F || v == 0x205F || v == 0x3000
}

/// Whether `c` is whitespace, as `char::is_whitespace` tells it.
pub(crate) fn is_whitespace(c: char) -> (res: bool)
    ensures
        res == char_is_whitespace(c),
{
    let v = c as u32;
    (0x9 <= v && v <= 0xD) || v == 0x20 || v == 0x85 || v == 0xA0 || v == 0x1680 || (0x2000 <= v
        && v <= 0x200A) || v == 0x2028 || v == 0x2029 || v == 0x202F || v == 0x205F || v == 0x3000
}

/// `s` without its leading whitespace.
pub open spec fn trim_start_spec(s: Seq<char>) -> Seq<char>
    decreases s.len(),
{
    if s.len() > 0 && char_is_whitespace(s[0]) {
        trim_start_spec(s.drop_first())
    } else {
        s
    }
}

/// `s` without its trailing whitespace.
pub open spec fn trim_end_spec(s: Seq<char>) -> Seq<char>
    decreases s.len(),
{
    if s.len() > 0 && char_is_whitespace(s.last()) {
        trim_end_spec(s.drop_last())
    } else {
        s
    }
}

/// `s` without leading and trailing whitespace, as `str::trim` gives it.
pub open spec fn trim_spec(s: Seq<char>) -> Seq<char> {
    trim_end_spec(trim_start_spec(s))
}

/// The characters of `text` without leading and trailing whitespace.
pub fn trim(text: &str) -> (res: Vec<char>)
    ensures
        res@ == trim_spec(text@),
{
    let s = chars_of(text);
    let mut i: usize = 0;
    assert(s@.skip(0) == s@);
    while i < s.len() && is_whitespace(s[i])
        invariant
            i <= s@.len(),
            trim_start_spec(s@.skip(i as int)) == trim_start_spec(s@),
        decreases s.len() - i,
    {
        assert(s@.skip(i as int).drop_first() == s@.skip(i + 1));
        i = i + 1;
    }
    assert(trim_start_spec(s@.skip(i as int)) == s@.skip(i as int));
    let mut j: usize = s.len();
    while j > i && is_whitespace(s[j - 1])
        invariant
            i <= j <= s@.len(),
            trim_end_spec(s@.subrange(i as int, j as int)) == trim_spec(text@),
            s@ == text@,
        decreases j,
    {
        assert(s@.subrange(i as int, j as int).drop_last() == s@.subrange(i as int, j - 1));
        j = j - 1;
    }
    let mut res: Vec<char> = Vec::new();
    let mut k: usize = i;
    while k < j
        invariant
            i <= k <= j <= s@.len(),
            res@ == s@.subrange(i as int, k as int),
        decreases j - k,
    {
        res.push(s[k]);
        assert(s@.subrange(i as int, k + 1) == s@.subrange(i as int, k as int).push(s@[k as int]));
        k = k + 1;
    }
    res
}

/// `String::push` appends one character.
pub assume_specification[ String::push ](s: &mut String, ch: char)
    ensures
        final(s)@ == old(s)@.push(ch),
;


/// The characters of an identifier: letters and the underscore. Among
/// ASCII characters the letters are the Latin ones; beyond ASCII they are
/// the characters with the Unicode `Alphabetic` property.
pub open spec fn is_letter_char(c: char) -> bool {
    if (c as u32) < 128 {
        ('a' <= c && c <= 'z') || ('A' <= c && c <= 'Z') || c == '_'
    } else {
        char_is_alphabetic(c)
    }
}

/// The ASCII characters of identifiers: the Latin letters, lower and
/// upper case, and the underscore.
pub open spec fn is_ascii_word_char(c: char) -> bool {
    ('a' <= c && c <= 'z') || ('A' <= c && c <= 'Z') || c == '_'
}

/// Every Latin letter, lower or upper case, and the underscore continue an
/// identifier; no other ASCII character does, no digit and no whitespace.
pub proof fn lemma_identifier_characters(c: char)
    ensures
        is_ascii_word_char(c) ==> is_letter_char(c),
        (c as u32) < 128 && !is_ascii_word_char(c) ==> !is_letter_char(c),
        is_digit_char(c) ==> !is_letter_char(c),
        is_whitespace_char(c) ==> !is_letter_char(c),
{
}

/// ASCII decimal digits.
pub open spec fn is_digit_char(c: char) -> bool {
    '0' <= c && c <= '9'
}

/// The characters that separate tokens.
pub open spec fn is_whitespace_char(c: char) -> bool {
    c == ' ' || c == '\t' || c == '\n' || c == '\r'
}

/// The characters of a string slice, in order.
pub fn chars_of(s: &str) -> (res: Vec<char>)
    ensures
        res@ == s@,
{
    let mut res: Vec<char> = Vec::new();
    for c in it: s.chars()
        invariant
            res@ == it.seq().take(it.index() as int),
            it.seq() == s@,
    {
        res.push(c);
    }
    res
}


/// The character of the decimal digit `d`.
pub open spec fn digit_char(d: nat) -> char {
    (d + 48) as char
}

/// The decimal numeral of `n`, without leading zeros.
pub open spec fn nat_text(n: nat) -> Seq<char>
    decreases n,
{
    if n < 10 {
        seq![digit_char(n)]
    } else {
        nat_text(n / 10).push(digit_char(n % 10))
    }
}

/// The decimal numeral of `v`, with a leading `-` where `v` is negative.
pub open spec fn int_text(v: int) -> Seq<char> {
    if v < 0 {
        seq!['-'] + nat_text((-v) as nat)
    } else {
        nat_text(v as nat)
    }
}

fn digit(d: u64) -> (c: char)
    requires
        d < 10,
    ensures
        c == digit_char(d as nat),
{
    let b: u8 = 48 + d as u8;
    b as char
}

fn push_decimal(s: &mut String, n: u64)
    ensures
        final(s)@ == old(s)@ + nat_text(n as nat),
    decreases n,
{
    if n >= 10 {
        push_decimal(s, n / 10);
    }
    s.push(digit(n % 10));
}

/// The decimal numeral of `v`, as `i64`'s `Display` prints it.
pub fn i64_text(v: i64) -> (res: String)
    ensures
        res@ == int_text(v as int),
{
    let mut s = String::new();
    if v < 0 {
        s.push('-');
        let m: u64 = (0 - (v as i128)) as u64;
        push_decimal(&mut s, m);
    } else {
        push_decimal(&mut s, v as u64);
    }
    s
}


/// The value of a string of decimal digits.
pub open spec fn digits_value(s: Seq<char>) -> nat
    decreases s.len(),
{
    if s.len() == 0 {
        0
    } else {
        digits_value(s.drop_last()) * 10 + (s.last() as nat - 48) as nat
    }
}

/// Whether every character of `s` is a decimal digit.
pub open spec fn all_digits(s: Seq<char>) -> bool {
    forall|i: int| 0 <= i < s.len() ==> is_digit_char(#[trigger] s[i])
}

/// What `str::parse::<i64>` gives: an optional sign, then one or more
/// decimal digits, whose value must lie in the range of `i64`.
pub open spec fn parse_i64_spec(s: Seq<char>) -> Option<i64> {
    let neg = s.len() > 0 && s[0] == '-';
    let body = if s.len() > 0 && (s[0] == '-' || s[0] == '+') {
        s.drop_first()
    } else {
        s
    };
    if body.len() == 0 || !all_digits(body) {
        None
    } else {
        let v: int = if neg {
            -digits_value(body)
        } else {
            digits_value(body) as int
        };
        if i64::MIN <= v && v <= i64::MAX {
            Some(v as i64)
        } else {
            None
        }
    }
}

proof fn lemma_digits_value_grows(s: Seq<char>, i: int)
    requires
        0 <= i <= s.len(),
        all_digits(s),
    ensures
        digits_value(s.take(i)) <= digits_value(s),
    decreases s.len() - i,
{
    if i < s.len() {
        lemma_digits_value_grows(s, i + 1);
        assert(s.take(i + 1).drop_last() == s.take(i));
        assert(is_digit_char(s[i]));
    } else {
        assert(s.take(i) == s);
    }
}

proof fn lemma_nat_text_digits(n: nat)
    ensures
        nat_text(n).len() > 0,
        all_digits(nat_text(n)),
        digits_value(nat_text(n)) == n,
    decreases n,
{
    if n < 10 {
        let c = digit_char(n);
        assert(c as nat == n + 48);
        assert(seq![c].drop_last() == Seq::<char>::empty());
        assert(digits_value(seq![c]) == digits_value(Seq::<char>::empty()) * 10 + (c as nat - 48) as nat);
    } else {
        lemma_nat_text_digits(n / 10);
        let c = digit_char(n % 10);
        let s = nat_text(n);
        assert(c as nat == n % 10 + 48);
        assert(s.drop_last() == nat_text(n / 10));
        assert(s.last() == c);
        assert(digits_value(s) == (n / 10) * 10 + n % 10);
        assert((n / 10) * 10 + n % 10 == n) by (nonlinear_arith);
        assert forall|i: int| 0 <= i < s.len() implies is_digit_char(#[trigger] s[i]) by {
            if i < s.len() - 1 {
                assert(s[i] == nat_text(n / 10)[i]);
            }
        }
    }
}

/// The printed form of every `i64` parses back to it.
pub proof fn lemma_int_text_parses(v: i64)
    ensures
        parse_i64_spec(int_text(v as int)) == Some(v),
{
    if v < 0 {
        let n: nat = (-v) as nat;
        lemma_nat_text_digits(n);
        let s = int_text(v as int);
        assert(s[0] == '-');
        assert(s.drop_first() == nat_text(n));
    } else {
        let n: nat = v as nat;
        lemma_nat_text_digits(n);
        let s = nat_text(n);
        assert(is_digit_char(s[0]));
    }
}

/// Parses a decimal `i64` as `str::parse::<i64>` does.
pub fn parse_i64(text: &str) -> (res: Option<i64>)
    ensures
        res == parse_i64_spec(text@),
{
    let s = chars_of(text);
    let n: usize = s.len();
    let neg = n > 0 && s[0] == '-';
    let start: usize = if n > 0 && (s[0] == '-' || s[0] == '+') {
        1
    } else {
        0
    };
    let ghost body = s@.subrange(start as int, n as int);
    assert(body == if n > 0 && (s@[0] == '-' || s@[0] == '+') {
        s@.drop_first()
    } else {
        s@
    });
    if start == n {
        return None;
    }
    let limit: u64 = 9223372036854775808;
    let mut acc: u64 = 0;
    let mut i: usize = start;
    while i < n
        invariant
            start <= i <= n,
            n == s@.len(),
            body == s@.subrange(start as int, n as int),
            acc == digits_value(body.take(i - start)),
            all_digits(body.take(i - start)),
            acc <= limit,
            limit == 9223372036854775808u64,
            s@ == text@,
            body == if n > 0 && (s@[0] == '-' || s@[0] == '+') {
                s@.drop_first()
            } else {
                s@
            },
        decreases n - i,
    {
        let c = s[i];
        assert(body[i - start] == c);
        if !('0' <= c && c <= '9') {
            assert(!is_digit_char(body[i - start]));
            return None;
        }
        let d: u64 = (c as u32 - 48) as u64;
        assert(d < 10);
        let ghost k: int = i - start;
        assert(body.take(k + 1).drop_last() == body.take(k));
        assert(body.take(k + 1).last() == c);
        assert(all_digits(body.take(k + 1))) by {
            assert forall|j: int| 0 <= j < k + 1 implies is_digit_char(#[trigger] body.take(k + 1)[j]) by {
                if j < k {
                    assert(body.take(k + 1)[j] == body.take(k)[j]);
                }
            }
        }
        if acc > (limit - d) / 10 {
            assert(acc * 10 + d > limit) by (nonlinear_arith)
                requires
                    acc > (limit - d) / 10,
                    d < 10,
                    limit == 9223372036854775808u64,
            ;
            proof {
                assert(digits_value(body.take(k + 1)) > limit);
                if all_digits(body) {
                    lemma_digits_value_grows(body, k + 1);
                }
            }
            return None;
        }
        assert(acc * 10 + d <= limit) by (nonlinear_arith)
            requires
                acc <= (limit - d) / 10,
                d < 10,
                limit == 9223372036854775808u64,
        ;
        acc = acc * 10 + d;
        i = i + 1;
    }
    assert(body.take(n - start) == body);
    assert(all_digits(body));
    if neg {
        Some((0 - (acc as i128)) as i64)
    } else if acc < limit {
        Some(acc as i64)
    } else {
        None
    }
}

} // verus!
