//! The lexer: turns source text into a stream of tokens.

use vstd::prelude::*;

use crate::text::{
    chars_of, is_alphabetic, is_ascii_word_char, is_digit_char, is_letter_char, is_whitespace_char,
    lemma_identifier_characters,
};
use crate::token::{keyword_type, Token, TokenType};

verus! {

/// The character at index `i` of `s`, if there is one.
pub open spec fn char_at(s: Seq<char>, i: int) -> Option<char> {
    if 0 <= i < s.len() {
        Some(s[i])
    } else {
        None
    }
}

/// The first index at or after `p` that holds no whitespace.
pub open spec fn skip_whitespace_from(s: Seq<char>, p: int) -> int
    decreases s.len() - p,
{
    if 0 <= p < s.len() && is_whitespace_char(s[p]) {
        skip_whitespace_from(s, p + 1)
    } else {
        p
    }
}

/// The first index at or after `p` that holds no letter.
pub open spec fn letters_end(s: Seq<char>, p: int) -> int
    decreases s.len() - p,
{
    if 0 <= p < s.len() && is_letter_char(s[p]) {
        letters_end(s, p + 1)
    } else {
        p
    }
}

/// The first index at or after `p` that holds no decimal digit.
pub open spec fn digits_end(s: Seq<char>, p: int) -> int
    decreases s.len() - p,
{
    if 0 <= p < s.len() && is_digit_char(s[p]) {
        digits_end(s, p + 1)
    } else {
        p
    }
}

/// The kind of the token that the single character `c` makes on its own,
/// for the characters that always do.
pub open spec fn single_char_kind(c: char) -> Option<TokenType> {
    if c == '+' {
        Some(TokenType::Plus)
    } else if c == '-' {
        Some(TokenType::Minus)
    } else if c == '/' {
        Some(TokenType::Slash)
    } else if c == '*' {
        Some(TokenType::Asterisk)
    } else if c == '<' {
        Some(TokenType::Lt)
    } else if c == '>' {
        Some(TokenType::Gt)
    } else if c == ',' {
        Some(TokenType::Comma)
    } else if c == ';' {
        Some(TokenType::SemiColon)
    } else if c == '(' {
        Some(TokenType::LParen)
    } else if c == ')' {
        Some(TokenType::RParen)
    } else if c == '{' {
        Some(TokenType::LBrace)
    } else if c == '}' {
        Some(TokenType::RBrace)
    } else {
        None
    }
}

/// The token that starts at offset `p` of `s` (after any whitespace), and
/// the offset just after it. At the end of the input it is `Eof`, with an
/// empty literal, and the offset stays at the end.
pub open spec fn lex_step(s: Seq<char>, p: int) -> ((TokenType, Seq<char>), int) {
    let q = skip_whitespace_from(s, p);
    if q >= s.len() {
        ((TokenType::Eof, Seq::<char>::empty()), q)
    } else {
        let c = s[q];
        if c == '=' {
            if q + 1 < s.len() && s[q + 1] == '=' {
                ((TokenType::Eq, s.subrange(q, q + 2)), q + 2)
            } else {
                ((TokenType::Assign, seq![c]), q + 1)
            }
        } else if c == '!' {
            if q + 1 < s.len() && s[q + 1] == '=' {
                ((TokenType::NotEq, s.subrange(q, q + 2)), q + 2)
            } else {
                ((TokenType::Bang, seq![c]), q + 1)
            }
        } else if single_char_kind(c) is Some {
            ((single_char_kind(c)->0, seq![c]), q + 1)
        } else if is_letter_char(c) {
            let word = s.subrange(q, letters_end(s, q));
            ((keyword_type(word), word), letters_end(s, q))
        } else if is_digit_char(c) {
            ((TokenType::Int, s.subrange(q, digits_end(s, q))), digits_end(s, q))
        } else {
            ((TokenType::Illegal, seq![c]), q + 1)
        }
    }
}

proof fn lemma_skip_whitespace_bounds(s: Seq<char>, p: int)
    requires
        0 <= p <= s.len(),
    ensures
        p <= skip_whitespace_from(s, p) <= s.len(),
        skip_whitespace_from(s, p) < s.len() ==> !is_whitespace_char(
            s[skip_whitespace_from(s, p)],
        ),
    decreases s.len() - p,
{
    if p < s.len() && is_whitespace_char(s[p]) {
        lemma_skip_whitespace_bounds(s, p + 1);
    }
}

proof fn lemma_letters_end_bounds(s: Seq<char>, p: int)
    requires
        0 <= p <= s.len(),
    ensures
        p <= letters_end(s, p) <= s.len(),
        p < s.len() && is_letter_char(s[p]) ==> p < letters_end(s, p),
    decreases s.len() - p,
{
    if p < s.len() && is_letter_char(s[p]) {
        lemma_letters_end_bounds(s, p + 1);
    }
}

proof fn lemma_digits_end_bounds(s: Seq<char>, p: int)
    requires
        0 <= p <= s.len(),
    ensures
        p <= digits_end(s, p) <= s.len(),
        p < s.len() && is_digit_char(s[p]) ==> p < digits_end(s, p),
    decreases s.len() - p,
{
    if p < s.len() && is_digit_char(s[p]) {
        lemma_digits_end_bounds(s, p + 1);
    }
}

/// Every step of the lexer either reaches the end of the input, where it
/// gives `Eof`, or reads at least one character and gives another kind.
pub proof fn lemma_lex_step_progress(s: Seq<char>, p: int)
    requires
        0 <= p <= s.len(),
    ensures
        p <= lex_step(s, p).1 <= s.len(),
        (lex_step(s, p).0.0 == TokenType::Eof) <==> skip_whitespace_from(s, p) >= s.len(),
        lex_step(s, p).0.0 != TokenType::Eof ==> p < lex_step(s, p).1,
        lex_step(s, p).0.0 == TokenType::Eof ==> lex_step(s, p).1 == s.len(),
        lex_step(s, p).0.0 == TokenType::Eof ==> lex_step(s, p).0.1 == Seq::<char>::empty(),
{
    lemma_skip_whitespace_bounds(s, p);
    let q = skip_whitespace_from(s, p);
    if q < s.len() {
        lemma_letters_end_bounds(s, q);
        lemma_digits_end_bounds(s, q);
        let c = s[q];
        if is_letter_char(c) && !(c == '=' || c == '!' || single_char_kind(c) is Some) {
            assert(keyword_type(s.subrange(q, letters_end(s, q))) != TokenType::Eof);
        }
    }
}

/// Once the lexer has handed out `Eof`, every further token is `Eof`
/// again, and the lexer stays at the end of the input.
pub proof fn lemma_eof_is_final(s: Seq<char>, p: int)
    requires
        0 <= p <= s.len(),
        lex_step(s, p).0.0 == TokenType::Eof,
    ensures
        lex_step(s, lex_step(s, p).1) == ((TokenType::Eof, Seq::<char>::empty()), s.len() as int),
{
    lemma_lex_step_progress(s, p);
    assert(skip_whitespace_from(s, s.len() as int) == s.len());
}

/// The literal of every token is the stretch of source text it was read
/// from: what lies between the whitespace skipped before it and the offset
/// after it.
pub proof fn lemma_literal_is_source_text(s: Seq<char>, p: int)
    requires
        0 <= p <= s.len(),
    ensures
        lex_step(s, p).0.1 == s.subrange(skip_whitespace_from(s, p), lex_step(s, p).1),
{
    lemma_lex_step_progress(s, p);
    lemma_skip_whitespace_bounds(s, p);
    let q = skip_whitespace_from(s, p);
    if q < s.len() {
        lemma_letters_end_bounds(s, q);
        lemma_digits_end_bounds(s, q);
        assert(seq![s[q]] == s.subrange(q, q + 1));
    }
}

/// The tokens that the lexer hands out from offset `p` on, up to and
/// including the first `Eof`.
pub open spec fn lex_all(s: Seq<char>, p: int) -> Seq<(TokenType, Seq<char>)>
    decreases s.len() - p,
{
    let (tok, q) = lex_step(s, p);
    if tok.0 == TokenType::Eof || !(p < q <= s.len()) {
        seq![tok]
    } else {
        seq![tok] + lex_all(s, q)
    }
}

/// The tokens of a whole source text.
pub open spec fn tokenize(s: Seq<char>) -> Seq<(TokenType, Seq<char>)> {
    lex_all(s, 0)
}

/// What the lexer hands out ends with `Eof`, and holds no `Eof` before it.
pub proof fn lemma_lex_all_ends_with_eof(s: Seq<char>, p: int)
    requires
        0 <= p <= s.len(),
    ensures
        lex_all(s, p).len() >= 1,
        lex_all(s, p).last().0 == TokenType::Eof,
        lex_all(s, p).last().1 == Seq::<char>::empty(),
        forall|i: int|
            0 <= i < lex_all(s, p).len() - 1 ==> (#[trigger] lex_all(s, p)[i]).0
                != TokenType::Eof,
    decreases s.len() - p,
{
    lemma_lex_step_progress(s, p);
    let (tok, q) = lex_step(s, p);
    if tok.0 != TokenType::Eof {
        lemma_lex_all_ends_with_eof(s, q);
        let rest = lex_all(s, q);
        assert forall|i: int| 0 <= i < lex_all(s, p).len() - 1 implies (#[trigger] lex_all(
            s,
            p,
        )[i]).0 != TokenType::Eof by {
            if i > 0 {
                assert(lex_all(s, p)[i] == rest[i - 1]);
            }
        }
    }
}

/// `s` with the characters that separate tokens taken out.
pub open spec fn without_whitespace(s: Seq<char>) -> Seq<char>
    decreases s.len(),
{
    if s.len() == 0 {
        Seq::empty()
    } else if is_whitespace_char(s[0]) {
        without_whitespace(s.drop_first())
    } else {
        seq![s[0]] + without_whitespace(s.drop_first())
    }
}

/// The literals of `toks`, one after the other.
pub open spec fn literals(toks: Seq<(TokenType, Seq<char>)>) -> Seq<char>
    decreases toks.len(),
{
    if toks.len() == 0 {
        Seq::empty()
    } else {
        toks[0].1 + literals(toks.drop_first())
    }
}

proof fn lemma_without_whitespace_concat(a: Seq<char>, b: Seq<char>)
    ensures
        without_whitespace(a + b) == without_whitespace(a) + without_whitespace(b),
    decreases a.len(),
{
    if a.len() == 0 {
        assert(a + b == b);
    } else {
        assert((a + b).drop_first() == a.drop_first() + b);
        assert((a + b)[0] == a[0]);
        lemma_without_whitespace_concat(a.drop_first(), b);
        if !is_whitespace_char(a[0]) {
            assert(seq![a[0]] + (without_whitespace(a.drop_first()) + without_whitespace(b))
                == (seq![a[0]] + without_whitespace(a.drop_first())) + without_whitespace(b));
        }
    }
}

proof fn lemma_without_whitespace_all(a: Seq<char>, keep: bool)
    requires
        forall|i: int| 0 <= i < a.len() ==> is_whitespace_char(#[trigger] a[i]) != keep,
    ensures
        without_whitespace(a) == if keep {
            a
        } else {
            Seq::<char>::empty()
        },
    decreases a.len(),
{
    if a.len() > 0 {
        assert(forall|i: int|
            0 <= i < a.drop_first().len() ==> #[trigger] a.drop_first()[i] == a[i + 1]);
        lemma_without_whitespace_all(a.drop_first(), keep);
        if keep {
            assert(seq![a[0]] + a.drop_first() == a);
        }
    }
}

proof fn lemma_skipped_is_whitespace(s: Seq<char>, p: int)
    requires
        0 <= p <= s.len(),
    ensures
        forall|i: int| p <= i < skip_whitespace_from(s, p) ==> is_whitespace_char(#[trigger] s[i]),
    decreases s.len() - p,
{
    if p < s.len() && is_whitespace_char(s[p]) {
        lemma_skipped_is_whitespace(s, p + 1);
    }
}

proof fn lemma_word_has_no_whitespace(s: Seq<char>, p: int)
    requires
        0 <= p <= s.len(),
    ensures
        forall|i: int| p <= i < letters_end(s, p) ==> !is_whitespace_char(#[trigger] s[i]),
        forall|i: int| p <= i < digits_end(s, p) ==> !is_whitespace_char(#[trigger] s[i]),
    decreases s.len() - p,
{
    if p < s.len() {
        lemma_word_has_no_whitespace(s, p + 1);
    }
}

/// Put together, the literals of the tokens that the lexer hands out from
/// offset `p` on are the rest of the source text without its whitespace:
/// every other character is read into exactly one token, in order.
pub proof fn lemma_literals_cover_source(s: Seq<char>, p: int)
    requires
        0 <= p <= s.len(),
    ensures
        literals(lex_all(s, p)) == without_whitespace(s.subrange(p, s.len() as int)),
    decreases s.len() - p,
{
    let (tok, q) = lex_step(s, p);
    let k = skip_whitespace_from(s, p);
    lemma_lex_step_progress(s, p);
    lemma_skip_whitespace_bounds(s, p);
    lemma_skipped_is_whitespace(s, p);
    lemma_literal_is_source_text(s, p);
    let gap = s.subrange(p, k);
    assert forall|i: int| 0 <= i < gap.len() implies is_whitespace_char(#[trigger] gap[i]) != false by {
        assert(gap[i] == s[p + i]);
    }
    lemma_without_whitespace_all(gap, false);
    if tok.0 == TokenType::Eof {
        assert(k == s.len());
        assert(gap == s.subrange(p, s.len() as int));
        assert(lex_all(s, p) == seq![tok]);
        assert(seq![tok].drop_first() == Seq::<(TokenType, Seq<char>)>::empty());
        assert(literals(Seq::<(TokenType, Seq<char>)>::empty()) == Seq::<char>::empty());
        assert(literals(seq![tok]) == tok.1 + Seq::<char>::empty());
        assert(tok.1 + Seq::<char>::empty() == Seq::<char>::empty());
    } else {
        lemma_letters_end_bounds(s, k);
        lemma_digits_end_bounds(s, k);
        assert(k < q);
        let word = s.subrange(k, q);
        lemma_word_has_no_whitespace(s, k);
        assert forall|i: int| 0 <= i < word.len() implies is_whitespace_char(#[trigger] word[i]) != true by {
            assert(word[i] == s[k + i]);
        }
        lemma_without_whitespace_all(word, true);
        lemma_literals_cover_source(s, q);
        let rest = s.subrange(q, s.len() as int);
        assert(s.subrange(p, s.len() as int) == gap + word + rest);
        lemma_without_whitespace_concat(gap, word);
        lemma_without_whitespace_concat(gap + word, rest);
        assert(lex_all(s, p) == seq![tok] + lex_all(s, q));
        assert((seq![tok] + lex_all(s, q)).drop_first() == lex_all(s, q));
        assert(gap + word + rest == s.subrange(p, s.len() as int));
    }
}

proof fn lemma_scans_shift(a: Seq<char>, b: Seq<char>, p: int)
    requires
        0 <= p <= b.len(),
    ensures
        skip_whitespace_from(a + b, a.len() + p) == a.len() + skip_whitespace_from(b, p),
        letters_end(a + b, a.len() + p) == a.len() + letters_end(b, p),
        digits_end(a + b, a.len() + p) == a.len() + digits_end(b, p),
    decreases b.len() - p,
{
    if p < b.len() {
        assert((a + b)[a.len() + p] == b[p]);
        lemma_scans_shift(a, b, p + 1);
    }
}

proof fn lemma_step_shift(a: Seq<char>, b: Seq<char>, p: int)
    requires
        0 <= p <= b.len(),
    ensures
        lex_step(a + b, a.len() + p) == (lex_step(b, p).0, a.len() + lex_step(b, p).1),
{
    let s = a + b;
    let n = a.len() as int;
    lemma_scans_shift(a, b, p);
    lemma_skip_whitespace_bounds(b, p);
    let q = skip_whitespace_from(b, p);
    if q < b.len() {
        lemma_scans_shift(a, b, q);
        lemma_letters_end_bounds(b, q);
        lemma_digits_end_bounds(b, q);
        assert(s[n + q] == b[q]);
        if q + 1 < b.len() {
            assert(s[n + q + 1] == b[q + 1]);
            assert(s.subrange(n + q, n + q + 2) == b.subrange(q, q + 2));
        }
        assert(s.subrange(n + q, n + letters_end(b, q)) == b.subrange(q, letters_end(b, q)));
        assert(s.subrange(n + q, n + digits_end(b, q)) == b.subrange(q, digits_end(b, q)));
    }
}

proof fn lemma_lex_all_shift(a: Seq<char>, b: Seq<char>, p: int)
    requires
        0 <= p <= b.len(),
    ensures
        lex_all(a + b, a.len() + p) == lex_all(b, p),
    decreases b.len() - p,
{
    lemma_step_shift(a, b, p);
    lemma_lex_step_progress(b, p);
    let q = lex_step(b, p).1;
    if lex_step(b, p).0.0 != TokenType::Eof {
        lemma_lex_all_shift(a, b, q);
    }
}

proof fn lemma_scans_prefix(a: Seq<char>, b: Seq<char>, p: int)
    requires
        0 <= p <= a.len(),
    ensures
        skip_whitespace_from(a, p) < a.len() ==> skip_whitespace_from(a + b, p)
            == skip_whitespace_from(a, p),
        letters_end(a, p) < a.len() ==> letters_end(a + b, p) == letters_end(a, p),
        digits_end(a, p) < a.len() ==> digits_end(a + b, p) == digits_end(a, p),
    decreases a.len() - p,
{
    if p < a.len() {
        assert((a + b)[p] == a[p]);
        lemma_scans_prefix(a, b, p + 1);
    }
}

proof fn lemma_lex_all_prefix(a: Seq<char>, b: Seq<char>, p: int)
    requires
        0 <= p <= a.len(),
        a.len() > 0,
        a.last() == ';',
    ensures
        lex_all(a + b, p) == lex_all(a, p).drop_last() + lex_all(b, 0),
    decreases a.len() - p,
{
    let s = a + b;
    let n = a.len() as int;
    lemma_lex_step_progress(a, p);
    lemma_lex_all_ends_with_eof(a, p);
    if p == n {
        assert(skip_whitespace_from(a, n) == n);
        assert(lex_all(a, p) == seq![lex_step(a, p).0]);
        lemma_lex_all_shift(a, b, 0);
        assert(lex_all(a, p).drop_last() + lex_all(b, 0) == lex_all(b, 0));
    } else {
        lemma_skip_whitespace_bounds(a, p);
        lemma_skipped_is_whitespace(a, p);
        let k = skip_whitespace_from(a, p);
        assert(k < n) by {
            if k >= n {
                assert(is_whitespace_char(a[n - 1]));
            }
        }
        lemma_scans_prefix(a, b, p);
        lemma_scans_prefix(a, b, k);
        lemma_letters_end_bounds(a, k);
        lemma_digits_end_bounds(a, k);
        lemma_word_has_no_whitespace(a, k);
        assert(s[k] == a[k]);
        if k + 1 < n {
            assert(s[k + 1] == a[k + 1]);
            assert(s.subrange(k, k + 2) == a.subrange(k, k + 2));
        }
        assert(letters_end(a, k) < n) by {
            if letters_end(a, k) >= n {
                lemma_letters_cover(a, k);
            }
        }
        assert(digits_end(a, k) < n) by {
            if digits_end(a, k) >= n {
                lemma_letters_cover(a, k);
            }
        }
        assert(s.subrange(k, letters_end(a, k)) == a.subrange(k, letters_end(a, k)));
        assert(s.subrange(k, digits_end(a, k)) == a.subrange(k, digits_end(a, k)));
        assert(lex_step(s, p) == lex_step(a, p));
        let (tok, q) = lex_step(a, p);
        lemma_lex_all_prefix(a, b, q);
        lemma_lex_all_ends_with_eof(a, q);
        assert(lex_all(s, p) == seq![tok] + lex_all(s, q));
        assert(lex_all(a, p) == seq![tok] + lex_all(a, q));
        assert((seq![tok] + lex_all(a, q)).drop_last() == seq![tok] + lex_all(a, q).drop_last());
    }
}

proof fn lemma_letters_cover(s: Seq<char>, p: int)
    requires
        0 <= p <= s.len(),
    ensures
        forall|i: int| p <= i < letters_end(s, p) ==> is_letter_char(#[trigger] s[i]),
        forall|i: int| p <= i < digits_end(s, p) ==> is_digit_char(#[trigger] s[i]),
    decreases s.len() - p,
{
    if p < s.len() {
        lemma_letters_cover(s, p + 1);
    }
}

/// A text that ends with `;` is lexed with that `;` as its last token
/// before `Eof`.
pub proof fn lemma_semicolon_ends_tokens(s: Seq<char>, p: int)
    requires
        0 <= p < s.len(),
        s.last() == ';',
    ensures
        lex_all(s, p).len() >= 2,
        lex_all(s, p)[lex_all(s, p).len() - 2] == (TokenType::SemiColon, seq![';']),
    decreases s.len() - p,
{
    let n = s.len() as int;
    lemma_lex_step_progress(s, p);
    lemma_skip_whitespace_bounds(s, p);
    lemma_skipped_is_whitespace(s, p);
    let k = skip_whitespace_from(s, p);
    assert(k < n) by {
        if k >= n {
            assert(is_whitespace_char(s[n - 1]));
        }
    }
    let (tok, q) = lex_step(s, p);
    lemma_letters_end_bounds(s, k);
    lemma_digits_end_bounds(s, k);
    lemma_letters_cover(s, k);
    lemma_lex_all_ends_with_eof(s, q);
    if q == n {
        assert(k == n - 1) by {
            if k < n - 1 {
                assert(s[n - 1] == ';');
                assert(!is_letter_char(s[n - 1]));
                assert(!is_digit_char(s[n - 1]));
            }
        }
        assert(tok == (TokenType::SemiColon, seq![';']));
        assert(skip_whitespace_from(s, n) == n);
        assert(lex_all(s, q) == seq![lex_step(s, q).0]);
        assert(lex_all(s, p) == seq![tok] + lex_all(s, q));
    } else {
        lemma_semicolon_ends_tokens(s, q);
        assert(lex_all(s, p) == seq![tok] + lex_all(s, q));
    }
}

/// Lexing two texts one after the other, where the first ends with `;`,
/// gives the tokens of the first, but for its closing `Eof`, followed by
/// the tokens of the second.
pub proof fn lemma_lexing_joined_texts(s1: Seq<char>, s2: Seq<char>)
    requires
        s1.len() > 0,
        s1.last() == ';',
    ensures
        tokenize(s1 + s2) == tokenize(s1).drop_last() + tokenize(s2),
{
    lemma_lex_all_prefix(s1, s2, 0);
}

/// When the first token of `u + r` is exactly `u`, the tokens of `u + r`
/// are that token followed by the tokens of `r`.
pub proof fn lemma_lex_leading_token(u: Seq<char>, r: Seq<char>)
    requires
        lex_step(u + r, 0).1 == u.len(),
        lex_step(u + r, 0).0.0 != TokenType::Eof,
    ensures
        lex_all(u + r, 0) == seq![lex_step(u + r, 0).0] + lex_all(r, 0),
{
    lemma_lex_step_progress(u + r, 0);
    lemma_lex_all_shift(u, r, 0);
}

/// Whitespace in front of a text changes none of its tokens.
pub proof fn lemma_lex_leading_whitespace(c: char, r: Seq<char>)
    requires
        is_whitespace_char(c),
    ensures
        lex_all(seq![c] + r, 0) == lex_all(r, 0),
{
    let x = seq![c] + r;
    lemma_scans_shift(seq![c], r, 0);
    assert(x[0] == c);
    assert(skip_whitespace_from(x, 0) == skip_whitespace_from(x, 1));
    lemma_step_shift(seq![c], r, 0);
    assert(lex_step(x, 0) == lex_step(x, 1));
    lemma_lex_step_progress(x, 1);
    lemma_lex_step_progress(x, 0);
    lemma_lex_all_shift(seq![c], r, 0);
}

/// The kinds of the binary operators, by their text.
pub open spec fn operator_kind(o: Seq<char>) -> Option<TokenType> {
    if o == "=="@ {
        Some(TokenType::Eq)
    } else if o == "!="@ {
        Some(TokenType::NotEq)
    } else if o == "<"@ {
        Some(TokenType::Lt)
    } else if o == ">"@ {
        Some(TokenType::Gt)
    } else if o == "+"@ {
        Some(TokenType::Plus)
    } else if o == "-"@ {
        Some(TokenType::Minus)
    } else if o == "*"@ {
        Some(TokenType::Asterisk)
    } else if o == "/"@ {
        Some(TokenType::Slash)
    } else {
        None
    }
}

/// A binary operator's text, whatever follows it, is read as one token.
pub proof fn lemma_lex_operator(o: Seq<char>, r: Seq<char>)
    requires
        operator_kind(o) is Some,
    ensures
        lex_all(o + r, 0) == seq![(operator_kind(o)->0, o)] + lex_all(r, 0),
{
    reveal_strlit("==");
    reveal_strlit("!=");
    reveal_strlit("<");
    reveal_strlit(">");
    reveal_strlit("+");
    reveal_strlit("-");
    reveal_strlit("*");
    reveal_strlit("/");
    let x = o + r;
    assert(x[0] == o[0]);
    if o.len() == 2 {
        assert(x[1] == o[1]);
        assert(x.subrange(0, 2) == o);
    } else {
        assert(seq![x[0]] == o);
    }
    lemma_lex_leading_token(o, r);
}

/// A single character that makes a token on its own, whatever follows it.
pub proof fn lemma_lex_single(c: char, r: Seq<char>)
    requires
        single_char_kind(c) is Some,
    ensures
        lex_all(seq![c] + r, 0) == seq![(single_char_kind(c)->0, seq![c])] + lex_all(r, 0),
{
    assert((seq![c] + r)[0] == c);
    lemma_lex_leading_token(seq![c], r);
}

proof fn lemma_letters_run(x: Seq<char>, n: int, p: int)
    requires
        0 <= p <= n <= x.len(),
        forall|i: int| p <= i < n ==> is_letter_char(#[trigger] x[i]),
        n == x.len() || !is_letter_char(x[n]),
    ensures
        letters_end(x, p) == n,
    decreases n - p,
{
    if p < n {
        lemma_letters_run(x, n, p + 1);
    }
}

/// A word of letters, followed by anything but a letter, is read as one
/// token: a keyword or an identifier.
pub proof fn lemma_lex_word(w: Seq<char>, r: Seq<char>)
    requires
        w.len() > 0,
        forall|i: int| 0 <= i < w.len() ==> is_letter_char(#[trigger] w[i]),
        r.len() == 0 || !is_letter_char(r[0]),
    ensures
        lex_all(w + r, 0) == seq![(keyword_type(w), w)] + lex_all(r, 0),
{
    let x = w + r;
    assert(forall|i: int| 0 <= i < w.len() ==> #[trigger] x[i] == w[i]);
    assert(is_letter_char(w[0]));
    assert(x[0] == w[0]);
    assert(skip_whitespace_from(x, 0) == 0);
    if r.len() > 0 {
        assert(x[w.len() as int] == r[0]);
    }
    lemma_letters_run(x, w.len() as int, 0);
    assert(x.subrange(0, w.len() as int) == w);
    assert(keyword_type(w) != TokenType::Eof);
    lemma_lex_leading_token(w, r);
}

/// A word of Latin letters (either case) and underscores, followed by the
/// end of the text or by any other ASCII character, is read as one token:
/// a keyword, or else one identifier.
pub proof fn lemma_lex_ascii_word(w: Seq<char>, r: Seq<char>)
    requires
        w.len() > 0,
        forall|i: int| 0 <= i < w.len() ==> is_ascii_word_char(#[trigger] w[i]),
        r.len() == 0 || ((r[0] as u32) < 128 && !is_ascii_word_char(r[0])),
    ensures
        lex_all(w + r, 0) == seq![(keyword_type(w), w)] + lex_all(r, 0),
{
    assert forall|i: int| 0 <= i < w.len() implies is_letter_char(#[trigger] w[i]) by {
        lemma_identifier_characters(w[i]);
    }
    if r.len() > 0 {
        lemma_identifier_characters(r[0]);
    }
    lemma_lex_word(w, r);
}

/// Reads source text one character at a time and hands out tokens.
pub struct Lexer {
    input: Vec<char>,
    position: usize,
}

impl Lexer {
    #[verifier::type_invariant]
    closed spec fn inv(self) -> bool {
        self.position <= self.input@.len()
    }

    /// The whole source text.
    pub closed spec fn source(&self) -> Seq<char> {
        self.input@
    }

    /// The offset of the next character to be read.
    pub closed spec fn offset(&self) -> int {
        self.position as int
    }

    /// A lexer at the start of `input`.
    pub fn new(input: &str) -> (res: Self)
        ensures
            res.source() == input@,
            res.offset() == 0,
    {
        Lexer { input: chars_of(input), position: 0 }
    }

    fn current(&self) -> (res: Option<char>)
        ensures
            res == char_at(self.source(), self.offset()),
    {
        if self.position < self.input.len() {
            Some(self.input[self.position])
        } else {
            None
        }
    }

    fn read_char(&mut self)
        ensures
            final(self).source() == old(self).source(),
            final(self).offset() == if old(self).offset() < old(self).source().len() {
                old(self).offset() + 1
            } else {
                old(self).offset()
            },
    {
        proof {
            use_type_invariant(&*self);
        }
        if self.position < self.input.len() {
            self.position = self.position + 1;
        }
    }

    fn peek_char(&self) -> (res: Option<char>)
        ensures
            res == char_at(self.source(), self.offset() + 1),
    {
        proof {
            use_type_invariant(self);
        }
        if self.position < self.input.len() && self.position + 1 < self.input.len() {
            Some(self.input[self.position + 1])
        } else {
            None
        }
    }

    fn skip_whitespace(&mut self)
        ensures
            final(self).source() == old(self).source(),
            final(self).offset() == skip_whitespace_from(old(self).source(), old(self).offset()),
    {
        proof {
            use_type_invariant(&*self);
        }
        while self.position < self.input.len() && is_whitespace(self.input[self.position])
            invariant
                self.source() == old(self).source(),
                skip_whitespace_from(self.source(), self.offset())
                    == skip_whitespace_from(old(self).source(), old(self).offset()),
            decreases self.input.len() - self.position,
        {
            proof {
                use_type_invariant(&*self);
            }
            self.read_char();
        }
    }

    fn text(&self, from: usize, to: usize) -> (res: String)
        requires
            from <= to <= self.source().len(),
        ensures
            res@ == self.source().subrange(from as int, to as int),
    {
        let mut res = String::new();
        let mut i: usize = from;
        while i < to
            invariant
                from <= i <= to,
                to <= self.input@.len(),
                res@ == self.input@.subrange(from as int, i as int),
            decreases to - i,
        {
            res.push(self.input[i]);
            assert(self.input@.subrange(from as int, i + 1) == self.input@.subrange(
                from as int,
                i as int,
            ).push(self.input@[i as int]));
            i = i + 1;
        }
        res
    }

    fn read_identifier(&mut self) -> (res: String)
        ensures
            final(self).source() == old(self).source(),
            final(self).offset() == letters_end(old(self).source(), old(self).offset()),
            res@ == old(self).source().subrange(old(self).offset(), final(self).offset()),
    {
        proof {
            use_type_invariant(&*self);
        }
        let start: usize = self.position;
        while is_letter(self.current())
            invariant
                self.source() == old(self).source(),
                start == old(self).offset(),
                start <= self.offset(),
                letters_end(self.source(), self.offset()) == letters_end(
                    old(self).source(),
                    old(self).offset(),
                ),
            decreases self.input.len() - self.position,
        {
            proof {
                use_type_invariant(&*self);
            }
            self.read_char();
        }
        proof {
            use_type_invariant(&*self);
        }
        self.text(start, self.position)
    }

    fn read_number(&mut self) -> (res: String)
        ensures
            final(self).source() == old(self).source(),
            final(self).offset() == digits_end(old(self).source(), old(self).offset()),
            res@ == old(self).source().subrange(old(self).offset(), final(self).offset()),
    {
        proof {
            use_type_invariant(&*self);
        }
        let start: usize = self.position;
        while is_digit(self.current())
            invariant
                self.source() == old(self).source(),
                start == old(self).offset(),
                start <= self.offset(),
                digits_end(self.source(), self.offset()) == digits_end(
                    old(self).source(),
                    old(self).offset(),
                ),
            decreases self.input.len() - self.position,
        {
            proof {
                use_type_invariant(&*self);
            }
            self.read_char();
        }
        proof {
            use_type_invariant(&*self);
        }
        self.text(start, self.position)
    }

    fn single(&mut self, token_type: TokenType, c: char, width: usize) -> (res: Token)
        requires
            width == 1 || width == 2,
            old(self).offset() + width <= old(self).source().len(),
            c == old(self).source()[old(self).offset()],
            width == 2 ==> old(self).source()[old(self).offset() + 1] == '=',
        ensures
            final(self).source() == old(self).source(),
            final(self).offset() == old(self).offset() + width,
            res.token_type == token_type,
            res@.1 == old(self).source().subrange(old(self).offset(), old(self).offset() + width),
    {
        let mut literal = String::new();
        literal.push(c);
        self.read_char();
        if width == 2 {
            literal.push('=');
            self.read_char();
        }
        assert(literal@ == old(self).source().subrange(old(self).offset(), old(self).offset() + width));
        Token::new(token_type, literal)
    }

    /// Skips whitespace and reads the next token.
    pub fn next_token(&mut self) -> (res: Token)
        ensures
            final(self).source() == old(self).source(),
            0 <= old(self).offset() <= old(self).source().len(),
            0 <= final(self).offset() <= final(self).source().len(),
            (res@, final(self).offset()) == lex_step(old(self).source(), old(self).offset()),
    {
        proof {
            use_type_invariant(&*self);
            lemma_lex_step_progress(self.source(), self.offset());
        }
        self.skip_whitespace();
        proof {
            use_type_invariant(&*self);
        }
        match self.current() {
            None => Token::new(TokenType::Eof, String::new()),
            Some(c) => {
                let two = self.peek_char() == Some('=');
                if c == '=' {
                    if two {
                        self.single(TokenType::Eq, c, 2)
                    } else {
                        self.single(TokenType::Assign, c, 1)
                    }
                } else if c == '!' {
                    if two {
                        self.single(TokenType::NotEq, c, 2)
                    } else {
                        self.single(TokenType::Bang, c, 1)
                    }
                } else if let Some(t) = single_char_type(c) {
                    self.single(t, c, 1)
                } else if is_letter(Some(c)) {
                    let literal = self.read_identifier();
                    let token_type = TokenType::lookup_ident(literal.as_str());
                    Token::new(token_type, literal)
                } else if is_digit(Some(c)) {
                    let literal = self.read_number();
                    Token::new(TokenType::Int, literal)
                } else {
                    self.single(TokenType::Illegal, c, 1)
                }
            },
        }
    }
}

fn single_char_type(c: char) -> (res: Option<TokenType>)
    ensures
        res == single_char_kind(c),
{
    match c {
        '+' => Some(TokenType::Plus),
        '-' => Some(TokenType::Minus),
        '/' => Some(TokenType::Slash),
        '*' => Some(TokenType::Asterisk),
        '<' => Some(TokenType::Lt),
        '>' => Some(TokenType::Gt),
        ',' => Some(TokenType::Comma),
        ';' => Some(TokenType::SemiColon),
        '(' => Some(TokenType::LParen),
        ')' => Some(TokenType::RParen),
        '{' => Some(TokenType::LBrace),
        '}' => Some(TokenType::RBrace),
        _ => None,
    }
}

fn is_whitespace(c: char) -> (res: bool)
    ensures
        res == is_whitespace_char(c),
{
    c == ' ' || c == '\t' || c == '\n' || c == '\r'
}

fn is_letter(ch: Option<char>) -> (res: bool)
    ensures
        res == (ch matches Some(c) && is_letter_char(c)),
{
    match ch {
        Some(c) => is_alphabetic(c) || c == '_',
        None => false,
    }
}

fn is_digit(ch: Option<char>) -> (res: bool)
    ensures
        res == (ch matches Some(c) && is_digit_char(c)),
{
    match ch {
        Some(c) => '0' <= c && c <= '9',
        None => false,
    }
}

} // verus!
