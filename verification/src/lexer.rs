//! The lexer: a cursor over the source text that yields one token per
//! call, specified by a mathematical description of each lexing step.
use crate::token::{lookup_ident, spec_lookup_ident, Token, TokenV};
use vstd::prelude::*;

verus! {

/// A character the lexer skips between tokens: one of the code points with
/// the Unicode `White_Space` property, the host runtime's whitespace notion.
pub open spec fn is_blank(c: char) -> bool {
    ('\u{9}' as u32 <= c as u32 && c as u32 <= '\u{D}' as u32) || c == ' ' || c == '\u{85}' || c
        == '\u{A0}' || c == '\u{1680}' || ('\u{2000}' as u32 <= c as u32 && c as u32
        <= '\u{200A}' as u32) || c == '\u{2028}' || c == '\u{2029}' || c == '\u{202F}' || c
        == '\u{205F}' || c == '\u{3000}'
}

/// A character that may appear in an identifier: an ASCII letter or `_`.
pub open spec fn is_letter_ch(c: char) -> bool {
    ('a' as u32 <= c as u32 && c as u32 <= 'z' as u32) || ('A' as u32 <= c as u32 && c as u32
        <= 'Z' as u32) || c == '_'
}

/// An ASCII decimal digit.
pub open spec fn is_digit_ch(c: char) -> bool {
    '0' as u32 <= c as u32 && c as u32 <= '9' as u32
}

pub fn is_letter(ch: char) -> (r: bool)
    ensures
        r == is_letter_ch(ch),
{
    (ch >= 'a' && ch <= 'z') || (ch >= 'A' && ch <= 'Z') || ch == '_'
}

pub fn is_digit(ch: char) -> (r: bool)
    ensures
        r == is_digit_ch(ch),
{
    ch >= '0' && ch <= '9'
}

fn blank(ch: char) -> (r: bool)
    ensures
        r == is_blank(ch),
{
    (ch >= '\u{9}' && ch <= '\u{D}') || ch == ' ' || ch == '\u{85}' || ch == '\u{A0}' || ch
        == '\u{1680}' || (ch >= '\u{2000}' && ch <= '\u{200A}') || ch == '\u{2028}' || ch
        == '\u{2029}' || ch == '\u{202F}' || ch == '\u{205F}' || ch == '\u{3000}'
}

/// The first position at or after `pos` holding a non-blank character, or the
/// end of the input.
pub open spec fn ws_end(input: Seq<char>, pos: int) -> int
    decreases input.len() - pos
        when 0 <= pos <= input.len()
{
    if pos >= input.len() {
        pos
    } else if is_blank(input[pos]) {
        ws_end(input, pos + 1)
    } else {
        pos
    }
}

/// The first position at or after `pos` holding a character that cannot
/// continue an identifier.
pub open spec fn ident_end(input: Seq<char>, pos: int) -> int
    decreases input.len() - pos
        when 0 <= pos <= input.len()
{
    if pos >= input.len() {
        pos
    } else if is_letter_ch(input[pos]) {
        ident_end(input, pos + 1)
    } else {
        pos
    }
}

/// The first position at or after `pos` holding a non-digit character.
pub open spec fn num_end(input: Seq<char>, pos: int) -> int
    decreases input.len() - pos
        when 0 <= pos <= input.len()
{
    if pos >= input.len() {
        pos
    } else if is_digit_ch(input[pos]) {
        num_end(input, pos + 1)
    } else {
        pos
    }
}

pub proof fn lemma_ws_end_bounds(input: Seq<char>, pos: int)
    requires
        0 <= pos <= input.len(),
    ensures
        pos <= ws_end(input, pos) <= input.len(),
    decreases input.len() - pos,
{
    if pos < input.len() && is_blank(input[pos]) {
        lemma_ws_end_bounds(input, pos + 1);
    }
}

pub proof fn lemma_ident_end_bounds(input: Seq<char>, pos: int)
    requires
        0 <= pos <= input.len(),
    ensures
        pos <= ident_end(input, pos) <= input.len(),
    decreases input.len() - pos,
{
    if pos < input.len() && is_letter_ch(input[pos]) {
        lemma_ident_end_bounds(input, pos + 1);
    }
}

pub proof fn lemma_num_end_bounds(input: Seq<char>, pos: int)
    requires
        0 <= pos <= input.len(),
    ensures
        pos <= num_end(input, pos) <= input.len(),
    decreases input.len() - pos,
{
    if pos < input.len() && is_digit_ch(input[pos]) {
        lemma_num_end_bounds(input, pos + 1);
    }
}

/// The token that starts at `pos` (after skipping blanks), together with the
/// position just past it.
pub open spec fn spec_token_at(input: Seq<char>, pos: int) -> (TokenV, int) {
    let p = ws_end(input, pos);
    if p >= input.len() {
        (TokenV::EOF, input.len() as int)
    } else {
        let c = input[p];
        if c == '=' {
            if p + 1 < input.len() && input[p + 1] == '=' {
                (TokenV::Eq, p + 2)
            } else {
                (TokenV::Assign, p + 1)
            }
        } else if c == '!' {
            if p + 1 < input.len() && input[p + 1] == '=' {
                (TokenV::NotEq, p + 2)
            } else {
                (TokenV::Bang, p + 1)
            }
        } else if c == ';' {
            (TokenV::Semicolon, p + 1)
        } else if c == '(' {
            (TokenV::LParen, p + 1)
        } else if c == ')' {
            (TokenV::RParen, p + 1)
        } else if c == ',' {
            (TokenV::Comma, p + 1)
        } else if c == '{' {
            (TokenV::LBrace, p + 1)
        } else if c == '}' {
            (TokenV::RBrace, p + 1)
        } else if c == '+' {
            (TokenV::Plus, p + 1)
        } else if c == '-' {
            (TokenV::Minus, p + 1)
        } else if c == '*' {
            (TokenV::Star, p + 1)
        } else if c == '/' {
            (TokenV::Slash, p + 1)
        } else if c == '<' {
            (TokenV::LessThan, p + 1)
        } else if c == '>' {
            (TokenV::GreaterThan, p + 1)
        } else if is_letter_ch(c) {
            (spec_lookup_ident(input.subrange(p, ident_end(input, p))), ident_end(input, p))
        } else if is_digit_ch(c) {
            (TokenV::Int(input.subrange(p, num_end(input, p))), num_end(input, p))
        } else {
            (TokenV::Illegal(seq![c]), p + 1)
        }
    }
}

/// Position and token bounds of one lexing step.
pub proof fn lemma_token_at_bounds(input: Seq<char>, pos: int)
    requires
        0 <= pos <= input.len(),
    ensures
        pos <= spec_token_at(input, pos).1 <= input.len(),
        pos < input.len() ==> spec_token_at(input, pos).1 > pos,
        spec_token_at(input, pos).0 is EOF ==> spec_token_at(input, pos).1 == input.len(),
        !(spec_token_at(input, pos).0 is EOF) ==> spec_token_at(input, pos).1 > pos,
{
    lemma_ws_end_bounds(input, pos);
    let p = ws_end(input, pos);
    if p < input.len() {
        lemma_ident_end_bounds(input, p);
        lemma_num_end_bounds(input, p);
        if is_letter_ch(input[p]) {
            lemma_ident_end_bounds(input, p + 1);
            assert(ident_end(input, p) > p);
        }
        if is_digit_ch(input[p]) {
            lemma_num_end_bounds(input, p + 1);
            assert(num_end(input, p) > p);
        }
    }
}

/// All tokens from `pos` on, up to and including the first end-of-input
/// token: the stream a parser reading from `pos` will see.
pub open spec fn stream_from(input: Seq<char>, pos: int) -> Seq<TokenV>
    decreases input.len() - pos
        when 0 <= pos <= input.len()
        via stream_from_dec
{
    let (t, p) = spec_token_at(input, pos);
    if t is EOF {
        seq![t]
    } else {
        seq![t] + stream_from(input, p)
    }
}

#[via_fn]
proof fn stream_from_dec(input: Seq<char>, pos: int) {
    if 0 <= pos <= input.len() {
        lemma_token_at_bounds(input, pos);
    }
}


/// A character no rule of the lexer recognizes: lexed as an illegal token.
pub open spec fn is_illegal_ch(c: char) -> bool {
    &&& !is_blank(c)
    &&& !is_letter_ch(c)
    &&& !is_digit_ch(c)
    &&& c != '=' && c != '!' && c != ';' && c != '(' && c != ')' && c != ',' && c != '{' && c
        != '}' && c != '+' && c != '-' && c != '*' && c != '/' && c != '<' && c != '>'
}

/// Two inputs that agree from their cursors on: the same characters at the
/// same offsets, and the same number of characters left.
pub open spec fn same_suffix(s1: Seq<char>, q1: int, s2: Seq<char>, q2: int) -> bool {
    &&& s1.len() - q1 == s2.len() - q2
    &&& forall|k: int| 0 <= k < s1.len() - q1 ==> s1[q1 + k] == #[trigger] s2[q2 + k]
}

proof fn lemma_ws_end_shift(s1: Seq<char>, q1: int, s2: Seq<char>, q2: int)
    requires
        0 <= q1 <= s1.len(),
        0 <= q2 <= s2.len(),
        same_suffix(s1, q1, s2, q2),
    ensures
        ws_end(s1, q1) - q1 == ws_end(s2, q2) - q2,
    decreases s1.len() - q1,
{
    if q1 < s1.len() {
        assert(s1[q1 + 0] == s2[q2 + 0]);
        if is_blank(s1[q1]) {
            assert(same_suffix(s1, q1 + 1, s2, q2 + 1)) by {
                assert forall|k: int| 0 <= k < s1.len() - (q1 + 1) implies #[trigger] s1[(q1 + 1) + k]
                    == s2[(q2 + 1) + k] by {
                    assert(s1[q1 + (k + 1)] == s2[q2 + (k + 1)]);
                }
            }
            lemma_ws_end_shift(s1, q1 + 1, s2, q2 + 1);
        }
    }
}

proof fn lemma_ident_end_shift(s1: Seq<char>, q1: int, s2: Seq<char>, q2: int)
    requires
        0 <= q1 <= s1.len(),
        0 <= q2 <= s2.len(),
        same_suffix(s1, q1, s2, q2),
    ensures
        ident_end(s1, q1) - q1 == ident_end(s2, q2) - q2,
    decreases s1.len() - q1,
{
    if q1 < s1.len() {
        assert(s1[q1 + 0] == s2[q2 + 0]);
        if is_letter_ch(s1[q1]) {
            assert(same_suffix(s1, q1 + 1, s2, q2 + 1)) by {
                assert forall|k: int| 0 <= k < s1.len() - (q1 + 1) implies #[trigger] s1[(q1 + 1) + k]
                    == s2[(q2 + 1) + k] by {
                    assert(s1[q1 + (k + 1)] == s2[q2 + (k + 1)]);
                }
            }
            lemma_ident_end_shift(s1, q1 + 1, s2, q2 + 1);
        }
    }
}

proof fn lemma_num_end_shift(s1: Seq<char>, q1: int, s2: Seq<char>, q2: int)
    requires
        0 <= q1 <= s1.len(),
        0 <= q2 <= s2.len(),
        same_suffix(s1, q1, s2, q2),
    ensures
        num_end(s1, q1) - q1 == num_end(s2, q2) - q2,
    decreases s1.len() - q1,
{
    if q1 < s1.len() {
        assert(s1[q1 + 0] == s2[q2 + 0]);
        if is_digit_ch(s1[q1]) {
            assert(same_suffix(s1, q1 + 1, s2, q2 + 1)) by {
                assert forall|k: int| 0 <= k < s1.len() - (q1 + 1) implies #[trigger] s1[(q1 + 1) + k]
                    == s2[(q2 + 1) + k] by {
                    assert(s1[q1 + (k + 1)] == s2[q2 + (k + 1)]);
                }
            }
            lemma_num_end_shift(s1, q1 + 1, s2, q2 + 1);
        }
    }
}

/// One lexing step reads only the unread suffix: inputs with the same suffix
/// yield the same token, advancing the cursor by the same amount.
pub proof fn lemma_token_at_shift(s1: Seq<char>, q1: int, s2: Seq<char>, q2: int)
    requires
        0 <= q1 <= s1.len(),
        0 <= q2 <= s2.len(),
        same_suffix(s1, q1, s2, q2),
    ensures
        spec_token_at(s1, q1).0 == spec_token_at(s2, q2).0,
        spec_token_at(s1, q1).1 - q1 == spec_token_at(s2, q2).1 - q2,
{
    lemma_ws_end_shift(s1, q1, s2, q2);
    lemma_ws_end_bounds(s1, q1);
    lemma_ws_end_bounds(s2, q2);
    let p1 = ws_end(s1, q1);
    let p2 = ws_end(s2, q2);
    assert(same_suffix(s1, p1, s2, p2)) by {
        assert forall|k: int| 0 <= k < s1.len() - p1 implies #[trigger] s1[p1 + k] == s2[p2 + k] by {
            assert(s1[q1 + ((p1 - q1) + k)] == s2[q2 + ((p1 - q1) + k)]);
        }
    }
    if p1 < s1.len() {
        assert(s1[p1 + 0] == s2[p2 + 0]);
        if p1 + 1 < s1.len() {
            assert(s1[p1 + 1] == s2[p2 + 1]);
        }
        let c = s1[p1];
        if is_letter_ch(c) {
            lemma_ident_end_shift(s1, p1, s2, p2);
            lemma_ident_end_bounds(s1, p1);
            let e1 = ident_end(s1, p1);
            let e2 = ident_end(s2, p2);
            assert(s1.subrange(p1, e1) =~= s2.subrange(p2, e2)) by {
                assert forall|k: int| 0 <= k < e1 - p1 implies #[trigger] s1.subrange(p1, e1)[k]
                    == s2.subrange(p2, e2)[k] by {
                    assert(s1[p1 + k] == s2[p2 + k]);
                }
            }
        } else if is_digit_ch(c) {
            lemma_num_end_shift(s1, p1, s2, p2);
            lemma_num_end_bounds(s1, p1);
            let e1 = num_end(s1, p1);
            let e2 = num_end(s2, p2);
            assert(s1.subrange(p1, e1) =~= s2.subrange(p2, e2)) by {
                assert forall|k: int| 0 <= k < e1 - p1 implies #[trigger] s1.subrange(p1, e1)[k]
                    == s2.subrange(p2, e2)[k] by {
                    assert(s1[p1 + k] == s2[p2 + k]);
                }
            }
        }
    }
}

/// The whole token stream reads only the unread suffix.
pub proof fn lemma_stream_shift(s1: Seq<char>, q1: int, s2: Seq<char>, q2: int)
    requires
        0 <= q1 <= s1.len(),
        0 <= q2 <= s2.len(),
        same_suffix(s1, q1, s2, q2),
    ensures
        stream_from(s1, q1) == stream_from(s2, q2),
    decreases s1.len() - q1,
{
    lemma_token_at_shift(s1, q1, s2, q2);
    lemma_token_at_bounds(s1, q1);
    lemma_token_at_bounds(s2, q2);
    let (t, r1) = spec_token_at(s1, q1);
    let r2 = spec_token_at(s2, q2).1;
    if !(t is EOF) {
        assert(same_suffix(s1, r1, s2, r2)) by {
            assert forall|k: int| 0 <= k < s1.len() - r1 implies #[trigger] s1[r1 + k] == s2[r2 + k] by {
                assert(s1[q1 + ((r1 - q1) + k)] == s2[q2 + ((r1 - q1) + k)]);
            }
        }
        lemma_stream_shift(s1, r1, s2, r2);
    }
}

/// The token stream is never empty, ends with the end-of-input token, and
/// holds it nowhere else.
pub proof fn lemma_stream_wf(input: Seq<char>, pos: int)
    requires
        0 <= pos <= input.len(),
    ensures
        stream_from(input, pos).len() >= 1,
        stream_from(input, pos).last() is EOF,
        forall|k: int|
            0 <= k < stream_from(input, pos).len() - 1 ==> !(#[trigger] stream_from(input, pos)[k]
                is EOF),
    decreases input.len() - pos,
{
    lemma_token_at_bounds(input, pos);
    let (t, p) = spec_token_at(input, pos);
    if !(t is EOF) {
        lemma_stream_wf(input, p);
    }
}


/// The chain of token boundaries: `p` is a token boundary of the input read
/// from `q` when a run of tokens starting at `q` ends exactly at `p`.
pub open spec fn reaches(input: Seq<char>, q: int, p: int) -> bool
    decreases p - q
        when 0 <= q <= p && p <= input.len()
        via reaches_dec
{
    if q == p {
        true
    } else {
        let (t, q2) = spec_token_at(input, q);
        q2 <= p && !(t is EOF) && reaches(input, q2, p)
    }
}

#[via_fn]
proof fn reaches_dec(input: Seq<char>, q: int, p: int) {
    if 0 <= q <= p && p <= input.len() && q != p {
        lemma_token_at_bounds(input, q);
    }
}

/// The tokens read from `q` up to the token boundary `p`.
pub open spec fn stream_until(input: Seq<char>, q: int, p: int) -> Seq<TokenV>
    decreases p - q
        when 0 <= q <= p && p <= input.len()
        via stream_until_dec
{
    if q >= p {
        Seq::empty()
    } else {
        let (t, q2) = spec_token_at(input, q);
        if q2 <= p && !(t is EOF) {
            seq![t] + stream_until(input, q2, p)
        } else {
            Seq::empty()
        }
    }
}

#[via_fn]
proof fn stream_until_dec(input: Seq<char>, q: int, p: int) {
    if 0 <= q <= p && p <= input.len() && q < p {
        lemma_token_at_bounds(input, q);
    }
}

/// Splitting the token stream at a token boundary.
pub proof fn lemma_stream_split(input: Seq<char>, q: int, p: int)
    requires
        0 <= q <= p <= input.len(),
        reaches(input, q, p),
    ensures
        stream_from(input, q) == stream_until(input, q, p) + stream_from(input, p),
    decreases p - q,
{
    if q == p {
        assert(stream_until(input, q, p) + stream_from(input, p) =~= stream_from(input, p));
    } else {
        lemma_token_at_bounds(input, q);
        let (t, q2) = spec_token_at(input, q);
        lemma_stream_split(input, q2, p);
        assert(stream_until(input, q, p) + stream_from(input, p) =~= seq![t] + (stream_until(
            input,
            q2,
            p,
        ) + stream_from(input, p)));
    }
}

/// The input with one character put in at position `p`.
pub open spec fn insert_at(input: Seq<char>, p: int, c: char) -> Seq<char> {
    input.subrange(0, p) + seq![c] + input.subrange(p, input.len() as int)
}

proof fn lemma_insert_at_facts(input: Seq<char>, p: int, c: char)
    requires
        0 <= p <= input.len(),
    ensures
        insert_at(input, p, c).len() == input.len() + 1,
        forall|k: int| 0 <= k < p ==> #[trigger] insert_at(input, p, c)[k] == input[k],
        insert_at(input, p, c)[p] == c,
        forall|k: int|
            p < k <= input.len() ==> #[trigger] insert_at(input, p, c)[k] == input[k - 1],
{
}

proof fn lemma_ws_end_prefix(input: Seq<char>, p: int, c: char, q: int)
    requires
        0 <= q <= p <= input.len(),
        ws_end(input, q) <= p,
        !is_blank(c),
    ensures
        ws_end(insert_at(input, p, c), q) == ws_end(input, q),
    decreases p - q,
{
    lemma_insert_at_facts(input, p, c);
    lemma_ws_end_bounds(input, q);
    let input2 = insert_at(input, p, c);
    if q == p {
        assert(ws_end(input2, q) == q);
    } else {
        assert(input2[q] == input[q]);
        if q < input.len() && is_blank(input[q]) {
            lemma_ws_end_prefix(input, p, c, q + 1);
        }
    }
}

proof fn lemma_ident_end_prefix(input: Seq<char>, p: int, c: char, q: int)
    requires
        0 <= q <= p <= input.len(),
        ident_end(input, q) <= p,
        !is_letter_ch(c),
    ensures
        ident_end(insert_at(input, p, c), q) == ident_end(input, q),
    decreases p - q,
{
    lemma_insert_at_facts(input, p, c);
    lemma_ident_end_bounds(input, q);
    let input2 = insert_at(input, p, c);
    if q == p {
        assert(ident_end(input2, q) == q);
    } else {
        assert(input2[q] == input[q]);
        if q < input.len() && is_letter_ch(input[q]) {
            lemma_ident_end_bounds(input, q + 1);
            lemma_ident_end_prefix(input, p, c, q + 1);
        }
    }
}

proof fn lemma_num_end_prefix(input: Seq<char>, p: int, c: char, q: int)
    requires
        0 <= q <= p <= input.len(),
        num_end(input, q) <= p,
        !is_digit_ch(c),
    ensures
        num_end(insert_at(input, p, c), q) == num_end(input, q),
    decreases p - q,
{
    lemma_insert_at_facts(input, p, c);
    lemma_num_end_bounds(input, q);
    let input2 = insert_at(input, p, c);
    if q == p {
        assert(num_end(input2, q) == q);
    } else {
        assert(input2[q] == input[q]);
        if q < input.len() && is_digit_ch(input[q]) {
            lemma_num_end_prefix(input, p, c, q + 1);
        }
    }
}

/// A token that ends at or before `p` is unchanged when an unrecognized
/// character is put in at `p`.
proof fn lemma_token_at_prefix(input: Seq<char>, p: int, c: char, q: int)
    requires
        0 <= q <= p <= input.len(),
        is_illegal_ch(c),
        spec_token_at(input, q).1 <= p,
        !(spec_token_at(input, q).0 is EOF),
    ensures
        spec_token_at(insert_at(input, p, c), q) == spec_token_at(input, q),
{
    lemma_insert_at_facts(input, p, c);
    let input2 = insert_at(input, p, c);
    lemma_ws_end_bounds(input, q);
    let w = ws_end(input, q);
    let e = spec_token_at(input, q).1;
    lemma_token_at_bounds(input, q);
    assert(w < input.len());
    assert(e > w) by {
        if is_letter_ch(input[w]) {
            lemma_ident_end_bounds(input, w + 1);
        }
        if is_digit_ch(input[w]) {
            lemma_num_end_bounds(input, w + 1);
        }
    }
    lemma_ws_end_prefix(input, p, c, q);
    assert(input2[w] == input[w]);
    let ch = input[w];
    if ch == '=' || ch == '!' {
        if w + 1 < input.len() && input[w + 1] == '=' {
            assert(w + 1 < p);
            assert(input2[w + 1] == input[w + 1]);
        } else {
            if w + 1 < p {
                assert(input2[w + 1] == input[w + 1]);
            } else {
                assert(w + 1 == p);
                assert(input2[p] == c);
                assert(c != '=');
            }
        }
    } else if is_letter_ch(ch) {
        lemma_ident_end_bounds(input, w);
        lemma_ident_end_prefix(input, p, c, w);
        let ie = ident_end(input, w);
        assert(input.subrange(w, ie) =~= input2.subrange(w, ie)) by {
            assert forall|k: int| 0 <= k < ie - w implies #[trigger] input.subrange(w, ie)[k]
                == input2.subrange(w, ie)[k] by {
                assert(input2[w + k] == input[w + k]);
            }
        }
    } else if is_digit_ch(ch) {
        lemma_num_end_bounds(input, w);
        lemma_num_end_prefix(input, p, c, w);
        let ne = num_end(input, w);
        assert(input.subrange(w, ne) =~= input2.subrange(w, ne)) by {
            assert forall|k: int| 0 <= k < ne - w implies #[trigger] input.subrange(w, ne)[k]
                == input2.subrange(w, ne)[k] by {
                assert(input2[w + k] == input[w + k]);
            }
        }
    }
}

proof fn lemma_insert_illegal_from(input: Seq<char>, q: int, p: int, c: char)
    requires
        0 <= q <= p <= input.len(),
        reaches(input, q, p),
        is_illegal_ch(c),
    ensures
        stream_from(insert_at(input, p, c), q) == stream_until(input, q, p) + seq![
            TokenV::Illegal(seq![c]),
        ] + stream_from(input, p),
    decreases p - q,
{
    lemma_insert_at_facts(input, p, c);
    let input2 = insert_at(input, p, c);
    if q == p {
        assert(ws_end(input2, p) == p);
        assert(spec_token_at(input2, p).0 == TokenV::Illegal(seq![input2[p]]));
        assert(input2[p] == c);
        assert(spec_token_at(input2, p).1 == p + 1);
        assert(same_suffix(input2, p + 1, input, p)) by {
            assert forall|k: int|
                0 <= k < input2.len() - (p + 1) implies #[trigger] input2[(p + 1) + k] == input[p
                + k] by {
                assert(input2[(p + 1) + k] == input[(p + 1) + k - 1]);
            }
        }
        lemma_stream_shift(input2, p + 1, input, p);
        assert(stream_from(input2, p) == seq![TokenV::Illegal(seq![c])] + stream_from(input, p));
        assert(stream_until(input, p, p) + seq![TokenV::Illegal(seq![c])] + stream_from(input, p)
            =~= seq![TokenV::Illegal(seq![c])] + stream_from(input, p));
    } else {
        lemma_token_at_bounds(input, q);
        let (t, q2) = spec_token_at(input, q);
        lemma_token_at_prefix(input, p, c, q);
        lemma_insert_illegal_from(input, q2, p, c);
        assert(stream_from(input2, q) == seq![t] + stream_from(input2, q2));
        assert(stream_until(input, q, p) + seq![TokenV::Illegal(seq![c])] + stream_from(input, p)
            =~= seq![t] + (stream_until(input, q2, p) + seq![TokenV::Illegal(seq![c])]
            + stream_from(input, p)));
    }
}

/// Putting one unrecognized character in at a token boundary leaves every
/// other token as it was and adds exactly one illegal token at that place:
/// the stream, and so its length, grows by exactly that token.
pub proof fn lemma_illegal_insertion(input: Seq<char>, p: int, c: char)
    requires
        0 <= p <= input.len(),
        reaches(input, 0, p),
        is_illegal_ch(c),
    ensures
        stream_from(insert_at(input, p, c), 0) == stream_until(input, 0, p) + seq![
            TokenV::Illegal(seq![c]),
        ] + stream_from(input, p),
        stream_from(insert_at(input, p, c), 0).len() == stream_from(input, 0).len() + 1,
{
    lemma_insert_illegal_from(input, 0, p, c);
    lemma_stream_split(input, 0, p);
}

/// The mathematical state of a lexer: the full input and the read position.
pub struct LexerV {
    pub input: Seq<char>,
    pub pos: int,
}

/// A cursor over a character sequence that yields one token per call.
#[derive(Debug)]
pub struct Lexer {
    input: Vec<char>,
    pos: usize,
}

impl View for Lexer {
    type V = LexerV;

    closed spec fn view(&self) -> LexerV {
        LexerV { input: self.input@, pos: self.pos as int }
    }
}

impl Lexer {
    /// The read position never passes the end of the input.
    pub open spec fn wf(&self) -> bool {
        0 <= self@.pos <= self@.input.len()
    }

    pub fn new(input: &str) -> (l: Lexer)
        ensures
            l.wf(),
            l@.input == input@,
            l@.pos == 0,
    {
        Lexer { input: crate::token::chars_of_str(input), pos: 0 }
    }

    /// Advances past blanks, then reads and returns one token, leaving the
    /// position just past it. At the end of the input it keeps returning the
    /// end-of-input token.
    pub fn next_token(&mut self) -> (t: Token)
        requires
            old(self).wf(),
        ensures
            final(self).wf(),
            final(self)@.input == old(self)@.input,
            t@ == spec_token_at(old(self)@.input, old(self)@.pos).0,
            final(self)@.pos == spec_token_at(old(self)@.input, old(self)@.pos).1,
    {
        proof {
            lemma_ws_end_bounds(self@.input, self@.pos);
        }
        self.skip_whitespace();
        if self.pos >= self.input.len() {
            return Token::EOF;
        }
        let c = self.input[self.pos];
        if c == '=' {
            if self.pos + 1 < self.input.len() && self.input[self.pos + 1] == '=' {
                self.pos = self.pos + 2;
                Token::Eq
            } else {
                self.pos = self.pos + 1;
                Token::Assign
            }
        } else if c == '!' {
            if self.pos + 1 < self.input.len() && self.input[self.pos + 1] == '=' {
                self.pos = self.pos + 2;
                Token::NotEq
            } else {
                self.pos = self.pos + 1;
                Token::Bang
            }
        } else if c == ';' {
            self.pos = self.pos + 1;
            Token::Semicolon
        } else if c == '(' {
            self.pos = self.pos + 1;
            Token::LParen
        } else if c == ')' {
            self.pos = self.pos + 1;
            Token::RParen
        } else if c == ',' {
            self.pos = self.pos + 1;
            Token::Comma
        } else if c == '{' {
            self.pos = self.pos + 1;
            Token::LBrace
        } else if c == '}' {
            self.pos = self.pos + 1;
            Token::RBrace
        } else if c == '+' {
            self.pos = self.pos + 1;
            Token::Plus
        } else if c == '-' {
            self.pos = self.pos + 1;
            Token::Minus
        } else if c == '*' {
            self.pos = self.pos + 1;
            Token::Star
        } else if c == '/' {
            self.pos = self.pos + 1;
            Token::Slash
        } else if c == '<' {
            self.pos = self.pos + 1;
            Token::LessThan
        } else if c == '>' {
            self.pos = self.pos + 1;
            Token::GreaterThan
        } else if is_letter(c) {
            let ident = self.read_identifier();
            lookup_ident(ident.as_str())
        } else if is_digit(c) {
            Token::Int(self.read_number())
        } else {
            self.pos = self.pos + 1;
            let mut v: Vec<char> = Vec::new();
            v.push(c);
            proof {
                assert(v@ =~= seq![c]);
            }
            Token::Illegal(v)
        }
    }

    /// Reads every remaining token, up to and including the end-of-input
    /// token; afterwards the input is exhausted.
    pub fn read_all(&mut self) -> (tokens: Vec<Token>)
        requires
            old(self).wf(),
        ensures
            final(self).wf(),
            final(self)@.input == old(self)@.input,
            final(self)@.pos == final(self)@.input.len(),
            tokens.deep_view() == stream_from(old(self)@.input, old(self)@.pos),
    {
        let mut tokens: Vec<Token> = Vec::new();
        loop
            invariant_except_break
                stream_from(old(self)@.input, old(self)@.pos) == tokens.deep_view()
                    + stream_from(self@.input, self@.pos),
            invariant
                self.wf(),
                self@.input == old(self)@.input,
            ensures
                self.wf(),
                self@.input == old(self)@.input,
                self@.pos == self@.input.len(),
                tokens.deep_view() == stream_from(old(self)@.input, old(self)@.pos),
            decreases self@.input.len() - self@.pos,
        {
            proof {
                lemma_token_at_bounds(self@.input, self@.pos);
            }
            let ghost before = tokens.deep_view();
            let ghost rest = stream_from(self@.input, self@.pos);
            let t = self.next_token();
            let done = matches!(&t, Token::EOF);
            tokens.push(t);
            proof {
                assert(tokens.deep_view() =~= before + seq![t@]);
            }
            if done {
                proof {
                    assert(rest =~= seq![t@]);
                    assert(tokens.deep_view() =~= stream_from(
                        old(self)@.input,
                        old(self)@.pos,
                    ));
                }
                break ;
            }
            proof {
                assert(before + rest =~= tokens.deep_view() + stream_from(
                    self@.input,
                    self@.pos,
                ));
            }
        }
        tokens
    }

    /// Advances the position past any run of blanks.
    pub fn skip_whitespace(&mut self)
        requires
            old(self).wf(),
        ensures
            final(self).wf(),
            final(self)@.input == old(self)@.input,
            final(self)@.pos == ws_end(old(self)@.input, old(self)@.pos),
    {
        while self.pos < self.input.len() && blank(self.input[self.pos])
            invariant
                self.wf(),
                self@.input == old(self)@.input,
                ws_end(old(self)@.input, old(self)@.pos) == ws_end(self@.input, self@.pos),
            decreases self@.input.len() - self@.pos,
        {
            self.pos = self.pos + 1;
        }
    }

    /// Reads the run of digits that starts at the current position.
    pub fn read_number(&mut self) -> (r: Vec<char>)
        requires
            old(self).wf(),
        ensures
            final(self).wf(),
            final(self)@.input == old(self)@.input,
            final(self)@.pos == num_end(old(self)@.input, old(self)@.pos),
            r@ == old(self)@.input.subrange(old(self)@.pos, final(self)@.pos as int),
    {
        let mut r: Vec<char> = Vec::new();
        proof {
            assert(r@ =~= self@.input.subrange(old(self)@.pos, self@.pos as int));
        }
        while self.pos < self.input.len() && is_digit(self.input[self.pos])
            invariant
                self.wf(),
                old(self)@.pos <= self@.pos,
                self@.input == old(self)@.input,
                num_end(old(self)@.input, old(self)@.pos) == num_end(self@.input, self@.pos),
                r@ == self@.input.subrange(old(self)@.pos, self@.pos as int),
            decreases self@.input.len() - self@.pos,
        {
            r.push(self.input[self.pos]);
            self.pos = self.pos + 1;
            proof {
                assert(r@ =~= self@.input.subrange(old(self)@.pos, self@.pos as int));
            }
        }
        r
    }

    /// Reads the run of identifier characters that starts at the current
    /// position, as a string.
    pub fn read_identifier(&mut self) -> (r: String)
        requires
            old(self).wf(),
        ensures
            final(self).wf(),
            final(self)@.input == old(self)@.input,
            final(self)@.pos == ident_end(old(self)@.input, old(self)@.pos),
            r@ == old(self)@.input.subrange(old(self)@.pos, final(self)@.pos as int),
    {
        let mut r: Vec<char> = Vec::new();
        proof {
            assert(r@ =~= self@.input.subrange(old(self)@.pos, self@.pos as int));
        }
        while self.pos < self.input.len() && is_letter(self.input[self.pos])
            invariant
                self.wf(),
                old(self)@.pos <= self@.pos,
                self@.input == old(self)@.input,
                ident_end(old(self)@.input, old(self)@.pos) == ident_end(self@.input, self@.pos),
                r@ == self@.input.subrange(old(self)@.pos, self@.pos as int),
            decreases self@.input.len() - self@.pos,
        {
            r.push(self.input[self.pos]);
            self.pos = self.pos + 1;
            proof {
                assert(r@ =~= self@.input.subrange(old(self)@.pos, self@.pos as int));
            }
        }
        crate::token::chars_to_string(&r)
    }
}

} // verus!
