use vstd::prelude::*;

use crate::text::push_char;
use crate::token::{Token, TokenView};

verus! {

/// The byte at position `p`, or `0` past the end of the input.
pub open spec fn byte_at(input: Seq<u8>, p: int) -> u8 {
    if 0 <= p < input.len() {
        input[p]
    } else {
        0
    }
}

/// ASCII white space, as `u8::is_ascii_whitespace` defines it: space, tab,
/// line feed, form feed and carriage return.
pub open spec fn is_space(b: u8) -> bool {
    b == 32 || b == 9 || b == 10 || b == 12 || b == 13
}

/// An ASCII letter, upper or lower case (`u8::is_ascii_alphabetic`).
pub open spec fn is_letter(b: u8) -> bool {
    (65 <= b && b <= 90) || (97 <= b && b <= 122)
}

/// A lower-case ASCII letter: the bytes that start a word.
pub open spec fn is_lower(b: u8) -> bool {
    97 <= b && b <= 122
}

/// An ASCII digit (`u8::is_ascii_digit`).
pub open spec fn is_digit(b: u8) -> bool {
    48 <= b && b <= 57
}

/// The first position at or after `p` that does not hold white space.
pub open spec fn skip_spaces(input: Seq<u8>, p: nat) -> nat
    decreases input.len() - p,
{
    if p < input.len() && is_space(input[p as int]) {
        skip_spaces(input, p + 1)
    } else {
        p
    }
}

/// The first position at or after `p` that does not hold an ASCII letter.
pub open spec fn end_of_letters(input: Seq<u8>, p: nat) -> nat
    decreases input.len() - p,
{
    if p < input.len() && is_letter(input[p as int]) {
        end_of_letters(input, p + 1)
    } else {
        p
    }
}

/// The first position at or after `p` that does not hold an ASCII digit.
pub open spec fn end_of_digits(input: Seq<u8>, p: nat) -> nat
    decreases input.len() - p,
{
    if p < input.len() && is_digit(input[p as int]) {
        end_of_digits(input, p + 1)
    } else {
        p
    }
}

/// The characters of a run of bytes, each byte read as the character of the same code.
pub open spec fn chars_of(bytes: Seq<u8>) -> Seq<char> {
    bytes.map_values(|b: u8| b as char)
}

/// The token of a word: a keyword, or else a name.
pub open spec fn word_token(w: Seq<char>) -> TokenView {
    if w == "let"@ {
        TokenView::Let
    } else if w == "fn"@ {
        TokenView::Func
    } else if w == "true"@ {
        TokenView::True
    } else if w == "false"@ {
        TokenView::False
    } else if w == "func"@ {
        TokenView::Func
    } else if w == "if"@ {
        TokenView::If
    } else if w == "else"@ {
        TokenView::Else
    } else if w == "return"@ {
        TokenView::Return
    } else {
        TokenView::Ident(w)
    }
}

/// The token of a byte `c` at position `q` that starts neither a word nor a number.
///
/// A `=` or a `!` is read as `==` or `!=` when the position just past it is 61,
/// the code of `=`, and as `=` or `!` otherwise; in either case it is one byte long.
pub open spec fn symbol_token(c: u8, q: nat) -> TokenView {
    if c == 59 {
        TokenView::Semicolon
    } else if c == 62 {
        TokenView::Gt
    } else if c == 60 {
        TokenView::Lt
    } else if c == 61 {
        if q + 1 == 61 { TokenView::Eq } else { TokenView::Assing }
    } else if c == 44 {
        TokenView::Comma
    } else if c == 33 {
        if q + 1 == 61 { TokenView::NotEq } else { TokenView::Bang }
    } else if c == 123 {
        TokenView::Lbrace
    } else if c == 125 {
        TokenView::Rbrace
    } else if c == 41 {
        TokenView::Rparen
    } else if c == 40 {
        TokenView::Lparen
    } else if c == 42 {
        TokenView::Asterisk
    } else if c == 43 {
        TokenView::Plus
    } else if c == 45 {
        TokenView::Minus
    } else if c == 47 {
        TokenView::Slash
    } else {
        TokenView::Illgl(seq![c as char])
    }
}

/// The token that starts at or after position `p`, and the position just past it.
///
/// White space is skipped first. A zero byte, or the end of the input, is the
/// end (`Eof`), and the position then stays at that byte.
pub open spec fn scan(input: Seq<u8>, p: nat) -> (TokenView, nat) {
    let q = skip_spaces(input, p);
    let c = byte_at(input, q as int);
    if c == 0 {
        (TokenView::Eof, q)
    } else if is_lower(c) {
        let e = end_of_letters(input, q);
        (word_token(chars_of(input.subrange(q as int, e as int))), e)
    } else if is_digit(c) {
        let e = end_of_digits(input, q);
        (TokenView::Int(chars_of(input.subrange(q as int, e as int))), e)
    } else {
        (symbol_token(c, q), q + 1)
    }
}

/// The tokens read from position `p` on, up to (and without) the end.
pub open spec fn tokens_from(input: Seq<u8>, p: nat) -> Seq<TokenView>
    decreases input.len() + 1 - p,
{
    let (t, q) = scan(input, p);
    if t is Eof || q <= p || q > input.len() {
        Seq::empty()
    } else {
        seq![t] + tokens_from(input, q)
    }
}

/// The tokens of a whole input, up to (and without) the end.
pub open spec fn tokenize(input: Seq<u8>) -> Seq<TokenView> {
    tokens_from(input, 0)
}

/// The first token of a stream, or `Eof` when the stream is empty.
pub open spec fn first_token(s: Seq<TokenView>) -> TokenView {
    if s.len() > 0 {
        s[0]
    } else {
        TokenView::Eof
    }
}

/// A stream without its first token; the empty stream stays empty.
pub open spec fn rest_tokens(s: Seq<TokenView>) -> Seq<TokenView> {
    if s.len() > 0 {
        s.drop_first()
    } else {
        s
    }
}

/// Skipping white space never moves back, stays within the input, and stops at a
/// byte that is not white space.
pub proof fn lemma_skip_spaces(input: Seq<u8>, p: nat)
    ensures
        skip_spaces(input, p) >= p,
        p <= input.len() ==> skip_spaces(input, p) <= input.len(),
        !is_space(byte_at(input, skip_spaces(input, p) as int)),
    decreases input.len() - p,
{
    if p < input.len() && is_space(input[p as int]) {
        lemma_skip_spaces(input, p + 1);
    }
}

/// A run of letters never ends before it starts, and ends within the input.
pub proof fn lemma_end_of_letters(input: Seq<u8>, p: nat)
    ensures
        end_of_letters(input, p) >= p,
        p <= input.len() ==> end_of_letters(input, p) <= input.len(),
    decreases input.len() - p,
{
    if p < input.len() && is_letter(input[p as int]) {
        lemma_end_of_letters(input, p + 1);
    }
}

/// A run of digits never ends before it starts, and ends within the input.
pub proof fn lemma_end_of_digits(input: Seq<u8>, p: nat)
    ensures
        end_of_digits(input, p) >= p,
        p <= input.len() ==> end_of_digits(input, p) <= input.len(),
    decreases input.len() - p,
{
    if p < input.len() && is_digit(input[p as int]) {
        lemma_end_of_digits(input, p + 1);
    }
}

/// Every token but the end takes at least one byte of the input; at the end the
/// scan stays where it is and reads the end again.
pub proof fn lemma_scan_progress(input: Seq<u8>, p: nat)
    ensures
        !(scan(input, p).0 is Eof) ==> p < scan(input, p).1 <= input.len(),
        scan(input, p).0 is Eof ==> {
            &&& scan(input, p).1 >= p
            &&& scan(input, scan(input, p).1) == scan(input, p)
        },
{
    let q = skip_spaces(input, p);
    lemma_skip_spaces(input, p);
    lemma_end_of_letters(input, q);
    lemma_end_of_digits(input, q);
    lemma_end_of_letters(input, q + 1);
    lemma_end_of_digits(input, q + 1);
    if byte_at(input, q as int) == 0 {
        lemma_skip_spaces(input, q);
        assert(skip_spaces(input, q) == q);
    }
}

/// The token stream from a position is the token there followed by the stream
/// after it, or empty at the end.
pub proof fn lemma_tokens_from_unfold(input: Seq<u8>, p: nat)
    ensures
        scan(input, p).0 is Eof ==> tokens_from(input, p) == Seq::<TokenView>::empty(),
        !(scan(input, p).0 is Eof) ==> tokens_from(input, p) == seq![scan(input, p).0] + tokens_from(input, scan(input, p).1),
{
    lemma_scan_progress(input, p);
}

/// The end never stands inside a token stream: the stream stops before it.
pub proof fn lemma_tokens_from_no_end(input: Seq<u8>, p: nat)
    ensures
        forall|i: int| 0 <= i < tokens_from(input, p).len() ==> !(#[trigger] tokens_from(input, p)[i] is Eof),
    decreases input.len() + 1 - p,
{
    lemma_tokens_from_unfold(input, p);
    lemma_scan_progress(input, p);
    let (t, q) = scan(input, p);
    if !(t is Eof) {
        lemma_tokens_from_no_end(input, q);
        assert forall|i: int| 0 <= i < tokens_from(input, p).len() implies !(#[trigger] tokens_from(input, p)[i] is Eof) by {
            if i > 0 {
                assert(tokens_from(input, p)[i] == tokens_from(input, q)[i - 1]);
            }
        }
    }
}

/// Every byte of `w` is white space.
pub open spec fn all_spaces(w: Seq<u8>) -> bool {
    forall|i: int| 0 <= i < w.len() ==> #[trigger] is_space(w[i])
}

/// No byte of `s` is `=` or `!`, the two bytes whose token depends on where
/// they stand.
pub open spec fn no_eq_bang(s: Seq<u8>) -> bool {
    forall|i: int| 0 <= i < s.len() ==> #[trigger] s[i] != 61 && s[i] != 33
}

proof fn lemma_skip_step(x: Seq<u8>, p: nat, y: Seq<u8>, q: nat)
    requires
        p < x.len(),
        q <= y.len(),
        x.skip(p as int) == y.skip(q as int),
    ensures
        q < y.len(),
        x[p as int] == y[q as int],
        x.skip((p + 1) as int) == y.skip((q + 1) as int),
{
    assert(x.skip(p as int).len() == x.len() - p);
    assert(y.skip(q as int).len() == y.len() - q);
    assert(x[p as int] == x.skip(p as int)[0]);
    assert(y[q as int] == y.skip(q as int)[0]);
    assert(x.skip((p + 1) as int) =~= x.skip(p as int).drop_first());
    assert(y.skip((q + 1) as int) =~= y.skip(q as int).drop_first());
}

proof fn lemma_skip_spaces_shift(x: Seq<u8>, p: nat, y: Seq<u8>, q: nat)
    requires
        p <= x.len(),
        q <= y.len(),
        x.skip(p as int) == y.skip(q as int),
    ensures
        skip_spaces(x, p) - p == skip_spaces(y, q) - q,
    decreases x.len() - p,
{
    if p < x.len() {
        lemma_skip_step(x, p, y, q);
        lemma_skip_spaces_shift(x, p + 1, y, q + 1);
    } else {
        assert(y.len() - q == x.skip(p as int).len());
    }
}

proof fn lemma_end_of_letters_shift(x: Seq<u8>, p: nat, y: Seq<u8>, q: nat)
    requires
        p <= x.len(),
        q <= y.len(),
        x.skip(p as int) == y.skip(q as int),
    ensures
        end_of_letters(x, p) - p == end_of_letters(y, q) - q,
    decreases x.len() - p,
{
    if p < x.len() {
        lemma_skip_step(x, p, y, q);
        lemma_end_of_letters_shift(x, p + 1, y, q + 1);
    } else {
        assert(y.len() - q == x.skip(p as int).len());
    }
}

proof fn lemma_end_of_digits_shift(x: Seq<u8>, p: nat, y: Seq<u8>, q: nat)
    requires
        p <= x.len(),
        q <= y.len(),
        x.skip(p as int) == y.skip(q as int),
    ensures
        end_of_digits(x, p) - p == end_of_digits(y, q) - q,
    decreases x.len() - p,
{
    if p < x.len() {
        lemma_skip_step(x, p, y, q);
        lemma_end_of_digits_shift(x, p + 1, y, q + 1);
    } else {
        assert(y.len() - q == x.skip(p as int).len());
    }
}

/// The token at a position depends only on the bytes from there on, when none
/// of them is `=` or `!`; the scan moves on by the same number of bytes.
proof fn lemma_scan_shift(x: Seq<u8>, p: nat, y: Seq<u8>, q: nat)
    requires
        p <= x.len(),
        q <= y.len(),
        x.skip(p as int) == y.skip(q as int),
        no_eq_bang(x.skip(p as int)),
    ensures
        scan(x, p).0 == scan(y, q).0,
        scan(x, p).1 - p == scan(y, q).1 - q,
{
    let n = x.len() - p;
    assert(y.len() - q == n) by {
        assert(x.skip(p as int).len() == n);
    }
    assert forall|k: int| 0 <= k < n implies #[trigger] x[p + k] == y[q + k] by {
        assert(x[p + k] == x.skip(p as int)[k]);
        assert(y[q + k] == y.skip(q as int)[k]);
    }
    lemma_skip_spaces_shift(x, p, y, q);
    lemma_skip_spaces(x, p);
    lemma_skip_spaces(y, q);
    let qx = skip_spaces(x, p);
    let qy = skip_spaces(y, q);
    let d: int = qx - p;
    assert(byte_at(x, qx as int) == byte_at(y, qy as int)) by {
        if d < n {
            assert(x[p + d] == y[q + d]);
        }
    }
    let c = byte_at(x, qx as int);
    if c != 0 {
        assert(qx < x.len());
        assert(x.skip(qx as int) =~= x.skip(p as int).skip(d));
        assert(y.skip(qy as int) =~= y.skip(q as int).skip(d));
        lemma_end_of_letters_shift(x, qx, y, qy);
        lemma_end_of_digits_shift(x, qx, y, qy);
        lemma_end_of_letters(x, qx);
        lemma_end_of_digits(x, qx);
        assert(x[p + d] != 61 && x[p + d] != 33) by {
            assert(x.skip(p as int)[d] == x[p + d]);
        }
        assert(symbol_token(c, qx) == symbol_token(c, qy));
        if is_lower(c) {
            let e = end_of_letters(x, qx);
            assert(x.subrange(qx as int, e as int) =~= y.subrange(qy as int, qy + (e - qx)));
        } else if is_digit(c) {
            let e = end_of_digits(x, qx);
            assert(x.subrange(qx as int, e as int) =~= y.subrange(qy as int, qy + (e - qx)));
        }
    }
}

/// The tokens from a position depend only on the bytes from there on, when none
/// of them is `=` or `!`.
proof fn lemma_tokens_from_shift(x: Seq<u8>, p: nat, y: Seq<u8>, q: nat)
    requires
        p <= x.len(),
        q <= y.len(),
        x.skip(p as int) == y.skip(q as int),
        no_eq_bang(x.skip(p as int)),
    ensures
        tokens_from(x, p) == tokens_from(y, q),
    decreases x.len() - p,
{
    lemma_scan_shift(x, p, y, q);
    lemma_tokens_from_unfold(x, p);
    lemma_tokens_from_unfold(y, q);
    lemma_scan_progress(x, p);
    lemma_scan_progress(y, q);
    let (t, e) = scan(x, p);
    if !(t is Eof) {
        let e2 = scan(y, q).1;
        let d: int = e - p;
        assert(x.skip(e as int) =~= x.skip(p as int).skip(d));
        assert(y.skip(e2 as int) =~= y.skip(q as int).skip(d));
        assert(no_eq_bang(x.skip(e as int))) by {
            assert forall|i: int| 0 <= i < x.skip(e as int).len() implies #[trigger] x.skip(
                e as int,
            )[i] != 61 && x.skip(e as int)[i] != 33 by {
                assert(x.skip(e as int)[i] == x.skip(p as int)[d + i]);
            }
        }
        lemma_tokens_from_shift(x, e, y, e2);
    }
}

proof fn lemma_skip_spaces_run(x: Seq<u8>, p: nat, p2: nat)
    requires
        p <= p2 <= x.len(),
        forall|i: int| p <= i < p2 ==> #[trigger] is_space(x[i]),
    ensures
        skip_spaces(x, p) == skip_spaces(x, p2),
    decreases p2 - p,
{
    if p < p2 {
        lemma_skip_spaces_run(x, p + 1, p2);
    }
}

/// White space between two positions does not change the tokens read from
/// either.
proof fn lemma_tokens_from_spaces(x: Seq<u8>, p: nat, p2: nat)
    requires
        p <= p2 <= x.len(),
        forall|i: int| p <= i < p2 ==> #[trigger] is_space(x[i]),
    ensures
        tokens_from(x, p) == tokens_from(x, p2),
{
    lemma_skip_spaces_run(x, p, p2);
    lemma_skip_spaces(x, p2);
    lemma_tokens_from_unfold(x, p);
    lemma_tokens_from_unfold(x, p2);
    lemma_scan_progress(x, p2);
}

/// A run of letters, or of digits, reads the same in two inputs that agree up
/// to a position where neither has a letter or a digit.
proof fn lemma_runs_agree(x: Seq<u8>, y: Seq<u8>, k: nat, m: nat)
    requires
        k <= m <= x.len(),
        m <= y.len(),
        forall|i: int| k <= i < m ==> #[trigger] x[i] == y[i],
        !is_letter(byte_at(x, m as int)) && !is_digit(byte_at(x, m as int)),
        !is_letter(byte_at(y, m as int)) && !is_digit(byte_at(y, m as int)),
    ensures
        end_of_letters(x, k) == end_of_letters(y, k) <= m,
        end_of_digits(x, k) == end_of_digits(y, k) <= m,
    decreases m - k,
{
    if k < m {
        lemma_runs_agree(x, y, k + 1, m);
    }
}

/// The tokens of `a w1 b` and `a w2 b` from a position in `a` are the same, where
/// `w1` and `w2` are white space, both non-empty or with nothing after them, and
/// `b` holds no `=` or `!`.
proof fn lemma_tokens_from_gap(a: Seq<u8>, w1: Seq<u8>, w2: Seq<u8>, b: Seq<u8>, p: nat)
    requires
        p <= a.len(),
        all_spaces(w1),
        all_spaces(w2),
        no_eq_bang(b),
        (w1.len() > 0 && w2.len() > 0) || b.len() == 0,
    ensures
        tokens_from(a + w1 + b, p) == tokens_from(a + w2 + b, p),
    decreases a.len() - p,
{
    let x = a + w1 + b;
    let y = a + w2 + b;
    assert forall|i: int| 0 <= i < a.len() implies #[trigger] x[i] == a[i] && y[i] == a[i] by {
    }
    if forall|i: int| p <= i < a.len() ==> #[trigger] is_space(a[i]) {
        let ex: nat = a.len() + w1.len();
        let ey: nat = a.len() + w2.len();
        assert forall|i: int| p <= i < ex implies #[trigger] is_space(x[i]) by {
            if i < a.len() {
                assert(x[i] == a[i]);
            } else {
                assert(x[i] == w1[i - a.len()]);
            }
        }
        assert forall|i: int| p <= i < ey implies #[trigger] is_space(y[i]) by {
            if i < a.len() {
                assert(y[i] == a[i]);
            } else {
                assert(y[i] == w2[i - a.len()]);
            }
        }
        lemma_tokens_from_spaces(x, p, ex);
        lemma_tokens_from_spaces(y, p, ey);
        assert(x.skip(ex as int) =~= b);
        assert(y.skip(ey as int) =~= b);
        lemma_tokens_from_shift(x, ex, y, ey);
    } else {
        let k = choose|i: int| p <= i < a.len() && !is_space(#[trigger] a[i]);
        let k = first_non_space(a, p, k as nat);
        lemma_tokens_from_spaces(x, p, k);
        lemma_tokens_from_spaces(y, p, k);
        let m = a.len();
        assert(!is_letter(byte_at(x, m as int)) && !is_digit(byte_at(x, m as int))) by {
            if w1.len() > 0 {
                assert(x[m as int] == w1[0]);
                assert(is_space(w1[0]));
            } else {
                assert(x.len() == m);
            }
        }
        assert(!is_letter(byte_at(y, m as int)) && !is_digit(byte_at(y, m as int))) by {
            if w2.len() > 0 {
                assert(y[m as int] == w2[0]);
                assert(is_space(w2[0]));
            } else {
                assert(y.len() == m);
            }
        }
        lemma_runs_agree(x, y, k, m);
        lemma_skip_spaces(x, k);
        lemma_skip_spaces(y, k);
        assert(skip_spaces(x, k) == k);
        assert(skip_spaces(y, k) == k);
        assert(scan(x, k).0 == scan(y, k).0 && scan(x, k).1 == scan(y, k).1) by {
            let c = a[k as int];
            assert(byte_at(x, k as int) == c && byte_at(y, k as int) == c);
            if c != 0 && is_lower(c) {
                let e = end_of_letters(x, k);
                lemma_end_of_letters(x, k);
                assert(x.subrange(k as int, e as int) =~= y.subrange(k as int, e as int));
            } else if c != 0 && is_digit(c) {
                let e = end_of_digits(x, k);
                lemma_end_of_digits(x, k);
                assert(x.subrange(k as int, e as int) =~= y.subrange(k as int, e as int));
            }
        }
        lemma_tokens_from_unfold(x, k);
        lemma_tokens_from_unfold(y, k);
        lemma_scan_progress(x, k);
        let (t, e) = scan(x, k);
        if !(t is Eof) {
            assert(e <= m) by {
                lemma_end_of_letters(x, k);
                lemma_end_of_digits(x, k);
            }
            lemma_tokens_from_gap(a, w1, w2, b, e);
        }
    }
}

/// The first byte at or after `p` in `a` that is not white space, given one at `k`.
proof fn first_non_space(a: Seq<u8>, p: nat, k: nat) -> (r: nat)
    requires
        p <= k < a.len(),
        !is_space(a[k as int]),
    ensures
        p <= r <= k,
        !is_space(a[r as int]),
        forall|i: int| p <= i < r ==> #[trigger] is_space(a[i]),
    decreases k - p,
{
    if is_space(a[p as int]) {
        first_non_space(a, p + 1, k)
    } else {
        p
    }
}

/// White space does not change the tokens of an input without `=` or `!`
/// after it: replacing a non-empty run of white space between two parts by
/// another non-empty run, or adding or removing white space at the end, leaves
/// the tokens as they were. (A `=` or `!` after the change would move, and
/// where it stands decides whether it is read as `==` or `!=`.)
pub proof fn law_tokenize_whitespace(a: Seq<u8>, w1: Seq<u8>, w2: Seq<u8>, b: Seq<u8>)
    requires
        all_spaces(w1),
        all_spaces(w2),
        no_eq_bang(b),
        (w1.len() > 0 && w2.len() > 0) || b.len() == 0,
    ensures
        tokenize(a + w1 + b) == tokenize(a + w2 + b),
{
    lemma_tokens_from_gap(a, w1, w2, b, 0);
}

/// White space at the start does not change the tokens of an input without
/// `=` or `!`.
pub proof fn law_tokenize_leading_whitespace(w: Seq<u8>, b: Seq<u8>)
    requires
        all_spaces(w),
        no_eq_bang(b),
    ensures
        tokenize(w + b) == tokenize(b),
{
    let x = w + b;
    assert forall|i: int| 0 <= i < w.len() implies #[trigger] is_space(x[i]) by {
        assert(x[i] == w[i]);
    }
    lemma_tokens_from_spaces(x, 0, w.len());
    assert(x.skip(w.len() as int) =~= b);
    assert(b.skip(0) =~= b);
    lemma_tokens_from_shift(x, w.len(), b, 0);
}

proof fn lemma_end_of_digits_all(s: Seq<u8>, k: nat)
    requires
        k <= s.len(),
        forall|i: int| k <= i < s.len() ==> 48 <= #[trigger] s[i] <= 57,
    ensures
        end_of_digits(s, k) == s.len(),
    decreases s.len() - k,
{
    if k < s.len() {
        lemma_end_of_digits_all(s, k + 1);
    }
}

proof fn lemma_end_of_letters_all(s: Seq<u8>, k: nat)
    requires
        k <= s.len(),
        forall|i: int| k <= i < s.len() ==> (65 <= #[trigger] s[i] <= 90 || 97 <= s[i] <= 122),
    ensures
        end_of_letters(s, k) == s.len(),
    decreases s.len() - k,
{
    if k < s.len() {
        lemma_end_of_letters_all(s, k + 1);
    }
}

/// At the end of the input there are no more tokens.
proof fn lemma_tokens_from_end(s: Seq<u8>)
    ensures
        tokens_from(s, s.len()) == Seq::<TokenView>::empty(),
{
    lemma_tokens_from_unfold(s, s.len());
}

/// A run of the ASCII digits, the bytes 48 (`0`) to 57 (`9`), is one integer
/// literal that holds the whole run, each byte as the character of its code.
pub proof fn law_digit_run(s: Seq<u8>)
    requires
        s.len() > 0,
        forall|i: int| 0 <= i < s.len() ==> 48 <= #[trigger] s[i] <= 57,
    ensures
        tokenize(s) == seq![TokenView::Int(Seq::new(s.len(), |i: int| s[i] as char))],
{
    assert(48 <= s[0] <= 57);
    assert(skip_spaces(s, 0) == 0);
    lemma_end_of_digits_all(s, 0);
    assert(s.subrange(0, s.len() as int) =~= s);
    assert(chars_of(s) =~= Seq::new(s.len(), |i: int| s[i] as char));
    lemma_tokens_from_unfold(s, 0);
    lemma_tokens_from_end(s);
}

/// A run of ASCII letters (bytes 65 to 90 and 97 to 122) that starts with a
/// lower-case one (97 to 122) is one word that holds the whole run: a keyword
/// or a name.
pub proof fn law_word_run(s: Seq<u8>)
    requires
        s.len() > 0,
        97 <= s[0] <= 122,
        forall|i: int| 0 <= i < s.len() ==> (65 <= #[trigger] s[i] <= 90 || 97 <= s[i] <= 122),
    ensures
        tokenize(s) == seq![word_token(Seq::new(s.len(), |i: int| s[i] as char))],
{
    assert(skip_spaces(s, 0) == 0);
    lemma_end_of_letters_all(s, 0);
    assert(s.subrange(0, s.len() as int) =~= s);
    assert(chars_of(s) =~= Seq::new(s.len(), |i: int| s[i] as char));
    lemma_tokens_from_unfold(s, 0);
    lemma_tokens_from_end(s);
}

/// The keywords `let`, `fn`, `func`, `true`, `false`, `if`, `else`, `return`
/// are read as their tokens, and every other word as a name holding it.
pub proof fn law_keywords(w: Seq<char>)
    ensures
        word_token("let"@) == TokenView::Let,
        word_token("fn"@) == TokenView::Func,
        word_token("func"@) == TokenView::Func,
        word_token("true"@) == TokenView::True,
        word_token("false"@) == TokenView::False,
        word_token("if"@) == TokenView::If,
        word_token("else"@) == TokenView::Else,
        word_token("return"@) == TokenView::Return,
        w != "let"@ && w != "fn"@ && w != "func"@ && w != "true"@ && w != "false"@ && w != "if"@
            && w != "else"@ && w != "return"@ ==> word_token(w) == TokenView::Ident(w),
{
    reveal_strlit("let");
    reveal_strlit("fn");
    reveal_strlit("func");
    reveal_strlit("true");
    reveal_strlit("false");
    reveal_strlit("if");
    reveal_strlit("else");
    reveal_strlit("return");
    assert("let"@.len() == 3 && "let"@[0] == 'l');
    assert("fn"@.len() == 2 && "fn"@[0] == 'f');
    assert("func"@.len() == 4 && "func"@[0] == 'f');
    assert("true"@.len() == 4 && "true"@[0] == 't');
    assert("false"@.len() == 5 && "false"@[0] == 'f');
    assert("if"@.len() == 2 && "if"@[0] == 'i');
    assert("else"@.len() == 4 && "else"@[0] == 'e');
    assert("return"@.len() == 6 && "return"@[0] == 'r');
    assert("fn"@ != "let"@ && "func"@ != "let"@ && "true"@ != "let"@ && "false"@ != "let"@);
    assert("if"@ != "let"@ && "else"@ != "let"@ && "return"@ != "let"@);
    assert("func"@ != "fn"@ && "true"@ != "fn"@ && "false"@ != "fn"@ && "if"@ != "fn"@);
    assert("else"@ != "fn"@ && "return"@ != "fn"@);
    assert("false"@ != "true"@ && "if"@ != "true"@ && "else"@ != "true"@ && "return"@ != "true"@);
    assert("if"@ != "false"@ && "else"@ != "false"@ && "return"@ != "false"@);
    assert("if"@ != "func"@ && "else"@ != "func"@ && "return"@ != "func"@);
    assert("else"@ != "if"@ && "return"@ != "if"@ && "return"@ != "else"@);
}

/// White space, the bytes 9, 10, 12, 13 and 32, gives no token.
pub proof fn law_white_space_only(s: Seq<u8>)
    requires
        forall|i: int|
            0 <= i < s.len() ==> (#[trigger] s[i] == 9 || s[i] == 10 || s[i] == 12 || s[i] == 13
                || s[i] == 32),
    ensures
        tokenize(s) == Seq::<TokenView>::empty(),
{
    lemma_skip_spaces_run(s, 0, s.len());
    lemma_tokens_from_unfold(s, 0);
}

/// Each symbol byte standing alone is its token: `;` `>` `<` `,` `{` `}` `(`
/// `)` `*` `+` `-` `/`, and `=` and `!` at the start of the input; any other
/// byte that is not zero, white space, an ASCII letter or digit is an illegal
/// token holding that byte as a character.
pub proof fn law_symbols(c: u8)
    ensures
        c == 59 ==> tokenize(seq![c]) == seq![TokenView::Semicolon],
        c == 62 ==> tokenize(seq![c]) == seq![TokenView::Gt],
        c == 60 ==> tokenize(seq![c]) == seq![TokenView::Lt],
        c == 44 ==> tokenize(seq![c]) == seq![TokenView::Comma],
        c == 123 ==> tokenize(seq![c]) == seq![TokenView::Lbrace],
        c == 125 ==> tokenize(seq![c]) == seq![TokenView::Rbrace],
        c == 40 ==> tokenize(seq![c]) == seq![TokenView::Lparen],
        c == 41 ==> tokenize(seq![c]) == seq![TokenView::Rparen],
        c == 42 ==> tokenize(seq![c]) == seq![TokenView::Asterisk],
        c == 43 ==> tokenize(seq![c]) == seq![TokenView::Plus],
        c == 45 ==> tokenize(seq![c]) == seq![TokenView::Minus],
        c == 47 ==> tokenize(seq![c]) == seq![TokenView::Slash],
        c == 61 ==> tokenize(seq![c]) == seq![TokenView::Assing],
        c == 33 ==> tokenize(seq![c]) == seq![TokenView::Bang],
        (c != 0 && c != 9 && c != 10 && c != 12 && c != 13 && c != 32 && !(48 <= c <= 57) && !(65
            <= c <= 90) && !(97 <= c <= 122) && c != 59 && c != 62 && c != 60 && c != 44 && c
            != 123 && c != 125 && c != 40 && c != 41 && c != 42 && c != 43 && c != 45 && c != 47
            && c != 61 && c != 33) ==> tokenize(seq![c]) == seq![TokenView::Illgl(seq![c as char])],
{
    let s = seq![c];
    lemma_tokens_from_unfold(s, 0);
    lemma_tokens_from_end(s);
}

/// Reads the tokens of a program, one at a time.
pub struct Lexer {
    input: Vec<u8>,
    ch: u8,
    pos: usize,
}

impl View for Lexer {
    type V = Seq<TokenView>;

    /// The tokens that are still to be read, up to the end.
    closed spec fn view(&self) -> Seq<TokenView> {
        tokens_from(self.input@, self.pos as nat)
    }
}

impl Lexer {
    /// The lexer's position holds a byte of the input or the end, and `ch` is
    /// the byte there.
    pub closed spec fn wf(&self) -> bool {
        &&& self.pos <= self.input@.len()
        &&& self.ch == byte_at(self.input@, self.pos as int)
    }

    /// The input, as bytes.
    pub closed spec fn input(&self) -> Seq<u8> {
        self.input@
    }

    /// The position of the byte that is read next.
    pub closed spec fn position(&self) -> nat {
        self.pos as nat
    }

    /// A lexer over the UTF-8 bytes of `input`, at its start.
    pub fn new(input: String) -> (res: Self)
        ensures
            res.wf(),
            res.input() == vstd::utf8::encode_utf8(input@),
            res.position() == 0,
            res@ == tokenize(vstd::utf8::encode_utf8(input@)),
    {
        let bytes = input.as_str().as_bytes_vec();
        let ch = if bytes.len() > 0 { bytes[0] } else { 0 };
        Lexer { input: bytes, ch, pos: 0 }
    }

    /// Moves to the next byte.
    fn read_char(&mut self)
        requires
            old(self).wf(),
            old(self).pos < old(self).input@.len(),
        ensures
            final(self).wf(),
            final(self).input@ == old(self).input@,
            final(self).pos == old(self).pos + 1,
    {
        let n = self.input.len();
        self.pos = self.pos + 1;
        if self.pos >= n {
            self.ch = 0;
        } else {
            self.ch = self.input[self.pos];
        }
    }

    /// Moves past white space.
    fn skip_white(&mut self)
        requires
            old(self).wf(),
        ensures
            final(self).wf(),
            final(self).input@ == old(self).input@,
            final(self).pos == skip_spaces(old(self).input@, old(self).pos as nat),
    {
        while self.ch == 32 || self.ch == 9 || self.ch == 10 || self.ch == 12 || self.ch == 13
            invariant
                self.wf(),
                self.input@ == old(self).input@,
                skip_spaces(self.input@, self.pos as nat) == skip_spaces(old(self).input@, old(self).pos as nat),
            decreases self.input@.len() - self.pos,
        {
            self.read_char();
        }
    }

    /// The characters of the bytes from `start` up to `end`.
    fn text_between(&self, start: usize, end: usize) -> (res: String)
        requires
            start <= end <= self.input@.len(),
        ensures
            res@ == chars_of(self.input@.subrange(start as int, end as int)),
    {
        let mut res = String::new();
        let mut i = start;
        while i < end
            invariant
                start <= i <= end <= self.input@.len(),
                res@ == chars_of(self.input@.subrange(start as int, i as int)),
            decreases end - i,
        {
            let c: char = self.input[i] as char;
            push_char(&mut res, c);
            assert(chars_of(self.input@.subrange(start as int, i + 1)) =~= chars_of(
                self.input@.subrange(start as int, i as int),
            ).push(c));
            i = i + 1;
        }
        res
    }

    /// Reads a run of ASCII letters.
    fn read_word(&mut self) -> (res: String)
        requires
            old(self).wf(),
        ensures
            final(self).wf(),
            final(self).input@ == old(self).input@,
            final(self).pos == end_of_letters(old(self).input@, old(self).pos as nat),
            res@ == chars_of(old(self).input@.subrange(old(self).pos as int, final(self).pos as int)),
    {
        let pos = self.pos;
        while (65 <= self.ch && self.ch <= 90) || (97 <= self.ch && self.ch <= 122)
            invariant
                self.wf(),
                self.input@ == old(self).input@,
                pos <= self.pos,
                end_of_letters(self.input@, self.pos as nat) == end_of_letters(old(self).input@, pos as nat),
            decreases self.input@.len() - self.pos,
        {
            self.read_char();
        }
        self.text_between(pos, self.pos)
    }

    /// Reads a run of ASCII digits.
    fn read_number(&mut self) -> (res: String)
        requires
            old(self).wf(),
        ensures
            final(self).wf(),
            final(self).input@ == old(self).input@,
            final(self).pos == end_of_digits(old(self).input@, old(self).pos as nat),
            res@ == chars_of(old(self).input@.subrange(old(self).pos as int, final(self).pos as int)),
    {
        let pos = self.pos;
        while 48 <= self.ch && self.ch <= 57
            invariant
                self.wf(),
                self.input@ == old(self).input@,
                pos <= self.pos,
                end_of_digits(self.input@, self.pos as nat) == end_of_digits(old(self).input@, pos as nat),
            decreases self.input@.len() - self.pos,
        {
            self.read_char();
        }
        self.text_between(pos, self.pos)
    }

    /// The token of a word: a keyword, or else a name.
    fn word_to_token(w: String) -> (res: Token)
        ensures
            res@ == word_token(w@),
    {
        if w == String::from_str("let") {
            Token::Let
        } else if w == String::from_str("fn") {
            Token::Func
        } else if w == String::from_str("true") {
            Token::True
        } else if w == String::from_str("false") {
            Token::False
        } else if w == String::from_str("func") {
            Token::Func
        } else if w == String::from_str("if") {
            Token::If
        } else if w == String::from_str("else") {
            Token::Else
        } else if w == String::from_str("return") {
            Token::Return
        } else {
            Token::Ident(w)
        }
    }

    /// The token of a byte that starts neither a word nor a number.
    fn symbol_to_token(&self) -> (res: Token)
        requires
            self.wf(),
        ensures
            res@ == symbol_token(self.ch, self.pos as nat),
    {
        let c = self.ch;
        if c == 59 {
            Token::Semicolon
        } else if c == 62 {
            Token::Gt
        } else if c == 60 {
            Token::Lt
        } else if c == 61 {
            if self.pos == 60 { Token::Eq } else { Token::Assing }
        } else if c == 44 {
            Token::Comma
        } else if c == 33 {
            if self.pos == 60 { Token::NotEq } else { Token::Bang }
        } else if c == 123 {
            Token::Lbrace
        } else if c == 125 {
            Token::Rbrace
        } else if c == 41 {
            Token::Rparen
        } else if c == 40 {
            Token::Lparen
        } else if c == 42 {
            Token::Asterisk
        } else if c == 43 {
            Token::Plus
        } else if c == 45 {
            Token::Minus
        } else if c == 47 {
            Token::Slash
        } else {
            let mut s = String::new();
            push_char(&mut s, c as char);
            assert(s@ =~= seq![c as char]);
            Token::Illgl(s)
        }
    }

    /// Reads the next token. At the end it gives `Eof`, and keeps giving it.
    pub fn next_token(&mut self) -> (res: Token)
        requires
            old(self).wf(),
        ensures
            final(self).wf(),
            final(self).input() == old(self).input(),
            (res@, final(self).position()) == scan(old(self).input(), old(self).position()),
            res@ == first_token(old(self)@),
            final(self)@ == rest_tokens(old(self)@),
            (res@ is Eof) == (old(self)@.len() == 0),
    {
        proof {
            lemma_tokens_from_no_end(self.input@, self.pos as nat);
            lemma_tokens_from_unfold(self.input@, self.pos as nat);
            lemma_scan_progress(self.input@, self.pos as nat);
        }
        self.skip_white();
        proof {
            lemma_skip_spaces(self.input@, old(self).pos as nat);
            lemma_end_of_letters(self.input@, self.pos as nat);
            lemma_end_of_digits(self.input@, self.pos as nat);
        }
        if self.ch == 0 {
            proof {
                lemma_tokens_from_unfold(self.input@, self.pos as nat);
            }
            return Token::Eof;
        }
        if 97 <= self.ch && self.ch <= 122 {
            let v = self.read_word();
            let tok = Self::word_to_token(v);
            proof {
                lemma_tokens_from_unfold(self.input@, old(self).pos as nat);
            }
            return tok;
        }
        if 48 <= self.ch && self.ch <= 57 {
            let number = self.read_number();
            return Token::Int(number);
        }
        let tok = self.symbol_to_token();
        self.read_char();
        tok
    }
}

} // verus!
