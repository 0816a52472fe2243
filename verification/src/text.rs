use vstd::prelude::*;

verus! {

/// Appends one character to a string.
///
/// Trusted: calls `String::push`, whose documentation says it appends the given
/// `char` to the end of the string; the contract states exactly that.
#[verifier::external_body]
pub(crate) fn push_char(s: &mut String, c: char)
    ensures
        final(s)@ == old(s)@.push(c),
{
    s.push(c);
}

/// The character of a decimal digit `d` (`0 <= d < 10`).
pub open spec fn digit_char(d: int) -> char {
    (d + 48) as char
}

/// Decimal text of a natural number, without leading zeros.
pub open spec fn nat_text(n: nat) -> Seq<char>
    decreases n,
{
    if n < 10 {
        seq![digit_char(n as int)]
    } else {
        nat_text(n / 10).push(digit_char((n % 10) as int))
    }
}

/// Decimal text of an integer, with a leading `-` when it is negative.
pub open spec fn int_text(v: int) -> Seq<char> {
    if v < 0 {
        seq!['-'] + nat_text((-v) as nat)
    } else {
        nat_text(v as nat)
    }
}

fn append_nat(s: &mut String, n: u32)
    ensures
        final(s)@ == old(s)@ + nat_text(n as nat),
    decreases n,
{
    if n >= 10 {
        append_nat(s, n / 10);
    }
    let d: u8 = (n % 10) as u8;
    let c: char = (d + 48) as char;
    push_char(s, c);
    assert(c == digit_char((n % 10) as int));
}


/// Appends the decimal text of `v` to `s`.
pub(crate) fn append_int(s: &mut String, v: i32)
    ensures
        final(s)@ == old(s)@ + int_text(v as int),
{
    if v < 0 {
        push_char(s, '-');
        let m: u32 = (0i64 - (v as i64)) as u32;
        append_nat(s, m);
        assert(final(s)@ =~= old(s)@ + int_text(v as int));
    } else {
        append_nat(s, v as u32);
    }
}

/// Whether `c` is one of the ASCII digits `0` to `9`.
pub open spec fn is_digit_char(c: char) -> bool {
    '0' <= c && c <= '9'
}

/// Whether every character of `s` is an ASCII digit.
pub open spec fn all_digits(s: Seq<char>) -> bool {
    forall|i: int| 0 <= i < s.len() ==> #[trigger] is_digit_char(s[i])
}

/// The value of a string of decimal digits, read most significant first.
pub open spec fn digits_value(s: Seq<char>) -> nat
    decreases s.len(),
{
    if s.len() == 0 {
        0
    } else {
        digits_value(s.drop_last()) * 10 + ((s.last() as int) - 48) as nat
    }
}

/// The `i32` that a decimal text denotes, as `str::parse::<i32>` reads it:
/// an optional `+` or `-`, then one or more ASCII digits, and a value in range.
pub open spec fn parse_i32(s: Seq<char>) -> Option<i32> {
    if s.len() > 0 && s[0] == '-' {
        let d = s.drop_first();
        if d.len() > 0 && all_digits(d) && digits_value(d) <= 2147483648 {
            Some((0 - digits_value(d)) as i32)
        } else {
            None
        }
    } else {
        let d = if s.len() > 0 && s[0] == '+' { s.drop_first() } else { s };
        if d.len() > 0 && all_digits(d) && digits_value(d) <= 2147483647 {
            Some(digits_value(d) as i32)
        } else {
            None
        }
    }
}

/// Reads a decimal `i32` from `text`; `None` where `parse_i32` gives `None`.
pub fn parse_i32_text(text: &String) -> (res: Option<i32>)
    ensures
        res == parse_i32(text@),
{
    let t = text.as_str();
    let n = t.unicode_len();
    let mut start: usize = 0;
    let mut neg = false;
    if n > 0 {
        let c0 = t.get_char(0);
        if c0 == '-' {
            neg = true;
            start = 1;
        } else if c0 == '+' {
            start = 1;
        }
    }
    let ghost d = t@.subrange(start as int, n as int);
    assert(start == 1 ==> d =~= t@.drop_first());
    assert(start == 0 ==> d =~= t@);
    if start >= n {
        return None;
    }
    let bound: u64 = if neg { 2147483648 } else { 2147483647 };
    let mut acc: u64 = 0;
    let mut i: usize = start;
    while i < n
        invariant
            start <= i <= n,
            n == t@.len(),
            d == t@.subrange(start as int, n as int),
            t@ == text@,
            neg == (t@.len() > 0 && t@[0] == '-'),
            d == (if t@.len() > 0 && (t@[0] == '-' || t@[0] == '+') { t@.drop_first() } else { t@ }),
            bound == (if neg { 2147483648u64 } else { 2147483647u64 }),
            all_digits(d.take(i - start)),
            acc == (if digits_value(d.take(i - start)) > bound { bound + 1 } else { digits_value(d.take(i - start)) as int }),
        decreases n - i,
    {
        let c = t.get_char(i);
        let ghost k: int = i - start;
        assert(d.take(k + 1).drop_last() =~= d.take(k));
        assert(d.take(k + 1).last() == c);
        if !('0' <= c && c <= '9') {
            assert(d[k] == c);
            assert(!is_digit_char(d[k]));
            assert(!all_digits(d));
            return None;
        }
        let dv: u64 = (c as u64) - 48;
        if acc <= bound {
            acc = acc * 10 + dv;
        }
        if acc > bound {
            acc = bound + 1;
        }
        assert(all_digits(d.take(k + 1))) by {
            assert forall|j: int| 0 <= j < k + 1 implies #[trigger] is_digit_char(d.take(k + 1)[j]) by {
                if j < k {
                    assert(d.take(k + 1)[j] == d.take(k)[j]);
                }
            }
        }
        i = i + 1;
    }
    assert(d.take(n - start) =~= d);
    if acc > bound {
        None
    } else if neg {
        Some((0 - (acc as i64)) as i32)
    } else {
        Some(acc as i32)
    }
}

/// The decimal text of a natural number is a non-empty run of the characters
/// `0` to `9`, with no leading `0` unless the number is 0, and read back as
/// decimal digits it is the number.
pub proof fn law_nat_text_reads_back(n: nat)
    ensures
        nat_text(n).len() > 0,
        forall|i: int| 0 <= i < nat_text(n).len() ==> '0' <= #[trigger] nat_text(n)[i] <= '9',
        forall|i: int|
            0 <= i < nat_text(n).len() ==> (#[trigger] nat_text(n)[i] as int) - 48 < 10,
        n > 0 ==> nat_text(n)[0] != '0',
        digits_value(nat_text(n)) == n,
    decreases n,
{
    if n < 10 {
        assert(digit_char(n as int) as int == n + 48);
        assert(seq![digit_char(n as int)].drop_last() =~= Seq::<char>::empty());
        assert(digits_value(Seq::<char>::empty()) == 0);
        assert(digits_value(seq![digit_char(n as int)]) == n);
    } else {
        law_nat_text_reads_back(n / 10);
        let t = nat_text(n / 10);
        let c = digit_char((n % 10) as int);
        assert(c as int == (n % 10) + 48);
        assert(t.push(c).drop_last() =~= t);
        assert(t.push(c)[0] == t[0]);
        assert(digits_value(t.push(c)) == digits_value(t) * 10 + (n % 10));
        assert(n == (n / 10) * 10 + n % 10);
        assert forall|i: int| 0 <= i < t.push(c).len() implies '0' <= #[trigger] t.push(c)[i] <= '9'
            && (t.push(c)[i] as int) - 48 < 10 by {
            if i < t.len() {
                assert(t.push(c)[i] == t[i]);
            }
        }
    }
}

/// Reading back the decimal text of any `i32` gives that `i32`.
pub proof fn law_int_text_reads_back(v: i32)
    ensures
        parse_i32(int_text(v as int)) == Some(v),
{
    if v < 0 {
        let m: nat = (-(v as int)) as nat;
        law_nat_text_reads_back(m);
        let s = int_text(v as int);
        assert(s.drop_first() =~= nat_text(m));
        assert(all_digits(nat_text(m))) by {
            assert forall|i: int| 0 <= i < nat_text(m).len() implies #[trigger] is_digit_char(
                nat_text(m)[i],
            ) by {
                assert('0' <= nat_text(m)[i] <= '9');
            }
        }
    } else {
        let m: nat = v as nat;
        law_nat_text_reads_back(m);
        let s = int_text(v as int);
        assert(s[0] != '-' && s[0] != '+') by {
            assert('0' <= s[0] <= '9');
        }
        assert(all_digits(s)) by {
            assert forall|i: int| 0 <= i < s.len() implies #[trigger] is_digit_char(s[i]) by {
                assert('0' <= s[i] <= '9');
            }
        }
    }
}

} // verus!
