//! Unsigned decimal numbers as text: the value of a digit sequence, the
//! two number forms of the input, and how a number is written.

use vstd::prelude::*;
use vstd::string::StringExecFns;

verus! {

/// Whether `c` is one of the ten ASCII digits.
pub open spec fn is_digit(c: char) -> bool {
    '0' <= c && c <= '9'
}

/// The value of a digit; 0 for any other character.
pub open spec fn digit_value(c: char) -> nat {
    if is_digit(c) {
        (c as u32 - '0' as u32) as nat
    } else {
        0
    }
}

/// The digit that writes `d`, for `d` below ten.
pub open spec fn digit_char(d: nat) -> char {
    ('0' as u32 + d) as char
}

/// Whether `s` holds digits only.
pub open spec fn all_digits(s: Seq<char>) -> bool {
    forall|i: int| 0 <= i < s.len() ==> is_digit(#[trigger] s[i])
}

/// The number that the digits of `s` write in base ten; 0 for the empty sequence.
pub open spec fn decimal_value(s: Seq<char>) -> nat
    decreases s.len(),
{
    if s.len() == 0 {
        0
    } else {
        10 * decimal_value(s.drop_last()) + digit_value(s.last())
    }
}

/// `n` written in base ten, without a zero in front.
pub open spec fn decimal_text(n: nat) -> Seq<char>
    decreases n,
{
    if n < 10 {
        seq![digit_char(n)]
    } else {
        decimal_text(n / 10).push(digit_char(n % 10))
    }
}

/// The number that `s` writes, where `s` is one digit or more and the
/// number fits in a byte.
pub open spec fn digits_u8(s: Seq<char>) -> Option<u8> {
    if s.len() > 0 && all_digits(s) && decimal_value(s) <= 255 {
        Some(decimal_value(s) as u8)
    } else {
        None
    }
}

/// An octet of a dotted address: one to three digits, no zero in front of
/// another digit, and a value of at most 255.
pub open spec fn octet_value(s: Seq<char>) -> Option<u8> {
    if s.len() <= 3 && (s.len() > 1 ==> s[0] != '0') {
        digits_u8(s)
    } else {
        None
    }
}

/// The digits of an unsigned decimal number: the text itself, or what
/// follows its one plus sign.
pub open spec fn number_digits(s: Seq<char>) -> Seq<char> {
    if s.len() > 0 && s[0] == '+' {
        s.skip(1)
    } else {
        s
    }
}

/// The number that a text writes in base ten: digits, one or more and any
/// number of them, with at most one `+` in front. The number is as large as
/// the digits make it.
pub open spec fn number_value(s: Seq<char>) -> Option<nat> {
    if number_digits(s).len() > 0 && all_digits(number_digits(s)) {
        Some(decimal_value(number_digits(s)))
    } else {
        None
    }
}

/// How a number that was read stands to a limit.
#[derive(Clone, Copy, Debug, PartialEq, Eq)]
pub enum Bounded {
    /// The number, which is at most the limit.
    Within(u8),
    /// The number is above the limit. Its digits, without zeros in front,
    /// begin at this place of the text and run to its end.
    Above(usize),
}

/// Reads the digits `s[start..end]` as a byte.
pub fn read_digits(s: &[char], start: usize, end: usize) -> (r: Option<u8>)
    requires
        start <= end <= s.len(),
    ensures
        r == digits_u8(s@.subrange(start as int, end as int)),
{
    let ghost t = s@.subrange(start as int, end as int);
    if start == end {
        return None;
    }
    let mut value: u32 = 0;
    let mut i: usize = start;
    while i < end
        invariant
            start <= i <= end <= s.len(),
            t == s@.subrange(start as int, end as int),
            all_digits(t.take(i - start)),
            value == decimal_value(t.take(i - start)),
            value <= 255,
        decreases end - i,
    {
        let c: char = s[i];
        proof {
            assert(t[i - start] == c);
            assert(t.take(i - start + 1).drop_last() == t.take(i - start));
        }
        if !(c >= '0' && c <= '9') {
            return None;
        }
        let digit: u32 = c as u32 - '0' as u32;
        value = value * 10 + digit;
        if value > 255 {
            proof {
                lemma_decimal_value_grows(t, i - start + 1);
            }
            return None;
        }
        i = i + 1;
    }
    proof {
        assert(t.take(i - start) == t);
    }
    Some(value as u8)
}

/// Reads `s[start..end]` as an octet of a dotted address.
pub fn read_octet(s: &[char], start: usize, end: usize) -> (r: Option<u8>)
    requires
        start <= end <= s.len(),
    ensures
        r == octet_value(s@.subrange(start as int, end as int)),
{
    if end - start > 3 {
        return None;
    }
    if end - start > 1 && s[start] == '0' {
        return None;
    }
    read_digits(s, start, end)
}

/// Reads the whole of `s` as an unsigned decimal number of any length and
/// holds it against `limit`.
pub fn read_bounded(s: &[char], limit: u8) -> (r: Option<Bounded>)
    ensures
        match r {
            None => number_value(s@) is None,
            Some(Bounded::Within(n)) => number_value(s@) == Some(n as nat) && n <= limit,
            Some(Bounded::Above(from)) => {
                &&& number_value(s@) is Some
                &&& number_value(s@).unwrap() > limit
                &&& from <= s@.len()
                &&& s@.subrange(from as int, s@.len() as int) == decimal_text(
                    number_value(s@).unwrap(),
                )
            },
        },
{
    let start: usize = if s.len() > 0 && s[0] == '+' {
        1
    } else {
        0
    };
    let ghost t = s@.subrange(start as int, s@.len() as int);
    proof {
        assert(t == number_digits(s@));
    }
    if start == s.len() {
        return None;
    }
    let mut value: u32 = 0;
    let mut above: bool = false;
    let mut i: usize = start;
    while i < s.len()
        invariant
            start <= i <= s.len(),
            t == s@.subrange(start as int, s@.len() as int),
            t == number_digits(s@),
            all_digits(t.take(i - start)),
            above ==> decimal_value(t.take(i - start)) > limit,
            !above ==> value == decimal_value(t.take(i - start)) && value <= limit,
        decreases s.len() - i,
    {
        let c: char = s[i];
        proof {
            assert(t[i - start] == c);
            assert(t.take(i - start + 1).drop_last() == t.take(i - start));
        }
        if !(c >= '0' && c <= '9') {
            return None;
        }
        if !above {
            value = value * 10 + (c as u32 - '0' as u32);
            if value > limit as u32 {
                above = true;
            }
        }
        i = i + 1;
    }
    proof {
        assert(t.take(i - start) == t);
    }
    if !above {
        return Some(Bounded::Within(value as u8));
    }
    let mut from: usize = start;
    while from < s.len() && s[from] == '0'
        invariant
            start <= from <= s.len(),
            t == s@.subrange(start as int, s@.len() as int),
            forall|k: int| 0 <= k < from - start ==> t[k] == '0',
        decreases s.len() - from,
    {
        from = from + 1;
    }
    proof {
        let rest = t.skip(from - start);
        lemma_zeros_in_front(t, from - start);
        assert(rest == s@.subrange(from as int, s@.len() as int));
        if from < s.len() {
            assert(rest[0] == s@[from as int]);
            lemma_decimal_text_of_value(rest);
        }
    }
    Some(Bounded::Above(from))
}

/// Writes `n` in base ten at the end of `out`.
pub fn push_decimal(out: &mut String, n: u64)
    ensures
        final(out)@ == old(out)@ + decimal_text(n as nat),
    decreases n,
{
    if n >= 10 {
        push_decimal(out, n / 10);
    }
    out.append(digit_str((n % 10) as u8));
}

/// The text of one digit.
fn digit_str(d: u8) -> (r: &'static str)
    requires
        d < 10,
    ensures
        r@ == seq![digit_char(d as nat)],
{
    proof {
        reveal_strlit("0");
        reveal_strlit("1");
        reveal_strlit("2");
        reveal_strlit("3");
        reveal_strlit("4");
        reveal_strlit("5");
        reveal_strlit("6");
        reveal_strlit("7");
        reveal_strlit("8");
        reveal_strlit("9");
    }
    let r = match d {
        0 => "0",
        1 => "1",
        2 => "2",
        3 => "3",
        4 => "4",
        5 => "5",
        6 => "6",
        7 => "7",
        8 => "8",
        _ => "9",
    };
    assert(r@ =~= seq![digit_char(d as nat)]);
    r
}

/// A number is at least the number that any of its leading digits write.
pub proof fn lemma_decimal_value_grows(s: Seq<char>, n: int)
    requires
        0 <= n <= s.len(),
    ensures
        decimal_value(s.take(n)) <= decimal_value(s),
    decreases s.len(),
{
    if n < s.len() {
        lemma_decimal_value_grows(s.drop_last(), n);
        assert(s.drop_last().take(n) == s.take(n));
    } else {
        assert(s.take(n) == s);
    }
}

/// What is written reads back as the same number: the text of `n` is one
/// digit or more, digits only, begins with a zero only where `n` is zero,
/// has the value `n`, and is as long as `n` has digits.
pub proof fn lemma_decimal_text_value(n: nat)
    ensures
        decimal_text(n).len() >= 1,
        all_digits(decimal_text(n)),
        decimal_value(decimal_text(n)) == n,
        decimal_text(n)[0] == '0' ==> n == 0,
        n < 10 ==> decimal_text(n).len() == 1,
        10 <= n < 100 ==> decimal_text(n).len() == 2,
        100 <= n < 1000 ==> decimal_text(n).len() == 3,
    decreases n,
{
    let t = decimal_text(n);
    if n < 10 {
        assert(t.drop_last() == Seq::<char>::empty());
        assert(decimal_value(t.drop_last()) == 0);
    } else {
        lemma_decimal_text_value(n / 10);
        assert(t.drop_last() == decimal_text(n / 10));
        assert(t[0] == decimal_text(n / 10)[0]);
    }
}

/// Zeros in front of a number do not change it.
pub proof fn lemma_zeros_in_front(s: Seq<char>, n: int)
    requires
        0 <= n <= s.len(),
        forall|k: int| 0 <= k < n ==> s[k] == '0',
    ensures
        decimal_value(s) == decimal_value(s.skip(n)),
    decreases s.len(),
{
    if n == s.len() {
        assert(s.skip(n) == Seq::<char>::empty());
        if s.len() > 0 {
            lemma_zeros_in_front(s.drop_last(), n - 1);
            assert(s.drop_last().skip(n - 1) == Seq::<char>::empty());
        }
    } else {
        lemma_zeros_in_front(s.drop_last(), n);
        assert(s.drop_last().skip(n) == s.skip(n).drop_last());
    }
}

/// Digits that do not begin with a zero are the text of the number they
/// write, and that number is not zero.
pub proof fn lemma_decimal_text_of_value(s: Seq<char>)
    requires
        s.len() > 0,
        all_digits(s),
        s[0] != '0',
    ensures
        decimal_text(decimal_value(s)) == s,
        decimal_value(s) > 0,
    decreases s.len(),
{
    let head = s.drop_last();
    let d = digit_value(s.last());
    assert(digit_char(d) == s.last());
    if s.len() == 1 {
        assert(head == Seq::<char>::empty());
        assert(decimal_value(head) == 0);
        assert(decimal_text(d) == seq![s.last()]);
        assert(seq![s.last()] == s);
    } else {
        assert(head[0] == s[0]);
        lemma_decimal_text_of_value(head);
        let v = decimal_value(head);
        assert((10 * v + d) / 10 == v);
        assert((10 * v + d) % 10 == d);
        assert(head.push(s.last()) == s);
    }
}

/// The text of a byte reads as that byte, both as an octet and as a number.
pub proof fn lemma_byte_text_reads(n: u8)
    ensures
        octet_value(decimal_text(n as nat)) == Some(n),
        number_value(decimal_text(n as nat)) == Some(n as nat),
{
    lemma_decimal_text_value(n as nat);
}

/// A text that reads as an octet holds nothing but digits.
pub proof fn lemma_octet_chars(s: Seq<char>, c: char)
    requires
        octet_value(s) is Some,
        !is_digit(c),
    ensures
        !s.contains(c),
{
}

/// A text that reads as a number holds nothing but digits and, at most, a
/// plus sign.
pub proof fn lemma_number_chars(s: Seq<char>, c: char)
    requires
        number_value(s) is Some,
        !is_digit(c),
        c != '+',
    ensures
        !s.contains(c),
{
    if s.contains(c) {
        let i = choose|i: int| 0 <= i < s.len() && s[i] == c;
        if s[0] == '+' {
            assert(s.skip(1)[i - 1] == c);
        }
    }
}

} // verus!
