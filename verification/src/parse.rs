//! The input parser: from `X.X.X.X/X` or `X-X-X-X-X` to an address and a
//! prefix length.
//!
//! An input is first classed by its delimiters alone. One slash and three
//! dots make the dotted form; failing that, four dashes make the dashed
//! form; anything else is a format error. The input is then cut into the
//! text of the address and the text of the prefix length, and both are read.
//! A prefix length of 0 is accepted. A prefix length that is a number above
//! 32 is out of range, however long the number is; the error keeps it.

use crate::addr::{lemma_octets_pack, pack, Ipv4Addr};
use crate::decimal::{
    decimal_text, decimal_value, is_digit, lemma_byte_text_reads, lemma_decimal_text_value,
    lemma_number_chars, lemma_octet_chars, number_value, octet_value, read_bounded, read_octet,
    Bounded,
};
use crate::error::{cidr_out_of_range, view_result, Error, ErrorView, USAGE_MSG};
use crate::text::{
    chars_of, count, count_char, join4, lemma_count_join4, lemma_count_joined, lemma_count_zero,
    lemma_piece_holds, lemma_split_concat, lemma_split_join4, lemma_split_len, lemma_split_whole,
    piece_bounds, split,
};
use vstd::prelude::*;
use vstd::string::{StrSliceExecFns, StringExecFns};

verus! {

/// What the text of an address reads as: four octets between three dots.
pub open spec fn spec_parse_ip(s: Seq<char>) -> Result<Ipv4Addr, ErrorView> {
    let t = split(s, '.');
    if t.len() == 4 && octet_value(t[0]) is Some && octet_value(t[1]) is Some && octet_value(
        t[2],
    ) is Some && octet_value(t[3]) is Some {
        Ok(
            Ipv4Addr {
                bits: pack(
                    octet_value(t[0]).unwrap(),
                    octet_value(t[1]).unwrap(),
                    octet_value(t[2]).unwrap(),
                    octet_value(t[3]).unwrap(),
                ),
            },
        )
    } else {
        Err(ErrorView::InvalidIp)
    }
}

/// What the text of a prefix length reads as. A text that writes a number
/// `v` in decimal digits, with at most one `+` in front, reads as `v` where
/// `v` is at most 32, and is out of range for every greater `v`; the error
/// then holds the digits of `v`. Any other text is invalid: the empty one, a
/// sign alone, one with a character that is no digit.
pub open spec fn spec_parse_cidr(s: Seq<char>) -> Result<u8, ErrorView> {
    match number_value(s) {
        None => Err(ErrorView::InvalidCidr),
        Some(v) => if v <= 32 {
            Ok(v as u8)
        } else {
            Err(cidr_out_of_range(v))
        },
    }
}

/// What the texts of an address and of a prefix length read as together. A
/// bad address is reported before a bad prefix length.
pub open spec fn spec_parse_pair(ip: Seq<char>, cidr: Seq<char>) -> Result<
    (Ipv4Addr, u8),
    ErrorView,
> {
    match spec_parse_ip(ip) {
        Err(e) => Err(e),
        Ok(addr) => match spec_parse_cidr(cidr) {
            Err(e) => Err(e),
            Ok(n) => Ok((addr, n)),
        },
    }
}

/// Whether `s` has the delimiters of the dotted form `X.X.X.X/X`.
pub open spec fn is_dotted(s: Seq<char>) -> bool {
    count(s, '/') == 1 && count(s, '.') == 3
}

/// Whether `s` has the delimiters of the dashed form `X-X-X-X-X`.
pub open spec fn is_dashed(s: Seq<char>) -> bool {
    count(s, '-') == 4
}

/// The texts of the address and of the prefix length in an input with one
/// slash.
pub open spec fn dotted_parts(s: Seq<char>) -> (Seq<char>, Seq<char>) {
    let t = split(s, '/');
    (t[0], t[1])
}

/// The texts of the address, with dots in place of dashes, and of the
/// prefix length in an input with four dashes.
pub open spec fn dashed_parts(s: Seq<char>) -> (Seq<char>, Seq<char>) {
    let t = split(s, '-');
    (join4(t[0], t[1], t[2], t[3], '.'), t[4])
}

/// What an input reads as. The dotted form is tried first; an input with
/// the delimiters of neither form is a format error.
pub open spec fn spec_parse_ip_and_cidr(s: Seq<char>) -> Result<(Ipv4Addr, u8), ErrorView> {
    if is_dotted(s) {
        spec_parse_pair(dotted_parts(s).0, dotted_parts(s).1)
    } else if is_dashed(s) {
        spec_parse_pair(dashed_parts(s).0, dashed_parts(s).1)
    } else {
        Err(ErrorView::Format)
    }
}

/// The dotted form of four octet texts and a prefix text: `a.b.c.d/p`.
pub open spec fn dotted_form(
    a: Seq<char>,
    b: Seq<char>,
    c: Seq<char>,
    d: Seq<char>,
    p: Seq<char>,
) -> Seq<char> {
    join4(a, b, c, d, '.') + seq!['/'] + p
}

/// The dashed form of four octet texts and a prefix text: `a-b-c-d-p`.
pub open spec fn dashed_form(
    a: Seq<char>,
    b: Seq<char>,
    c: Seq<char>,
    d: Seq<char>,
    p: Seq<char>,
) -> Seq<char> {
    join4(a, b, c, d, '-') + seq!['-'] + p
}

/// Whether `t` holds none of the three delimiters.
pub open spec fn plain(t: Seq<char>) -> bool {
    !t.contains('.') && !t.contains('/') && !t.contains('-')
}

impl Ipv4Addr {
    /// Reads the text of an address: four decimal octets joined by dots,
    /// each of one to three digits, at most 255, and without a zero in front
    /// of another digit.
    pub fn from_str(s: &str) -> (r: Result<Ipv4Addr, Error>)
        ensures
            view_result(r) == spec_parse_ip(s@),
    {
        let chars = chars_of(s);
        let bounds = piece_bounds(chars.as_slice(), '.');
        if bounds.len() != 4 {
            return Err(Error::InvalidIp);
        }
        let a = read_octet(chars.as_slice(), bounds[0].0, bounds[0].1);
        let b = read_octet(chars.as_slice(), bounds[1].0, bounds[1].1);
        let c = read_octet(chars.as_slice(), bounds[2].0, bounds[2].1);
        let d = read_octet(chars.as_slice(), bounds[3].0, bounds[3].1);
        match (a, b, c, d) {
            (Some(a), Some(b), Some(c), Some(d)) => Ok(Ipv4Addr::new(a, b, c, d)),
            _ => Err(Error::InvalidIp),
        }
    }
}

/// Reads the text of an address, as [`Ipv4Addr::from_str`] does.
pub fn parse_ip(input: &str) -> (r: Result<Ipv4Addr, Error>)
    ensures
        view_result(r) == spec_parse_ip(input@),
{
    Ipv4Addr::from_str(input)
}

/// Reads the text of a prefix length: an unsigned decimal number from 0 to
/// 32. A greater number is out of range, and the error holds its digits,
/// whatever their number; a text that writes no unsigned decimal number is
/// invalid.
pub fn parse_cidr(input: &str) -> (r: Result<u8, Error>)
    ensures
        view_result(r) == spec_parse_cidr(input@),
        r matches Ok(n) ==> n <= 32,
{
    let chars = chars_of(input);
    match read_bounded(chars.as_slice(), 32) {
        None => Err(Error::InvalidCidr),
        Some(Bounded::Within(n)) => Ok(n),
        Some(Bounded::Above(from)) => {
            let digits = String::from_str(input.substring_char(from, chars.len()));
            Err(Error::CidrOutOfRange(digits))
        },
    }
}

/// Cuts an input at its one slash into the text of the address and the
/// text of the prefix length. An input without a slash, or with more than
/// one, is a format error.
pub fn split_dotted(input: &str) -> (r: Result<(String, String), Error>)
    ensures
        match r {
            Ok((ip, cidr)) => count(input@, '/') == 1 && (ip@, cidr@) == dotted_parts(input@),
            Err(e) => count(input@, '/') != 1 && e == Error::Format,
        },
{
    let chars = chars_of(input);
    let bounds = piece_bounds(chars.as_slice(), '/');
    proof {
        lemma_split_len(input@, '/');
    }
    if bounds.len() != 2 {
        return Err(Error::Format);
    }
    let ip = String::from_str(input.substring_char(bounds[0].0, bounds[0].1));
    let cidr = String::from_str(input.substring_char(bounds[1].0, bounds[1].1));
    Ok((ip, cidr))
}

/// Cuts an input at its four dashes into the text of the address, written
/// with dots, and the text of the prefix length. An input with fewer or
/// more than four dashes is a format error.
pub fn split_dashed(input: &str) -> (r: Result<(String, String), Error>)
    ensures
        match r {
            Ok((ip, cidr)) => count(input@, '-') == 4 && (ip@, cidr@) == dashed_parts(input@),
            Err(e) => count(input@, '-') != 4 && e == Error::Format,
        },
{
    let chars = chars_of(input);
    let bounds = piece_bounds(chars.as_slice(), '-');
    proof {
        lemma_split_len(input@, '-');
        reveal_strlit(".");
        assert("."@ == seq!['.']);
    }
    if bounds.len() != 5 {
        return Err(Error::Format);
    }
    let mut ip = String::from_str(input.substring_char(bounds[0].0, bounds[0].1));
    ip.append(".");
    ip.append(input.substring_char(bounds[1].0, bounds[1].1));
    ip.append(".");
    ip.append(input.substring_char(bounds[2].0, bounds[2].1));
    ip.append(".");
    ip.append(input.substring_char(bounds[3].0, bounds[3].1));
    let cidr = String::from_str(input.substring_char(bounds[4].0, bounds[4].1));
    Ok((ip, cidr))
}

/// Reads an input of the form `X.X.X.X/X` or `X-X-X-X-X`.
pub fn parse_ip_and_cidr(input: String) -> (r: Result<(Ipv4Addr, u8), Error>)
    ensures
        view_result(r) == spec_parse_ip_and_cidr(input@),
        r matches Ok(pair) ==> pair.1 <= 32,
{
    let chars = chars_of(input.as_str());
    let parts = if count_char(chars.as_slice(), '/') == 1 && count_char(chars.as_slice(), '.')
        == 3 {
        split_dotted(input.as_str())
    } else if count_char(chars.as_slice(), '-') == 4 {
        split_dashed(input.as_str())
    } else {
        return Err(Error::Format);
    };
    match parts {
        Err(e) => Err(e),
        Ok((ip, cidr)) => {
            match parse_ip(ip.as_str()) {
                Err(e) => Err(e),
                Ok(addr) => match parse_cidr(cidr.as_str()) {
                    Err(e) => Err(e),
                    Ok(n) => Ok((addr, n)),
                },
            }
        },
    }
}

/// A prefix length that is a number above 32 is out of range, and the
/// message of the error holds the number: its digits stand behind
/// `provided = `, and they write the number.
pub proof fn lemma_out_of_range_message(s: Seq<char>)
    requires
        number_value(s) is Some,
        number_value(s).unwrap() > 32,
    ensures
        spec_parse_cidr(s) == Err::<u8, ErrorView>(cidr_out_of_range(number_value(s).unwrap())),
        cidr_out_of_range(number_value(s).unwrap()).message_text()
            == "CIDR must be in range 0-32 inclusive: provided = "@ + decimal_text(
            number_value(s).unwrap(),
        ) + ": "@ + USAGE_MSG@,
        decimal_value(decimal_text(number_value(s).unwrap())) == number_value(s).unwrap(),
{
    lemma_decimal_text_value(number_value(s).unwrap());
}

/// The dotted and the dashed form of the same texts read alike: where one
/// of them reads as an address and a prefix length, so does the other, and
/// as the same ones.
pub proof fn lemma_forms_agree(a: Seq<char>, b: Seq<char>, c: Seq<char>, d: Seq<char>, p: Seq<char>)
    ensures
        spec_parse_ip_and_cidr(dotted_form(a, b, c, d, p)) is Ok <==> spec_parse_ip_and_cidr(
            dashed_form(a, b, c, d, p),
        ) is Ok,
        spec_parse_ip_and_cidr(dotted_form(a, b, c, d, p)) is Ok ==> spec_parse_ip_and_cidr(
            dotted_form(a, b, c, d, p),
        ) == spec_parse_ip_and_cidr(dashed_form(a, b, c, d, p)),
{
    let dotted = dotted_form(a, b, c, d, p);
    let dashed = dashed_form(a, b, c, d, p);
    lemma_plain_counts(a);
    lemma_plain_counts(b);
    lemma_plain_counts(c);
    lemma_plain_counts(d);
    lemma_plain_counts(p);
    if spec_parse_ip_and_cidr(dotted) is Ok {
        lemma_read_input_chars(dotted);
        lemma_form_counts(a, b, c, d, p, '.', '/', '.');
        lemma_form_counts(a, b, c, d, p, '.', '/', '/');
        lemma_form_counts(a, b, c, d, p, '.', '/', '-');
        lemma_count_zero(dotted, '.');
        lemma_count_zero(dotted, '-');
        assert(plain(a) && plain(b) && plain(c) && plain(d) && plain(p));
    }
    if spec_parse_ip_and_cidr(dashed) is Ok {
        lemma_read_input_chars(dashed);
        lemma_form_counts(a, b, c, d, p, '-', '-', '.');
        lemma_form_counts(a, b, c, d, p, '-', '-', '/');
        lemma_form_counts(a, b, c, d, p, '-', '-', '-');
        lemma_count_zero(dashed, '.');
        lemma_count_zero(dashed, '/');
        lemma_count_zero(dashed, '-');
        assert(plain(a) && plain(b) && plain(c) && plain(d) && plain(p));
    }
    if plain(a) && plain(b) && plain(c) && plain(d) && plain(p) {
        lemma_plain_forms_agree(a, b, c, d, p);
    }
}

/// Texts without a delimiter read the same in the dotted and in the dashed
/// form: both read as the address `a.b.c.d` with the prefix length `p`, and
/// both fail in the same way where that address or prefix length is bad.
pub proof fn lemma_plain_forms_agree(
    a: Seq<char>,
    b: Seq<char>,
    c: Seq<char>,
    d: Seq<char>,
    p: Seq<char>,
)
    requires
        plain(a),
        plain(b),
        plain(c),
        plain(d),
        plain(p),
    ensures
        spec_parse_ip_and_cidr(dotted_form(a, b, c, d, p)) == spec_parse_pair(
            join4(a, b, c, d, '.'),
            p,
        ),
        spec_parse_ip_and_cidr(dashed_form(a, b, c, d, p)) == spec_parse_pair(
            join4(a, b, c, d, '.'),
            p,
        ),
{
    let ip = join4(a, b, c, d, '.');
    let dotted = dotted_form(a, b, c, d, p);
    let dashed = dashed_form(a, b, c, d, p);
    lemma_plain_counts(a);
    lemma_plain_counts(b);
    lemma_plain_counts(c);
    lemma_plain_counts(d);
    lemma_plain_counts(p);

    lemma_form_counts(a, b, c, d, p, '.', '/', '.');
    lemma_form_counts(a, b, c, d, p, '.', '/', '/');
    assert(is_dotted(dotted));
    lemma_count_join4(a, b, c, d, '.', '/');
    lemma_split_whole(ip, '/');
    lemma_split_whole(p, '/');
    lemma_split_concat(ip, p, '/');
    assert(split(dotted, '/') == seq![ip, p]);

    let head = join4(a, b, c, d, '-');
    lemma_form_counts(a, b, c, d, p, '-', '-', '-');
    lemma_form_counts(a, b, c, d, p, '-', '-', '/');
    assert(!is_dotted(dashed));
    assert(is_dashed(dashed));
    lemma_split_join4(a, b, c, d, '-');
    lemma_split_whole(p, '-');
    lemma_split_concat(head, p, '-');
    assert(split(dashed, '-') == seq![a, b, c, d, p]);
}

/// An address written in its dotted form reads back as the same address.
pub proof fn lemma_dotted_text_reads(ip: Ipv4Addr)
    ensures
        spec_parse_ip(ip.dotted_text()) == Ok::<Ipv4Addr, ErrorView>(ip),
{
    let a = decimal_text(ip.octet(0) as nat);
    let b = decimal_text(ip.octet(1) as nat);
    let c = decimal_text(ip.octet(2) as nat);
    let d = decimal_text(ip.octet(3) as nat);
    lemma_decimal_text_plain(ip.octet(0) as nat);
    lemma_decimal_text_plain(ip.octet(1) as nat);
    lemma_decimal_text_plain(ip.octet(2) as nat);
    lemma_decimal_text_plain(ip.octet(3) as nat);
    lemma_plain_counts(a);
    lemma_plain_counts(b);
    lemma_plain_counts(c);
    lemma_plain_counts(d);
    lemma_split_join4(a, b, c, d, '.');
    lemma_byte_text_reads(ip.octet(0));
    lemma_byte_text_reads(ip.octet(1));
    lemma_byte_text_reads(ip.octet(2));
    lemma_byte_text_reads(ip.octet(3));
    lemma_octets_pack(ip.bits);
}

/// An address and a prefix length, written in the dotted or in the dashed
/// form, read back as the same address and prefix length.
pub proof fn lemma_written_forms_read(ip: Ipv4Addr, cidr: u8)
    requires
        cidr <= 32,
    ensures
        spec_parse_ip_and_cidr(
            dotted_form(
                decimal_text(ip.octet(0) as nat),
                decimal_text(ip.octet(1) as nat),
                decimal_text(ip.octet(2) as nat),
                decimal_text(ip.octet(3) as nat),
                decimal_text(cidr as nat),
            ),
        ) == Ok::<(Ipv4Addr, u8), ErrorView>((ip, cidr)),
        spec_parse_ip_and_cidr(
            dashed_form(
                decimal_text(ip.octet(0) as nat),
                decimal_text(ip.octet(1) as nat),
                decimal_text(ip.octet(2) as nat),
                decimal_text(ip.octet(3) as nat),
                decimal_text(cidr as nat),
            ),
        ) == Ok::<(Ipv4Addr, u8), ErrorView>((ip, cidr)),
{
    lemma_decimal_text_plain(ip.octet(0) as nat);
    lemma_decimal_text_plain(ip.octet(1) as nat);
    lemma_decimal_text_plain(ip.octet(2) as nat);
    lemma_decimal_text_plain(ip.octet(3) as nat);
    lemma_decimal_text_plain(cidr as nat);
    lemma_plain_forms_agree(
        decimal_text(ip.octet(0) as nat),
        decimal_text(ip.octet(1) as nat),
        decimal_text(ip.octet(2) as nat),
        decimal_text(ip.octet(3) as nat),
        decimal_text(cidr as nat),
    );
    lemma_dotted_text_reads(ip);
    lemma_byte_text_reads(cidr);
}

/// An input that reads in the dotted form holds no dash; one that reads in
/// the dashed form holds neither a dot nor a slash.
pub proof fn lemma_read_input_chars(s: Seq<char>)
    requires
        spec_parse_ip_and_cidr(s) is Ok,
    ensures
        is_dotted(s) ==> !s.contains('-'),
        !is_dotted(s) ==> is_dashed(s) && !s.contains('.') && !s.contains('/'),
{
    if is_dotted(s) {
        lemma_split_len(s, '/');
        if s.contains('-') {
            let k = lemma_piece_holds(s, '/', '-');
            if k == 0 {
                lemma_ip_chars(split(s, '/')[0], '-');
            } else {
                lemma_cidr_chars(split(s, '/')[1], '-');
            }
        }
    } else {
        let t = split(s, '-');
        lemma_split_len(s, '-');
        let ip = dashed_parts(s).0;
        lemma_split_len(ip, '.');
        lemma_count_join4(t[0], t[1], t[2], t[3], '.', '.');
        lemma_count_join4(t[0], t[1], t[2], t[3], '.', '/');
        lemma_ip_chars(ip, '/');
        lemma_count_zero(ip, '/');
        if s.contains('.') {
            let k = lemma_piece_holds(s, '-', '.');
            lemma_count_zero(t[k], '.');
            if k == 4 {
                lemma_cidr_chars(t[4], '.');
            }
        }
        if s.contains('/') {
            let k = lemma_piece_holds(s, '-', '/');
            lemma_count_zero(t[k], '/');
            if k == 4 {
                lemma_cidr_chars(t[4], '/');
            }
        }
    }
}

/// The text of an address that reads holds nothing but digits and dots.
pub proof fn lemma_ip_chars(s: Seq<char>, c: char)
    requires
        spec_parse_ip(s) is Ok,
        !is_digit(c),
        c != '.',
    ensures
        !s.contains(c),
{
    if s.contains(c) {
        let k = lemma_piece_holds(s, '.', c);
        lemma_octet_chars(split(s, '.')[k], c);
    }
}

/// The text of a prefix length that reads holds nothing but digits and, at
/// most, a plus sign.
pub proof fn lemma_cidr_chars(s: Seq<char>, c: char)
    requires
        spec_parse_cidr(s) is Ok,
        !is_digit(c),
        c != '+',
    ensures
        !s.contains(c),
{
    lemma_number_chars(s, c);
}

/// The text of a number holds no delimiter.
pub proof fn lemma_decimal_text_plain(n: nat)
    ensures
        plain(decimal_text(n)),
{
    lemma_decimal_text_value(n);
}

/// A text without a delimiter counts none of them, and the other way round.
proof fn lemma_plain_counts(t: Seq<char>)
    ensures
        plain(t) <==> count(t, '.') == 0 && count(t, '/') == 0 && count(t, '-') == 0,
{
    lemma_count_zero(t, '.');
    lemma_count_zero(t, '/');
    lemma_count_zero(t, '-');
}

/// The occurrences of a character in five texts, the first four joined by
/// one delimiter and the fifth added behind another.
proof fn lemma_form_counts(
    a: Seq<char>,
    b: Seq<char>,
    c: Seq<char>,
    d: Seq<char>,
    p: Seq<char>,
    sep: char,
    last: char,
    ch: char,
)
    ensures
        count(join4(a, b, c, d, sep) + seq![last] + p, ch) == count(a, ch) + count(b, ch) + count(
            c,
            ch,
        ) + count(d, ch) + count(p, ch) + (if sep == ch {
            3nat
        } else {
            0nat
        }) + (if last == ch {
            1nat
        } else {
            0nat
        }),
{
    lemma_count_join4(a, b, c, d, sep, ch);
    lemma_count_joined(join4(a, b, c, d, sep), last, p, ch);
}

} // verus!
