//! Reading order files: one order per line, fields separated by commas.
//!
//! ```text
//! ADD, <id>, <BID|ASK>, <shares>, <price>
//! MODIFY, <id>, <shares>, <price>
//! CANCEL, <id>
//! ```
//!
//! The order type and side are case-insensitive, fields may be surrounded by
//! white space, and prices are rounded to two decimal places and kept in
//! hundredths.
use vstd::prelude::*;
use core::num::ParseIntError;
use std::str::FromStr;
use vstd::utf8::{valid_utf8, decode_utf8};
use crate::orderbook::BidOrAsk;
use crate::text::{split_on, trim, split_trimmed, lemma_split_append, chars_to_string, decimal_text, digit_char, lemma_split_nonempty, lemma_trim_ignores_carriage_return, lemma_trim_ignores_white_space, lemma_split_prepend};
use crate::clock::{now, elapsed};
use std::time::Duration;

verus! {

#[verifier::external_type_specification]
#[verifier::external_body]
pub struct ExParseIntError(ParseIntError);

#[verifier::external_type_specification]
#[verifier::external_body]
pub struct ExDecimalError(rust_decimal::Error);

/// One order of a file.
#[derive(Clone, Copy, Debug, PartialEq, Eq, Structural)]
pub enum FileUploadOrderType {
    Add { id: u64, side: BidOrAsk, shares: u64, price: i128 },
    Modify { id: u64, shares: u64, price: i128 },
    Cancel { id: u64 },
}

/// Why a line is not an order.
#[derive(Debug, PartialEq)]
pub enum ParseError {
    InvalidBidorAsk(String),
    InvalidOrderType(String),
    InvalidOrderFormat(String),
    InvalidOrderId(ParseIntError),
    InvalidShares(ParseIntError),
    InvalidPrice(rust_decimal::Error),
    Empty,
}

/// A parsed order line.
#[derive(Debug, PartialEq)]
pub struct FileUploadOrder {
    pub order: FileUploadOrderType,
}

/// What went wrong with a line, as far as the contracts tell errors apart.
pub enum ParseFailure {
    BidOrAsk(Seq<char>),
    OrderType(Seq<char>),
    OrderFormat(Seq<char>),
    OrderId,
    Shares,
    Price,
}

/// The failure an error reports.
pub open spec fn failure_of(e: ParseError) -> ParseFailure {
    match e {
        ParseError::InvalidBidorAsk(s) => ParseFailure::BidOrAsk(s@),
        ParseError::InvalidOrderType(s) => ParseFailure::OrderType(s@),
        ParseError::InvalidOrderFormat(s) => ParseFailure::OrderFormat(s@),
        ParseError::InvalidOrderId(_) => ParseFailure::OrderId,
        ParseError::InvalidShares(_) => ParseFailure::Shares,
        ParseError::InvalidPrice(_) => ParseFailure::Price,
        ParseError::Empty => ParseFailure::OrderFormat(Seq::empty()),
    }
}

/// The upper-case form of a text (`str::to_uppercase`).
pub uninterp spec fn uppercase(s: Seq<char>) -> Seq<char>;

/// The lower-case form of a text (`str::to_lowercase`).
pub uninterp spec fn lowercase(s: Seq<char>) -> Seq<char>;

/// The number a text denotes as a `rust_decimal::Decimal`
/// (`Decimal::from_str`), as its mantissa and scale; none when the text is
/// not a number.
pub uninterp spec fn decimal_parts(s: Seq<char>) -> Option<(i128, u32)>;

/// The mantissa and scale of the decimal `m * 10^-scale` after
/// `Decimal::rescale(new_scale)`, which rounds it to `new_scale` decimal
/// places.
pub uninterp spec fn rescaled_parts(m: i128, scale: u32, new_scale: u32) -> (i128, u32);

/// A decimal's mantissa fits in 96 bits, as `rust_decimal` keeps it.
pub open spec fn mantissa_fits(m: i128) -> bool {
    -0x1_0000_0000_0000_0000_0000_0000 < m < 0x1_0000_0000_0000_0000_0000_0000
}

/// An ASCII decimal digit.
pub open spec fn is_digit(c: char) -> bool {
    '0' <= c && c <= '9'
}

/// The value of a string of decimal digits.
pub open spec fn digits_value(s: Seq<char>) -> nat
    decreases s.len(),
{
    if s.len() == 0 {
        0
    } else {
        digits_value(s.drop_last()) * 10 + (s.last() as nat - '0' as nat) as nat
    }
}

/// The digits of an unsigned decimal number: an optional `+` sign dropped.
pub open spec fn unsigned_digits(s: Seq<char>) -> Seq<char> {
    if s.len() > 0 && s[0] == '+' {
        s.drop_first()
    } else {
        s
    }
}

/// The `u64` a text denotes: an optional `+` followed by one or more ASCII
/// digits whose value fits in 64 bits.
pub open spec fn u64_text(s: Seq<char>) -> Option<u64> {
    let d = unsigned_digits(s);
    if d.len() > 0 && (forall|i: int| 0 <= i < d.len() ==> is_digit(#[trigger] d[i]))
        && digits_value(d) <= u64::MAX {
        Some(digits_value(d) as u64)
    } else {
        None
    }
}

/// Decimal text reads back as the number it writes: it is a run of digits
/// whose value is the number, so a `u64` written in decimal parses back to
/// itself.
pub proof fn lemma_decimal_reads_back(n: nat)
    ensures
        decimal_text(n).len() > 0,
        forall|i: int| 0 <= i < decimal_text(n).len() ==> is_digit(#[trigger] decimal_text(n)[i]),
        digits_value(decimal_text(n)) == n,
        n <= u64::MAX ==> u64_text(decimal_text(n)) == Some(n as u64),
    decreases n,
{
    let d = (n % 10) as nat;
    assert(digit_char(d) as nat == 48 + d) by {
        assert(d < 10);
    }
    assert('0' as nat == 48);
    if n < 10 {
        assert(decimal_text(n) == seq![digit_char(n)]);
        assert(decimal_text(n).drop_last() =~= Seq::<char>::empty());
        assert(digits_value(Seq::<char>::empty()) == 0);
        assert(decimal_text(n).last() == digit_char(d));
        assert(digits_value(decimal_text(n)) == 0 * 10 + (digit_char(d) as nat - '0' as nat) as nat);
    } else {
        lemma_decimal_reads_back(n / 10);
        let t = decimal_text(n / 10);
        assert(decimal_text(n) == t.push(digit_char(d)));
        assert(decimal_text(n).drop_last() =~= t);
        assert(decimal_text(n).last() == digit_char(d));
        assert(digits_value(decimal_text(n)) == digits_value(t) * 10 + (digit_char(d) as nat - '0' as nat) as nat);
        assert(n == (n / 10) * 10 + d);
        assert forall|i: int| 0 <= i < decimal_text(n).len() implies is_digit(#[trigger] decimal_text(n)[i]) by {
            if i < t.len() {
                assert(decimal_text(n)[i] == t[i]);
            }
        }
    }
    assert(decimal_text(n)[0] != '+');
    assert(unsigned_digits(decimal_text(n)) == decimal_text(n));
}

/// `10^k` for small `k`.
pub open spec fn pow10(k: int) -> int {
    if k <= 0 {
        1
    } else if k == 1 {
        10
    } else {
        100
    }
}

/// The price a text denotes, in hundredths: the number rounded to two
/// decimal places.
pub open spec fn price_text(s: Seq<char>) -> Option<i128> {
    match decimal_parts(s) {
        None => None,
        Some((m, sc)) => {
            let (m2, sc2) = rescaled_parts(m, sc, 2);
            Some((m2 * pow10(2 - sc2)) as i128)
        },
    }
}

/// The side a text names, ignoring case.
pub open spec fn side_text(s: Seq<char>) -> Option<BidOrAsk> {
    let l = lowercase(s);
    if l == seq!['b', 'i', 'd'] {
        Some(BidOrAsk::Bid)
    } else if l == seq!['a', 's', 'k'] {
        Some(BidOrAsk::Ask)
    } else {
        None
    }
}

/// The fields of a line: the pieces between commas, trimmed.
pub open spec fn fields(line: Seq<char>) -> Seq<Seq<char>> {
    split_on(line, ',').map_values(|f: Seq<char>| trim(f))
}

/// What a line says: an order, or why it is none.
pub open spec fn order_line(line: Seq<char>) -> Result<FileUploadOrderType, ParseFailure> {
    let f = fields(line);
    let kind = uppercase(f[0]);
    if kind == seq!['A', 'D', 'D'] {
        if f.len() != 5 {
            Err(ParseFailure::OrderFormat(seq!['A', 'D', 'D']))
        } else {
            match u64_text(f[1]) {
                None => Err(ParseFailure::OrderId),
                Some(id) => match side_text(f[2]) {
                    None => Err(ParseFailure::BidOrAsk(f[2])),
                    Some(side) => match u64_text(f[3]) {
                        None => Err(ParseFailure::Shares),
                        Some(shares) => match price_text(f[4]) {
                            None => Err(ParseFailure::Price),
                            Some(price) => Ok(FileUploadOrderType::Add { id, side, shares, price }),
                        },
                    },
                },
            }
        }
    } else if kind == seq!['M', 'O', 'D', 'I', 'F', 'Y'] {
        if f.len() != 4 {
            Err(ParseFailure::OrderFormat(seq!['M', 'O', 'D', 'I', 'F', 'Y']))
        } else {
            match u64_text(f[1]) {
                None => Err(ParseFailure::OrderId),
                Some(id) => match u64_text(f[2]) {
                    None => Err(ParseFailure::Shares),
                    Some(shares) => match price_text(f[3]) {
                        None => Err(ParseFailure::Price),
                        Some(price) => Ok(FileUploadOrderType::Modify { id, shares, price }),
                    },
                },
            }
        }
    } else if kind == seq!['C', 'A', 'N', 'C', 'E', 'L'] {
        if f.len() != 2 {
            Err(ParseFailure::OrderFormat(seq!['C', 'A', 'N', 'C', 'E', 'L']))
        } else {
            match u64_text(f[1]) {
                None => Err(ParseFailure::OrderId),
                Some(id) => Ok(FileUploadOrderType::Cancel { id }),
            }
        }
    } else {
        Err(ParseFailure::OrderType(kind))
    }
}

/// A line read from a file with Windows line endings means what it means
/// without the carriage return that ends it: the last field is trimmed of
/// white space, a carriage return included.
pub proof fn law_carriage_return_ignored(line: Seq<char>)
    ensures
        order_line(line.push('\r')) == order_line(line),
{
    let l2 = line.push('\r');
    lemma_split_nonempty(line, ',');
    let parts = split_on(line, ',');
    assert(l2.drop_last() =~= line);
    assert(l2.last() == '\r');
    assert(split_on(l2, ',') == parts.update(parts.len() - 1, parts.last().push('\r')));
    lemma_trim_ignores_carriage_return(parts.last());
    assert(fields(l2) =~= fields(line)) by {
        assert forall|i: int| 0 <= i < fields(l2).len() implies fields(l2)[i] == fields(line)[i] by {
            if i == parts.len() - 1 {
                assert(split_on(l2, ',')[i] == parts.last().push('\r'));
            } else {
                assert(split_on(l2, ',')[i] == parts[i]);
            }
        }
    }
}

/// White space before or after a line changes nothing of what it means:
/// every field is trimmed of the characters with the Unicode `White_Space`
/// property (tab, line feed, vertical tab, form feed, carriage return,
/// space, next line, no-break space, ogham space mark, the spaces from en
/// quad to hair space, line and paragraph separator, narrow no-break
/// space, medium mathematical space and ideographic space).
pub proof fn law_white_space_around_line_ignored(line: Seq<char>, c: char)
    requires
        c == '\t' || c == '\n' || c == '\u{b}' || c == '\u{c}' || c == '\r' || c == ' ' || c == '\u{85}' || c
            == '\u{a0}' || c == '\u{1680}' || ('\u{2000}' <= c && c <= '\u{200a}') || c == '\u{2028}' || c
            == '\u{2029}' || c == '\u{202f}' || c == '\u{205f}' || c == '\u{3000}',
    ensures
        order_line(line.push(c)) == order_line(line),
        order_line(seq![c] + line) == order_line(line),
{
    lemma_split_nonempty(line, ',');
    let parts = split_on(line, ',');
    let l2 = line.push(c);
    assert(l2.drop_last() =~= line);
    assert(l2.last() == c);
    assert(split_on(l2, ',') == parts.update(parts.len() - 1, parts.last().push(c)));
    lemma_trim_ignores_white_space(parts.last(), c);
    lemma_trim_ignores_white_space(parts[0], c);
    assert(fields(l2) =~= fields(line)) by {
        assert forall|i: int| 0 <= i < fields(l2).len() implies fields(l2)[i] == fields(line)[i] by {
            if i == parts.len() - 1 {
                assert(split_on(l2, ',')[i] == parts.last().push(c));
            } else {
                assert(split_on(l2, ',')[i] == parts[i]);
            }
        }
    }
    let l3 = seq![c] + line;
    lemma_split_prepend(c, line, ',');
    assert(fields(l3) =~= fields(line)) by {
        assert forall|i: int| 0 <= i < fields(l3).len() implies fields(l3)[i] == fields(line)[i] by {
            if i == 0 {
                assert(split_on(l3, ',')[i] == seq![c] + parts[0]);
            } else {
                assert(split_on(l3, ',')[i] == parts[i]);
            }
        }
    }
}

/// Calls `str::to_uppercase` on the text.
#[verifier::external_body]
fn to_uppercase(s: &Vec<char>) -> (r: Vec<char>)
    ensures
        r@ == uppercase(s@),
{
    s.iter().collect::<String>().to_uppercase().chars().collect()
}

/// Calls `str::to_lowercase` on the text.
#[verifier::external_body]
pub(crate) fn to_lowercase(s: &Vec<char>) -> (r: Vec<char>)
    ensures
        r@ == lowercase(s@),
{
    s.iter().collect::<String>().to_lowercase().chars().collect()
}

/// Calls `str::parse::<u64>`, which accepts exactly an optional `+`
/// followed by one or more ASCII digits whose value fits in a `u64`. Which
/// error kind a failure carries is left unsaid.
#[verifier::external_body]
pub(crate) fn parse_u64(s: &Vec<char>) -> (r: Result<u64, ParseIntError>)
    ensures
        r is Ok <==> u64_text(s@) is Some,
        r matches Ok(v) ==> u64_text(s@) == Some(v),
{
    s.iter().collect::<String>().parse::<u64>()
}

/// Calls `Decimal::from_str` and returns the mantissa and scale of the
/// number. A `Decimal` keeps a mantissa of at most 96 bits and a scale of at
/// most 28. Which error a failure carries is left unsaid.
#[verifier::external_body]
fn decimal_from_str(s: &Vec<char>) -> (r: Result<(i128, u32), rust_decimal::Error>)
    ensures
        r is Ok <==> decimal_parts(s@) is Some,
        r matches Ok(v) ==> decimal_parts(s@) == Some(v) && v.1 <= 28 && mantissa_fits(v.0),
{
    rust_decimal::Decimal::from_str(&s.iter().collect::<String>()).map(|d| (d.mantissa(), d.scale()))
}

/// Calls `Decimal::rescale(new_scale)` on the decimal with mantissa `m`
/// and scale `scale` (built by `Decimal::from_i128_with_scale`, which
/// panics beyond 96 bits or a scale of 28). The result keeps a mantissa of
/// at most 96 bits and at most `new_scale` decimal places.
#[verifier::external_body]
fn decimal_rescale(m: i128, scale: u32, new_scale: u32) -> (r: (i128, u32))
    requires
        scale <= 28,
        mantissa_fits(m),
    ensures
        r == rescaled_parts(m, scale, new_scale),
        r.1 <= new_scale,
        mantissa_fits(r.0),
{
    let mut d = rust_decimal::Decimal::from_i128_with_scale(m, scale);
    d.rescale(new_scale);
    (d.mantissa(), d.scale())
}

/// Calls `std::str::from_utf8` and collects the characters of a valid
/// text: the bytes decode exactly when they are valid UTF-8.
#[verifier::external_body]
pub(crate) fn decode_bytes(b: &[u8]) -> (r: Option<Vec<char>>)
    ensures
        r is Some <==> valid_utf8(b@),
        r matches Some(c) ==> c@ == decode_utf8(b@),
{
    std::str::from_utf8(b).ok().map(|s| s.chars().collect())
}

/// The `Debug` text of an integer parse error. Nothing is promised of
/// the text.
#[verifier::external_body]
fn int_error_debug(e: &ParseIntError) -> String {
    format!("{:?}", e)
}

/// The `Debug` text of a decimal parse error. Nothing is promised of the
/// text.
#[verifier::external_body]
fn decimal_error_debug(e: &rust_decimal::Error) -> String {
    format!("{:?}", e)
}

/// The text an error is reported with: the fixed wording with the offending
/// text, or, for a number that did not parse, the fixed wording followed
/// by the parser's own account.
pub open spec fn parse_error_text(e: ParseError, r: Seq<char>) -> bool {
    match e {
        ParseError::InvalidBidorAsk(s) => r == "Invalid bid/ask string: "@ + s@,
        ParseError::InvalidOrderType(s) => r == "Invalid order type string: "@ + s@,
        ParseError::InvalidOrderFormat(s) => r == "Invalid "@ + s@ + " order format"@,
        ParseError::InvalidOrderId(_) => "Faled to parse Order ID: "@.is_prefix_of(r),
        ParseError::InvalidShares(_) => "Faled to parse shares: "@.is_prefix_of(r),
        ParseError::InvalidPrice(_) => "Faled to parse price: "@.is_prefix_of(r),
        ParseError::Empty => r == "Empty order line in file"@,
    }
}

fn joined_text(a: &str, b: &str) -> (r: String)
    ensures
        r@ == a@ + b@,
{
    let mut r = a.to_owned();
    vstd::string::StringExecFns::append(&mut r, b);
    r
}

impl ParseError {
    /// The text the error is reported with.
    pub fn to_text(&self) -> (r: String)
        ensures
            parse_error_text(*self, r@),
    {
        match self {
            ParseError::InvalidBidorAsk(s) => joined_text("Invalid bid/ask string: ", s.as_str()),
            ParseError::InvalidOrderType(s) => joined_text("Invalid order type string: ", s.as_str()),
            ParseError::InvalidOrderFormat(s) => {
                let r = joined_text("Invalid ", s.as_str());
                joined_text(r.as_str(), " order format")
            },
            ParseError::InvalidOrderId(e) => {
                let d = int_error_debug(e);
                let r = joined_text("Faled to parse Order ID: ", d.as_str());
                proof {
                    assert(r@.subrange(0, "Faled to parse Order ID: "@.len() as int) =~= "Faled to parse Order ID: "@);
                }
                r
            },
            ParseError::InvalidShares(e) => {
                let d = int_error_debug(e);
                let r = joined_text("Faled to parse shares: ", d.as_str());
                proof {
                    assert(r@.subrange(0, "Faled to parse shares: "@.len() as int) =~= "Faled to parse shares: "@);
                }
                r
            },
            ParseError::InvalidPrice(e) => {
                let d = decimal_error_debug(e);
                let r = joined_text("Faled to parse price: ", d.as_str());
                proof {
                    assert(r@.subrange(0, "Faled to parse price: "@.len() as int) =~= "Faled to parse price: "@);
                }
                r
            },
            ParseError::Empty => "Empty order line in file".to_owned(),
        }
    }
}

/// Whether the characters equal `lit`.
fn chars_are(s: &Vec<char>, lit: &[char]) -> (r: bool)
    ensures
        r == (s@ == lit@),
{
    if s.len() != lit.len() {
        return false;
    }
    let mut i: usize = 0;
    while i < s.len()
        invariant
            0 <= i <= s@.len(),
            s@.len() == lit@.len(),
            forall|j: int| 0 <= j < i ==> s@[j] == lit@[j],
        decreases s@.len() - i,
    {
        if s[i] != lit[i] {
            return false;
        }
        i = i + 1;
    }
    proof {
        assert(s@ =~= lit@);
    }
    true
}

/// The price a text denotes, in hundredths.
fn parse_price(s: &Vec<char>) -> (r: Result<i128, ParseError>)
    ensures
        r is Ok <==> price_text(s@) is Some,
        r matches Ok(p) ==> price_text(s@) == Some(p),
        r matches Err(e) ==> failure_of(e) == ParseFailure::Price,
{
    match decimal_from_str(s) {
        Err(e) => Err(ParseError::InvalidPrice(e)),
        Ok((m0, sc0)) => {
            let (m, sc) = decimal_rescale(m0, sc0, 2);
            if sc == 0 {
                Ok(m * 100)
            } else if sc == 1 {
                Ok(m * 10)
            } else {
                Ok(m)
            }
        },
    }
}

impl BidOrAsk {
    /// The side a text names, ignoring case.
    pub fn from_text(s: &Vec<char>) -> (r: Result<BidOrAsk, ParseError>)
        ensures
            r is Ok <==> side_text(s@) is Some,
            r matches Ok(side) ==> side_text(s@) == Some(side),
            r matches Err(e) ==> failure_of(e) == ParseFailure::BidOrAsk(s@),
    {
        let l = to_lowercase(s);
        if chars_are(&l, &['b', 'i', 'd']) {
            Ok(BidOrAsk::Bid)
        } else if chars_are(&l, &['a', 's', 'k']) {
            Ok(BidOrAsk::Ask)
        } else {
            Err(ParseError::InvalidBidorAsk(chars_to_string(s.as_slice())))
        }
    }
}

impl FileUploadOrder {
    /// Reads one line of an order file.
    pub fn parse(line: &Vec<char>) -> (r: Result<FileUploadOrder, ParseError>)
        ensures
            match r {
                Ok(o) => order_line(line@) == Ok::<FileUploadOrderType, ParseFailure>(o.order),
                Err(e) => order_line(line@) == Err::<FileUploadOrderType, ParseFailure>(failure_of(e)),
            },
    {
        let parts = split_trimmed(line, ',');
        let ghost f = fields(line@);
        proof {
            crate::text::lemma_split_nonempty(line@, ',');
            assert(parts@.len() == f.len());
            assert forall|i: int| 0 <= i < parts@.len() implies (#[trigger] parts@[i])@ == f[i] by {
            }
        }
        let kind = to_uppercase(&parts[0]);
        let n = parts.len();
        if chars_are(&kind, &['A', 'D', 'D']) {
            if n != 5 {
                return Err(ParseError::InvalidOrderFormat(chars_to_string(&['A', 'D', 'D'])));
            }
            let id = match parse_u64(&parts[1]) {
                Ok(v) => v,
                Err(e) => {
                    return Err(ParseError::InvalidOrderId(e));
                },
            };
            let side = match BidOrAsk::from_text(&parts[2]) {
                Ok(s) => s,
                Err(e) => {
                    return Err(e);
                },
            };
            let shares = match parse_u64(&parts[3]) {
                Ok(v) => v,
                Err(e) => {
                    return Err(ParseError::InvalidShares(e));
                },
            };
            let price = match parse_price(&parts[4]) {
                Ok(p) => p,
                Err(e) => {
                    return Err(e);
                },
            };
            Ok(FileUploadOrder { order: FileUploadOrderType::Add { id, side, shares, price } })
        } else if chars_are(&kind, &['M', 'O', 'D', 'I', 'F', 'Y']) {
            if n != 4 {
                return Err(
                    ParseError::InvalidOrderFormat(chars_to_string(&['M', 'O', 'D', 'I', 'F', 'Y'])),
                );
            }
            let id = match parse_u64(&parts[1]) {
                Ok(v) => v,
                Err(e) => {
                    return Err(ParseError::InvalidOrderId(e));
                },
            };
            let shares = match parse_u64(&parts[2]) {
                Ok(v) => v,
                Err(e) => {
                    return Err(ParseError::InvalidShares(e));
                },
            };
            let price = match parse_price(&parts[3]) {
                Ok(p) => p,
                Err(e) => {
                    return Err(e);
                },
            };
            Ok(FileUploadOrder { order: FileUploadOrderType::Modify { id, shares, price } })
        } else if chars_are(&kind, &['C', 'A', 'N', 'C', 'E', 'L']) {
            if n != 2 {
                return Err(
                    ParseError::InvalidOrderFormat(chars_to_string(&['C', 'A', 'N', 'C', 'E', 'L'])),
                );
            }
            let id = match parse_u64(&parts[1]) {
                Ok(v) => v,
                Err(e) => {
                    return Err(ParseError::InvalidOrderId(e));
                },
            };
            Ok(FileUploadOrder { order: FileUploadOrderType::Cancel { id } })
        } else {
            Err(ParseError::InvalidOrderType(chars_to_string(kind.as_slice())))
        }
    }
}


/// The newline byte that ends a line of an order file.
pub open spec fn newline() -> u8 {
    10u8
}

/// The non-empty pieces among `ps`, in order.
pub open spec fn non_empty(ps: Seq<Seq<u8>>) -> Seq<Seq<u8>>
    decreases ps.len(),
{
    if ps.len() == 0 {
        Seq::empty()
    } else if ps.last().len() > 0 {
        non_empty(ps.drop_last()).push(ps.last())
    } else {
        non_empty(ps.drop_last())
    }
}

/// The lines of a file: the non-empty runs of bytes between newlines.
pub open spec fn file_lines(data: Seq<u8>) -> Seq<Seq<u8>> {
    non_empty(split_on(data, newline()))
}

/// The order a line of bytes holds: none when the bytes are not UTF-8 or
/// the text is not an order.
pub open spec fn line_order(line: Seq<u8>) -> Option<FileUploadOrderType> {
    if valid_utf8(line) {
        match order_line(decode_utf8(line)) {
            Ok(o) => Some(o),
            Err(_) => None,
        }
    } else {
        None
    }
}

/// The orders that lines hold, in order.
pub open spec fn orders_of(lines: Seq<Seq<u8>>) -> Seq<FileUploadOrderType>
    decreases lines.len(),
{
    if lines.len() == 0 {
        Seq::empty()
    } else {
        match line_order(lines.last()) {
            Some(o) => orders_of(lines.drop_last()).push(o),
            None => orders_of(lines.drop_last()),
        }
    }
}

/// How many lines hold no order.
pub open spec fn rejected(lines: Seq<Seq<u8>>) -> nat
    decreases lines.len(),
{
    if lines.len() == 0 {
        0
    } else {
        rejected(lines.drop_last()) + if line_order(lines.last()) is Some {
            0nat
        } else {
            1nat
        }
    }
}

/// Every line of a file is either read as an order or counted as
/// rejected: the orders and the rejected lines add up to the lines.
pub proof fn law_lines_accounted(lines: Seq<Seq<u8>>)
    ensures
        orders_of(lines).len() + rejected(lines) == lines.len(),
    decreases lines.len(),
{
    if lines.len() > 0 {
        law_lines_accounted(lines.drop_last());
    }
}

proof fn lemma_lines_extend(data: Seq<u8>, start: int, end: int)
    requires
        0 <= start <= end <= data.len(),
        start == 0 || data[start - 1] == newline(),
        forall|j: int| start <= j < end ==> data[j] != newline(),
    ensures
        file_lines(data.take(end)) == if end > start {
            file_lines(data.take(start)).push(data.subrange(start, end))
        } else {
            file_lines(data.take(start))
        },
{
    let p = data.take(start);
    let seg = data.subrange(start, end);
    assert(p.len() == 0 || p.last() == newline());
    assert forall|j: int| 0 <= j < seg.len() implies seg[j] != newline() by {
        assert(seg[j] == data[start + j]);
    }
    lemma_split_append(p, seg, newline());
    assert(p + seg =~= data.take(end));
    let ps = split_on(p, newline());
    assert(ps =~= ps.drop_last().push(ps.last()));
    assert(ps.drop_last().push(seg).drop_last() =~= ps.drop_last());
    assert(ps.drop_last().push(ps.last()).drop_last() =~= ps.drop_last());
}

proof fn lemma_lines_newline(data: Seq<u8>, start: int, i: int)
    requires
        0 <= start <= i < data.len(),
        start == 0 || data[start - 1] == newline(),
        forall|j: int| start <= j < i ==> data[j] != newline(),
        data[i] == newline(),
    ensures
        file_lines(data.take(i + 1)) == file_lines(data.take(i)),
{
    let pre = data.take(i);
    let post = data.take(i + 1);
    assert(post.drop_last() =~= pre);
    assert(split_on(post, newline()) == split_on(pre, newline()).push(Seq::empty()));
    assert(split_on(pre, newline()).push(Seq::<u8>::empty()).drop_last() =~= split_on(pre, newline()));
}

proof fn lemma_outcome_push(lines: Seq<Seq<u8>>, line: Seq<u8>)
    ensures
        orders_of(lines.push(line)) == match line_order(line) {
            Some(o) => orders_of(lines).push(o),
            None => orders_of(lines),
        },
        rejected(lines.push(line)) == rejected(lines) + if line_order(line) is Some {
            0nat
        } else {
            1nat
        },
{
    assert(lines.push(line).drop_last() =~= lines);
}

/// Reads one line of bytes: its order, if it holds one.
fn read_line(line: &[u8]) -> (r: Option<FileUploadOrderType>)
    ensures
        r == line_order(line@),
{
    match decode_bytes(line) {
        None => None,
        Some(chars) => match FileUploadOrder::parse(&chars) {
            Ok(o) => Some(o.order),
            Err(_) => None,
        },
    }
}

/// Reads an order file: the orders of its lines in file order, the time
/// the reading took, the number of lines and the number of lines that hold
/// no order. Lines are the non-empty runs of bytes between newlines; a last
/// line needs no newline.
#[verifier::spinoff_prover]
pub fn parse_file_orders(data: &[u8]) -> (r: (Vec<FileUploadOrderType>, Duration, i32, i32))
    requires
        data@.len() <= i32::MAX,
    ensures
        r.0@ == orders_of(file_lines(data@)),
        r.2 == file_lines(data@).len(),
        r.3 == rejected(file_lines(data@)),
{
    let mut total_raw_orders: i32 = 0;
    let mut invalid_orders: i32 = 0;
    let mut parsed_orders: Vec<FileUploadOrderType> = Vec::new();
    let start = now();
    let mut start_pos: usize = 0;
    let mut i: usize = 0;
    let n = data.len();
    proof {
        assert(data@.take(0) =~= Seq::<u8>::empty());
        assert(split_on(Seq::<u8>::empty(), newline()) == seq![Seq::<u8>::empty()]);
        assert(seq![Seq::<u8>::empty()].drop_last() =~= Seq::<Seq<u8>>::empty());
        assert(non_empty(seq![Seq::<u8>::empty()]) == non_empty(Seq::<Seq<u8>>::empty()));
        assert(file_lines(data@.take(0)) == Seq::<Seq<u8>>::empty());
    }
    while i < n
        invariant
            n == data@.len() <= i32::MAX,
            0 <= start_pos <= i <= n,
            start_pos == 0 || data@[start_pos - 1] == newline(),
            forall|j: int| start_pos <= j < i ==> data@[j] != newline(),
            total_raw_orders == file_lines(data@.take(start_pos as int)).len(),
            parsed_orders@ == orders_of(file_lines(data@.take(start_pos as int))),
            invalid_orders == rejected(file_lines(data@.take(start_pos as int))),
            total_raw_orders <= start_pos,
            invalid_orders <= total_raw_orders,
        decreases n - i,
    {
        if data[i] == 10u8 {
            let ghost before = file_lines(data@.take(start_pos as int));
            proof {
                lemma_lines_extend(data@, start_pos as int, i as int);
                lemma_lines_newline(data@, start_pos as int, i as int);
            }
            if i > start_pos {
                let line = &data[start_pos..i];
                proof {
                    lemma_outcome_push(before, line@);
                }
                total_raw_orders = total_raw_orders + 1;
                match read_line(line) {
                    Some(o) => {
                        parsed_orders.push(o);
                    },
                    None => {
                        invalid_orders = invalid_orders + 1;
                    },
                }
            }
            start_pos = i + 1;
        }
        i = i + 1;
    }
    let ghost before = file_lines(data@.take(start_pos as int));
    proof {
        lemma_lines_extend(data@, start_pos as int, n as int);
        assert(data@.take(n as int) =~= data@);
    }
    if start_pos < n {
        let line = &data[start_pos..n];
        proof {
            lemma_outcome_push(before, line@);
        }
        total_raw_orders = total_raw_orders + 1;
        match read_line(line) {
            Some(o) => {
                parsed_orders.push(o);
            },
            None => {
                invalid_orders = invalid_orders + 1;
            },
        }
    }
    let parse_duration = elapsed(&start);
    (parsed_orders, parse_duration, total_raw_orders, invalid_orders)
}

} // verus!
