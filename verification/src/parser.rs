//! Parsing of venue-reported numeric strings and trade sides.
//!
//! Prices and sizes arrive as decimal strings. They are parsed by the
//! arbitrary-precision decimal parser of the `rust_decimal` crate and then
//! brought to the engine's fixed scale; the engine never re-implements the
//! venue's number grammar.

use vstd::prelude::*;
use crate::decimal::{
    dec_mul, mul_fits, pow10, units_from_parts, Dec,
};
use crate::text::str_eq;

verus! {

/// Why a numeric string was rejected.
#[derive(Debug)]
pub enum ParseError {
    Price(String),
    Size(String),
}

impl PartialEq for ParseError {
    fn eq(&self, other: &ParseError) -> (r: bool) {
        match (self, other) {
            (ParseError::Price(a), ParseError::Price(b)) => *a == *b,
            (ParseError::Size(a), ParseError::Size(b)) => *a == *b,
            _ => false,
        }
    }
}

impl vstd::std_specs::cmp::PartialEqSpecImpl for ParseError {
    open spec fn obeys_eq_spec() -> bool {
        true
    }

    open spec fn eq_spec(&self, other: &ParseError) -> bool {
        match (self, other) {
            (ParseError::Price(a), ParseError::Price(b)) => a@ == b@,
            (ParseError::Size(a), ParseError::Size(b)) => a@ == b@,
            _ => false,
        }
    }
}

/// What `rust_decimal` makes of a decimal string: a mantissa and a
/// power-of-ten scale, or the message of the parse error. The result is a
/// function of the characters alone.
pub uninterp spec fn dec_str_parse(s: Seq<char>) -> Result<(int, nat), Seq<char>>;

/// Relies on rust_decimal's `Decimal::from_str` (via `str::parse`), whose
/// result is a function of the input string alone; a parsed value always has
/// a 96-bit mantissa and a scale of at most 28.
#[verifier::external_body]
fn decimal_from_str(s: &str) -> (r: Result<(i128, u32), String>)
    ensures
        match dec_str_parse(s@) {
            Ok(parts) => r matches Ok(p) && p.0 == parts.0 && p.1 == parts.1,
            Err(msg) => r matches Err(e) && e@ == msg,
        },
        r matches Ok(p) ==> -0x1000000000000000000000000 < p.0 < 0x1000000000000000000000000 && p.1
            <= 28,
{
    match s.parse::<rust_decimal::Decimal>() {
        Ok(d) => Ok((d.mantissa(), d.scale())),
        Err(e) => Err(e.to_string()),
    }
}

/// Whether a parsed `(mantissa, scale)` pair is representable at the
/// engine's fixed scale.
pub open spec fn parts_fit(m: int, scale: nat) -> bool {
    scale > 12 || -(i128::MAX as int) <= m * pow10((12 - scale) as nat) <= i128::MAX as int
}

/// The unit count a numeric string denotes, or the error text it produces.
pub open spec fn str_units(s: Seq<char>) -> Result<int, Seq<char>> {
    match dec_str_parse(s) {
        Ok(parts) => if parts_fit(parts.0, parts.1) {
            Ok(units_from_parts(parts.0, parts.1))
        } else {
            Err("number out of range"@)
        },
        Err(msg) => Err(msg),
    }
}

/// Parse trade side to human-readable format.
pub open spec fn spec_parse_side(s: Seq<char>) -> Seq<char> {
    if s == "A"@ {
        "SELL"@
    } else if s == "B"@ {
        "BUY"@
    } else {
        "UNKNOWN"@
    }
}

/// Parse trade side to human-readable format: the venue reports `A` for a
/// resting ask hit (a sell) and `B` for a resting bid hit (a buy).
pub fn parse_side(side: &str) -> (r: &str)
    ensures
        r@ == spec_parse_side(side@),
{
    if str_eq(side, "A") {
        "SELL"
    } else if str_eq(side, "B") {
        "BUY"
    } else {
        "UNKNOWN"
    }
}

/// Parse a price string to a fixed-scale decimal.
pub fn parse_price(price: &str) -> (r: Result<Dec, ParseError>)
    ensures
        match str_units(price@) {
            Ok(u) => r matches Ok(d) && d.units == u && d.units > i128::MIN,
            Err(msg) => r matches Err(e) && (e matches ParseError::Price(t) && t@ == msg),
        },
{
    match parse_units(price) {
        Ok(d) => Ok(d),
        Err(msg) => Err(ParseError::Price(msg)),
    }
}

/// Parse a size string to a fixed-scale decimal.
pub fn parse_size(size: &str) -> (r: Result<Dec, ParseError>)
    ensures
        match str_units(size@) {
            Ok(u) => r matches Ok(d) && d.units == u && d.units > i128::MIN,
            Err(msg) => r matches Err(e) && (e matches ParseError::Size(t) && t@ == msg),
        },
{
    match parse_units(size) {
        Ok(d) => Ok(d),
        Err(msg) => Err(ParseError::Size(msg)),
    }
}

/// Shared parse path: string to fixed-scale units, or the error text.
fn parse_units(s: &str) -> (r: Result<Dec, String>)
    ensures
        match str_units(s@) {
            Ok(u) => r matches Ok(d) && d.units == u && d.units > i128::MIN,
            Err(msg) => r matches Err(e) && e@ == msg,
        },
{
    match decimal_from_str(s) {
        Ok((mantissa, scale)) => {
            match Dec::from_parts(mantissa, scale) {
                Some(d) => Ok(d),
                None => Err("number out of range".to_owned()),
            }
        },
        Err(msg) => Err(msg),
    }
}

/// The value of a trade (price times size) in the engine's truncating
/// fixed-scale arithmetic, when both strings parse and the product fits.
pub fn calculate_trade_value(price: &str, size: &str) -> (r: Result<Dec, ParseError>)
    ensures
        match (str_units(price@), str_units(size@)) {
            (Ok(p), Ok(s)) => if mul_fits(p, s) {
                r matches Ok(d) && d.units == dec_mul(p, s)
            } else {
                r matches Err(e) && (e matches ParseError::Price(t) && t@ == "number out of range"@)
            },
            (Err(msg), _) => r matches Err(e) && (e matches ParseError::Price(t) && t@ == msg),
            (Ok(_), Err(msg)) => r matches Err(e) && (e matches ParseError::Size(t) && t@ == msg),
        },
{
    let p = match parse_price(price) {
        Ok(d) => d,
        Err(e) => {
            return Err(e);
        },
    };
    let s = match parse_size(size) {
        Ok(d) => d,
        Err(e) => {
            return Err(e);
        },
    };
    if crate::decimal::mul_in_range(p, s) {
        Ok(p.mul(s))
    } else {
        Err(ParseError::Price("number out of range".to_owned()))
    }
}

} // verus!
