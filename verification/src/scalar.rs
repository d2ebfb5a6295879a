//! Numeric literals.
//!
//! A coordinate in the grammar is a signed decimal with at most one
//! fractional part.  The parser keeps the exact digits it saw: a `Scalar`
//! holds the sign, the digit string read as one integer, and the number of
//! digits after the dot, so its numeric value is
//! `(-1)^neg * mantissa / 10^frac`.  Consumers that want machine floats
//! scale the mantissa themselves; the library never loses precision and
//! never touches floating point.

use vstd::prelude::*;

verus! {

/// One parsed numeric literal: value `(-1)^neg * mantissa / 10^frac`.
#[derive(Clone, Copy, Debug, PartialEq, Eq, Structural)]
pub struct Scalar {
    pub neg: bool,
    pub mantissa: u64,
    pub frac: u32,
}

pub open spec fn scalar_zero() -> Scalar {
    Scalar { neg: false, mantissa: 0, frac: 0 }
}

impl Scalar {
    /// The literal `0`, used to pre-size attribute buffers.
    pub fn zero() -> (r: Scalar)
        ensures
            r == scalar_zero(),
    {
        Scalar { neg: false, mantissa: 0, frac: 0 }
    }
}

pub open spec fn is_digit(b: u8) -> bool {
    48 <= b && b <= 57
}

/// Left-to-right scan of the digits of a decimal literal, starting after
/// the optional sign at relative position `i` with the state accumulated so
/// far.  Yields the mantissa, the number of digits seen, and the number of
/// digits after the dot; `None` on any byte outside the grammar, on a
/// second dot, on a literal with no digit at all, and on a mantissa or
/// fraction count too large to represent.
pub open spec fn scan_decimal(
    t: Seq<u8>,
    i: int,
    mantissa: nat,
    digits: nat,
    seen_dot: bool,
    frac: nat,
) -> Option<(nat, nat, nat)>
    decreases t.len() - i,
{
    if i < 0 || i >= t.len() {
        if digits >= 1 {
            Some((mantissa, digits, frac))
        } else {
            None
        }
    } else if is_digit(t[i]) {
        let m2 = mantissa * 10 + (t[i] - 48);
        let f2: int = if seen_dot { frac + 1int } else { frac as int };
        if m2 > u64::MAX || f2 > u32::MAX {
            None
        } else {
            scan_decimal(t, i + 1, m2 as nat, digits + 1, seen_dot, f2 as nat)
        }
    } else if t[i] == 46 && !seen_dot {
        scan_decimal(t, i + 1, mantissa, digits, true, frac)
    } else {
        None
    }
}

/// What one whitespace-free token means as a numeric literal, if anything.
pub open spec fn token_scalar(t: Seq<u8>) -> Option<Scalar> {
    let neg = t.len() > 0 && t[0] == 45;
    let start: int = if neg { 1 } else { 0 };
    match scan_decimal(t, start, 0, 0, false, 0) {
        Some((m, d, f)) => Some(Scalar { neg, mantissa: m as u64, frac: f as u32 }),
        None => None,
    }
}

/// Parses the token `doc[start..end]` as a numeric literal.
pub fn parse_scalar(doc: &[u8], start: usize, end: usize) -> (r: Option<Scalar>)
    requires
        start <= end <= doc@.len(),
    ensures
        r == token_scalar(doc@.subrange(start as int, end as int)),
{
    let ghost t = doc@.subrange(start as int, end as int);
    let mut i = start;
    let mut neg = false;
    if i < end && doc[i] == 45 {
        neg = true;
        i = i + 1;
    }
    let ghost rel0: int = if neg { 1int } else { 0int };
    let mut mantissa: u64 = 0;
    let mut frac: u32 = 0;
    let mut seen_dot = false;
    let mut any_digit = false;
    let ghost mut digits: nat = 0;
    while i < end
        invariant
            start <= i <= end,
            end <= doc@.len(),
            t == doc@.subrange(start as int, end as int),
            neg == (t.len() > 0 && t[0] == 45),
            i - start >= rel0,
            rel0 == if neg { 1int } else { 0int },
            any_digit == (digits >= 1),
            scan_decimal(t, rel0, 0, 0, false, 0) == scan_decimal(
                t,
                i - start,
                mantissa as nat,
                digits,
                seen_dot,
                frac as nat,
            ),
        decreases end - i,
    {
        let b = doc[i];
        assert(t[i - start] == b);
        if 48 <= b && b <= 57 {
            let d = b - 48;
            if mantissa > 1844674407370955161 || (mantissa == 1844674407370955161 && d > 5) {
                // mantissa * 10 + d exceeds u64::MAX == 18446744073709551615
                // exactly beyond this boundary.
                assert(mantissa * 10 + d > u64::MAX);
                return None;
            }
            if seen_dot && frac == u32::MAX {
                return None;
            }
            assert(mantissa * 10 + d <= u64::MAX);
            mantissa = mantissa * 10 + d as u64;
            if seen_dot {
                frac = frac + 1;
            }
            proof {
                digits = digits + 1;
            }
            any_digit = true;
        } else if b == 46 && !seen_dot {
            seen_dot = true;
        } else {
            return None;
        }
        i = i + 1;
    }
    if any_digit {
        Some(Scalar { neg, mantissa, frac })
    } else {
        None
    }
}

} // verus!
