//! The `Range` request header: one inclusive byte interval with its unit.

use crate::error::Error;
use crate::text::{all_digits, chars_of, decimal_value, find_char, first_index, lemma_first_index, parse_decimal};
use std::str::FromStr;
use vstd::prelude::*;
use vstd::string::StrSliceExecFns;

verus! {

/// Represents a `Range` header.
///
/// Implements `FromStr` for convenience.
#[derive(Debug)]
pub struct Range {
    /// The unit of the range, `bytes` in practice.
    pub typ: String,
    /// The first position of the range.
    pub start: u64,
    /// The last position of the range, inclusive.
    pub end: u64,
}

/// What a `Range` holds, as plain values.
pub struct RangeView {
    pub typ: Seq<char>,
    pub start: u64,
    pub end: u64,
}

impl View for Range {
    type V = RangeView;

    open spec fn view(&self) -> RangeView {
        RangeView { typ: self.typ@, start: self.start, end: self.end }
    }
}

impl RangeView {
    /// The number of positions from `start` to `end`, both included.
    pub open spec fn len(self) -> int {
        self.end - self.start + 1
    }

    /// The range lies inside a resource of `size` bytes.
    pub open spec fn fits(self, size: u64) -> bool {
        self.start <= self.end && self.end < size
    }
}

/// The range that `s` spells when it has the shape `unit=start-end`.
///
/// The unit is the text before the first `=`. `start` and `end` are
/// non-empty runs of ASCII digits that fit in 64 bits, and nothing follows
/// `end`.
pub open spec fn range_syntax(s: Seq<char>) -> Option<RangeView> {
    let eq = first_index(s, '=', 0);
    let dash = first_index(s, '-', eq + 1);
    if eq < s.len() && dash < s.len() {
        let first = s.subrange(eq + 1, dash);
        let second = s.subrange(dash + 1, s.len() as int);
        if first.len() > 0 && second.len() > 0 && all_digits(first) && all_digits(second)
            && decimal_value(first) <= u64::MAX && decimal_value(second) <= u64::MAX {
            Some(
                RangeView {
                    typ: s.take(eq),
                    start: decimal_value(first) as u64,
                    end: decimal_value(second) as u64,
                },
            )
        } else {
            None
        }
    } else {
        None
    }
}

/// What parsing the header value `s` yields.
///
/// A value with a comma asks for several ranges: `UnsupportedRange`. Any
/// other value that is not of the shape `unit=start-end` is an
/// `InvalidRange`.
pub open spec fn parse_range(s: Seq<char>) -> Result<RangeView, Error> {
    if s.contains(',') {
        Err(Error::UnsupportedRange)
    } else {
        match range_syntax(s) {
            Some(range) => Ok(range),
            None => Err(Error::InvalidRange),
        }
    }
}

impl Range {
    /// The number of bytes the range spans.
    pub fn len(&self) -> (n: u64)
        requires
            self.start <= self.end,
            self.end - self.start < u64::MAX,
        ensures
            n == self@.len(),
    {
        self.end - self.start + 1
    }

    /// Tells whether the range lies inside a resource of `size` bytes.
    pub fn fits(&self, size: u64) -> (b: bool)
        ensures
            b == self@.fits(size),
    {
        self.start <= self.end && self.end < size
    }

    /// Parses the value of a `Range` header.
    pub fn parse(s: &str) -> (r: Result<Range, Error>)
        ensures
            match r {
                Ok(range) => parse_range(s@) == Ok::<RangeView, Error>(range@),
                Err(e) => parse_range(s@) == Err::<RangeView, Error>(e),
            },
    {
        let chars = chars_of(s);
        let len = chars.len();
        let comma = find_char(&chars, ',', 0);
        proof {
            lemma_first_index(s@, ',', 0);
        }
        if comma < len {
            return Err(Error::UnsupportedRange);
        }
        let eq = find_char(&chars, '=', 0);
        if eq == len {
            return Err(Error::InvalidRange);
        }
        let dash = find_char(&chars, '-', eq + 1);
        if dash == len {
            return Err(Error::InvalidRange);
        }
        let start = match parse_decimal(&chars, eq + 1, dash) {
            Some(v) => v,
            None => {
                return Err(Error::InvalidRange);
            },
        };
        let end = match parse_decimal(&chars, dash + 1, len) {
            Some(v) => v,
            None => {
                return Err(Error::InvalidRange);
            },
        };
        let typ = s.substring_char(0, eq).to_owned();
        assert(typ@ == s@.take(eq as int));
        Ok(Range { typ, start, end })
    }
}

impl FromStr for Range {
    type Err = Error;

    fn from_str(s: &str) -> (r: Result<Range, Error>)
        ensures
            match r {
                Ok(range) => parse_range(s@) == Ok::<RangeView, Error>(range@),
                Err(e) => parse_range(s@) == Err::<RangeView, Error>(e),
            },
    {
        Range::parse(s)
    }
}

} // verus!
