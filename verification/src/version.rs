//! A version triple, its bump rules and its textual form.

use crate::encoding::lemma_encode_concat;
use crate::segment::Segment;
use crate::text::{
    free_of, join, lemma_join_split, lemma_piece_in_join, lemma_split_join, split, split_spans, DOT,
};
use vstd::prelude::*;
use vstd::string::*;
use vstd::utf8::*;

verus! {

/// A parsed `major.minor.patch` triple.
#[derive(Debug, Clone, Copy, PartialEq, Eq, Structural)]
pub struct Version {
    pub major: u16,
    pub minor: u16,
    pub patch: u16,
}

/// Why a text is not a version.
#[derive(Debug, Clone, Copy, PartialEq, Eq, Structural)]
pub enum Error {
    /// The text does not consist of exactly three dot-separated segments; the
    /// number it has is carried along.
    InvalidSegmentCount(usize),
    /// A segment is empty, holds something other than the digits `0` to `9`,
    /// or names a number above `u16::MAX`.
    ParseError,
}

/// Whether `b` is one of the ASCII digits `0` to `9`.
pub open spec fn is_digit(b: u8) -> bool {
    0x30 <= b <= 0x39
}

/// Whether `s` consists of ASCII digits only.
pub open spec fn all_digits(s: Seq<u8>) -> bool {
    forall|i: int| 0 <= i < s.len() ==> is_digit(#[trigger] s[i])
}

/// The number that a string of ASCII digits denotes in base ten.
pub open spec fn decimal_value(digits: Seq<u8>) -> nat
    decreases digits.len(),
{
    if digits.len() == 0 {
        0
    } else {
        decimal_value(digits.drop_last()) * 10 + (digits.last() - 0x30) as nat
    }
}

/// The ASCII digits of `n` in base ten, without leading zeros.
pub open spec fn decimal_digits(n: nat) -> Seq<u8>
    decreases n,
{
    if n < 10 {
        seq![(0x30 + n) as u8]
    } else {
        decimal_digits(n / 10).push((0x30 + n % 10) as u8)
    }
}

/// The number a segment denotes: the segment must be a non-empty string of
/// ASCII digits whose value fits in sixteen bits. Leading zeros are accepted;
/// signs, blanks and other characters are not.
pub open spec fn parse_segment(s: Seq<u8>) -> Option<u16> {
    if s.len() > 0 && all_digits(s) && decimal_value(s) <= u16::MAX {
        Some(decimal_value(s) as u16)
    } else {
        None
    }
}

/// The version that a text denotes, or why it denotes none.
pub open spec fn parse_version(s: Seq<u8>) -> Result<Version, Error> {
    let segments = split(s, DOT);
    if segments.len() != 3 {
        Err(Error::InvalidSegmentCount(segments.len() as usize))
    } else {
        match (parse_segment(segments[0]), parse_segment(segments[1]), parse_segment(segments[2])) {
            (Some(major), Some(minor), Some(patch)) => Ok(Version { major, minor, patch }),
            _ => Err(Error::ParseError),
        }
    }
}

/// The digits of a number are digits, at least one of them, and denote that
/// number.
pub proof fn lemma_decimal_digits(n: nat)
    ensures
        decimal_digits(n).len() >= 1,
        all_digits(decimal_digits(n)),
        decimal_value(decimal_digits(n)) == n,
    decreases n,
{
    let digits = decimal_digits(n);
    if n < 10 {
        assert(digits.drop_last() =~= Seq::<u8>::empty());
        assert(decimal_value(digits.drop_last()) == 0);
    } else {
        lemma_decimal_digits(n / 10);
        assert(digits.drop_last() =~= decimal_digits(n / 10));
    }
}

/// The text of a version holds digits and dots only.
pub proof fn lemma_text_bytes(v: Version)
    ensures
        forall|i: int|
            0 <= i < v.text().len() ==> is_digit(#[trigger] v.text()[i]) || v.text()[i] == DOT,
{
    lemma_decimal_digits(v.major as nat);
    lemma_decimal_digits(v.minor as nat);
    lemma_decimal_digits(v.patch as nat);
    let major = decimal_digits(v.major as nat);
    let minor = decimal_digits(v.minor as nat);
    let patch = decimal_digits(v.patch as nat);
    assert forall|i: int| 0 <= i < v.text().len() implies is_digit(#[trigger] v.text()[i])
        || v.text()[i] == DOT by {
        if i < major.len() {
            assert(v.text()[i] == major[i]);
        } else if i == major.len() {
        } else if i < major.len() + 1 + minor.len() {
            assert(v.text()[i] == minor[i - major.len() - 1]);
        } else if i == major.len() + 1 + minor.len() {
        } else {
            assert(v.text()[i] == patch[i - major.len() - minor.len() - 2]);
        }
    }
}

/// Parsing the text of a version gives that version back, so that writing
/// the parsed version out again yields the identical text.
pub proof fn lemma_parse_text(v: Version)
    ensures
        parse_version(v.text()) matches Ok(parsed) && parsed == v && parsed.text() == v.text(),
{
    let major = decimal_digits(v.major as nat);
    let minor = decimal_digits(v.minor as nat);
    let patch = decimal_digits(v.patch as nat);
    let segments = seq![major, minor, patch];
    lemma_decimal_digits(v.major as nat);
    lemma_decimal_digits(v.minor as nat);
    lemma_decimal_digits(v.patch as nat);
    assert(join(segments, DOT) == v.text()) by {
        let front = segments.drop_last();
        assert(front =~= seq![major, minor]);
        assert(front.drop_last() =~= seq![major]);
        assert(join(front.drop_last(), DOT) == major);
        assert(join(front, DOT) == major + seq![DOT] + minor);
    }
    assert forall|i: int| 0 <= i < segments.len() implies free_of(#[trigger] segments[i], DOT) by {
        assert(all_digits(segments[i]));
        assert forall|k: int| 0 <= k < segments[i].len() implies #[trigger] segments[i][k]
            != DOT by {
            assert(is_digit(segments[i][k]));
        }
    }
    lemma_split_join(segments, DOT);
}

/// Whether a string of digits is written without padding: it is a single
/// digit, or it has several and does not start with a zero.
pub open spec fn unpadded(digits: Seq<u8>) -> bool {
    digits.len() == 1 || (digits.len() > 1 && digits[0] != 0x30)
}

/// A digit string that starts with a digit other than zero denotes a number
/// above zero.
proof fn lemma_value_positive(digits: Seq<u8>)
    requires
        digits.len() >= 1,
        all_digits(digits),
        digits[0] != 0x30,
    ensures
        decimal_value(digits) >= 1,
    decreases digits.len(),
{
    let front = digits.drop_last();
    if digits.len() == 1 {
        assert(front =~= Seq::<u8>::empty());
        assert(is_digit(digits[0]));
    } else {
        assert(front[0] == digits[0]);
        assert forall|i: int| 0 <= i < front.len() implies is_digit(#[trigger] front[i]) by {
            assert(front[i] == digits[i]);
        }
        lemma_value_positive(front);
    }
}

/// The digits of the number that an unpadded digit string denotes are that
/// string.
pub proof fn lemma_unpadded_digits(digits: Seq<u8>)
    requires
        all_digits(digits),
        unpadded(digits),
    ensures
        decimal_digits(decimal_value(digits)) == digits,
    decreases digits.len(),
{
    let front = digits.drop_last();
    assert(is_digit(digits.last()));
    if digits.len() == 1 {
        assert(front =~= Seq::<u8>::empty());
        assert(decimal_digits(decimal_value(digits)) =~= digits);
    } else {
        assert(front[0] == digits[0]);
        assert forall|i: int| 0 <= i < front.len() implies is_digit(#[trigger] front[i]) by {
            assert(front[i] == digits[i]);
        }
        lemma_value_positive(front);
        lemma_unpadded_digits(front);
        let value = decimal_value(digits);
        assert(value == decimal_value(front) * 10 + (digits.last() - 0x30));
        assert(value / 10 == decimal_value(front));
        assert(value % 10 == digits.last() - 0x30);
        assert(front.push(digits.last()) =~= digits);
    }
}

/// Writing out the version parsed from a text without padding yields the
/// identical text.
pub proof fn lemma_text_of_parsed(s: Seq<u8>)
    requires
        parse_version(s) is Ok,
        forall|i: int| 0 <= i < 3 ==> unpadded(#[trigger] split(s, DOT)[i]),
    ensures
        parse_version(s) matches Ok(v) && v.text() == s,
{
    let segments = split(s, DOT);
    lemma_join_split(s, DOT);
    assert(unpadded(segments[0]) && unpadded(segments[1]) && unpadded(segments[2]));
    lemma_unpadded_digits(segments[0]);
    lemma_unpadded_digits(segments[1]);
    lemma_unpadded_digits(segments[2]);
    let front = segments.drop_last();
    assert(front.drop_last() =~= seq![segments[0]]);
    assert(join(front.drop_last(), DOT) == segments[0]);
    assert(join(front, DOT) == segments[0] + seq![DOT] + segments[1]);
    assert(join(segments, DOT) == segments[0] + seq![DOT] + segments[1] + seq![DOT] + segments[2]);
}

/// Reads the segment `bytes[start..end]`.
fn read_segment(bytes: &[u8], start: usize, end: usize) -> (r: Option<u16>)
    requires
        start <= end <= bytes@.len(),
    ensures
        r == parse_segment(bytes@.subrange(start as int, end as int)),
{
    let ghost segment = bytes@.subrange(start as int, end as int);
    if start == end {
        return None;
    }
    let mut value: u32 = 0;
    let mut i: usize = start;
    assert(segment.subrange(0, 0) =~= Seq::<u8>::empty());
    while i < end
        invariant
            start <= i <= end <= bytes@.len(),
            segment == bytes@.subrange(start as int, end as int),
            all_digits(segment.subrange(0, i - start)),
            value <= 0x1_0000,
            value <= u16::MAX ==> value == decimal_value(segment.subrange(0, i - start)),
            value > u16::MAX ==> decimal_value(segment.subrange(0, i - start)) > u16::MAX,
        decreases end - i,
    {
        let b = bytes[i];
        let ghost read = segment.subrange(0, i - start);
        let ghost grown = segment.subrange(0, i - start + 1);
        proof {
            assert(grown.drop_last() =~= read);
            assert(grown.last() == b);
        }
        if b < 0x30 || b > 0x39 {
            assert(!is_digit(segment[i - start]));
            return None;
        }
        let digit: u32 = (b - 0x30) as u32;
        value = value * 10 + digit;
        if value > 0xffff {
            value = 0x1_0000;
        }
        i += 1;
    }
    assert(segment.subrange(0, i - start) =~= segment);
    if value > 0xffff {
        None
    } else {
        Some(value as u16)
    }
}

/// The one-character string for the digit `d`.
fn digit_str(d: u16) -> (s: &'static str)
    requires
        d < 10,
    ensures
        encode_utf8(s@) == seq![(0x30 + d) as u8],
{
    let s = match d {
        0 => "0",
        1 => "1",
        2 => "2",
        3 => "3",
        4 => "4",
        5 => "5",
        6 => "6",
        7 => "7",
        8 => "8",
        _ => "9",
    };
    proof {
        reveal_strlit("0");
        reveal_strlit("1");
        reveal_strlit("2");
        reveal_strlit("3");
        reveal_strlit("4");
        reveal_strlit("5");
        reveal_strlit("6");
        reveal_strlit("7");
        reveal_strlit("8");
        reveal_strlit("9");
        is_ascii_chars_encode_utf8(s@);
        assert(encode_utf8(s@) =~= seq![(0x30 + d) as u8]);
    }
    s
}

/// Appends the decimal digits of `n` to `out`.
fn push_decimal(out: &mut String, n: u16)
    ensures
        encode_utf8(final(out)@) == encode_utf8(old(out)@) + decimal_digits(n as nat),
    decreases n,
{
    if n >= 10 {
        push_decimal(out, n / 10);
    }
    let ghost before = out@;
    let digit = digit_str(n % 10);
    out.append(digit);
    proof {
        lemma_encode_concat(before, digit@);
        assert(encode_utf8(out@) =~= encode_utf8(old(out)@) + decimal_digits(n as nat));
    }
}

impl Version {
    /// The text of this version: the three numbers in decimal, without
    /// padding, with a dot between neighbours.
    pub open spec fn text(self) -> Seq<u8> {
        decimal_digits(self.major as nat) + seq![DOT] + decimal_digits(self.minor as nat)
            + seq![DOT] + decimal_digits(self.patch as nat)
    }

    /// The version after a bump of `segment`, or `None` where the bumped
    /// number would leave the sixteen bits of its field.
    pub open spec fn next(self, segment: Segment) -> Option<Version> {
        match segment {
            Segment::Patch => if self.patch < u16::MAX {
                Some(Version { major: self.major, minor: self.minor, patch: (self.patch + 1) as u16 })
            } else {
                None
            },
            Segment::Minor => if self.minor < u16::MAX {
                Some(Version { major: self.major, minor: (self.minor + 1) as u16, patch: 0 })
            } else {
                None
            },
            Segment::Major => if self.major < u16::MAX {
                Some(Version { major: (self.major + 1) as u16, minor: 0, patch: 0 })
            } else {
                None
            },
        }
    }

    /// The version `major.minor.patch`.
    pub fn new(major: u16, minor: u16, patch: u16) -> (v: Version)
        ensures
            v == (Version { major, minor, patch }),
    {
        Version { major, minor, patch }
    }

    /// Increments `segment` and zeroes the segments below it. The number
    /// to increment must be below `u16::MAX`; [`Version::checked_bump`]
    /// takes any version.
    pub fn bump(&self, segment: Segment) -> (v: Version)
        requires
            self.next(segment) is Some,
        ensures
            Some(v) == self.next(segment),
            match segment {
                Segment::Patch => v.major == self.major && v.minor == self.minor && v.patch
                    == self.patch + 1,
                Segment::Minor => v.major == self.major && v.minor == self.minor + 1 && v.patch
                    == 0,
                Segment::Major => v.major == self.major + 1 && v.minor == 0 && v.patch == 0,
            },
    {
        match segment {
            Segment::Patch => Version::new(self.major, self.minor, self.patch + 1),
            Segment::Minor => Version::new(self.major, self.minor + 1, 0),
            Segment::Major => Version::new(self.major + 1, 0, 0),
        }
    }

    /// As [`Version::bump`], but `None` where the number to increment is
    /// already `u16::MAX`.
    pub fn checked_bump(&self, segment: Segment) -> (r: Option<Version>)
        ensures
            r == self.next(segment),
    {
        let number = match segment {
            Segment::Patch => self.patch,
            Segment::Minor => self.minor,
            Segment::Major => self.major,
        };
        if number < u16::MAX {
            Some(self.bump(segment))
        } else {
            None
        }
    }

    /// Renders the version as `"major.minor.patch"`.
    pub fn to_string(&self) -> (s: String)
        ensures
            encode_utf8(s@) == self.text(),
    {
        let mut out = String::new();
        proof {
            reveal_strlit(".");
            is_ascii_chars_encode_utf8("."@);
            assert(encode_utf8("."@) =~= seq![DOT]);
            assert(encode_utf8(out@) =~= Seq::<u8>::empty());
        }
        push_decimal(&mut out, self.major);
        let ghost major = out@;
        out.append(".");
        push_decimal(&mut out, self.minor);
        let ghost minor = out@;
        out.append(".");
        push_decimal(&mut out, self.patch);
        proof {
            lemma_encode_concat(major, "."@);
            lemma_encode_concat(minor, "."@);
            assert(encode_utf8(out@) =~= self.text());
        }
        out
    }

    /// Parses `"major.minor.patch"`. The text must be exactly that: nothing
    /// is trimmed and no prefix or sign is accepted.
    pub fn from_str(s: &str) -> (r: Result<Version, Error>)
        ensures
            r == parse_version(encode_utf8(s@)),
    {
        let bytes = s.as_bytes();
        let spans = split_spans(bytes, DOT);
        if spans.len() != 3 {
            return Err(Error::InvalidSegmentCount(spans.len()));
        }
        proof {
            let segments = split(bytes@, DOT);
            lemma_join_split(bytes@, DOT);
            lemma_piece_in_join(segments, DOT, 0);
            lemma_piece_in_join(segments, DOT, 1);
            lemma_piece_in_join(segments, DOT, 2);
        }
        let major = read_segment(bytes, spans[0].0, spans[0].1);
        let minor = read_segment(bytes, spans[1].0, spans[1].1);
        let patch = read_segment(bytes, spans[2].0, spans[2].1);
        match (major, minor, patch) {
            (Some(major), Some(minor), Some(patch)) => Ok(Version::new(major, minor, patch)),
            _ => Err(Error::ParseError),
        }
    }
}

/// `str::parse` goes through this impl.
impl std::str::FromStr for Version {
    type Err = Error;

    /// Parses `"major.minor.patch"` as [`Version::from_str`] does: the
    /// version that the text denotes, or why it denotes none.
    fn from_str(s: &str) -> (r: Result<Version, Error>)
        ensures
            r == parse_version(encode_utf8(s@)),
    {
        Version::from_str(s)
    }
}

} // verus!
