//! Selecting one version in a text and writing its bumped form in place.

use crate::encoding::{
    lemma_ascii_boundaries, lemma_boundary_in_suffix, lemma_encode_concat, span_fits,
};
use crate::error::Error;
use crate::pattern::{find_versions, regex_compiles, version_spans, VERSION_PATTERN};
use crate::segment::Segment;
use crate::text::{
    free_of, join, lemma_join_split, lemma_join_update, lemma_piece_in_join,
    lemma_piece_start_lower, lemma_split_join, lemma_split_pieces_free, piece_end, piece_start,
    split, split_spans, DOT, NEWLINE,
};
use crate::version::{is_digit, lemma_text_bytes, parse_version, Version};
use vstd::prelude::*;
use vstd::std_specs::convert::FromSpec;
use vstd::string::*;
use vstd::utf8::*;

verus! {

/// What a replacement returns: the new text, the version found and the
/// version written in its place.
pub type Replaced = Result<(String, Version, Version), Error>;

/// A [`Replaced`] with the new text seen as its UTF-8 bytes.
pub type Outcome = Result<(Seq<u8>, Version, Version), Error>;

/// `text` with the bytes `start .. end` replaced by `with`.
pub open spec fn spliced(text: Seq<u8>, start: int, end: int, with: Seq<u8>) -> Seq<u8> {
    text.subrange(0, start) + with + text.subrange(end, text.len() as int)
}

/// What bumping the version at `start .. end` of `text` gives: the new text
/// with the version found and the version written, or the reason why the
/// bytes there are no version that can be bumped.
pub open spec fn bumped_at(text: Seq<u8>, start: int, end: int, segment: Segment) -> Outcome {
    match parse_version(text.subrange(start, end)) {
        Err(e) => Err(Error::from_spec(e)),
        Ok(version) => match version.next(segment) {
            None => Err(Error::Overflow),
            Some(bumped) => Ok((spliced(text, start, end, bumped.text()), version, bumped)),
        },
    }
}

/// The outcome of a request for an occurrence that is not there.
pub open spec fn not_found() -> Outcome {
    Err(Error::NoSemverFound)
}

/// What bumping the match of number `index` (from zero) among `spans` gives.
pub open spec fn replaced_among(
    text: Seq<u8>,
    spans: Seq<(usize, usize)>,
    segment: Segment,
    index: int,
) -> Outcome {
    if 0 <= index < spans.len() {
        bumped_at(text, spans[index].0 as int, spans[index].1 as int, segment)
    } else {
        not_found()
    }
}

/// What bumping the version pattern of number `index` (from zero) in the
/// whole of `text` gives.
pub open spec fn replaced(text: Seq<u8>, segment: Segment, index: int) -> Outcome {
    if regex_compiles(VERSION_PATTERN@) {
        replaced_among(text, version_spans(text), segment, index)
    } else {
        Err(Error::InvalidPattern)
    }
}

/// What bumping the version pattern of number `index` (from zero) on the
/// line of number `line_index` (from zero) gives. Lines are the pieces of
/// the text between line feeds; only the chosen line is searched, and the
/// lines are put back together with a line feed between neighbours.
pub open spec fn replaced_by_line(
    text: Seq<u8>,
    segment: Segment,
    index: int,
    line_index: int,
) -> Outcome {
    let lines = split(text, NEWLINE);
    if 0 <= line_index < lines.len() {
        match replaced(lines[line_index], segment, index) {
            Ok((line, version, bumped)) => Ok(
                (join(lines.update(line_index, line), NEWLINE), version, bumped),
            ),
            Err(e) => Err(e),
        }
    } else {
        not_found()
    }
}

/// The outcome that a returned value stands for.
pub open spec fn outcome(r: Replaced) -> Outcome {
    match r {
        Ok((text, version, bumped)) => Ok((encode_utf8(text@), version, bumped)),
        Err(e) => Err(e),
    }
}

/// The part `start .. end` of `text`.
fn cut(text: &str, start: usize, end: usize) -> (part: &str)
    requires
        span_fits(encode_utf8(text@), start as int, end as int),
    ensures
        encode_utf8(part@) == encode_utf8(text@).subrange(start as int, end as int),
{
    proof {
        encode_utf8_valid_utf8(text@);
        lemma_boundary_in_suffix(encode_utf8(text@), start as int, end as int);
    }
    let (_, rest) = text.split_at(start);
    let (part, _) = rest.split_at(end - start);
    assert(encode_utf8(part@) =~= encode_utf8(text@).subrange(start as int, end as int));
    part
}

/// Builds `text[..start] + with + text[end..]`.
pub fn splice(text: &str, start: usize, end: usize, with: &str) -> (out: String)
    requires
        span_fits(encode_utf8(text@), start as int, end as int),
    ensures
        encode_utf8(out@) == spliced(
            encode_utf8(text@),
            start as int,
            end as int,
            encode_utf8(with@),
        ),
{
    proof {
        encode_utf8_valid_utf8(text@);
        lemma_boundary_in_suffix(encode_utf8(text@), start as int, end as int);
    }
    let (head, rest) = text.split_at(start);
    let (_, tail) = rest.split_at(end - start);
    let mut out = head.to_owned();
    out.append(with);
    let ghost middle = out@;
    out.append(tail);
    proof {
        lemma_encode_concat(head@, with@);
        lemma_encode_concat(middle, tail@);
        assert(encode_utf8(tail@) =~= encode_utf8(text@).subrange(
            end as int,
            encode_utf8(text@).len() as int,
        ));
    }
    out
}

/// Reads the version at `start .. end` of `text`, bumps `segment` and writes
/// the result in its place.
pub fn bump_at(text: &str, start: usize, end: usize, segment: Segment) -> (r: Replaced)
    requires
        span_fits(encode_utf8(text@), start as int, end as int),
    ensures
        outcome(r) == bumped_at(encode_utf8(text@), start as int, end as int, segment),
{
    let version = match Version::from_str(cut(text, start, end)) {
        Ok(version) => version,
        Err(e) => { return Err(Error::from(e)); },
    };
    let bumped = match version.checked_bump(segment) {
        Some(bumped) => bumped,
        None => { return Err(Error::Overflow); },
    };
    let written = bumped.to_string();
    let out = splice(text, start, end, written.as_str());
    Ok((out, version, bumped))
}

/// Bumps the match of number `index` (from zero) among `spans`, which are
/// the matches found in `text`.
pub fn replace_among(text: &str, spans: &Vec<(usize, usize)>, segment: Segment, index: u16) -> (r:
    Replaced)
    requires
        index < spans@.len() ==> span_fits(
            encode_utf8(text@),
            spans@[index as int].0 as int,
            spans@[index as int].1 as int,
        ),
    ensures
        outcome(r) == replaced_among(encode_utf8(text@), spans@, segment, index as int),
{
    let index = index as usize;
    if index < spans.len() {
        let (start, end) = spans[index];
        bump_at(text, start, end, segment)
    } else {
        Err(Error::NoSemverFound)
    }
}

/// Bumps `segment` of the version pattern of number `semver_index` (from
/// zero, counted over the whole text from left to right) and returns the
/// new text, the version found and the version written.
pub fn replace(input: &String, segment: Segment, semver_index: u16) -> (r: Replaced)
    ensures
        outcome(r) == replaced(encode_utf8(input@), segment, semver_index as int),
        r is Ok ==> ({
            let span = version_spans(encode_utf8(input@))[semver_index as int];
            span_fits(encode_utf8(input@), span.0 as int, span.1 as int)
        }),
{
    let text = input.as_str();
    match find_versions(text) {
        Ok(spans) => replace_among(text, &spans, segment, semver_index),
        Err(e) => Err(e),
    }
}

/// Bumps `segment` of the version pattern of number `semver_index` (from
/// zero, counted from left to right) on the line of number `line_index`
/// (from zero). No other line is searched or changed.
pub fn replace_by_line(input: &String, segment: Segment, semver_index: u16, line_index: u16) -> (r:
    Replaced)
    ensures
        outcome(r) == replaced_by_line(
            encode_utf8(input@),
            segment,
            semver_index as int,
            line_index as int,
        ),
        r is Ok ==> ({
            let line = split(encode_utf8(input@), NEWLINE)[line_index as int];
            let span = version_spans(line)[semver_index as int];
            span_fits(line, span.0 as int, span.1 as int)
        }),
{
    let text = input.as_str();
    let bounds = split_spans(text.as_bytes(), NEWLINE);
    let line_index = line_index as usize;
    if line_index >= bounds.len() {
        return Err(Error::NoSemverFound);
    }
    let (start, end) = bounds[line_index];
    let ghost bytes = encode_utf8(input@);
    let ghost lines = split(bytes, NEWLINE);
    proof {
        encode_utf8_valid_utf8(input@);
        lemma_join_split(bytes, NEWLINE);
        lemma_piece_in_join(lines, NEWLINE, line_index as int);
        is_char_boundary_start_end_of_seq(bytes);
        if line_index > 0 {
            lemma_piece_start_lower(lines, line_index as int);
            lemma_ascii_boundaries(bytes, start - 1);
        }
        if line_index < lines.len() - 1 {
            lemma_ascii_boundaries(bytes, end as int);
        }
    }
    let line = cut(text, start, end).to_owned();
    match replace(&line, segment, semver_index) {
        Ok((new_line, version, bumped)) => {
            let out = splice(text, start, end, new_line.as_str());
            proof {
                lemma_join_update(lines, NEWLINE, line_index as int, encode_utf8(new_line@));
            }
            Ok((out, version, bumped))
        },
        Err(e) => Err(e),
    }
}

/// A splice changes nothing outside the replaced range: the bytes before
/// `start` and the bytes from `end` on stand in the result as they stood in
/// the text, with `with` between them.
pub proof fn lemma_splice_keeps_outside(text: Seq<u8>, start: int, end: int, with: Seq<u8>)
    requires
        0 <= start <= end <= text.len(),
    ensures
        spliced(text, start, end, with).len() == text.len() - (end - start) + with.len(),
        spliced(text, start, end, with).subrange(0, start) == text.subrange(0, start),
        spliced(text, start, end, with).subrange(start, start + with.len()) == with,
        spliced(text, start, end, with).subrange(
            start + with.len(),
            spliced(text, start, end, with).len() as int,
        ) == text.subrange(end, text.len() as int),
{
    let out = spliced(text, start, end, with);
    assert(out.subrange(0, start) =~= text.subrange(0, start));
    assert(out.subrange(start, start + with.len()) =~= with);
    assert(out.subrange(start + with.len(), out.len() as int) =~= text.subrange(
        end,
        text.len() as int,
    ));
}

/// Whichever match is selected, a replacement that succeeds returns the
/// version read from that match and its bump, and a text that differs from
/// the input only in that the text of the bumped version stands where the
/// match stood.
pub proof fn lemma_replaced_keeps_outside(
    text: Seq<u8>,
    spans: Seq<(usize, usize)>,
    segment: Segment,
    index: int,
)
    requires
        0 <= index < spans.len(),
        spans[index].0 <= spans[index].1 <= text.len(),
        replaced_among(text, spans, segment, index) is Ok,
    ensures
        ({
            let (out, version, bumped) = replaced_among(text, spans, segment, index)->Ok_0;
            let (start, end) = spans[index];
            let written = bumped.text();
            &&& parse_version(text.subrange(start as int, end as int)) matches Ok(found)
                && found == version
            &&& version.next(segment) == Some(bumped)
            &&& out.len() == text.len() - (end - start) + written.len()
            &&& out.subrange(0, start as int) == text.subrange(0, start as int)
            &&& out.subrange(start as int, start + written.len()) == written
            &&& out.subrange(start + written.len(), out.len() as int) == text.subrange(
                end as int,
                text.len() as int,
            )
        }),
{
    let (out, version, bumped) = replaced_among(text, spans, segment, index)->Ok_0;
    let (start, end) = spans[index];
    lemma_splice_keeps_outside(text, start as int, end as int, bumped.text());
}

/// A replacement on one line leaves the number of lines and every other
/// line as they were; the chosen line differs only in that the text of the
/// bumped version stands where the selected match stood.
pub proof fn lemma_replaced_by_line_keeps_other_lines(
    text: Seq<u8>,
    segment: Segment,
    index: int,
    line_index: int,
)
    requires
        replaced_by_line(text, segment, index, line_index) is Ok,
        ({
            let line = split(text, NEWLINE)[line_index];
            let span = version_spans(line)[index];
            span.0 <= span.1 <= line.len()
        }),
    ensures
        ({
            let (out, version, bumped) = replaced_by_line(text, segment, index, line_index)->Ok_0;
            let line = split(text, NEWLINE)[line_index];
            let span = version_spans(line)[index];
            &&& split(out, NEWLINE).len() == split(text, NEWLINE).len()
            &&& forall|j: int|
                0 <= j < split(text, NEWLINE).len() && j != line_index ==> #[trigger] split(
                    out,
                    NEWLINE,
                )[j] == split(text, NEWLINE)[j]
            &&& split(out, NEWLINE)[line_index] == spliced(
                line,
                span.0 as int,
                span.1 as int,
                bumped.text(),
            )
        }),
{
    let lines = split(text, NEWLINE);
    let line = lines[line_index];
    let span = version_spans(line)[index];
    let (new_line, version, bumped) = replaced(line, segment, index)->Ok_0;
    let written = bumped.text();
    lemma_split_pieces_free(text, NEWLINE);
    lemma_text_bytes(bumped);
    assert(free_of(line, NEWLINE));
    assert(new_line == spliced(line, span.0 as int, span.1 as int, written));
    assert forall|k: int| 0 <= k < new_line.len() implies #[trigger] new_line[k] != NEWLINE by {
        if k < span.0 {
            assert(new_line[k] == line[k]);
        } else if k < span.0 + written.len() {
            assert(new_line[k] == written[k - span.0]);
            assert(is_digit(written[k - span.0]) || written[k - span.0] == DOT);
        } else {
            assert(new_line[k] == line[k - span.0 - written.len() + span.1]);
        }
    }
    let changed = lines.update(line_index, new_line);
    assert forall|j: int| 0 <= j < changed.len() implies free_of(#[trigger] changed[j], NEWLINE) by {
        if j != line_index {
            assert(changed[j] == lines[j]);
        }
    }
    lemma_split_join(changed, NEWLINE);
}

/// A replacement on one line is a splice of the whole text: the text of the
/// bumped version stands where the selected match stood, at the offsets of
/// the match shifted by the offset of its line, and every byte outside is as
/// it was.
pub proof fn lemma_replaced_by_line_keeps_outside(
    text: Seq<u8>,
    segment: Segment,
    index: int,
    line_index: int,
)
    requires
        replaced_by_line(text, segment, index, line_index) is Ok,
        ({
            let line = split(text, NEWLINE)[line_index];
            let span = version_spans(line)[index];
            span.0 <= span.1 <= line.len()
        }),
    ensures
        ({
            let (out, version, bumped) = replaced_by_line(text, segment, index, line_index)->Ok_0;
            let lines = split(text, NEWLINE);
            let span = version_spans(lines[line_index])[index];
            let start = piece_start(lines, line_index) + span.0;
            let end = piece_start(lines, line_index) + span.1;
            &&& 0 <= start <= end <= text.len()
            &&& out == spliced(text, start, end, bumped.text())
        }),
{
    let lines = split(text, NEWLINE);
    let line = lines[line_index];
    let span = version_spans(line)[index];
    let (new_line, version, bumped) = replaced(line, segment, index)->Ok_0;
    let (out, _, _) = replaced_by_line(text, segment, index, line_index)->Ok_0;
    let from = piece_start(lines, line_index);
    let to = piece_end(lines, line_index);
    lemma_join_split(text, NEWLINE);
    lemma_piece_in_join(lines, NEWLINE, line_index);
    lemma_join_update(lines, NEWLINE, line_index, new_line);
    assert(line == text.subrange(from, to));
    assert(new_line == spliced(line, span.0 as int, span.1 as int, bumped.text()));
    assert(out =~= spliced(text, from + span.0, from + span.1, bumped.text()));
}

/// A request for an occurrence that is not there is answered with
/// `NoSemverFound`: in the whole text where the text has too few matches,
/// on a line where the text has too few lines or the line too few matches.
/// (Matches are counted where the version pattern compiles; where it does
/// not, the answer is `InvalidPattern` for every line that exists.)
pub proof fn lemma_missing_occurrence(text: Seq<u8>, segment: Segment, index: int, line_index: int)
    requires
        0 <= index,
        0 <= line_index,
    ensures
        line_index >= split(text, NEWLINE).len() ==> replaced_by_line(
            text,
            segment,
            index,
            line_index,
        ) == not_found(),
        regex_compiles(VERSION_PATTERN@) && index >= version_spans(text).len() ==> replaced(
            text,
            segment,
            index,
        ) == not_found(),
        regex_compiles(VERSION_PATTERN@) && line_index < split(text, NEWLINE).len() && index
            >= version_spans(split(text, NEWLINE)[line_index]).len() ==> replaced_by_line(
            text,
            segment,
            index,
            line_index,
        ) == not_found(),
{
}

} // verus!
