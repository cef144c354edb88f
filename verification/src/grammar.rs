//! The block grammar of subtitle files, as functions on character
//! sequences: how a text is cut into lines, how lines are read as records,
//! and how records are written back.

use crate::error::ParseError;
use crate::model::Record;
use crate::text::{
    avoids, decimal_digits, is_digit, join, lemma_decimal_round_trip, lemma_join_prepend,
    lemma_join_split, lemma_read_decimal_digits, lemma_split_char_cons, lemma_split_char_none,
    lemma_split_char_parts, lemma_split_join_char, lemma_split_nonempty, read_decimal, split_on,
    Decimal,
};
use vstd::prelude::*;

verus! {

/// The line break.
pub open spec fn newline() -> Seq<char> {
    seq!['\n']
}

/// What stands between the two timecodes of a unit.
pub open spec fn arrow() -> Seq<char> {
    seq![' ', '-', '-', '>', ' ']
}

/// A line without the carriage return that may end it.
pub open spec fn strip_cr(line: Seq<char>) -> Seq<char> {
    if line.len() > 0 && line.last() == '\r' {
        line.drop_last()
    } else {
        line
    }
}

/// The lines of a text. A line ends at a line feed; the carriage return
/// before the line feed, if there is one, belongs to the line ending. What
/// follows the last line feed is a line of its own unless it is empty.
pub open spec fn lines_of(s: Seq<char>) -> Seq<Seq<char>> {
    let parts = split_on(s, newline());
    let ended = parts.drop_last().map_values(|line: Seq<char>| strip_cr(line));
    if parts.last().len() == 0 {
        ended
    } else {
        ended.push(parts.last())
    }
}

/// The number of lines before the first empty line, or before the end.
pub open spec fn text_run(lines: Seq<Seq<char>>) -> nat
    decreases lines.len(),
{
    if lines.len() == 0 || lines[0].len() == 0 {
        0
    } else {
        1 + text_run(lines.drop_first())
    }
}

/// A run of text is no longer than the lines it is taken from.
pub proof fn lemma_text_run_bounded(lines: Seq<Seq<char>>)
    ensures
        text_run(lines) <= lines.len(),
    decreases lines.len(),
{
    if lines.len() > 0 && lines[0].len() > 0 {
        lemma_text_run_bounded(lines.drop_first());
    }
}

/// The records `done` before the records of `rest`, or the error of `rest`.
pub open spec fn prefixed(done: Seq<Record>, rest: Result<Seq<Record>, ParseError>) -> Result<
    Seq<Record>,
    ParseError,
> {
    match rest {
        Ok(records) => Ok(done + records),
        Err(e) => Err(e),
    }
}

/// The records that the lines hold.
///
/// A line that writes a non-negative integer opens a unit; any other line
/// outside a unit is skipped. The unit's second line is its time range and
/// must split into exactly two parts on the arrow. Its text is the run of
/// lines up to the next empty line or the end of the input, and must hold
/// at least one line. The first unit that is malformed fails the whole
/// document.
pub open spec fn parse_lines(lines: Seq<Seq<char>>) -> Result<Seq<Record>, ParseError>
    decreases lines.len(),
    via parse_lines_decreases
{
    if lines.len() == 0 {
        Ok(Seq::empty())
    } else {
        match read_decimal(lines[0]) {
            Decimal::Malformed => parse_lines(lines.drop_first()),
            Decimal::Overflow => Err(ParseError::InvalidIndex),
            Decimal::Value(index) => {
                if lines.len() < 2 {
                    Err(ParseError::UnexpectedEOF)
                } else if split_on(lines[1], arrow()).len() != 2 {
                    Err(ParseError::MalformedTimeRange)
                } else if text_run(lines.skip(2)) == 0 {
                    Err(ParseError::UnexpectedEOF)
                } else {
                    let range = split_on(lines[1], arrow());
                    let n = text_run(lines.skip(2)) as int;
                    prefixed(
                        seq![
                            Record {
                                index: index as nat,
                                start: range[0],
                                end: range[1],
                                text: join(lines.subrange(2, 2 + n), newline()),
                            },
                        ],
                        parse_lines(lines.skip(2 + n)),
                    )
                }
            },
        }
    }
}

#[via_fn]
proof fn parse_lines_decreases(lines: Seq<Seq<char>>) {
    if lines.len() >= 2 {
        lemma_text_run_bounded(lines.skip(2));
    }
}

/// The records that a text holds.
pub open spec fn parse_document(s: Seq<char>) -> Result<Seq<Record>, ParseError> {
    parse_lines(lines_of(s))
}

/// One record as it is written: its index, its time range and its text,
/// each on lines of their own, and an empty line after them.
pub open spec fn block(r: Record) -> Seq<char> {
    decimal_digits(r.index) + newline() + r.start + arrow() + r.end + newline() + r.text
        + newline() + newline()
}

/// The records as they are written: block after block.
pub open spec fn serialize(records: Seq<Record>) -> Seq<char> {
    records.map_values(|r: Record| block(r)).flatten()
}

// ---------------------------------------------------------------------------
// Writing and reading back
// ---------------------------------------------------------------------------

/// The line ends with a carriage return.
pub open spec fn ends_with_cr(line: Seq<char>) -> bool {
    line.len() > 0 && line.last() == '\r'
}

/// The line that holds the time range of a record.
pub open spec fn time_line(r: Record) -> Seq<char> {
    r.start + arrow() + r.end
}

/// The lines of the text of a record.
pub open spec fn text_lines(r: Record) -> Seq<Seq<char>> {
    split_on(r.text, newline())
}

/// The record is one that the grammar can hold: its index fits the
/// machine word, its time range is one line that splits on the arrow into
/// its two timecodes, and its text has no empty line.
pub open spec fn is_well_formed(r: Record) -> bool {
    &&& r.index <= usize::MAX
    &&& avoids(time_line(r), '\n')
    &&& split_on(time_line(r), arrow()) == seq![r.start, r.end]
    &&& forall|k: int| 0 <= k < text_lines(r).len() ==> (#[trigger] text_lines(r)[k]).len() > 0
}

/// No line of the record ends with a carriage return. Such a carriage
/// return would be read as a part of the line ending.
pub open spec fn is_cr_free(r: Record) -> bool {
    &&& !ends_with_cr(time_line(r))
    &&& forall|k: int| 0 <= k < text_lines(r).len() ==> !ends_with_cr(#[trigger] text_lines(r)[k])
}

/// Every record is well formed.
pub open spec fn all_well_formed(records: Seq<Record>) -> bool {
    forall|i: int| 0 <= i < records.len() ==> is_well_formed(#[trigger] records[i])
}

/// No line of any record ends with a carriage return.
pub open spec fn all_cr_free(records: Seq<Record>) -> bool {
    forall|i: int| 0 <= i < records.len() ==> is_cr_free(#[trigger] records[i])
}

/// The lines of a text that starts with a line and its line feed are that
/// line and the lines of what follows.
pub proof fn lemma_lines_cons(line: Seq<char>, rest: Seq<char>)
    requires
        avoids(line, '\n'),
    ensures
        lines_of(line + newline() + rest) == seq![strip_cr(line)] + lines_of(rest),
{
    let s = line + newline() + rest;
    lemma_split_char_cons(line, '\n', rest);
    let ps = split_on(s, newline());
    let pr = split_on(rest, newline());
    lemma_split_nonempty(rest, newline());
    assert(ps.drop_last() =~= seq![line] + pr.drop_last());
    assert(ps.last() == pr.last());
    assert(ps.drop_last().map_values(|l: Seq<char>| strip_cr(l)) =~= seq![strip_cr(line)]
        + pr.drop_last().map_values(|l: Seq<char>| strip_cr(l)));
    assert(lines_of(s) =~= seq![strip_cr(line)] + lines_of(rest));
}

/// The lines of a text that starts with joined lines and a line feed are
/// those lines and the lines of what follows.
pub proof fn lemma_lines_joined(lines: Seq<Seq<char>>, rest: Seq<char>)
    requires
        lines.len() >= 1,
        forall|k: int| 0 <= k < lines.len() ==> avoids(#[trigger] lines[k], '\n'),
    ensures
        lines_of(join(lines, newline()) + newline() + rest) == lines.map_values(
            |l: Seq<char>| strip_cr(l),
        ) + lines_of(rest),
    decreases lines.len(),
{
    let stripped = lines.map_values(|l: Seq<char>| strip_cr(l));
    if lines.len() == 1 {
        lemma_lines_cons(lines[0], rest);
        assert(stripped =~= seq![strip_cr(lines[0])]);
    } else {
        let others = lines.drop_first();
        assert(lines =~= seq![lines[0]] + others);
        lemma_join_prepend(lines[0], others, newline());
        let tail = join(others, newline()) + newline() + rest;
        assert(join(lines, newline()) + newline() + rest =~= lines[0] + newline() + tail);
        lemma_lines_cons(lines[0], tail);
        assert forall|k: int| 0 <= k < others.len() implies avoids(#[trigger] others[k], '\n') by {
            assert(others[k] == lines[k + 1]);
        }
        lemma_lines_joined(others, rest);
        assert(stripped =~= seq![strip_cr(lines[0])] + others.map_values(
            |l: Seq<char>| strip_cr(l),
        ));
    }
}

/// A run of non-empty lines before an empty line, or before the end, is
/// the whole run of text.
pub proof fn lemma_text_run_block(text: Seq<Seq<char>>, rest: Seq<Seq<char>>)
    requires
        forall|k: int| 0 <= k < text.len() ==> (#[trigger] text[k]).len() > 0,
        rest.len() == 0 || rest[0].len() == 0,
    ensures
        text_run(text + rest) == text.len(),
    decreases text.len(),
{
    if text.len() == 0 {
        assert(text + rest =~= rest);
    } else {
        let others = text.drop_first();
        assert((text + rest).drop_first() =~= others + rest);
        assert((text + rest)[0] == text[0]);
        assert forall|k: int| 0 <= k < others.len() implies (#[trigger] others[k]).len() > 0 by {
            assert(others[k] == text[k + 1]);
        }
        lemma_text_run_block(others, rest);
    }
}

/// Every line of a run of text holds something.
pub proof fn lemma_text_run_lines(lines: Seq<Seq<char>>, k: int)
    requires
        0 <= k < text_run(lines),
    ensures
        k < lines.len(),
        lines[k].len() > 0,
    decreases lines.len(),
{
    if k > 0 {
        lemma_text_run_lines(lines.drop_first(), k - 1);
    }
}

/// The lines of a record as it is written.
pub open spec fn block_lines(r: Record) -> Seq<Seq<char>> {
    seq![decimal_digits(r.index), time_line(r)] + text_lines(r) + seq![Seq::<char>::empty()]
}

/// The lines of a text that starts with the block of a record are the
/// lines of the block and the lines of what follows.
pub proof fn lemma_block_lines(r: Record, rest: Seq<char>)
    requires
        is_well_formed(r),
        is_cr_free(r),
    ensures
        lines_of(block(r) + rest) == block_lines(r) + lines_of(rest),
{
    let digits = decimal_digits(r.index);
    let blank = Seq::<char>::empty();
    let after_blank = blank + newline() + rest;
    let after_text = r.text + newline() + after_blank;
    let after_time = time_line(r) + newline() + after_text;
    assert(block(r) + rest =~= digits + newline() + after_time);
    lemma_decimal_round_trip(r.index);
    assert forall|i: int| 0 <= i < digits.len() implies digits[i] != '\n' by {
        assert(is_digit(digits[i]));
    }
    assert(!ends_with_cr(digits)) by {
        assert(is_digit(digits.last()));
    }
    lemma_lines_cons(digits, after_time);
    lemma_lines_cons(time_line(r), after_text);
    lemma_join_split(r.text, newline());
    lemma_split_char_parts(r.text, '\n');
    lemma_split_nonempty(r.text, newline());
    lemma_lines_joined(text_lines(r), after_blank);
    assert(text_lines(r).map_values(|l: Seq<char>| strip_cr(l)) =~= text_lines(r));
    lemma_lines_cons(blank, rest);
    assert(lines_of(block(r) + rest) =~= block_lines(r) + lines_of(rest));
}

/// Lines that start with the lines of a record are read as that record
/// and the records of the lines that follow.
pub proof fn lemma_parse_block(r: Record, rest: Seq<Seq<char>>)
    requires
        is_well_formed(r),
    ensures
        parse_lines(block_lines(r) + rest) == prefixed(seq![r], parse_lines(rest)),
{
    let lines = block_lines(r) + rest;
    let text = text_lines(r);
    let n = text.len() as int;
    let blank = Seq::<char>::empty();
    lemma_read_decimal_digits(r.index);
    lemma_split_nonempty(r.text, newline());
    assert(lines[0] == decimal_digits(r.index));
    assert(read_decimal(lines[0]) == Decimal::Value(r.index as usize));
    assert(lines[1] == time_line(r));
    let after = seq![blank] + rest;
    assert(lines.skip(2) =~= text + after);
    lemma_text_run_block(text, after);
    assert(lines.subrange(2, 2 + n) =~= text);
    lemma_join_split(r.text, newline());
    assert(lines.skip(2 + n) =~= after);
    assert(after.drop_first() =~= rest);
    assert(read_decimal(after[0]) == Decimal::Malformed);
    assert(parse_lines(after) == parse_lines(rest));
    let range = split_on(lines[1], arrow());
    let read = Record {
        index: (r.index as usize) as nat,
        start: range[0],
        end: range[1],
        text: join(lines.subrange(2, 2 + n), newline()),
    };
    assert(read == r);
}

/// The serialization of records is the block of the first and the
/// serialization of the others.
pub proof fn lemma_serialize_cons(records: Seq<Record>)
    requires
        records.len() > 0,
    ensures
        serialize(records) == block(records[0]) + serialize(records.drop_first()),
{
    let blocks = records.map_values(|r: Record| block(r));
    assert(blocks.drop_first() =~= records.drop_first().map_values(|r: Record| block(r)));
}

/// Reading what was written gives back the records: a document of well
/// formed records without stray carriage returns is the document that its
/// serialization holds.
pub proof fn lemma_write_then_read(records: Seq<Record>)
    requires
        all_well_formed(records),
        all_cr_free(records),
    ensures
        parse_document(serialize(records)) == Ok::<Seq<Record>, ParseError>(records),
    decreases records.len(),
{
    if records.len() == 0 {
        let none = Seq::<char>::empty();
        assert(serialize(records) =~= none);
        assert(avoids(none, '\n'));
        lemma_split_char_none(none, '\n');
        assert(split_on(none, newline()).drop_last() =~= Seq::<Seq<char>>::empty());
        assert(lines_of(none) =~= Seq::<Seq<char>>::empty());
        assert(records =~= Seq::<Record>::empty());
    } else {
        let others = records.drop_first();
        assert forall|i: int| 0 <= i < others.len() implies is_well_formed(#[trigger] others[i])
            && is_cr_free(others[i]) by {
            assert(others[i] == records[i + 1]);
        }
        lemma_write_then_read(others);
        lemma_serialize_cons(records);
        lemma_block_lines(records[0], serialize(others));
        lemma_parse_block(records[0], lines_of(serialize(others)));
        assert(seq![records[0]] + others =~= records);
    }
}

/// What is read is well formed: each record that the lines hold has an
/// index that fits the machine word, a time range that splits on the arrow
/// into its two timecodes, and a text without empty lines.
pub proof fn lemma_read_is_well_formed(lines: Seq<Seq<char>>)
    requires
        forall|k: int| 0 <= k < lines.len() ==> avoids(#[trigger] lines[k], '\n'),
    ensures
        parse_lines(lines) is Ok ==> all_well_formed(parse_lines(lines)->Ok_0),
    decreases lines.len(),
{
    if lines.len() == 0 {
    } else {
        match read_decimal(lines[0]) {
            Decimal::Malformed => {
                let others = lines.drop_first();
                assert forall|k: int| 0 <= k < others.len() implies avoids(
                    #[trigger] others[k],
                    '\n',
                ) by {
                    assert(others[k] == lines[k + 1]);
                }
                lemma_read_is_well_formed(others);
            },
            Decimal::Overflow => {},
            Decimal::Value(index) => {
                if parse_lines(lines) is Ok {
                    let range = split_on(lines[1], arrow());
                    let n = text_run(lines.skip(2)) as int;
                    lemma_text_run_bounded(lines.skip(2));
                    let text = lines.subrange(2, 2 + n);
                    let others = lines.skip(2 + n);
                    let r = Record {
                        index: index as nat,
                        start: range[0],
                        end: range[1],
                        text: join(text, newline()),
                    };
                    assert forall|k: int| 0 <= k < others.len() implies avoids(
                        #[trigger] others[k],
                        '\n',
                    ) by {
                        assert(others[k] == lines[k + 2 + n]);
                    }
                    lemma_read_is_well_formed(others);
                    // The time range is the second line.
                    lemma_join_split(lines[1], arrow());
                    assert(range.drop_last() =~= seq![range[0]]);
                    assert(join(range.drop_last(), arrow()) == range[0]);
                    assert(time_line(r) =~= lines[1]);
                    assert(range =~= seq![r.start, r.end]);
                    // The lines of the text are the run of text.
                    assert forall|k: int| 0 <= k < text.len() implies avoids(
                        #[trigger] text[k],
                        '\n',
                    ) && text[k].len() > 0 by {
                        assert(text[k] == lines[k + 2]);
                        lemma_text_run_lines(lines.skip(2), k);
                        assert(lines.skip(2)[k] == lines[k + 2]);
                    }
                    lemma_split_join_char(text, '\n');
                    assert(text_lines(r) == text);
                    assert(is_well_formed(r));
                    let rest = parse_lines(others)->Ok_0;
                    let all = parse_lines(lines)->Ok_0;
                    assert(all == seq![r] + rest);
                    assert forall|i: int| 0 <= i < all.len() implies is_well_formed(
                        #[trigger] all[i],
                    ) by {
                        if i > 0 {
                            assert(all[i] == rest[i - 1]);
                        }
                    }
                }
            },
        }
    }
}

/// No line of a text holds a line feed.
pub proof fn lemma_lines_avoid_newline(s: Seq<char>)
    ensures
        forall|k: int| 0 <= k < lines_of(s).len() ==> avoids(#[trigger] lines_of(s)[k], '\n'),
{
    let parts = split_on(s, newline());
    lemma_split_char_parts(s, '\n');
    lemma_split_nonempty(s, newline());
    assert forall|k: int| 0 <= k < lines_of(s).len() implies avoids(
        #[trigger] lines_of(s)[k],
        '\n',
    ) by {
        if k < parts.len() - 1 {
            assert(lines_of(s)[k] == strip_cr(parts[k]));
            assert(avoids(parts[k], '\n'));
        } else {
            assert(lines_of(s)[k] == parts.last());
            assert(avoids(parts[parts.len() - 1], '\n'));
        }
    }
}

/// Every record of a document that was read is well formed.
pub proof fn lemma_parsed_document_well_formed(s: Seq<char>)
    ensures
        parse_document(s) is Ok ==> all_well_formed(parse_document(s)->Ok_0),
{
    lemma_lines_avoid_newline(s);
    lemma_read_is_well_formed(lines_of(s));
}

/// Reading, writing and reading again gives the document of the first
/// reading: the serialization of a document that was read holds that same
/// document. The one thing that does not survive is a carriage return at
/// the end of a line, which the second reading takes for a part of the
/// line ending.
pub proof fn lemma_round_trip(s: Seq<char>)
    requires
        parse_document(s) is Ok,
        all_cr_free(parse_document(s)->Ok_0),
    ensures
        parse_document(serialize(parse_document(s)->Ok_0)) == parse_document(s),
{
    lemma_parsed_document_well_formed(s);
    lemma_write_then_read(parse_document(s)->Ok_0);
}

/// A canonical text is written back as it was read: where a text is the
/// serialization of well formed records, reading it and writing the result
/// gives the same text.
pub proof fn lemma_canonical_text_is_stable(records: Seq<Record>)
    requires
        all_well_formed(records),
        all_cr_free(records),
    ensures
        parse_document(serialize(records)) is Ok,
        serialize(parse_document(serialize(records))->Ok_0) == serialize(records),
{
    lemma_write_then_read(records);
}

} // verus!
