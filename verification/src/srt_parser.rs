//! Subtitle records and documents: reading them from the block grammar,
//! writing them back, cutting a document into chunks and putting chunks
//! together again.

use crate::chunking::{
    chunks_by_count, groups_by_count, is_token_plan, lemma_plan_grows, lemma_weight_grow, tagged,
    tokens, weight,
};
use crate::error::{OrchestratorError, ParseError};
use crate::framing::{frame_separator, frames, payload, retexted, texts_of, translated};
use crate::grammar::{
    arrow, block, lines_of, newline, parse_document, parse_lines, prefixed, serialize, strip_cr,
    text_run,
};
use crate::model::{
    all_records, first_language, groups_of, lemma_all_records_push, Document, Record,
};
use crate::text::{
    chars_of, count_words, join, join_ranges, parse_decimal, pieces, push_decimal, ranges_within,
    split_on, split_ranges, string_of, Decimal,
};
use vstd::prelude::*;
use vstd::string::StringExecFns;

verus! {

/// One timed caption. The index and the two timecodes are fixed when the
/// caption is made; a translation makes a new caption with another text.
#[derive(Debug)]
pub struct Subtitle {
    index: usize,
    start: String,
    end: String,
    text: String,
}

impl View for Subtitle {
    type V = Record;

    closed spec fn view(&self) -> Record {
        Record { index: self.index as nat, start: self.start@, end: self.end@, text: self.text@ }
    }
}

impl Clone for Subtitle {
    fn clone(&self) -> (out: Self)
        ensures
            out@ == self@,
    {
        Subtitle {
            index: self.index,
            start: self.start.clone(),
            end: self.end.clone(),
            text: self.text.clone(),
        }
    }
}

impl Subtitle {
    /// A caption with the given index, timecodes and text.
    pub fn new(index: usize, start: String, end: String, text: String) -> (out: Self)
        ensures
            out@ == (Record { index: index as nat, start: start@, end: end@, text: text@ }),
    {
        Self { index, start, end, text }
    }

    /// The caption's sequence number.
    pub fn index(&self) -> (out: usize)
        ensures
            out == self@.index,
    {
        self.index
    }

    /// The timecode at which the caption appears.
    pub fn start(&self) -> (out: &String)
        ensures
            out@ == self@.start,
    {
        &self.start
    }

    /// The timecode at which the caption disappears.
    pub fn end(&self) -> (out: &String)
        ensures
            out@ == self@.end,
    {
        &self.end
    }

    /// The caption's body.
    pub fn text(&self) -> (out: &String)
        ensures
            out@ == self@.text,
    {
        &self.text
    }

    /// The caption as it is written in a subtitle file: its index, its time
    /// range and its text, each on lines of their own, and an empty line
    /// after them.
    pub fn to_string(&self) -> (out: String)
        ensures
            out@ == block(self@),
    {
        let mut out = String::new();
        self.write_block(&mut out);
        out
    }

    /// Appends the caption, as it is written in a subtitle file, to `out`.
    fn write_block(&self, out: &mut String)
        ensures
            final(out)@ == old(out)@ + block(self@),
    {
        push_decimal(out, self.index);
        out.push('\n');
        out.append(self.start.as_str());
        out.push(' ');
        out.push('-');
        out.push('-');
        out.push('>');
        out.push(' ');
        out.append(self.end.as_str());
        out.push('\n');
        out.append(self.text.as_str());
        out.push('\n');
        out.push('\n');
        proof {
            assert(out@ =~= old(out)@ + block(self@));
        }
    }

    /// The caption's text as one frame of a translation request.
    pub fn text_to_string(&self) -> (out: String)
        ensures
            out@ == self@.text,
    {
        self.text.clone()
    }

    /// The caption's token weight: the number of words of its text.
    pub fn get_token_number(&self) -> (out: usize)
        ensures
            out == tokens(self@),
    {
        count_words(self.text.as_str())
    }

    /// The index of a stored caption fits the machine word.
    pub proof fn lemma_index_bounded(&self)
        ensures
            self@.index <= usize::MAX,
    {
    }
}

/// The views of the captions, in order.
pub open spec fn records_of(subtitles: Seq<Subtitle>) -> Seq<Record> {
    subtitles.map_values(|s: Subtitle| s@)
}

/// An ordered collection of captions with an optional language tag.
#[derive(Debug)]
pub struct SRTProcessor {
    /// The captions, in file order.
    pub subtitles: Vec<Subtitle>,
    /// The language of the captions, where it is known.
    pub language: Option<String>,
}

impl View for SRTProcessor {
    type V = Document;

    open spec fn view(&self) -> Document {
        Document { records: records_of(self.subtitles@), language: self.language.deep_view() }
    }
}

/// The views of the documents, in order.
pub open spec fn documents_of(processors: Seq<SRTProcessor>) -> Seq<Document> {
    processors.map_values(|p: SRTProcessor| p@)
}

/// A copy of an optional language tag.
fn clone_tag(language: &Option<String>) -> (out: Option<String>)
    ensures
        out.deep_view() == language.deep_view(),
{
    match language {
        Some(l) => Some(l.clone()),
        None => None,
    }
}

/// Copies of the captions `subtitles[from..to]`.
fn clone_range(subtitles: &Vec<Subtitle>, from: usize, to: usize) -> (out: Vec<Subtitle>)
    requires
        from <= to <= subtitles.len(),
    ensures
        records_of(out@) == records_of(subtitles@).subrange(from as int, to as int),
{
    let mut out: Vec<Subtitle> = Vec::new();
    let mut i: usize = from;
    while i < to
        invariant
            from <= i <= to <= subtitles.len(),
            out.len() == i - from,
            records_of(out@) == records_of(subtitles@).subrange(from as int, i as int),
        decreases to - i,
    {
        let copy = subtitles[i].clone();
        proof {
            let grown = records_of(out@.push(copy));
            let wanted = records_of(subtitles@).subrange(from as int, i + 1);
            assert forall|j: int| 0 <= j < grown.len() implies grown[j] == wanted[j] by {
                if j < out.len() {
                    assert(grown[j] == records_of(out@)[j]);
                }
            }
            assert(grown =~= wanted);
        }
        out.push(copy);
        i += 1;
    }
    out
}

impl Clone for SRTProcessor {
    fn clone(&self) -> (out: Self)
        ensures
            out@ == self@,
    {
        let subtitles = clone_range(&self.subtitles, 0, self.subtitles.len());
        proof {
            assert(records_of(self.subtitles@).subrange(0, self.subtitles.len() as int)
                =~= records_of(self.subtitles@));
        }
        SRTProcessor { subtitles, language: clone_tag(&self.language) }
    }
}

/// The lines of `chars` as index ranges into `chars`.
fn line_ranges(chars: &Vec<char>) -> (out: Vec<(usize, usize)>)
    ensures
        ranges_within(out@, 0, chars.len() as int),
        pieces(chars@, out@) == lines_of(chars@),
{
    let nl: Vec<char> = vec!['\n'];
    assert(nl@ =~= newline());
    let raw = split_ranges(chars, 0, chars.len(), &nl);
    let ghost parts = split_on(chars@, newline());
    proof {
        assert(chars@.subrange(0, chars.len() as int) =~= chars@);
        assert(parts.len() >= 1);
        assert(pieces(chars@, raw@).len() == raw.len());
    }
    let mut out: Vec<(usize, usize)> = Vec::new();
    let last: usize = raw.len() - 1;
    let mut k: usize = 0;
    while k < last
        invariant
            k <= last == raw.len() - 1,
            out.len() == k,
            parts.len() == raw.len(),
            ranges_within(raw@, 0, chars.len() as int),
            ranges_within(out@, 0, chars.len() as int),
            parts == pieces(chars@, raw@),
            pieces(chars@, out@) == parts.take(k as int).map_values(
                |line: Seq<char>| strip_cr(line),
            ),
        decreases last - k,
    {
        let (a, b) = raw[k];
        let end: usize = if b > a && chars[b - 1] == '\r' {
            b - 1
        } else {
            b
        };
        proof {
            let line = chars@.subrange(a as int, b as int);
            assert(parts[k as int] == line);
            assert(strip_cr(line) =~= chars@.subrange(a as int, end as int));
            let grown = pieces(chars@, out@.push((a, end)));
            let wanted = parts.take(k + 1).map_values(|line: Seq<char>| strip_cr(line));
            assert forall|j: int| 0 <= j < grown.len() implies grown[j] == wanted[j] by {
                if j < k {
                    assert(grown[j] == pieces(chars@, out@)[j]);
                    assert(parts.take(k as int)[j] == parts.take(k + 1)[j]);
                }
            }
            assert(grown =~= wanted);
        }
        out.push((a, end));
        k += 1;
    }
    let (a, b) = raw[last];
    proof {
        assert(parts.take(last as int) =~= parts.drop_last());
        assert(parts.last() == chars@.subrange(a as int, b as int));
    }
    if b > a {
        proof {
            assert(pieces(chars@, out@.push((a, b))) =~= pieces(chars@, out@).push(parts.last()));
        }
        out.push((a, b));
    }
    out
}

/// The position after the run of non-empty lines that starts at `first`.
fn text_end(chars: &Vec<char>, lines: &Vec<(usize, usize)>, first: usize) -> (end: usize)
    requires
        first <= lines.len(),
        ranges_within(lines@, 0, chars.len() as int),
    ensures
        first <= end <= lines.len(),
        end - first == text_run(pieces(chars@, lines@).skip(first as int)),
{
    let ghost all = pieces(chars@, lines@);
    let mut end: usize = first;
    while end < lines.len() && lines[end].0 < lines[end].1
        invariant
            first <= end <= lines.len(),
            all == pieces(chars@, lines@),
            ranges_within(lines@, 0, chars.len() as int),
            text_run(all.skip(first as int)) == (end - first) + text_run(all.skip(end as int)),
        decreases lines.len() - end,
    {
        proof {
            assert(all.skip(end as int).drop_first() =~= all.skip(end + 1));
            assert(all.skip(end as int)[0].len() == lines[end as int].1 - lines[end as int].0);
        }
        end += 1;
    }
    proof {
        if end < lines.len() {
            assert(all.skip(end as int)[0].len() == lines[end as int].1 - lines[end as int].0);
        }
    }
    end
}

/// Reads the lines as records.
fn read_records(chars: &Vec<char>, lines: &Vec<(usize, usize)>) -> (out: Result<
    Vec<Subtitle>,
    ParseError,
>)
    requires
        ranges_within(lines@, 0, chars.len() as int),
    ensures
        match out {
            Ok(subtitles) => parse_lines(pieces(chars@, lines@)) == Ok::<Seq<Record>, ParseError>(
                records_of(subtitles@),
            ),
            Err(e) => parse_lines(pieces(chars@, lines@)) == Err::<Seq<Record>, ParseError>(e),
        },
{
    let ghost all = pieces(chars@, lines@);
    let sep: Vec<char> = vec![' ', '-', '-', '>', ' '];
    let nl: Vec<char> = vec!['\n'];
    assert(sep@ =~= arrow());
    assert(nl@ =~= newline());
    let mut subtitles: Vec<Subtitle> = Vec::new();
    let mut pos: usize = 0;
    assert(records_of(subtitles@) + Seq::<Record>::empty() =~= records_of(subtitles@));
    assert(all.skip(0) =~= all);
    while pos < lines.len()
        invariant
            pos <= lines.len(),
            all == pieces(chars@, lines@),
            ranges_within(lines@, 0, chars.len() as int),
            sep@ == arrow(),
            nl@ == newline(),
            parse_lines(all) == prefixed(records_of(subtitles@), parse_lines(all.skip(pos as int))),
        decreases lines.len() - pos,
    {
        let ghost rest = all.skip(pos as int);
        let (a, b) = lines[pos];
        assert(rest[0] == chars@.subrange(a as int, b as int));
        match parse_decimal(chars, a, b) {
            Decimal::Malformed => {
                proof {
                    assert(rest.drop_first() =~= all.skip(pos + 1));
                }
                pos += 1;
            },
            Decimal::Overflow => {
                return Err(ParseError::InvalidIndex);
            },
            Decimal::Value(index) => {
                if lines.len() - pos < 2 {
                    return Err(ParseError::UnexpectedEOF);
                }
                let (ta, tb) = lines[pos + 1];
                assert(rest[1] == chars@.subrange(ta as int, tb as int));
                let range = split_ranges(chars, ta, tb, &sep);
                assert(pieces(chars@, range@).len() == range.len());
                if range.len() != 2 {
                    return Err(ParseError::MalformedTimeRange);
                }
                let first: usize = pos + 2;
                let end = text_end(chars, lines, first);
                proof {
                    assert(rest.skip(2) =~= all.skip(first as int));
                }
                if end == first {
                    return Err(ParseError::UnexpectedEOF);
                }
                let start = string_of(chars, range[0].0, range[0].1);
                let stop = string_of(chars, range[1].0, range[1].1);
                let text = join_ranges(chars, lines, first, end, &nl);
                let subtitle = Subtitle::new(index, start, stop, text);
                proof {
                    let n = end - first;
                    let parts = split_on(rest[1], arrow());
                    assert(parts[0] == pieces(chars@, range@)[0]);
                    assert(parts[1] == pieces(chars@, range@)[1]);
                    assert(rest.subrange(2, 2 + n) =~= all.subrange(first as int, end as int));
                    assert(rest.skip(2 + n) =~= all.skip(end as int));
                    assert(parse_lines(rest) == prefixed(
                        seq![subtitle@],
                        parse_lines(all.skip(end as int)),
                    ));
                    let done = records_of(subtitles@);
                    assert(records_of(subtitles@.push(subtitle)) =~= done.push(subtitle@));
                    match parse_lines(all.skip(end as int)) {
                        Ok(more) => {
                            assert(done + (seq![subtitle@] + more) =~= done.push(subtitle@) + more);
                        },
                        Err(_) => {},
                    }
                }
                subtitles.push(subtitle);
                pos = end;
            },
        }
    }
    proof {
        assert(all.skip(pos as int) =~= Seq::<Seq<char>>::empty());
        assert(records_of(subtitles@) + Seq::<Record>::empty() =~= records_of(subtitles@));
    }
    Ok(subtitles)
}

impl SRTProcessor {
    /// A document without captions and without a language tag.
    pub fn new() -> (out: Self)
        ensures
            out@ == (Document { records: Seq::empty(), language: None }),
    {
        let out = SRTProcessor { subtitles: Vec::new(), language: None };
        assert(out@.records =~= Seq::<Record>::empty());
        out
    }

    /// Reads `content` as a subtitle file and adds its captions to the
    /// document. Where `content` is malformed the document stays as it was.
    pub fn parse(&mut self, content: &str) -> (out: Result<(), ParseError>)
        ensures
            match out {
                Ok(_) => parse_document(content@) is Ok && final(self)@ == (Document {
                    records: old(self)@.records + parse_document(content@)->Ok_0,
                    language: old(self)@.language,
                }),
                Err(e) => {
                    &&& parse_document(content@) == Err::<Seq<Record>, ParseError>(e)
                    &&& *final(self) == *old(self)
                },
            },
    {
        let chars = chars_of(content);
        let lines = line_ranges(&chars);
        match read_records(&chars, &lines) {
            Ok(subtitles) => {
                let mut subtitles = subtitles;
                proof {
                    assert(records_of(self.subtitles@ + subtitles@) =~= records_of(self.subtitles@)
                        + records_of(subtitles@));
                }
                self.subtitles.append(&mut subtitles);
                Ok(())
            },
            Err(e) => Err(e),
        }
    }

    /// The payload of a translation request for this document: the texts of
    /// its captions, in order, with an empty line between each two.
    pub fn text_to_string(&self) -> (out: String)
        ensures
            out@ == payload(self@.records),
    {
        let ghost texts = texts_of(self@.records);
        let mut out = String::new();
        let mut i: usize = 0;
        while i < self.subtitles.len()
            invariant
                i <= self.subtitles.len(),
                texts == texts_of(self@.records),
                out@ == join(texts.take(i as int), frame_separator()),
            decreases self.subtitles.len() - i,
        {
            proof {
                let before = texts.take(i as int);
                let after = texts.take(i + 1);
                assert(after.drop_last() =~= before);
                assert(after.last() == self.subtitles@[i as int]@.text);
                if i == 0 {
                    assert(out@ + after.last() =~= after.last());
                }
            }
            if i > 0 {
                out.push('\n');
                out.push('\n');
                proof {
                    assert(out@ =~= join(texts.take(i as int), frame_separator())
                        + frame_separator());
                }
            }
            out.append(self.subtitles[i].text.as_str());
            i += 1;
        }
        proof {
            assert(texts.take(i as int) =~= texts);
        }
        out
    }

    /// The document that a translation service's response stands for: the
    /// captions of this document, each with the frame of the response at its
    /// position as its text. The response must hold exactly one frame for
    /// each caption. The result carries no language tag.
    pub fn parse_llm_reponse(&self, response: String) -> (out: Result<
        SRTProcessor,
        OrchestratorError,
    >)
        ensures
            match out {
                Ok(doc) => translated(self@.records, response@) == Some(doc@.records)
                    && doc@.language is None,
                Err(e) => e == OrchestratorError::ResponseLengthMismatch && translated(
                    self@.records,
                    response@,
                ) is None,
            },
    {
        let chars = chars_of(response.as_str());
        let sep: Vec<char> = vec!['\n', '\n'];
        assert(sep@ =~= frame_separator());
        let ranges = split_ranges(&chars, 0, chars.len(), &sep);
        proof {
            assert(chars@.subrange(0, chars.len() as int) =~= chars@);
            assert(pieces(chars@, ranges@).len() == ranges.len());
        }
        if ranges.len() != self.subtitles.len() {
            return Err(OrchestratorError::ResponseLengthMismatch);
        }
        let ghost wanted = retexted(self@.records, frames(response@));
        let mut subtitles: Vec<Subtitle> = Vec::new();
        let mut i: usize = 0;
        while i < self.subtitles.len()
            invariant
                i <= self.subtitles.len() == ranges.len(),
                subtitles.len() == i,
                ranges_within(ranges@, 0, chars.len() as int),
                pieces(chars@, ranges@) == frames(response@),
                wanted == retexted(self@.records, frames(response@)),
                records_of(subtitles@) == wanted.take(i as int),
            decreases self.subtitles.len() - i,
        {
            let sub = &self.subtitles[i];
            let (a, b) = ranges[i];
            let text = string_of(&chars, a, b);
            let replaced = Subtitle::new(sub.index, sub.start.clone(), sub.end.clone(), text);
            proof {
                assert(frames(response@)[i as int] == chars@.subrange(a as int, b as int));
                assert(replaced@ == wanted[i as int]);
                let grown = records_of(subtitles@.push(replaced));
                assert forall|j: int| 0 <= j < grown.len() implies grown[j] == wanted.take(
                    i + 1,
                )[j] by {
                    if j < i {
                        assert(grown[j] == records_of(subtitles@)[j]);
                    }
                }
                assert(grown =~= wanted.take(i + 1));
            }
            subtitles.push(replaced);
            i += 1;
        }
        proof {
            assert(wanted.take(i as int) =~= wanted);
        }
        Ok(SRTProcessor { subtitles, language: None })
    }

    /// The document as it is written in a subtitle file: the block of each
    /// caption, in order.
    pub fn write(&self) -> (out: String)
        ensures
            out@ == serialize(self@.records),
    {
        let ghost blocks = self@.records.map_values(|r: Record| block(r));
        let mut out = String::new();
        let mut i: usize = 0;
        while i < self.subtitles.len()
            invariant
                i <= self.subtitles.len(),
                blocks == self@.records.map_values(|r: Record| block(r)),
                out@ == blocks.take(i as int).flatten(),
            decreases self.subtitles.len() - i,
        {
            proof {
                assert(blocks.take(i + 1) =~= blocks.take(i as int).push(blocks[i as int]));
                blocks.take(i as int).lemma_flatten_push(blocks[i as int]);
            }
            self.subtitles[i].write_block(&mut out);
            i += 1;
        }
        proof {
            assert(blocks.take(i as int) =~= blocks);
        }
        out
    }

    /// Cuts the document into consecutive chunks of `chunk_size` captions;
    /// the last chunk holds what is left. Each chunk has the document's
    /// language tag.
    pub fn split(&self, chunk_size: usize) -> (out: Vec<SRTProcessor>)
        requires
            chunk_size > 0,
        ensures
            documents_of(out@) == chunks_by_count(self@, chunk_size as nat),
    {
        let ghost d = self@;
        let ghost n = chunk_size as nat;
        let total = self.subtitles.len();
        let mut out: Vec<SRTProcessor> = Vec::new();
        let mut start: usize = 0;
        proof {
            assert(d.records.skip(0) =~= d.records);
            assert(documents_of(out@) + chunks_by_count(d, n) =~= chunks_by_count(d, n));
        }
        while start < total
            invariant
                start <= total == self.subtitles.len(),
                chunk_size > 0,
                d == self@,
                n == chunk_size as nat,
                chunks_by_count(d, n) == documents_of(out@) + tagged(
                    groups_by_count(d.records.skip(start as int), n),
                    d.language,
                ),
            decreases total - start,
        {
            let end: usize = if total - start <= chunk_size {
                total
            } else {
                start + chunk_size
            };
            let chunk = SRTProcessor {
                subtitles: clone_range(&self.subtitles, start, end),
                language: clone_tag(&self.language),
            };
            proof {
                let rest = d.records.skip(start as int);
                let groups = groups_by_count(rest, n);
                let later = groups_by_count(d.records.skip(end as int), n);
                if total - start <= chunk_size {
                    assert(groups == seq![rest]);
                    assert(rest =~= d.records.subrange(start as int, end as int));
                    assert(d.records.skip(end as int) =~= Seq::<Record>::empty());
                    assert(later =~= Seq::<Seq<Record>>::empty());
                } else {
                    assert(groups == seq![rest.take(n as int)] + groups_by_count(
                        rest.skip(n as int),
                        n,
                    ));
                    assert(rest.take(n as int) =~= d.records.subrange(start as int, end as int));
                    assert(rest.skip(n as int) =~= d.records.skip(end as int));
                }
                assert(groups =~= seq![chunk@.records] + later);
                assert(documents_of(out@.push(chunk)) + tagged(later, d.language) =~= documents_of(
                    out@,
                ) + tagged(groups, d.language));
            }
            out.push(chunk);
            start = end;
        }
        proof {
            assert(d.records.skip(start as int) =~= Seq::<Record>::empty());
            assert(documents_of(out@) + tagged(
                groups_by_count(d.records.skip(start as int), n),
                d.language,
            ) =~= documents_of(out@));
        }
        out
    }

    /// Cuts the document into consecutive chunks under a budget of tokens.
    ///
    /// Captions are added to a chunk while the chunk's token weight stays
    /// within `max_token_length`; the caption that would go over the budget
    /// starts the next chunk. A caption that is over the budget on its own
    /// makes a chunk of its own. No chunk is empty, and each has the
    /// document's language tag.
    pub fn split_by_token_size(&self, max_token_length: usize) -> (out: Vec<SRTProcessor>)
        ensures
            is_token_plan(self@, max_token_length as nat, documents_of(out@)),
    {
        let ghost d = self@;
        let ghost max = max_token_length as nat;
        let total = self.subtitles.len();
        let mut out: Vec<SRTProcessor> = Vec::new();
        let mut token_count: usize = 0;
        let mut min_slice_idx: usize = 0;
        let mut idx: usize = 0;
        proof {
            assert(d.records.take(0) =~= Seq::<Record>::empty());
            assert(groups_of(documents_of(out@)) =~= Seq::<Seq<Record>>::empty());
        }
        while idx < total
            invariant
                min_slice_idx <= idx <= total == self.subtitles.len(),
                d == self@,
                max == max_token_length as nat,
                idx > 0 ==> min_slice_idx < idx,
                token_count == weight(d.records.subrange(min_slice_idx as int, idx as int)),
                token_count <= max || idx - min_slice_idx == 1,
                is_token_plan(
                    Document { records: d.records.take(min_slice_idx as int), language: d.language },
                    max,
                    documents_of(out@),
                ),
                out.len() > 0 ==> weight(groups_of(documents_of(out@)).last()) + tokens(
                    d.records[min_slice_idx as int],
                ) > max,
            decreases total - idx,
        {
            let sub_token_count = self.subtitles[idx].get_token_number();
            proof {
                lemma_weight_grow(d.records, min_slice_idx as int, idx as int);
            }
            if token_count <= max_token_length && sub_token_count <= max_token_length
                - token_count {
                token_count = token_count + sub_token_count;
            } else {
                if min_slice_idx < idx {
                    let chunk = SRTProcessor {
                        subtitles: clone_range(&self.subtitles, min_slice_idx, idx),
                        language: clone_tag(&self.language),
                    };
                    proof {
                        lemma_plan_grows(
                            d,
                            max,
                            documents_of(out@),
                            min_slice_idx as int,
                            idx as int,
                            chunk@,
                        );
                        assert(documents_of(out@.push(chunk)) =~= documents_of(out@).push(chunk@));
                    }
                    out.push(chunk);
                    min_slice_idx = idx;
                }
                proof {
                    assert(d.records.subrange(idx as int, idx as int) =~= Seq::<Record>::empty());
                    lemma_weight_grow(d.records, idx as int, idx as int);
                }
                token_count = sub_token_count;
            }
            idx = idx + 1;
        }
        if min_slice_idx < total {
            let chunk = SRTProcessor {
                subtitles: clone_range(&self.subtitles, min_slice_idx, total),
                language: clone_tag(&self.language),
            };
            proof {
                lemma_plan_grows(
                    d,
                    max,
                    documents_of(out@),
                    min_slice_idx as int,
                    total as int,
                    chunk@,
                );
                assert(documents_of(out@.push(chunk)) =~= documents_of(out@).push(chunk@));
                assert(d.records.take(total as int) =~= d.records);
            }
            out.push(chunk);
        } else {
            proof {
                assert(d.records.take(min_slice_idx as int) =~= d.records);
            }
        }
        out
    }

    /// Puts documents together: the captions of all of them, document after
    /// document, under the first language tag that any of them has.
    pub fn from_concat(processors: Vec<SRTProcessor>) -> (out: Self)
        ensures
            out@ == (Document {
                records: all_records(documents_of(processors@)),
                language: first_language(documents_of(processors@)),
            }),
    {
        let ghost docs = documents_of(processors@);
        let mut output = SRTProcessor::new();
        let mut i: usize = 0;
        proof {
            assert(docs.take(0) =~= Seq::<Document>::empty());
            assert(docs.take(0).map_values(|d: Document| d.records) =~= Seq::<
                Seq<Record>,
            >::empty());
        }
        while i < processors.len()
            invariant
                i <= processors.len(),
                docs == documents_of(processors@),
                output@.records == all_records(docs.take(i as int)),
                output@.language == first_language(docs.take(i as int)),
            decreases processors.len() - i,
        {
            let part = &processors[i];
            let mut copies = clone_range(&part.subtitles, 0, part.subtitles.len());
            proof {
                assert(docs.take(i + 1) =~= docs.take(i as int).push(docs[i as int]));
                assert(docs.take(i + 1).drop_last() =~= docs.take(i as int));
                lemma_all_records_push(docs.take(i as int), docs[i as int]);
                assert(records_of(part.subtitles@).subrange(0, part.subtitles.len() as int)
                    =~= docs[i as int].records);
                assert(records_of(output.subtitles@ + copies@) =~= records_of(output.subtitles@)
                    + records_of(copies@));
            }
            output.subtitles.append(&mut copies);
            if output.language.is_none() {
                output.language = clone_tag(&part.language);
            }
            i += 1;
        }
        proof {
            assert(docs.take(i as int) =~= docs);
        }
        output
    }
}

} // verus!
