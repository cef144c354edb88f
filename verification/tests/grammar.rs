use srt_translator::error::ParseError;
use srt_translator::srt_parser::{SRTProcessor, Subtitle};

fn sub(index: usize, start: &str, end: &str, text: &str) -> Subtitle {
    Subtitle::new(index, start.to_string(), end.to_string(), text.to_string())
}

fn fields(s: &Subtitle) -> (usize, String, String, String) {
    (s.index(), s.start().clone(), s.end().clone(), s.text().clone())
}

fn parsed(content: &str) -> SRTProcessor {
    let mut doc = SRTProcessor::new();
    assert_eq!(doc.parse(content), Ok(()));
    doc
}

fn failure(content: &str) -> ParseError {
    let mut doc = SRTProcessor::new();
    match doc.parse(content) {
        Ok(()) => panic!("the text was read as a document"),
        Err(e) => {
            assert_eq!(doc.subtitles.len(), 0);
            e
        }
    }
}

const TWO_UNITS: &str = "1\n00:00:01,000 --> 00:00:02,000\nHello there\n\n2\n00:00:03,000 --> 00:00:04,500\nGeneral Kenobi\n\n";

#[test]
fn new_document_is_empty() {
    let doc = SRTProcessor::new();
    assert_eq!(doc.subtitles.len(), 0);
    assert_eq!(doc.language, None);
}

#[test]
fn new_subtitle_keeps_its_fields() {
    let s = sub(7, "00:00:01,000", "00:00:02,000", "Hi");
    assert_eq!(
        fields(&s),
        (7, "00:00:01,000".to_string(), "00:00:02,000".to_string(), "Hi".to_string())
    );
}

#[test]
fn parse_reads_two_units() {
    let doc = parsed(TWO_UNITS);
    assert_eq!(doc.subtitles.len(), 2);
    assert_eq!(
        fields(&doc.subtitles[0]),
        (1, "00:00:01,000".to_string(), "00:00:02,000".to_string(), "Hello there".to_string())
    );
    assert_eq!(
        fields(&doc.subtitles[1]),
        (2, "00:00:03,000".to_string(), "00:00:04,500".to_string(), "General Kenobi".to_string())
    );
    assert_eq!(doc.language, None);
}

#[test]
fn parse_empty_text_gives_no_units() {
    assert_eq!(parsed("").subtitles.len(), 0);
    assert_eq!(parsed("\n\n\n").subtitles.len(), 0);
}

#[test]
fn parse_joins_the_lines_of_a_text() {
    let doc = parsed("3\na --> b\nfirst line\nsecond line\nthird\n\n");
    assert_eq!(doc.subtitles.len(), 1);
    assert_eq!(doc.subtitles[0].text(), "first line\nsecond line\nthird");
}

#[test]
fn parse_takes_the_end_of_input_as_the_end_of_a_unit() {
    let doc = parsed("1\na --> b\nlast words");
    assert_eq!(doc.subtitles.len(), 1);
    assert_eq!(doc.subtitles[0].text(), "last words");
    let doc = parsed("1\na --> b\nlast words\n");
    assert_eq!(doc.subtitles[0].text(), "last words");
}

#[test]
fn parse_skips_stray_lines_between_units() {
    let doc = parsed("\n\nnoise\n\n1\na --> b\nx\n\n\n\nmore noise\n2\nc --> d\ny\n");
    assert_eq!(doc.subtitles.len(), 2);
    assert_eq!(fields(&doc.subtitles[0]), (1, "a".into(), "b".into(), "x".into()));
    assert_eq!(fields(&doc.subtitles[1]), (2, "c".into(), "d".into(), "y".into()));
}

#[test]
fn parse_keeps_indices_as_written() {
    let doc = parsed("42\na --> b\nx\n\n7\nc --> d\ny\n\n7\ne --> f\nz\n\n");
    let indices: Vec<usize> = doc.subtitles.iter().map(|s| s.index()).collect();
    assert_eq!(indices, vec![42, 7, 7]);
}

#[test]
fn parse_reads_a_number_inside_a_text_as_text() {
    let doc = parsed("1\na --> b\n12\n13\n\n2\nc --> d\ny\n");
    assert_eq!(doc.subtitles.len(), 2);
    assert_eq!(doc.subtitles[0].text(), "12\n13");
}

#[test]
fn parse_accepts_a_plus_sign_and_leading_zeros() {
    let doc = parsed("+5\na --> b\nx\n\n007\nc --> d\ny\n\n0\ne --> f\nz\n");
    let indices: Vec<usize> = doc.subtitles.iter().map(|s| s.index()).collect();
    assert_eq!(indices, vec![5, 7, 0]);
}

#[test]
fn parse_skips_lines_that_are_no_index() {
    assert_eq!(parsed("-1\na --> b\nx\n").subtitles.len(), 0);
    assert_eq!(parsed(" 1\n").subtitles.len(), 0);
    assert_eq!(parsed("1 \n").subtitles.len(), 0);
    assert_eq!(parsed("+\n").subtitles.len(), 0);
    assert_eq!(parsed("1a\n").subtitles.len(), 0);
    assert_eq!(parsed("١\n").subtitles.len(), 0);
}

#[test]
fn parse_takes_carriage_returns_as_line_endings() {
    let doc = parsed("1\r\n00:00:01,000 --> 00:00:02,000\r\nHello\r\nthere\r\n\r\n2\r\nc --> d\r\ny\r\n");
    assert_eq!(doc.subtitles.len(), 2);
    assert_eq!(
        fields(&doc.subtitles[0]),
        (1, "00:00:01,000".to_string(), "00:00:02,000".to_string(), "Hello\nthere".to_string())
    );
    assert_eq!(fields(&doc.subtitles[1]), (2, "c".into(), "d".into(), "y".into()));
}

#[test]
fn parse_keeps_a_carriage_return_without_line_feed() {
    let doc = parsed("1\na --> b\nx\r");
    assert_eq!(doc.subtitles[0].text(), "x\r");
    let doc = parsed("1\na --> b\nx\ry\n");
    assert_eq!(doc.subtitles[0].text(), "x\ry");
}

#[test]
fn parse_keeps_timecodes_verbatim() {
    let doc = parsed("1\n  whatever --> --> \nx\n");
    assert_eq!(doc.subtitles.len(), 1);
    assert_eq!(doc.subtitles[0].start(), "  whatever");
    assert_eq!(doc.subtitles[0].end(), "--> ");
    let doc = parsed("1\n --> \nx\n");
    assert_eq!(doc.subtitles[0].start(), "");
    assert_eq!(doc.subtitles[0].end(), "");
}

#[test]
fn parse_fails_on_a_time_range_without_arrow() {
    assert_eq!(failure("1\n00:00:01,000 00:00:02,000\nx\n"), ParseError::MalformedTimeRange);
    assert_eq!(failure("1\na -->b\nx\n"), ParseError::MalformedTimeRange);
    assert_eq!(failure("1\n\nx\n"), ParseError::MalformedTimeRange);
}

#[test]
fn parse_fails_on_a_time_range_with_two_arrows() {
    assert_eq!(failure("1\na --> b --> c\nx\n"), ParseError::MalformedTimeRange);
}

#[test]
fn parse_fails_when_the_input_ends_after_an_index() {
    assert_eq!(failure("1"), ParseError::UnexpectedEOF);
    assert_eq!(failure("1\n"), ParseError::UnexpectedEOF);
    assert_eq!(failure("1\na --> b\nx\n\n2"), ParseError::UnexpectedEOF);
    assert_eq!(failure("1\r\n"), ParseError::UnexpectedEOF);
}

#[test]
fn parse_fails_on_a_unit_without_text() {
    assert_eq!(failure("1\na --> b"), ParseError::UnexpectedEOF);
    assert_eq!(failure("1\na --> b\n"), ParseError::UnexpectedEOF);
    assert_eq!(failure("1\na --> b\n\n2\nc --> d\ny\n"), ParseError::UnexpectedEOF);
}

#[test]
fn parse_fails_on_an_index_that_does_not_fit() {
    assert_eq!(
        failure("99999999999999999999999999999999999999\na --> b\nx\n"),
        ParseError::InvalidIndex
    );
    assert_eq!(
        failure("1\na --> b\nx\n\n340282366920938463463374607431768211456\n"),
        ParseError::InvalidIndex
    );
}

#[test]
fn parse_reads_the_greatest_index() {
    let text = format!("{}\na --> b\nx\n", usize::MAX);
    let doc = parsed(&text);
    assert_eq!(doc.subtitles[0].index(), usize::MAX);
}

#[test]
fn parse_reports_the_first_malformed_unit() {
    assert_eq!(
        failure("1\nno arrow\nx\n\n99999999999999999999999999999999999999\n"),
        ParseError::MalformedTimeRange
    );
}

#[test]
fn parse_adds_to_the_captions_that_are_there() {
    let mut doc = parsed("1\na --> b\nx\n");
    doc.language = Some("en".to_string());
    assert_eq!(doc.parse("2\nc --> d\ny\n"), Ok(()));
    assert_eq!(doc.subtitles.len(), 2);
    assert_eq!(fields(&doc.subtitles[0]), (1, "a".into(), "b".into(), "x".into()));
    assert_eq!(fields(&doc.subtitles[1]), (2, "c".into(), "d".into(), "y".into()));
    assert_eq!(doc.language, Some("en".to_string()));
}

#[test]
fn parse_failure_leaves_the_document_as_it_was() {
    let mut doc = parsed("1\na --> b\nx\n");
    doc.language = Some("en".to_string());
    assert_eq!(doc.parse("2\nc --> d\ny\n\n3\nbroken\nz\n"), Err(ParseError::MalformedTimeRange));
    assert_eq!(doc.subtitles.len(), 1);
    assert_eq!(fields(&doc.subtitles[0]), (1, "a".into(), "b".into(), "x".into()));
    assert_eq!(doc.language, Some("en".to_string()));
}

#[test]
fn to_string_writes_one_block() {
    let s = sub(12, "00:00:01,000", "00:00:02,000", "Hello\nthere");
    assert_eq!(s.to_string(), "12\n00:00:01,000 --> 00:00:02,000\nHello\nthere\n\n");
    assert_eq!(sub(0, "", "", "").to_string(), "0\n --> \n\n\n");
}

#[test]
fn to_string_writes_the_greatest_index() {
    let s = sub(usize::MAX, "a", "b", "x");
    assert_eq!(s.to_string(), format!("{}\na --> b\nx\n\n", usize::MAX));
}

#[test]
fn write_puts_block_after_block() {
    let doc = SRTProcessor {
        subtitles: vec![sub(1, "a", "b", "x"), sub(2, "c", "d", "y\nz")],
        language: Some("en".to_string()),
    };
    assert_eq!(doc.write(), "1\na --> b\nx\n\n2\nc --> d\ny\nz\n\n");
    assert_eq!(SRTProcessor::new().write(), "");
}

#[test]
fn write_gives_back_a_canonical_text() {
    assert_eq!(parsed(TWO_UNITS).write(), TWO_UNITS);
    let multi = "10\n00:01:00,000 --> 00:01:02,000\nline one\nline two\n\n11\nx --> y\n- Who?\n- Me.\n\n";
    assert_eq!(parsed(multi).write(), multi);
}

#[test]
fn write_brings_a_loose_text_into_canonical_form() {
    let loose = "\r\n+01\r\na --> b\r\nx\r\n\r\n\r\nnoise\r\n2\r\nc --> d\r\ny";
    let canonical = "1\na --> b\nx\n\n2\nc --> d\ny\n\n";
    let first = parsed(loose);
    assert_eq!(first.write(), canonical);
    let second = parsed(&first.write());
    assert_eq!(second.write(), canonical);
    assert_eq!(second.subtitles.len(), first.subtitles.len());
    for (a, b) in first.subtitles.iter().zip(second.subtitles.iter()) {
        assert_eq!(fields(a), fields(b));
    }
}

#[test]
fn read_after_write_gives_the_same_captions() {
    let doc = SRTProcessor {
        subtitles: vec![
            sub(3, "00:00:01,000", "00:00:02,000", "one two"),
            sub(1, "", "", "x"),
            sub(usize::MAX, "t0", "t1", "a\nb\nc"),
        ],
        language: None,
    };
    let again = parsed(&doc.write());
    assert_eq!(again.subtitles.len(), 3);
    for (a, b) in doc.subtitles.iter().zip(again.subtitles.iter()) {
        assert_eq!(fields(a), fields(b));
    }
}

#[test]
fn a_trailing_carriage_return_does_not_survive_a_round_trip() {
    let first = parsed("1\na --> b\nx\r\r\n");
    assert_eq!(first.subtitles[0].text(), "x\r");
    let second = parsed(&first.write());
    assert_eq!(second.subtitles[0].text(), "x");
}

#[test]
fn clone_copies_captions_and_language() {
    let doc = SRTProcessor {
        subtitles: vec![sub(1, "a", "b", "x"), sub(2, "c", "d", "y")],
        language: Some("fr".to_string()),
    };
    let copy = doc.clone();
    assert_eq!(copy.language, Some("fr".to_string()));
    assert_eq!(copy.subtitles.len(), 2);
    for (a, b) in doc.subtitles.iter().zip(copy.subtitles.iter()) {
        assert_eq!(fields(a), fields(b));
    }
    let one = doc.subtitles[1].clone();
    assert_eq!(fields(&one), (2, "c".into(), "d".into(), "y".into()));
}

#[test]
fn parse_errors_have_messages() {
    assert_eq!(
        ParseError::MalformedTimeRange.message(),
        "the time range does not split into a start and an end on \" --> \""
    );
    assert_eq!(ParseError::UnexpectedEOF.message(), "the input ends inside a subtitle unit");
    assert_eq!(ParseError::InvalidIndex.message(), "the index of a subtitle unit is too large");
}
