use srt_translator::srt_parser::{SRTProcessor, Subtitle};

fn caption(index: usize, text: &str) -> Subtitle {
    Subtitle::new(index, format!("s{}", index), format!("e{}", index), text.to_string())
}

fn document(texts: &[&str]) -> SRTProcessor {
    SRTProcessor {
        subtitles: texts.iter().enumerate().map(|(i, t)| caption(i + 1, t)).collect(),
        language: Some("en".to_string()),
    }
}

fn indices(doc: &SRTProcessor) -> Vec<usize> {
    doc.subtitles.iter().map(|s| s.index()).collect()
}

fn shape(chunks: &[SRTProcessor]) -> Vec<Vec<usize>> {
    chunks.iter().map(indices).collect()
}

fn snapshot(doc: &SRTProcessor) -> Vec<(usize, String, String, String)> {
    doc.subtitles
        .iter()
        .map(|s| (s.index(), s.start().clone(), s.end().clone(), s.text().clone()))
        .collect()
}

#[test]
fn token_number_counts_words() {
    assert_eq!(caption(1, "").get_token_number(), 0);
    assert_eq!(caption(1, "   ").get_token_number(), 0);
    assert_eq!(caption(1, "one").get_token_number(), 1);
    assert_eq!(caption(1, "one two").get_token_number(), 2);
    assert_eq!(caption(1, "  one   two  ").get_token_number(), 2);
    assert_eq!(caption(1, "one\ntwo\tthree\r\nfour").get_token_number(), 4);
    assert_eq!(caption(1, "- Who?\n- Me, myself.").get_token_number(), 5);
}

#[test]
fn token_number_knows_unicode_whitespace() {
    assert_eq!(caption(1, "a\u{a0}b\u{2003}c\u{3000}d\u{85}e\u{1680}f").get_token_number(), 6);
    assert_eq!(caption(1, "a\u{2028}b\u{2029}c\u{202f}d\u{205f}e\u{b}f\u{c}g").get_token_number(), 7);
    assert_eq!(caption(1, "a\u{200b}b\u{feff}c\u{1c}d").get_token_number(), 1);
    assert_eq!(caption(1, "é ü 日本語").get_token_number(), 3);
}

#[test]
fn token_number_agrees_with_split_whitespace() {
    let samples = [
        "",
        " ",
        "a",
        " a",
        "a ",
        "a b",
        "a\u{2000}b\u{200a}c",
        "a\u{1fff}b\u{200b}c",
        "\u{9}\u{a}\u{b}\u{c}\u{d}x\u{e}y",
        "x\u{84}y\u{85}z\u{86}",
        "x\u{167f}y\u{1680}z\u{1681}",
        "x\u{2027}y\u{2028}z\u{2029}w\u{202a}",
        "x\u{202e}y\u{202f}z\u{2030}",
        "x\u{205e}y\u{205f}z\u{2060}",
        "x\u{2fff}y\u{3000}z\u{3001}",
        "x\u{9f}y\u{a0}z\u{a1}",
        "x\u{1f}y\u{20}z\u{21}",
    ];
    for text in samples {
        assert_eq!(caption(1, text).get_token_number(), text.split_whitespace().count(), "{:?}", text);
    }
}

#[test]
fn split_cuts_into_groups_of_the_given_size() {
    let doc = document(&["a", "b", "c", "d", "e"]);
    assert_eq!(shape(&doc.split(2)), vec![vec![1, 2], vec![3, 4], vec![5]]);
    assert_eq!(shape(&doc.split(1)), vec![vec![1], vec![2], vec![3], vec![4], vec![5]]);
    assert_eq!(shape(&doc.split(5)), vec![vec![1, 2, 3, 4, 5]]);
    assert_eq!(shape(&doc.split(6)), vec![vec![1, 2, 3, 4, 5]]);
    assert_eq!(shape(&doc.split(usize::MAX)), vec![vec![1, 2, 3, 4, 5]]);
    assert_eq!(shape(&document(&["a", "b", "c", "d"]).split(2)), vec![vec![1, 2], vec![3, 4]]);
}

#[test]
fn split_of_an_empty_document_gives_no_chunk() {
    assert_eq!(document(&[]).split(3).len(), 0);
}

#[test]
fn split_gives_each_chunk_the_language() {
    let doc = document(&["a", "b", "c"]);
    for chunk in doc.split(2) {
        assert_eq!(chunk.language, Some("en".to_string()));
    }
    let mut plain = document(&["a", "b", "c"]);
    plain.language = None;
    for chunk in plain.split(2) {
        assert_eq!(chunk.language, None);
    }
}

#[test]
fn split_then_concat_gives_the_document() {
    let doc = document(&["a b", "c", "d e f", "g", "h i"]);
    for n in 1..8 {
        let back = SRTProcessor::from_concat(doc.split(n));
        assert_eq!(snapshot(&back), snapshot(&doc));
        assert_eq!(back.language, Some("en".to_string()));
    }
}

#[test]
fn split_by_token_size_fills_chunks_up_to_the_budget() {
    // weights 2, 1, 3, 1, 2
    let doc = document(&["a b", "c", "d e f", "g", "h i"]);
    assert_eq!(shape(&doc.split_by_token_size(3)), vec![vec![1, 2], vec![3], vec![4, 5]]);
    assert_eq!(shape(&doc.split_by_token_size(4)), vec![vec![1, 2], vec![3, 4], vec![5]]);
    assert_eq!(shape(&doc.split_by_token_size(6)), vec![vec![1, 2, 3], vec![4, 5]]);
    assert_eq!(shape(&doc.split_by_token_size(8)), vec![vec![1, 2, 3, 4], vec![5]]);
    assert_eq!(shape(&doc.split_by_token_size(9)), vec![vec![1, 2, 3, 4, 5]]);
    assert_eq!(shape(&doc.split_by_token_size(usize::MAX)), vec![vec![1, 2, 3, 4, 5]]);
}

#[test]
fn split_by_token_size_closes_a_chunk_that_is_exactly_full() {
    let doc = document(&["a b", "c d", "e"]);
    assert_eq!(shape(&doc.split_by_token_size(4)), vec![vec![1, 2], vec![3]]);
    assert_eq!(shape(&doc.split_by_token_size(5)), vec![vec![1, 2, 3]]);
}

#[test]
fn split_by_token_size_keeps_an_oversized_record_alone() {
    // weights 1, 5, 1, 1
    let doc = document(&["a", "b c d e f", "g", "h"]);
    assert_eq!(shape(&doc.split_by_token_size(2)), vec![vec![1], vec![2], vec![3, 4]]);
    assert_eq!(shape(&doc.split_by_token_size(4)), vec![vec![1], vec![2], vec![3, 4]]);
}

#[test]
fn split_by_token_size_makes_no_empty_chunk_for_an_oversized_first_record() {
    let doc = document(&["a b c d e", "f", "g"]);
    assert_eq!(shape(&doc.split_by_token_size(2)), vec![vec![1], vec![2, 3]]);
    let alone = document(&["a b c d e"]);
    assert_eq!(shape(&alone.split_by_token_size(2)), vec![vec![1]]);
    let last = document(&["a", "b c d e f"]);
    assert_eq!(shape(&last.split_by_token_size(2)), vec![vec![1], vec![2]]);
}

#[test]
fn split_by_token_size_with_no_budget_gives_one_record_each() {
    let doc = document(&["a", "b c", "d"]);
    assert_eq!(shape(&doc.split_by_token_size(0)), vec![vec![1], vec![2], vec![3]]);
}

#[test]
fn split_by_token_size_puts_records_without_words_with_their_neighbours() {
    let doc = document(&["", "", "a b", "", "c d", ""]);
    assert_eq!(shape(&doc.split_by_token_size(2)), vec![vec![1, 2, 3, 4], vec![5, 6]]);
    assert_eq!(
        shape(&doc.split_by_token_size(0)),
        vec![vec![1, 2], vec![3], vec![4], vec![5], vec![6]]
    );
}

#[test]
fn split_by_token_size_of_an_empty_document_gives_no_chunk() {
    assert_eq!(document(&[]).split_by_token_size(10).len(), 0);
    assert_eq!(document(&[]).split_by_token_size(0).len(), 0);
}

#[test]
fn split_by_token_size_respects_the_budget() {
    let doc = document(&["a b c", "d", "e f g h i j k", "l m", "n", "o p q r", "s"]);
    for budget in 0..12usize {
        let chunks = doc.split_by_token_size(budget);
        for chunk in chunks.iter() {
            assert!(!chunk.subtitles.is_empty());
            let weight: usize = chunk.subtitles.iter().map(|s| s.get_token_number()).sum();
            if chunk.subtitles.len() > 1 {
                assert!(weight <= budget);
            }
            for s in chunk.subtitles.iter() {
                if s.get_token_number() > budget {
                    assert_eq!(chunk.subtitles.len(), 1);
                }
            }
            assert_eq!(chunk.language, Some("en".to_string()));
        }
        for pair in chunks.windows(2) {
            let weight: usize = pair[0].subtitles.iter().map(|s| s.get_token_number()).sum();
            assert!(weight + pair[1].subtitles[0].get_token_number() > budget);
        }
        let back = SRTProcessor::from_concat(chunks);
        assert_eq!(snapshot(&back), snapshot(&doc));
    }
}

#[test]
fn from_concat_appends_in_order() {
    let a = SRTProcessor { subtitles: vec![caption(5, "x"), caption(6, "y")], language: None };
    let b = SRTProcessor { subtitles: vec![], language: None };
    let c = SRTProcessor { subtitles: vec![caption(1, "z")], language: None };
    let all = SRTProcessor::from_concat(vec![a, b, c]);
    assert_eq!(indices(&all), vec![5, 6, 1]);
    assert_eq!(all.subtitles[2].text(), "z");
    assert_eq!(all.language, None);
}

#[test]
fn from_concat_takes_the_first_language() {
    let a = SRTProcessor { subtitles: vec![caption(1, "x")], language: None };
    let b = SRTProcessor { subtitles: vec![caption(2, "y")], language: Some("de".to_string()) };
    let c = SRTProcessor { subtitles: vec![caption(3, "z")], language: Some("fr".to_string()) };
    let all = SRTProcessor::from_concat(vec![a, b, c]);
    assert_eq!(all.language, Some("de".to_string()));
    assert_eq!(indices(&all), vec![1, 2, 3]);
}

#[test]
fn from_concat_of_nothing_is_empty() {
    let all = SRTProcessor::from_concat(Vec::new());
    assert_eq!(all.subtitles.len(), 0);
    assert_eq!(all.language, None);
}
