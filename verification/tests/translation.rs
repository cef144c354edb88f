use srt_translator::error::{OrchestratorError, ServiceError};
use srt_translator::service::{choose_completion, read_completion, read_exchange, Exchange};
use srt_translator::srt_parser::{SRTProcessor, Subtitle};
use srt_translator::translator::{
    translated_file_name, Progress, TranslationJob, Translator, PROMPT_OPENING, PROMPT_RULES,
};

fn caption(index: usize, text: &str) -> Subtitle {
    Subtitle::new(index, format!("00:00:0{},000", index), format!("00:00:0{},500", index), text.to_string())
}

fn document(texts: &[&str]) -> SRTProcessor {
    SRTProcessor {
        subtitles: texts.iter().enumerate().map(|(i, t)| caption(i + 1, t)).collect(),
        language: Some("en".to_string()),
    }
}

fn settings(max_token: u64) -> Translator {
    Translator {
        language: "French".to_string(),
        text: String::new(),
        model: "gpt-3.5-turbo".to_string(),
        max_token,
    }
}

fn snapshot(doc: &SRTProcessor) -> Vec<(usize, String, String, String)> {
    doc.subtitles
        .iter()
        .map(|s| (s.index(), s.start().clone(), s.end().clone(), s.text().clone()))
        .collect()
}

fn expected(rows: &[(usize, &str)]) -> Vec<(usize, String, String, String)> {
    rows.iter()
        .map(|(i, t)| (*i, format!("00:00:0{},000", i), format!("00:00:0{},500", i), t.to_string()))
        .collect()
}

/// Five records of two words each: a budget of six gives chunks of 3 + 2.
fn five() -> SRTProcessor {
    document(&["one a", "two b", "three c", "four d", "five e"])
}

#[test]
fn frame_of_a_caption_is_its_text() {
    assert_eq!(caption(1, "Hello\nthere").text_to_string(), "Hello\nthere");
}

#[test]
fn payload_joins_texts_with_an_empty_line() {
    assert_eq!(document(&["a", "b\nc", "d"]).text_to_string(), "a\n\nb\nc\n\nd");
    assert_eq!(document(&["only"]).text_to_string(), "only");
    assert_eq!(document(&[]).text_to_string(), "");
    assert_eq!(document(&["", ""]).text_to_string(), "\n\n");
}

#[test]
fn response_replaces_texts_by_position() {
    let doc = document(&["a", "b", "c"]);
    let out = doc.parse_llm_reponse("x\n\ny y\ny\n\nz".to_string()).unwrap();
    assert_eq!(snapshot(&out), expected(&[(1, "x"), (2, "y y\ny"), (3, "z")]));
    assert_eq!(out.language, None);
    assert_eq!(snapshot(&doc), expected(&[(1, "a"), (2, "b"), (3, "c")]));
}

#[test]
fn response_with_one_frame_fewer_is_a_mismatch() {
    let doc = document(&["a", "b", "c"]);
    assert_eq!(
        doc.parse_llm_reponse("x\n\ny".to_string()).err(),
        Some(OrchestratorError::ResponseLengthMismatch)
    );
}

#[test]
fn response_with_one_frame_more_is_a_mismatch() {
    let doc = document(&["a", "b"]);
    assert_eq!(
        doc.parse_llm_reponse("x\n\ny\n\nz".to_string()).err(),
        Some(OrchestratorError::ResponseLengthMismatch)
    );
}

#[test]
fn response_frames_are_cut_from_the_left() {
    let doc = document(&["a", "b"]);
    let out = doc.parse_llm_reponse("x\n\n\ny".to_string()).unwrap();
    assert_eq!(snapshot(&out), expected(&[(1, "x"), (2, "\ny")]));
    let out = doc.parse_llm_reponse("\n\n".to_string()).unwrap();
    assert_eq!(snapshot(&out), expected(&[(1, ""), (2, "")]));
    assert_eq!(
        doc.parse_llm_reponse("x\n\n\n\ny".to_string()).err(),
        Some(OrchestratorError::ResponseLengthMismatch)
    );
}

#[test]
fn response_for_an_empty_document_never_matches() {
    let doc = document(&[]);
    assert_eq!(
        doc.parse_llm_reponse(String::new()).err(),
        Some(OrchestratorError::ResponseLengthMismatch)
    );
}

#[test]
fn echo_gives_the_document_back() {
    let doc = document(&["a b", "c\nd", "e"]);
    let out = doc.parse_llm_reponse(doc.text_to_string()).unwrap();
    assert_eq!(snapshot(&out), snapshot(&doc));
}

#[test]
fn job_plans_chunks_under_the_budget() {
    let job = TranslationJob::new(&settings(6), &five());
    assert_eq!(job.chunk_count(), 2);
    assert_eq!(job.payload(0), Some("one a\n\ntwo b\n\nthree c".to_string()));
    assert_eq!(job.payload(1), Some("four d\n\nfive e".to_string()));
    assert_eq!(job.payload(2), None);
    assert_eq!(job.progress(), Progress::Waiting);
    assert!(job.finish().is_none());
}

#[test]
fn job_takes_a_budget_beyond_the_machine_word() {
    let job = TranslationJob::new(&settings(u64::MAX), &five());
    assert_eq!(job.chunk_count(), 1);
}

#[test]
fn job_for_an_empty_document_is_complete_at_once() {
    let job = TranslationJob::new(&settings(10), &document(&[]));
    assert_eq!(job.chunk_count(), 0);
    assert_eq!(job.progress(), Progress::Complete);
    let out = job.finish().unwrap().unwrap();
    assert_eq!(out.subtitles.len(), 0);
    assert_eq!(out.language, Some("French".to_string()));
}

#[test]
fn completion_in_reverse_order_keeps_the_record_order() {
    let mut job = TranslationJob::new(&settings(6), &five());
    assert_eq!(job.record(1, Ok("quatre\n\ncinq".to_string())), Progress::Waiting);
    assert_eq!(job.record(0, Ok("un\n\ndeux\n\ntrois".to_string())), Progress::Complete);
    let out = job.finish().unwrap().unwrap();
    assert_eq!(
        snapshot(&out),
        expected(&[(1, "un"), (2, "deux"), (3, "trois"), (4, "quatre"), (5, "cinq")])
    );
    assert_eq!(out.language, Some("French".to_string()));
}

#[test]
fn completion_in_plan_order_gives_the_same_document() {
    let mut job = TranslationJob::new(&settings(6), &five());
    assert_eq!(job.record(0, Ok("un\n\ndeux\n\ntrois".to_string())), Progress::Waiting);
    assert_eq!(job.record(1, Ok("quatre\n\ncinq".to_string())), Progress::Complete);
    let out = job.finish().unwrap().unwrap();
    assert_eq!(
        snapshot(&out),
        expected(&[(1, "un"), (2, "deux"), (3, "trois"), (4, "quatre"), (5, "cinq")])
    );
}

#[test]
fn every_completion_order_gives_the_same_document() {
    let doc = document(&["a", "b", "c", "d"]);
    let orders: [[usize; 4]; 6] =
        [[0, 1, 2, 3], [3, 2, 1, 0], [1, 3, 0, 2], [2, 0, 3, 1], [0, 2, 1, 3], [3, 0, 1, 2]];
    for order in orders {
        let mut job = TranslationJob::new(&settings(1), &doc);
        assert_eq!(job.chunk_count(), 4);
        for i in order {
            job.record(i, Ok(format!("t{}", i + 1)));
        }
        let out = job.finish().unwrap().unwrap();
        assert_eq!(snapshot(&out), expected(&[(1, "t1"), (2, "t2"), (3, "t3"), (4, "t4")]));
    }
}

#[test]
fn mismatched_response_fails_the_job() {
    let mut job = TranslationJob::new(&settings(6), &five());
    assert_eq!(job.record(1, Ok("quatre\n\ncinq".to_string())), Progress::Waiting);
    assert_eq!(
        job.record(0, Ok("un\n\ndeux".to_string())),
        Progress::Failed(OrchestratorError::ResponseLengthMismatch)
    );
    assert_eq!(job.progress(), Progress::Failed(OrchestratorError::ResponseLengthMismatch));
    assert_eq!(job.finish().unwrap().err(), Some(OrchestratorError::ResponseLengthMismatch));
}

#[test]
fn service_error_fails_the_job() {
    let kinds = [
        ServiceError::CredentialMissing,
        ServiceError::TransportFailure,
        ServiceError::NonSuccessStatus,
        ServiceError::UnexpectedResponseShape,
    ];
    for kind in kinds {
        let mut job = TranslationJob::new(&settings(6), &five());
        assert_eq!(job.record(0, Err(kind)), Progress::Failed(OrchestratorError::Service(kind)));
        assert_eq!(job.finish().unwrap().err(), Some(OrchestratorError::Service(kind)));
    }
}

#[test]
fn first_failure_is_kept_and_later_completions_are_ignored() {
    let mut job = TranslationJob::new(&settings(2), &five());
    assert_eq!(job.chunk_count(), 5);
    assert_eq!(job.record(3, Ok("quatre".to_string())), Progress::Waiting);
    assert_eq!(
        job.record(1, Err(ServiceError::TransportFailure)),
        Progress::Failed(OrchestratorError::Service(ServiceError::TransportFailure))
    );
    assert_eq!(
        job.record(0, Ok("un".to_string())),
        Progress::Failed(OrchestratorError::Service(ServiceError::TransportFailure))
    );
    assert_eq!(
        job.record(2, Ok("a\n\nb".to_string())),
        Progress::Failed(OrchestratorError::Service(ServiceError::TransportFailure))
    );
    assert_eq!(
        job.record(4, Err(ServiceError::NonSuccessStatus)),
        Progress::Failed(OrchestratorError::Service(ServiceError::TransportFailure))
    );
    assert_eq!(
        job.finish().unwrap().err(),
        Some(OrchestratorError::Service(ServiceError::TransportFailure))
    );
}

#[test]
fn success_of_all_other_chunks_does_not_save_a_failed_job() {
    let mut job = TranslationJob::new(&settings(6), &five());
    job.record(0, Err(ServiceError::NonSuccessStatus));
    job.record(1, Ok("quatre\n\ncinq".to_string()));
    job.record(0, Ok("un\n\ndeux\n\ntrois".to_string()));
    assert_eq!(
        job.finish().unwrap().err(),
        Some(OrchestratorError::Service(ServiceError::NonSuccessStatus))
    );
}

#[test]
fn second_completion_for_a_chunk_is_ignored() {
    let mut job = TranslationJob::new(&settings(6), &five());
    assert_eq!(job.record(0, Ok("un\n\ndeux\n\ntrois".to_string())), Progress::Waiting);
    assert_eq!(job.record(0, Ok("1\n\n2\n\n3".to_string())), Progress::Waiting);
    assert_eq!(job.record(0, Err(ServiceError::TransportFailure)), Progress::Waiting);
    assert_eq!(job.record(0, Ok("broken".to_string())), Progress::Waiting);
    assert_eq!(job.record(1, Ok("quatre\n\ncinq".to_string())), Progress::Complete);
    let out = job.finish().unwrap().unwrap();
    assert_eq!(
        snapshot(&out),
        expected(&[(1, "un"), (2, "deux"), (3, "trois"), (4, "quatre"), (5, "cinq")])
    );
}

#[test]
fn completion_for_a_chunk_outside_the_plan_is_ignored() {
    let mut job = TranslationJob::new(&settings(6), &five());
    assert_eq!(job.record(2, Err(ServiceError::TransportFailure)), Progress::Waiting);
    assert_eq!(job.record(usize::MAX, Ok("x".to_string())), Progress::Waiting);
    assert_eq!(job.progress(), Progress::Waiting);
    assert!(job.finish().is_none());
}

#[test]
fn translation_keeps_an_oversized_record_in_place() {
    let doc = document(&["a", "b c d e f g", "h", "i"]);
    let mut job = TranslationJob::new(&settings(2), &doc);
    assert_eq!(job.chunk_count(), 3);
    assert_eq!(job.payload(1), Some("b c d e f g".to_string()));
    job.record(2, Ok("H\n\nI".to_string()));
    job.record(1, Ok("B C D E F G".to_string()));
    job.record(0, Ok("A".to_string()));
    let out = job.finish().unwrap().unwrap();
    assert_eq!(snapshot(&out), expected(&[(1, "A"), (2, "B C D E F G"), (3, "H"), (4, "I")]));
}

#[test]
fn prompt_names_the_language_and_ends_with_the_payload() {
    let text = settings(10).prompt("a\n\nb");
    assert_eq!(
        text,
        "Here is a list of dialog from a srt files, translate them in French, in the input that\n                    I give you, everytime there is an empty line it means that it's a different frame,keep it the same for the translation.\n                    Just give me the raw translation, no comment inbetween or before. Thank you in advance\na\n\nb"
    );
    assert_eq!(text, format!("{}{}{}{}", PROMPT_OPENING, "French", PROMPT_RULES, "a\n\nb"));
}

#[test]
fn translated_file_name_puts_a_prefix_before_the_path() {
    assert_eq!(translated_file_name("movie.srt"), "translated_movie.srt");
    assert_eq!(translated_file_name(""), "translated_");
}

#[test]
fn settings_can_be_copied() {
    let a = settings(1000);
    let b = a.clone();
    assert_eq!(b.language, "French");
    assert_eq!(b.model, "gpt-3.5-turbo");
    assert_eq!(b.max_token, 1000);
    assert_eq!(b.text, "");
}

#[test]
fn completion_is_chosen_from_status_and_content() {
    assert_eq!(choose_completion(true, Some("text".to_string())), Ok("text".to_string()));
    assert_eq!(choose_completion(true, None), Err(ServiceError::UnexpectedResponseShape));
    assert_eq!(choose_completion(false, Some("text".to_string())), Err(ServiceError::NonSuccessStatus));
    assert_eq!(choose_completion(false, None), Err(ServiceError::NonSuccessStatus));
}

#[test]
fn completion_is_read_from_the_first_choice() {
    let body = r#"{"id":"x","choices":[{"index":0,"message":{"role":"assistant","content":"Bonjour\n\nMerci"}},{"index":1,"message":{"role":"assistant","content":"second"}}],"usage":{"total_tokens":5}}"#;
    assert_eq!(read_completion(true, body), Ok("Bonjour\n\nMerci".to_string()));
    assert_eq!(
        read_completion(true, r#" { "choices" : [ { "message" : { "content" : "" } } ] } "#),
        Ok(String::new())
    );
}

#[test]
fn completion_decodes_json_escapes() {
    let body = r#"{"choices":[{"message":{"content":"aé\"b\\c\td"}}]}"#;
    assert_eq!(read_completion(true, body), Ok("aé\"b\\c\td".to_string()));
}

#[test]
fn completion_of_a_failed_status_is_an_error_whatever_the_body() {
    let body = r#"{"choices":[{"message":{"content":"Bonjour"}}]}"#;
    assert_eq!(read_completion(false, body), Err(ServiceError::NonSuccessStatus));
    assert_eq!(read_completion(false, "not json"), Err(ServiceError::NonSuccessStatus));
}

#[test]
fn completion_without_the_text_is_an_unexpected_shape() {
    let bodies = [
        "",
        "not json",
        "{",
        "null",
        "[]",
        "{}",
        r#""choices""#,
        r#"{"choices":[]}"#,
        r#"{"choices":{}}"#,
        r#"{"choices":{"0":{"message":{"content":"x"}}}}"#,
        r#"{"choices":[{}]}"#,
        r#"{"choices":[[]]}"#,
        r#"{"choices":[{"message":{}}]}"#,
        r#"{"choices":[{"message":[{"content":"x"}]}]}"#,
        r#"{"choices":[{"message":{"content":null}}]}"#,
        r#"{"choices":[{"message":{"content":5}}]}"#,
        r#"{"choices":[{"message":{"content":["x"]}}]}"#,
        r#"{"choices":[{"message":{"content":{"text":"x"}}}]}"#,
        r#"{"choices":[{"message":"x"}]}"#,
        r#"{"Choices":[{"message":{"content":"x"}}]}"#,
        r#"{"choices":[{"message":{"content":"x"}}]} trailing"#,
        r#"{"outer":{"choices":[{"message":{"content":"x"}}]}}"#,
        r#"[{"choices":[{"message":{"content":"x"}}]}]"#,
        r#"{"choices":[null,{"message":{"content":"x"}}]}"#,
    ];
    for body in bodies {
        assert_eq!(read_completion(true, body), Err(ServiceError::UnexpectedResponseShape), "{}", body);
    }
}

#[test]
fn completion_takes_the_last_of_repeated_keys() {
    let body = r#"{"choices":[{"message":{"content":"first","content":"second"}}]}"#;
    assert_eq!(read_completion(true, body), Ok("second".to_string()));
}

#[test]
fn translation_errors_have_messages() {
    assert_eq!(
        ServiceError::CredentialMissing.message(),
        "no credential for the translation service was found"
    );
    assert_eq!(
        ServiceError::TransportFailure.message(),
        "the request to the translation service failed"
    );
    assert_eq!(
        ServiceError::NonSuccessStatus.message(),
        "the translation service answered with a status that is no success"
    );
    assert_eq!(ServiceError::UnexpectedResponseShape.message(), "the answer of the translation service holds no translated text");
    assert_eq!(
        OrchestratorError::ResponseLengthMismatch.message(),
        "the response does not hold one frame for each record of its chunk"
    );
    assert_eq!(
        OrchestratorError::Service(ServiceError::NonSuccessStatus).message(),
        "the translation service answered with a status that is no success"
    );
}

#[test]
fn exchange_without_credential_or_answer_is_an_error_of_its_own() {
    assert_eq!(read_exchange(Exchange::CredentialMissing), Err(ServiceError::CredentialMissing));
    assert_eq!(read_exchange(Exchange::Unanswered), Err(ServiceError::TransportFailure));
}

#[test]
fn exchange_with_an_answer_is_read_from_status_and_body() {
    let body = r#"{"choices":[{"message":{"content":"Salut"}}]}"#.to_string();
    assert_eq!(
        read_exchange(Exchange::Answered { success: true, body: body.clone() }),
        Ok("Salut".to_string())
    );
    assert_eq!(
        read_exchange(Exchange::Answered { success: false, body }),
        Err(ServiceError::NonSuccessStatus)
    );
    assert_eq!(
        read_exchange(Exchange::Answered { success: true, body: String::new() }),
        Err(ServiceError::UnexpectedResponseShape)
    );
}
