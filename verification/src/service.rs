//! Reading the answer of the translation service: the status and the body
//! of a response become the translated text, or the reason why there is
//! none. The body is JSON; `serde_json` reads it.

use crate::error::ServiceError;
use vstd::prelude::*;

verus! {

/// `serde_json::Value`: a JSON value. Nothing of its inside is known here
/// but what the functions below say.
#[verifier::external_type_specification]
#[verifier::external_body]
pub struct ExJsonValue(serde_json::Value);

/// `serde_json::Error`: why a text is no JSON value. It is only passed on.
#[verifier::external_type_specification]
#[verifier::external_body]
pub struct ExJsonError(serde_json::Error);

/// One step of a path into a JSON value.
pub ghost enum PathStep {
    /// Into an object, to the member under a key.
    Key(Seq<char>),
    /// Into an array, to the element at a position.
    Index(nat),
}

/// The strings that a JSON value holds, each under the path that leads to
/// it from the value. A value that is a string holds itself under the
/// empty path.
pub uninterp spec fn json_strings(value: serde_json::Value) -> Map<Seq<PathStep>, Seq<char>>;

/// The strings of the JSON value that a text writes, or `None` where the
/// text is no JSON value.
pub uninterp spec fn json_text_strings(text: Seq<char>) -> Option<Map<Seq<PathStep>, Seq<char>>>;

/// The strings of `all` whose paths start with `step`, each under the rest
/// of its path.
pub open spec fn below(all: Map<Seq<PathStep>, Seq<char>>, step: PathStep) -> Map<
    Seq<PathStep>,
    Seq<char>,
> {
    Map::new(
        |path: Seq<PathStep>| all.dom().contains(seq![step] + path),
        |path: Seq<PathStep>| all[seq![step] + path],
    )
}

/// No string of `all` has a path that starts with `step`.
pub open spec fn nothing_below(all: Map<Seq<PathStep>, Seq<char>>, step: PathStep) -> bool {
    forall|path: Seq<PathStep>| !all.dom().contains(#[trigger] (seq![step] + path))
}

/// `serde_json::from_str`, for a `Value`: reads a text as a JSON value. The
/// strings of the value it gives are those named for the text; it fails
/// exactly where none are named.
#[verifier::external_body]
fn json_from_str(text: &str) -> (out: Result<serde_json::Value, serde_json::Error>)
    ensures
        match out {
            Ok(value) => json_text_strings(text@) == Some(json_strings(value)),
            Err(_) => json_text_strings(text@) is None,
        },
{
    serde_json::from_str::<serde_json::Value>(text)
}

/// `serde_json::Value::get`, with a string: the member of an object under
/// `key`. The strings of the member are those of the value whose paths
/// start with the key. Where there is no such member, because the value is
/// no object or has no such key, no path starts with the key.
#[verifier::external_body]
fn json_member<'a>(value: &'a serde_json::Value, key: &str) -> (out: Option<&'a serde_json::Value>)
    ensures
        match out {
            Some(member) => json_strings(*member) == below(
                json_strings(*value),
                PathStep::Key(key@),
            ),
            None => nothing_below(json_strings(*value), PathStep::Key(key@)),
        },
{
    value.get(key)
}

/// `serde_json::Value::get`, with a number: the element of an array at
/// `index`. The strings of the element are those of the value whose paths
/// start with the index. Where there is no such element, because the value
/// is no array or is too short, no path starts with the index.
#[verifier::external_body]
fn json_element<'a>(value: &'a serde_json::Value, index: usize) -> (out: Option<
    &'a serde_json::Value,
>)
    ensures
        match out {
            Some(element) => json_strings(*element) == below(
                json_strings(*value),
                PathStep::Index(index as nat),
            ),
            None => nothing_below(json_strings(*value), PathStep::Index(index as nat)),
        },
{
    value.get(index)
}

/// `serde_json::Value::as_str`: the string that the value is, or `None`
/// where the value is no string. A value is a string exactly where it
/// holds a string under the empty path.
#[verifier::external_body]
fn json_as_str<'a>(value: &'a serde_json::Value) -> (out: Option<&'a str>)
    ensures
        match out {
            Some(text) => json_strings(*value).dom().contains(Seq::empty()) && json_strings(
                *value,
            )[Seq::empty()] == text@,
            None => !json_strings(*value).dom().contains(Seq::empty()),
        },
{
    value.as_str()
}

/// Where the translated text stands in the service's answer: in the
/// content of the message of the first choice.
pub open spec fn content_path() -> Seq<PathStep> {
    seq![
        PathStep::Key("choices"@),
        PathStep::Index(0),
        PathStep::Key("message"@),
        PathStep::Key("content"@),
    ]
}

/// The translated text among the strings of a body, where it is there.
pub open spec fn content_of(strings: Option<Map<Seq<PathStep>, Seq<char>>>) -> Option<Seq<char>> {
    match strings {
        Some(all) if all.dom().contains(content_path()) => Some(all[content_path()]),
        _ => None,
    }
}

/// What a response stands for: a status that is no success is an error
/// whatever the body holds; a success without the text is an error of its
/// own; and else the text.
pub open spec fn completion_of(success: bool, content: Option<Seq<char>>) -> Reply {
    if !success {
        Err(ServiceError::NonSuccessStatus)
    } else {
        match content {
            Some(text) => Ok(text),
            None => Err(ServiceError::UnexpectedResponseShape),
        }
    }
}

/// What a request gave: the service's text, or the service's error.
pub type Reply = Result<Seq<char>, ServiceError>;

/// What a request gave, with the text as a sequence of characters.
pub open spec fn reply_of(out: Result<String, ServiceError>) -> Reply {
    match out {
        Ok(text) => Ok(text@),
        Err(e) => Err(e),
    }
}

/// Decides what a response stands for, from its status and from the text
/// that was found in its body.
pub fn choose_completion(success: bool, content: Option<String>) -> (out: Result<
    String,
    ServiceError,
>)
    ensures
        reply_of(out) == completion_of(success, content.deep_view()),
{
    if !success {
        Err(ServiceError::NonSuccessStatus)
    } else {
        match content {
            Some(text) => Ok(text),
            None => Err(ServiceError::UnexpectedResponseShape),
        }
    }
}

/// Looks the translated text up in the body of a response.
fn find_content(body: &str) -> (out: Option<String>)
    ensures
        out.deep_view() == content_of(json_text_strings(body@)),
{
    let value = match json_from_str(body) {
        Ok(value) => value,
        Err(_) => {
            return None;
        },
    };
    let ghost all = json_strings(value);
    let ghost path = content_path();
    let choices = match json_member(&value, "choices") {
        Some(choices) => choices,
        None => {
            assert(path =~= seq![path[0]] + path.skip(1));
            return None;
        },
    };
    let first = match json_element(choices, 0) {
        Some(first) => first,
        None => {
            assert(path.skip(1) =~= seq![path[1]] + path.skip(2));
            assert(path =~= seq![path[0]] + path.skip(1));
            return None;
        },
    };
    let message = match json_member(first, "message") {
        Some(message) => message,
        None => {
            assert(path.skip(2) =~= seq![path[2]] + path.skip(3));
            assert(path.skip(1) =~= seq![path[1]] + path.skip(2));
            assert(path =~= seq![path[0]] + path.skip(1));
            return None;
        },
    };
    let content = match json_member(message, "content") {
        Some(content) => content,
        None => {
            assert(path.skip(3) =~= seq![path[3]] + Seq::<PathStep>::empty());
            assert(path.skip(2) =~= seq![path[2]] + path.skip(3));
            assert(path.skip(1) =~= seq![path[1]] + path.skip(2));
            assert(path =~= seq![path[0]] + path.skip(1));
            return None;
        },
    };
    proof {
        assert(path.skip(3) =~= seq![path[3]] + Seq::<PathStep>::empty());
        assert(path.skip(2) =~= seq![path[2]] + path.skip(3));
        assert(path.skip(1) =~= seq![path[1]] + path.skip(2));
        assert(path =~= seq![path[0]] + path.skip(1));
    }
    match json_as_str(content) {
        Some(text) => Some(text.to_owned()),
        None => None,
    }
}

/// Reads a response of the service: `success` says whether its status was
/// a success, `body` is what it carried. Gives the translated text, which
/// is the content of the message of the first choice in the body.
pub fn read_completion(success: bool, body: &str) -> (out: Result<String, ServiceError>)
    ensures
        reply_of(out) == completion_of(success, content_of(json_text_strings(body@))),
{
    if !success {
        return Err(ServiceError::NonSuccessStatus);
    }
    choose_completion(true, find_content(body))
}

/// What became of one request to the service.
#[derive(Debug)]
pub enum Exchange {
    /// No credential was found, so nothing was sent.
    CredentialMissing,
    /// The request could not be sent, or its response could not be
    /// received.
    Unanswered,
    /// A response was received.
    Answered {
        /// Whether the status of the response was a success.
        success: bool,
        /// What the response carried.
        body: String,
    },
}

/// What an exchange stands for, given the text that the body of its
/// response holds.
pub open spec fn exchange_outcome(exchange: Exchange) -> Reply {
    match exchange {
        Exchange::CredentialMissing => Err(ServiceError::CredentialMissing),
        Exchange::Unanswered => Err(ServiceError::TransportFailure),
        Exchange::Answered { success, body } => completion_of(
            success,
            content_of(json_text_strings(body@)),
        ),
    }
}

/// Reads what became of a request: the translated text, or the kind of
/// failure. Each way in which a request can fail has a kind of its own.
pub fn read_exchange(exchange: Exchange) -> (out: Result<String, ServiceError>)
    ensures
        reply_of(out) == exchange_outcome(exchange),
{
    match exchange {
        Exchange::CredentialMissing => Err(ServiceError::CredentialMissing),
        Exchange::Unanswered => Err(ServiceError::TransportFailure),
        Exchange::Answered { success, body } => read_completion(success, body.as_str()),
    }
}

} // verus!
