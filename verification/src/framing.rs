//! The framing of a translation request and of its response: the texts of a
//! chunk go out as frames with an empty line between them, and the same
//! number of frames is expected back, in the same order.

use crate::model::Record;
use crate::text::{
    first_match, join, lemma_find_from, lemma_join_prepend, lemma_split_cons, matches_at, split_on,
};
use vstd::prelude::*;

verus! {

/// What stands between two frames: an empty line.
pub open spec fn frame_separator() -> Seq<char> {
    seq!['\n', '\n']
}

/// The texts of the records, in order.
pub open spec fn texts_of(records: Seq<Record>) -> Seq<Seq<char>> {
    records.map_values(|r: Record| r.text)
}

/// What is sent for the records: their texts as frames.
pub open spec fn payload(records: Seq<Record>) -> Seq<char> {
    join(texts_of(records), frame_separator())
}

/// The frames of a response.
pub open spec fn frames(response: Seq<char>) -> Seq<Seq<char>> {
    split_on(response, frame_separator())
}

/// The records with the texts replaced, position by position.
pub open spec fn retexted(records: Seq<Record>, texts: Seq<Seq<char>>) -> Seq<Record> {
    Seq::new(records.len(), |i: int| records[i].with_text(texts[i]))
}

/// The records with the frames of the response as their texts, where the
/// response holds one frame for each record.
pub open spec fn translated(records: Seq<Record>, response: Seq<char>) -> Option<Seq<Record>> {
    if frames(response).len() == records.len() {
        Some(retexted(records, frames(response)))
    } else {
        None
    }
}

/// The text can stand as a frame: it holds no empty line, which would be
/// read as the end of the frame.
pub open spec fn is_frame(text: Seq<char>) -> bool {
    first_match(text, frame_separator()) is None
}

/// The texts can be told apart again after they were framed: each can
/// stand as a frame, and none but the last ends with a line break, which
/// would run into the separator after it.
pub open spec fn are_frames(texts: Seq<Seq<char>>) -> bool {
    &&& texts.len() >= 1
    &&& forall|i: int| 0 <= i < texts.len() ==> is_frame(#[trigger] texts[i])
    &&& forall|i: int|
        0 <= i < texts.len() - 1 ==> !((#[trigger] texts[i]).len() > 0 && texts[i].last() == '\n')
}

/// The frame separator occurs where two line breaks stand side by side.
proof fn lemma_matches_separator(s: Seq<char>, j: int)
    ensures
        matches_at(s, frame_separator(), j) <==> (0 <= j && j + 2 <= s.len() && s[j] == '\n' && s[j
            + 1] == '\n'),
{
    if 0 <= j && j + 2 <= s.len() {
        let window = s.subrange(j, j + 2);
        assert(window[0] == s[j]);
        assert(window[1] == s[j + 1]);
        if s[j] == '\n' && s[j + 1] == '\n' {
            assert(window =~= frame_separator());
        }
    }
}

/// Framing loses nothing: the frames of joined texts are the texts.
pub proof fn lemma_frames_of_joined(texts: Seq<Seq<char>>)
    requires
        are_frames(texts),
    ensures
        frames(join(texts, frame_separator())) == texts,
    decreases texts.len(),
{
    let sep = frame_separator();
    if texts.len() == 1 {
        assert(texts =~= seq![texts[0]]);
    } else {
        let first = texts[0];
        let others = texts.drop_first();
        assert(texts =~= seq![first] + others);
        lemma_join_prepend(first, others, sep);
        let tail = join(others, sep);
        let s = first + sep + tail;
        assert forall|j: int| 0 <= j < first.len() implies !matches_at(s, sep, j) by {
            lemma_matches_separator(s, j);
            lemma_matches_separator(first, j);
            lemma_find_from(first, sep, 0);
            if j + 1 < first.len() {
                assert(s[j] == first[j] && s[j + 1] == first[j + 1]);
                assert(!matches_at(first, sep, j));
            } else {
                assert(s[j] == first.last());
            }
        }
        lemma_split_cons(first, sep, tail);
        assert forall|i: int| 0 <= i < others.len() implies is_frame(#[trigger] others[i]) by {
            assert(others[i] == texts[i + 1]);
        }
        assert forall|i: int| 0 <= i < others.len() - 1 implies !((#[trigger] others[i]).len() > 0
            && others[i].last() == '\n') by {
            assert(others[i] == texts[i + 1]);
        }
        lemma_frames_of_joined(others);
    }
}

/// A service that answers with the payload it was sent translates every
/// record into itself.
pub proof fn lemma_echo_translates_nothing(records: Seq<Record>)
    requires
        are_frames(texts_of(records)),
    ensures
        translated(records, payload(records)) == Some(records),
{
    lemma_frames_of_joined(texts_of(records));
    assert(retexted(records, texts_of(records)) =~= records);
}

} // verus!
