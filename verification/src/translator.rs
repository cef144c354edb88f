//! Translating a document chunk by chunk: the settings of a translation,
//! and the job that plans the chunks, takes the result of each request as
//! it completes and puts the translated document together in plan order.
//!
//! The job makes no request itself. Its caller sends the payload of each
//! chunk to the service and reports every completion, in any order.

use crate::chunking::is_token_plan;
use crate::error::{OrchestratorError, ServiceError};
use crate::framing::payload;
use crate::model::{groups_of, Record};
use crate::orchestration::{all_filled, fresh, standing, step, Completion, Job, Standing};
use crate::service::reply_of;
use crate::srt_parser::{documents_of, SRTProcessor};
use vstd::prelude::*;
use vstd::string::StringExecFns;

verus! {

/// The settings of a translation.
#[derive(Debug)]
pub struct Translator {
    /// The language to translate into.
    pub language: String,
    /// The payload of the whole document.
    pub text: String,
    /// The name of the service's model.
    pub model: String,
    /// The budget of tokens for one request.
    pub max_token: u64,
}

impl Clone for Translator {
    fn clone(&self) -> (out: Self)
        ensures
            out == *self,
    {
        Translator {
            language: self.language.clone(),
            text: self.text.clone(),
            model: self.model.clone(),
            max_token: self.max_token,
        }
    }
}

/// How the instruction to the service begins, up to the target language.
pub const PROMPT_OPENING: &'static str =
    "Here is a list of dialog from a srt files, translate them in ";

/// How the instruction to the service goes on after the target language,
/// up to the payload.
pub const PROMPT_RULES: &'static str =
    ", in the input that\n                    I give you, everytime there is an empty line it means that it's a different frame,keep it the same for the translation.\n                    Just give me the raw translation, no comment inbetween or before. Thank you in advance\n";

/// What a translated file's name has before the name of its source.
pub const TRANSLATED_PREFIX: &'static str = "translated_";

/// The instruction that asks for the translation of `subtitles` into
/// `language`.
pub open spec fn prompt_of(language: Seq<char>, subtitles: Seq<char>) -> Seq<char> {
    PROMPT_OPENING@ + language + PROMPT_RULES@ + subtitles
}

impl Translator {
    /// The instruction to the service for one payload: it names the target
    /// language, says how frames are told apart, and ends with the payload.
    pub fn prompt(&self, subtitles: &str) -> (out: String)
        ensures
            out@ == prompt_of(self.language@, subtitles@),
    {
        let mut out = String::new();
        out.append(PROMPT_OPENING);
        out.append(self.language.as_str());
        out.append(PROMPT_RULES);
        out.append(subtitles);
        proof {
            assert(out@ =~= prompt_of(self.language@, subtitles@));
        }
        out
    }
}

/// The name of the file that holds the translation of the file `srt_path`.
pub fn translated_file_name(srt_path: &str) -> (out: String)
    ensures
        out@ == TRANSLATED_PREFIX@ + srt_path@,
{
    let mut out = String::new();
    out.append(TRANSLATED_PREFIX);
    out.append(srt_path);
    proof {
        assert(out@ =~= TRANSLATED_PREFIX@ + srt_path@);
    }
    out
}

/// The budget of tokens as a number of this machine: `max_token`, or the
/// greatest `usize` where `max_token` is greater.
pub open spec fn budget_of(max_token: u64) -> nat {
    if max_token > usize::MAX {
        usize::MAX as nat
    } else {
        max_token as nat
    }
}

/// Where a job stands after a completion.
#[derive(Debug, Clone, Copy, PartialEq, Eq, Structural)]
pub enum Progress {
    /// Results are still missing, and nothing has failed.
    Waiting,
    /// The job has failed; its caller need not wait for more.
    Failed(OrchestratorError),
    /// All results have arrived.
    Complete,
}

/// The progress that stands for a standing.
pub open spec fn progress_of(s: Standing) -> Progress {
    match s {
        Standing::Waiting => Progress::Waiting,
        Standing::Failed(e) => Progress::Failed(e),
        Standing::Complete(_) => Progress::Complete,
    }
}

/// A translation in progress.
pub struct TranslationJob {
    chunks: Vec<SRTProcessor>,
    results: Vec<SRTProcessor>,
    done: Vec<bool>,
    failure: Option<OrchestratorError>,
    language: String,
}

impl View for TranslationJob {
    type V = Job;

    closed spec fn view(&self) -> Job {
        Job {
            chunks: documents_of(self.chunks@),
            slots: Seq::new(
                self.chunks@.len(),
                |i: int|
                    if self.done@[i] {
                        Some(self.results@[i]@.records)
                    } else {
                        None
                    },
            ),
            failure: self.failure,
            language: self.language@,
        }
    }
}

impl TranslationJob {
    #[verifier::type_invariant]
    spec fn lengths_agree(self) -> bool {
        &&& self.results.len() == self.chunks.len()
        &&& self.done.len() == self.chunks.len()
    }

    /// Plans the translation of `processor`: cuts it into chunks under the
    /// budget of `translator`. No result has arrived yet.
    pub fn new(translator: &Translator, processor: &SRTProcessor) -> (out: Self)
        ensures
            is_token_plan(processor@, budget_of(translator.max_token), out@.chunks),
            out@ == fresh(out@.chunks, translator.language@),
    {
        let budget: usize = if translator.max_token > usize::MAX as u64 {
            usize::MAX
        } else {
            translator.max_token as usize
        };
        let chunks = processor.split_by_token_size(budget);
        let mut results: Vec<SRTProcessor> = Vec::new();
        let mut done: Vec<bool> = Vec::new();
        let mut i: usize = 0;
        while i < chunks.len()
            invariant
                i <= chunks.len(),
                results.len() == i,
                done.len() == i,
                forall|k: int| 0 <= k < i ==> !(#[trigger] done@[k]),
            decreases chunks.len() - i,
        {
            results.push(SRTProcessor::new());
            done.push(false);
            i += 1;
        }
        let out = TranslationJob {
            chunks,
            results,
            done,
            failure: None,
            language: translator.language.clone(),
        };
        proof {
            assert(out@.slots =~= fresh(out@.chunks, translator.language@).slots);
        }
        out
    }

    /// The number of chunks of the plan.
    pub fn chunk_count(&self) -> (out: usize)
        ensures
            out == self@.chunks.len(),
    {
        self.chunks.len()
    }

    /// The payload of the request for the chunk at `plan_index`, where the
    /// plan has such a chunk.
    pub fn payload(&self, plan_index: usize) -> (out: Option<String>)
        ensures
            match out {
                Some(text) => plan_index < self@.chunks.len() && text@ == payload(
                    self@.chunks[plan_index as int].records,
                ),
                None => plan_index >= self@.chunks.len(),
            },
    {
        if plan_index < self.chunks.len() {
            Some(self.chunks[plan_index].text_to_string())
        } else {
            None
        }
    }

    /// Whether a result has arrived for every chunk.
    fn all_done(&self) -> (out: bool)
        ensures
            out == all_filled(self@.slots),
    {
        proof {
            use_type_invariant(self);
        }
        let mut i: usize = 0;
        while i < self.done.len()
            invariant
                i <= self.done.len() == self.chunks.len(),
                forall|k: int| 0 <= k < i ==> #[trigger] self.done@[k],
            decreases self.done.len() - i,
        {
            if !self.done[i] {
                proof {
                    assert(self@.slots[i as int] is None);
                }
                return false;
            }
            i += 1;
        }
        proof {
            assert forall|k: int| 0 <= k < self@.slots.len() implies (#[trigger] self@.slots[k])
                is Some by {
                assert(self.done@[k]);
            }
        }
        true
    }

    /// Where the job stands.
    pub fn progress(&self) -> (out: Progress)
        ensures
            out == progress_of(standing(self@)),
    {
        match self.failure {
            Some(e) => Progress::Failed(e),
            None => if self.all_done() {
                Progress::Complete
            } else {
                Progress::Waiting
            },
        }
    }

    /// Takes the completion of the request for the chunk at `plan_index`.
    ///
    /// The result is stored under its plan index, whatever the order in
    /// which completions arrive. The first failure is kept, and every
    /// completion after it is ignored.
    pub fn record(&mut self, plan_index: usize, reply: Result<String, ServiceError>) -> (out:
        Progress)
        ensures
            final(self)@ == step(
                old(self)@,
                Completion { plan_index: plan_index as int, reply: reply_of(reply) },
            ),
            out == progress_of(standing(final(self)@)),
    {
        proof {
            use_type_invariant(&*self);
        }
        let ghost before = self@;
        if self.failure.is_none() && plan_index < self.chunks.len() && !self.done[plan_index] {
            assert(before.slots[plan_index as int] is None);
            match reply {
                Err(e) => {
                    self.failure = Some(OrchestratorError::Service(e));
                    proof {
                        assert(self@.slots =~= before.slots);
                    }
                },
                Ok(response) => match self.chunks[plan_index].parse_llm_reponse(response) {
                    Err(e) => {
                        self.failure = Some(e);
                        proof {
                            assert(self@.slots =~= before.slots);
                        }
                    },
                    Ok(doc) => {
                        let ghost records = doc@.records;
                        self.results[plan_index] = doc;
                        self.done[plan_index] = true;
                        proof {
                            assert(self@.slots =~= before.slots.update(
                                plan_index as int,
                                Some(records),
                            ));
                        }
                    },
                },
            }
        } else {
            proof {
                if self.failure.is_none() && plan_index < self.chunks.len() {
                    assert(before.slots[plan_index as int] is Some);
                }
            }
        }
        self.progress()
    }

    /// The outcome of the job: nothing while results are missing, the first
    /// failure if there was one, and else the translated document, which
    /// holds the translated records in plan order under the target
    /// language.
    pub fn finish(self) -> (out: Option<Result<SRTProcessor, OrchestratorError>>)
        ensures
            match standing(self@) {
                Standing::Waiting => out is None,
                Standing::Failed(e) => out == Some(
                    Err::<SRTProcessor, OrchestratorError>(e),
                ),
                Standing::Complete(d) => out is Some && out->0 is Ok && out->0->Ok_0@ == d,
            },
    {
        proof {
            use_type_invariant(&self);
        }
        match self.failure {
            Some(e) => Some(Err(e)),
            None => {
                if !self.all_done() {
                    return None;
                }
                let ghost slots = self@.slots;
                let ghost docs = documents_of(self.results@);
                proof {
                    assert forall|i: int| 0 <= i < slots.len() implies (#[trigger] slots[i])
                        == Some(docs[i].records) by {
                        assert(slots[i] is Some);
                    }
                    assert(slots.map_values(|s: Option<Seq<Record>>| s->0) =~= groups_of(docs));
                }
                let language = self.language;
                let mut doc = SRTProcessor::from_concat(self.results);
                doc.language = Some(language);
                Some(Ok(doc))
            },
        }
    }
}

} // verus!
