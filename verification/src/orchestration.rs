//! The model of a translation job: a plan of chunks, one slot for the
//! result of each chunk, and what the completion of a chunk's request does
//! to them. Results are kept by plan index, so the order in which requests
//! complete leaves no trace in the outcome.

use crate::chunking::is_token_plan;
use crate::error::OrchestratorError;
use crate::framing::translated;
use crate::model::{all_records, groups_of, Document, Record};
use crate::service::Reply;
use vstd::prelude::*;

verus! {

/// The state of a translation job.
pub ghost struct Job {
    /// The planned chunks; a chunk's position is its plan index.
    pub chunks: Seq<Document>,
    /// For each plan index the translated records, once they have arrived.
    pub slots: Seq<Option<Seq<Record>>>,
    /// The first failure that was observed.
    pub failure: Option<OrchestratorError>,
    /// The language that the document is translated into.
    pub language: Seq<char>,
}

/// The completion of the request for the chunk at a plan index.
pub ghost struct Completion {
    /// The plan index of the chunk.
    pub plan_index: int,
    /// What the request gave.
    pub reply: Reply,
}

/// The job for a plan before any request has completed.
pub open spec fn fresh(chunks: Seq<Document>, language: Seq<char>) -> Job {
    Job { chunks, slots: Seq::new(chunks.len(), |i: int| None), failure: None, language }
}

/// The job still takes a result for the plan index: it has not failed, the
/// index is one of the plan, and no result for it has arrived.
pub open spec fn accepts(j: Job, plan_index: int) -> bool {
    &&& j.failure is None
    &&& 0 <= plan_index < j.chunks.len()
    &&& j.slots[plan_index] is None
}

/// The job after a completion.
///
/// A completion that the job does not take leaves it as it is: after a
/// failure, every later completion is ignored. The service's error, and a
/// response whose frames do not match the chunk's records one to one, fail
/// the job. Any other response fills the slot of its plan index.
pub open spec fn step(j: Job, c: Completion) -> Job {
    if !accepts(j, c.plan_index) {
        j
    } else {
        match c.reply {
            Err(e) => Job { failure: Some(OrchestratorError::Service(e)), ..j },
            Ok(response) => match translated(j.chunks[c.plan_index].records, response) {
                None => Job { failure: Some(OrchestratorError::ResponseLengthMismatch), ..j },
                Some(records) => Job { slots: j.slots.update(c.plan_index, Some(records)), ..j },
            },
        }
    }
}

/// The job after a sequence of completions, in the order in which they
/// were observed.
pub open spec fn run(j: Job, completions: Seq<Completion>) -> Job
    decreases completions.len(),
{
    if completions.len() == 0 {
        j
    } else {
        step(run(j, completions.drop_last()), completions.last())
    }
}

/// Every slot holds a result.
pub open spec fn all_filled(slots: Seq<Option<Seq<Record>>>) -> bool {
    forall|i: int| 0 <= i < slots.len() ==> (#[trigger] slots[i]) is Some
}

/// The records of the slots, slot after slot in plan order.
pub open spec fn assembled(slots: Seq<Option<Seq<Record>>>) -> Seq<Record> {
    slots.map_values(|s: Option<Seq<Record>>| s->0).flatten()
}

/// Where a job stands.
pub ghost enum Standing {
    /// Results are still missing, and nothing has failed.
    Waiting,
    /// The job has failed; there is no document.
    Failed(OrchestratorError),
    /// All results have arrived: the translated document.
    Complete(Document),
}

/// Where the job stands. A failed job has no document, whatever has
/// arrived. The document of a complete job holds the translated records in
/// plan order, under the target language.
pub open spec fn standing(j: Job) -> Standing {
    if j.failure is Some {
        Standing::Failed(j.failure->0)
    } else if !all_filled(j.slots) {
        Standing::Waiting
    } else {
        Standing::Complete(Document { records: assembled(j.slots), language: Some(j.language) })
    }
}

// ---------------------------------------------------------------------------
// Failing fast
// ---------------------------------------------------------------------------

/// A failed job ignores every completion: it stays as it is.
pub proof fn lemma_failure_is_final(j: Job, completions: Seq<Completion>)
    requires
        j.failure is Some,
    ensures
        run(j, completions) == j,
    decreases completions.len(),
{
    if completions.len() > 0 {
        lemma_failure_is_final(j, completions.drop_last());
    }
}

/// Running all completions is running the first `k` of them and then the
/// others.
pub proof fn lemma_run_split(j: Job, completions: Seq<Completion>, k: int)
    requires
        0 <= k <= completions.len(),
    ensures
        run(j, completions) == run(run(j, completions.take(k)), completions.skip(k)),
    decreases completions.len(),
{
    if k == completions.len() {
        assert(completions.take(k) =~= completions);
        assert(completions.skip(k) =~= Seq::<Completion>::empty());
    } else {
        lemma_run_split(j, completions.drop_last(), k);
        assert(completions.drop_last().take(k) =~= completions.take(k));
        assert(completions.drop_last().skip(k) =~= completions.skip(k).drop_last());
    }
}

/// The completion is taken and fails the job: the service failed, or the
/// frames of its response do not match the records of the chunk.
pub open spec fn fails(j: Job, c: Completion) -> bool {
    &&& accepts(j, c.plan_index)
    &&& match c.reply {
        Err(_) => true,
        Ok(response) => translated(j.chunks[c.plan_index].records, response) is None,
    }
}

/// The error that a failing completion stands for.
pub open spec fn error_of(c: Completion) -> OrchestratorError {
    match c.reply {
        Err(e) => OrchestratorError::Service(e),
        Ok(_) => OrchestratorError::ResponseLengthMismatch,
    }
}

/// One failure fails the job: if the completion at position `k` fails the
/// job as the completions before it left it, then the job ends failed, with
/// that completion's error, whatever completes afterwards. No document is
/// produced.
pub proof fn lemma_fail_fast(j: Job, completions: Seq<Completion>, k: int)
    requires
        0 <= k < completions.len(),
        fails(run(j, completions.take(k)), completions[k]),
    ensures
        standing(run(j, completions)) == Standing::Failed(error_of(completions[k])),
{
    let upto = completions.take(k + 1);
    assert(upto.drop_last() =~= completions.take(k));
    assert(upto.last() == completions[k]);
    assert(run(j, upto).failure == Some(error_of(completions[k])));
    lemma_run_split(j, completions, k + 1);
    lemma_failure_is_final(run(j, upto), completions.skip(k + 1));
}

/// The completion is one that fails a plan: it is for a chunk of the plan,
/// and the service failed or the frames of its response do not match the
/// records of the chunk.
pub open spec fn is_bad(chunks: Seq<Document>, c: Completion) -> bool {
    &&& 0 <= c.plan_index < chunks.len()
    &&& match c.reply {
        Err(_) => true,
        Ok(response) => translated(chunks[c.plan_index].records, response) is None,
    }
}

/// No two of the completions are for the same chunk.
pub open spec fn each_at_most_once(completions: Seq<Completion>) -> bool {
    forall|k: int, l: int|
        0 <= k < l < completions.len() ==> (#[trigger] completions[k]).plan_index
            != (#[trigger] completions[l]).plan_index
}

/// The chunk at plan index `i` is among the first `m` to complete.
pub open spec fn completed(completions: Seq<Completion>, m: int, i: int) -> bool {
    exists|k: int| 0 <= k < m && (#[trigger] completions[k]).plan_index == i
}

/// While no completion is bad the job does not fail, and a slot is filled
/// only for a chunk that has completed.
proof fn lemma_quiet_prefix(
    chunks: Seq<Document>,
    language: Seq<char>,
    completions: Seq<Completion>,
    m: int,
)
    requires
        each_at_most_once(completions),
        0 <= m <= completions.len(),
        forall|k: int| 0 <= k < m ==> !is_bad(chunks, #[trigger] completions[k]),
    ensures
        ({
            let j = run(fresh(chunks, language), completions.take(m));
            &&& j.failure is None
            &&& j.chunks == chunks
            &&& j.slots.len() == chunks.len()
            &&& forall|i: int|
                0 <= i < chunks.len() && (#[trigger] j.slots[i]) is Some ==> completed(
                    completions,
                    m,
                    i,
                )
        }),
    decreases m,
{
    if m == 0 {
        assert(completions.take(0) =~= Seq::<Completion>::empty());
    } else {
        lemma_quiet_prefix(chunks, language, completions, m - 1);
        let before = run(fresh(chunks, language), completions.take(m - 1));
        let c = completions[m - 1];
        assert(completions.take(m).drop_last() =~= completions.take(m - 1));
        assert(completions.take(m).last() == c);
        let after = step(before, c);
        assert(!is_bad(chunks, c));
        assert forall|i: int| 0 <= i < chunks.len() && (#[trigger] after.slots[i])
            is Some implies completed(completions, m, i) by {
            if before.slots[i] is Some {
                let k = choose|k: int| 0 <= k < m - 1 && (#[trigger] completions[k]).plan_index == i;
                assert(0 <= k < m && completions[k].plan_index == i);
            } else {
                assert(completions[m - 1].plan_index == i);
            }
        }
    }
}

/// The first bad completion among the first `k + 1`.
proof fn lemma_first_bad(chunks: Seq<Document>, completions: Seq<Completion>, k: int) -> (first:
    int)
    requires
        0 <= k < completions.len(),
        is_bad(chunks, completions[k]),
    ensures
        0 <= first <= k,
        is_bad(chunks, completions[first]),
        forall|l: int| 0 <= l < first ==> !is_bad(chunks, #[trigger] completions[l]),
    decreases k,
{
    if forall|l: int| 0 <= l < k ==> !is_bad(chunks, #[trigger] completions[l]) {
        k
    } else {
        let l = choose|l: int| 0 <= l < k && is_bad(chunks, #[trigger] completions[l]);
        lemma_first_bad(chunks, completions, l)
    }
}

/// One bad completion fails the whole translation: when each chunk
/// completes at most once and the service fails for one chunk, or answers
/// it with frames that do not match its records, the job ends failed, with
/// the error of the first such completion, and there is no document,
/// whatever the other chunks came to.
pub proof fn lemma_any_failure_fails_all(
    chunks: Seq<Document>,
    language: Seq<char>,
    completions: Seq<Completion>,
    k: int,
) -> (first: int)
    requires
        each_at_most_once(completions),
        0 <= k < completions.len(),
        is_bad(chunks, completions[k]),
    ensures
        0 <= first <= k,
        is_bad(chunks, completions[first]),
        standing(run(fresh(chunks, language), completions)) == Standing::Failed(
            error_of(completions[first]),
        ),
{
    let first = lemma_first_bad(chunks, completions, k);
    lemma_quiet_prefix(chunks, language, completions, first);
    let before = run(fresh(chunks, language), completions.take(first));
    let c = completions[first];
    assert(before.slots[c.plan_index] is None) by {
        if before.slots[c.plan_index] is Some {
            let l = choose|l: int|
                0 <= l < first && (#[trigger] completions[l]).plan_index == c.plan_index;
            assert(completions[l].plan_index != completions[first].plan_index);
        }
    }
    lemma_fail_fast(fresh(chunks, language), completions, first);
    first
}

// ---------------------------------------------------------------------------
// Completion order
// ---------------------------------------------------------------------------

/// `order` names each of the plan indices below `n` exactly once.
pub open spec fn is_completion_order(order: Seq<int>, n: nat) -> bool {
    &&& order.len() == n
    &&& forall|k: int| 0 <= k < n ==> 0 <= #[trigger] order[k] < n
    &&& forall|k: int, l: int| 0 <= k < l < n ==> #[trigger] order[k] != #[trigger] order[l]
    &&& forall|i: int| 0 <= i < n ==> #[trigger] arrived(order, n as int, i)
}

/// The request for plan index `i` is among the first `m` to complete.
pub open spec fn arrived(order: Seq<int>, m: int, i: int) -> bool {
    exists|k: int| 0 <= k < m && #[trigger] order[k] == i
}

/// The completions of requests that all succeed, in the order `order`; the
/// request for plan index `i` gives `responses[i]`.
pub open spec fn completions_in(order: Seq<int>, responses: Seq<Seq<char>>) -> Seq<Completion> {
    Seq::new(
        order.len(),
        |k: int| Completion { plan_index: order[k], reply: Ok(responses[order[k]]) },
    )
}

/// Each response holds one frame for each record of its chunk.
pub open spec fn well_framed(chunks: Seq<Document>, responses: Seq<Seq<char>>) -> bool {
    &&& responses.len() == chunks.len()
    &&& forall|i: int|
        0 <= i < chunks.len() ==> translated(chunks[i].records, #[trigger] responses[i]) is Some
}

/// The translated records of each chunk, in plan order.
pub open spec fn translated_groups(chunks: Seq<Document>, responses: Seq<Seq<char>>) -> Seq<
    Seq<Record>,
> {
    Seq::new(chunks.len(), |i: int| translated(chunks[i].records, responses[i])->0)
}

/// The translated document's records: those of each chunk, chunk after
/// chunk in plan order.
pub open spec fn translation_of(chunks: Seq<Document>, responses: Seq<Seq<char>>) -> Seq<Record> {
    translated_groups(chunks, responses).flatten()
}

/// After the first `m` completions of an order, the slots of the requests
/// that have completed hold their results, and nothing has failed.
proof fn lemma_slots_after(
    chunks: Seq<Document>,
    language: Seq<char>,
    responses: Seq<Seq<char>>,
    order: Seq<int>,
    m: int,
)
    requires
        well_framed(chunks, responses),
        is_completion_order(order, chunks.len()),
        0 <= m <= chunks.len(),
    ensures
        ({
            let j = run(fresh(chunks, language), completions_in(order, responses).take(m));
            &&& j.failure is None
            &&& j.chunks == chunks
            &&& j.language == language
            &&& j.slots.len() == chunks.len()
            &&& forall|i: int|
                0 <= i < chunks.len() ==> #[trigger] j.slots[i] == if arrived(order, m, i) {
                    Some(translated(chunks[i].records, responses[i])->0)
                } else {
                    None
                }
        }),
    decreases m,
{
    let all = completions_in(order, responses);
    if m == 0 {
        assert(all.take(0) =~= Seq::<Completion>::empty());
    } else {
        lemma_slots_after(chunks, language, responses, order, m - 1);
        let before = run(fresh(chunks, language), all.take(m - 1));
        let c = all[m - 1];
        assert(all.take(m).drop_last() =~= all.take(m - 1));
        assert(all.take(m).last() == c);
        let i0 = order[m - 1];
        assert(!arrived(order, m - 1, i0)) by {
            if arrived(order, m - 1, i0) {
                let k = choose|k: int| 0 <= k < m - 1 && #[trigger] order[k] == i0;
                assert(order[k] != order[m - 1]);
            }
        }
        assert(accepts(before, i0));
        let after = step(before, c);
        assert(after == run(fresh(chunks, language), all.take(m)));
        assert forall|i: int| 0 <= i < chunks.len() implies #[trigger] after.slots[i] == if arrived(
            order,
            m,
            i,
        ) {
            Some(translated(chunks[i].records, responses[i])->0)
        } else {
            None
        } by {
            if i == i0 {
                assert(order[m - 1] == i);
            } else {
                if arrived(order, m - 1, i) {
                    let k = choose|k: int| 0 <= k < m - 1 && #[trigger] order[k] == i;
                    assert(0 <= k < m && order[k] == i);
                }
                if arrived(order, m, i) {
                    let k = choose|k: int| 0 <= k < m && #[trigger] order[k] == i;
                    assert(0 <= k < m - 1 && order[k] == i);
                }
            }
        }
    }
}

/// The order in which requests complete leaves no trace: when each request
/// completes exactly once and each response is well framed, the job ends
/// complete, and its document holds the translated records of the chunks
/// in plan order, whatever the order of completion was.
pub proof fn lemma_completion_order_irrelevant(
    chunks: Seq<Document>,
    language: Seq<char>,
    responses: Seq<Seq<char>>,
    order: Seq<int>,
)
    requires
        well_framed(chunks, responses),
        is_completion_order(order, chunks.len()),
    ensures
        standing(run(fresh(chunks, language), completions_in(order, responses)))
            == Standing::Complete(
            Document { records: translation_of(chunks, responses), language: Some(language) },
        ),
{
    let all = completions_in(order, responses);
    let n = chunks.len() as int;
    lemma_slots_after(chunks, language, responses, order, n);
    assert(all.take(n) =~= all);
    let j = run(fresh(chunks, language), all);
    assert forall|i: int| 0 <= i < j.slots.len() implies (#[trigger] j.slots[i]) is Some by {
        assert(arrived(order, n, i));
    }
    assert(j.slots.map_values(|s: Option<Seq<Record>>| s->0) =~= translated_groups(
        chunks,
        responses,
    )) by {
        assert forall|i: int| 0 <= i < n implies j.slots[i]->0 == translated_groups(
            chunks,
            responses,
        )[i] by {
            assert(arrived(order, n, i));
        }
    }
}

// ---------------------------------------------------------------------------
// Timing
// ---------------------------------------------------------------------------

/// Two records have the same index and the same timecodes.
pub open spec fn same_timing(a: Record, b: Record) -> bool {
    a.index == b.index && a.start == b.start && a.end == b.end
}

/// Groups that agree in timing, record by record, agree in timing when
/// they are put together.
proof fn lemma_flatten_same_timing(a: Seq<Seq<Record>>, b: Seq<Seq<Record>>)
    requires
        a.len() == b.len(),
        forall|k: int| 0 <= k < a.len() ==> (#[trigger] a[k]).len() == b[k].len(),
        forall|k: int, i: int|
            0 <= k < a.len() && 0 <= i < a[k].len() ==> same_timing(#[trigger] a[k][i], b[k][i]),
    ensures
        a.flatten().len() == b.flatten().len(),
        forall|i: int|
            0 <= i < a.flatten().len() ==> same_timing(#[trigger] a.flatten()[i], b.flatten()[i]),
    decreases a.len(),
{
    if a.len() > 0 {
        let ra = a.drop_first();
        let rb = b.drop_first();
        assert forall|k: int| 0 <= k < ra.len() implies (#[trigger] ra[k]).len()
            == rb[k].len() by {
            assert(ra[k] == a[k + 1]);
        }
        assert forall|k: int, i: int| 0 <= k < ra.len() && 0 <= i < ra[k].len() implies same_timing(
            #[trigger] ra[k][i],
            rb[k][i],
        ) by {
            assert(ra[k] == a[k + 1]);
            assert(same_timing(a[k + 1][i], b[k + 1][i]));
        }
        lemma_flatten_same_timing(ra, rb);
        assert(a[0].len() == b[0].len());
        assert forall|i: int| 0 <= i < a.flatten().len() implies same_timing(
            #[trigger] a.flatten()[i],
            b.flatten()[i],
        ) by {
            if i < a[0].len() {
                assert(same_timing(a[0][i], b[0][i]));
            } else {
                assert(same_timing(ra.flatten()[i - a[0].len()], rb.flatten()[i - a[0].len()]));
            }
        }
    }
}

/// A translation keeps count, order and timing: the translated document
/// holds one record for each record of the chunks, in the same order, each
/// with the index and the timecodes of the record it translates and with
/// the frame at its position as its text.
pub proof fn lemma_translation_keeps_timing(chunks: Seq<Document>, responses: Seq<Seq<char>>)
    requires
        well_framed(chunks, responses),
    ensures
        translation_of(chunks, responses).len() == all_records(chunks).len(),
        forall|i: int|
            0 <= i < all_records(chunks).len() ==> same_timing(
                #[trigger] translation_of(chunks, responses)[i],
                all_records(chunks)[i],
            ),
{
    let a = translated_groups(chunks, responses);
    let b = groups_of(chunks);
    assert forall|k: int| 0 <= k < a.len() implies (#[trigger] a[k]).len() == b[k].len() by {
        assert(translated(chunks[k].records, responses[k]) is Some);
    }
    assert forall|k: int, i: int| 0 <= k < a.len() && 0 <= i < a[k].len() implies same_timing(
        #[trigger] a[k][i],
        b[k][i],
    ) by {
        assert(translated(chunks[k].records, responses[k]) is Some);
    }
    lemma_flatten_same_timing(a, b);
}

/// The translation of a document mirrors the document: when the requests
/// for the chunks of a plan complete, each once, in any order, and each
/// response is well framed, the job ends with a document that holds one
/// record for each record of the source, in the same order, each with the
/// index and the timecodes of the record it translates.
pub proof fn lemma_translation_mirrors_document(
    d: Document,
    max: nat,
    chunks: Seq<Document>,
    language: Seq<char>,
    responses: Seq<Seq<char>>,
    order: Seq<int>,
)
    requires
        is_token_plan(d, max, chunks),
        well_framed(chunks, responses),
        is_completion_order(order, chunks.len()),
    ensures
        standing(run(fresh(chunks, language), completions_in(order, responses))) is Complete,
        ({
            let out = standing(
                run(fresh(chunks, language), completions_in(order, responses)),
            )->Complete_0;
            &&& out.language == Some(language)
            &&& out.records.len() == d.records.len()
            &&& forall|i: int|
                0 <= i < d.records.len() ==> same_timing(#[trigger] out.records[i], d.records[i])
        }),
{
    lemma_completion_order_irrelevant(chunks, language, responses, order);
    lemma_translation_keeps_timing(chunks, responses);
}

} // verus!
