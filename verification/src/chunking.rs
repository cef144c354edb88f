//! Chunk plans: how a document is cut into consecutive smaller documents,
//! by a number of records or by a budget of tokens.

use crate::model::{all_records, groups_of, Document, Record};
use crate::text::word_count;
use vstd::prelude::*;

verus! {

/// The token weight of one record: the number of words of its text.
pub open spec fn tokens(r: Record) -> nat {
    word_count(r.text)
}

/// The token weight of a run of records: the sum of their weights.
pub open spec fn weight(records: Seq<Record>) -> nat
    decreases records.len(),
{
    if records.len() == 0 {
        0
    } else {
        weight(records.drop_last()) + tokens(records.last())
    }
}

/// Consecutive groups of `n` records; the last group holds what is left.
pub open spec fn groups_by_count(records: Seq<Record>, n: nat) -> Seq<Seq<Record>>
    decreases records.len(),
{
    if records.len() == 0 {
        Seq::empty()
    } else if n == 0 || records.len() <= n {
        seq![records]
    } else {
        seq![records.take(n as int)] + groups_by_count(records.skip(n as int), n)
    }
}

/// The document cut into chunks of `n` records, each with the document's
/// language.
pub open spec fn chunks_by_count(d: Document, n: nat) -> Seq<Document> {
    tagged(groups_by_count(d.records, n), d.language)
}

/// One document for each group of records, all under the same language tag.
pub open spec fn tagged(groups: Seq<Seq<Record>>, language: Option<Seq<char>>) -> Seq<Document> {
    Seq::new(groups.len(), |i: int| Document { records: groups[i], language })
}

/// `groups` cuts `records` into runs that are filled while their weight
/// stays within `max`.
///
/// The groups are consecutive runs that make up `records`. None is empty.
/// Each stays within the budget, but for a group made of a single record
/// that is over the budget on its own. And no group could have taken the
/// record that follows it.
pub open spec fn is_greedy_grouping(records: Seq<Record>, max: nat, groups: Seq<Seq<Record>>) -> bool {
    &&& groups.flatten() == records
    &&& forall|k: int| 0 <= k < groups.len() ==> (#[trigger] groups[k]).len() > 0
    &&& forall|k: int|
        0 <= k < groups.len() ==> weight(#[trigger] groups[k]) <= max || groups[k].len() == 1
    &&& forall|k: int| 0 <= k < groups.len() - 1 ==> #[trigger] is_full(groups, max, k)
}

/// The group at `k` could not have taken the first record of the group
/// that follows it.
pub open spec fn is_full(groups: Seq<Seq<Record>>, max: nat, k: int) -> bool {
    weight(groups[k]) + tokens(groups[k + 1][0]) > max
}

/// `chunks` is the plan that cuts the document `d` under the budget `max`:
/// the records of the chunks are the greedy grouping of the document's
/// records, and each chunk has the document's language.
pub open spec fn is_token_plan(d: Document, max: nat, chunks: Seq<Document>) -> bool {
    &&& is_greedy_grouping(d.records, max, groups_of(chunks))
    &&& forall|k: int| 0 <= k < chunks.len() ==> (#[trigger] chunks[k]).language == d.language
}

/// One more record adds its tokens to the weight.
pub proof fn lemma_weight_push(records: Seq<Record>, r: Record)
    ensures
        weight(records.push(r)) == weight(records) + tokens(r),
{
    assert(records.push(r).drop_last() =~= records);
}

/// A window grown by one record weighs that record's tokens more.
pub proof fn lemma_weight_grow(records: Seq<Record>, from: int, to: int)
    requires
        0 <= from <= to < records.len(),
    ensures
        weight(records.subrange(from, to + 1)) == weight(records.subrange(from, to)) + tokens(
            records[to],
        ),
{
    assert(records.subrange(from, to + 1) =~= records.subrange(from, to).push(records[to]));
    lemma_weight_push(records.subrange(from, to), records[to]);
}

/// A plan for the first `from` records, followed by the chunk that holds
/// the records `from..to`, is a plan for the first `to` records, where the
/// chunk keeps to the budget and the chunk before it could not have taken
/// its first record.
pub proof fn lemma_plan_grows(
    d: Document,
    max: nat,
    chunks: Seq<Document>,
    from: int,
    to: int,
    chunk: Document,
)
    requires
        0 <= from < to <= d.records.len(),
        is_token_plan(Document { records: d.records.take(from), language: d.language }, max, chunks),
        chunk == (Document { records: d.records.subrange(from, to), language: d.language }),
        weight(chunk.records) <= max || to - from == 1,
        chunks.len() > 0 ==> weight(groups_of(chunks).last()) + tokens(d.records[from]) > max,
    ensures
        is_token_plan(
            Document { records: d.records.take(to), language: d.language },
            max,
            chunks.push(chunk),
        ),
        groups_of(chunks.push(chunk)).last() == chunk.records,
{
    let before = groups_of(chunks);
    let after = groups_of(chunks.push(chunk));
    assert(after =~= before.push(chunk.records));
    before.lemma_flatten_push(chunk.records);
    assert(d.records.take(from) + chunk.records =~= d.records.take(to));
    assert forall|k: int| 0 <= k < after.len() implies (#[trigger] after[k]).len() > 0 && (weight(
        after[k],
    ) <= max || after[k].len() == 1) by {
        if k < before.len() {
            assert(after[k] == before[k]);
        }
    }
    assert forall|k: int| 0 <= k < after.len() - 1 implies #[trigger] is_full(after, max, k) by {
        assert(after[k] == before[k]);
        if k < before.len() - 1 {
            assert(after[k + 1] == before[k + 1]);
            assert(is_full(before, max, k));
        } else {
            assert(after[k + 1][0] == d.records[from]);
        }
    }
    assert forall|k: int| 0 <= k < chunks.push(chunk).len() implies (#[trigger] chunks.push(
        chunk,
    )[k]).language == d.language by {
        if k < chunks.len() {
            assert(chunks.push(chunk)[k] == chunks[k]);
        }
    }
}

/// A run weighs at least as much as each of its records.
pub proof fn lemma_weight_covers(records: Seq<Record>, j: int)
    requires
        0 <= j < records.len(),
    ensures
        tokens(records[j]) <= weight(records),
    decreases records.len(),
{
    if j < records.len() - 1 {
        lemma_weight_covers(records.drop_last(), j);
    }
}

/// A run weighs at least as much as each of its prefixes.
pub proof fn lemma_weight_prefix(records: Seq<Record>, n: int)
    requires
        0 <= n <= records.len(),
    ensures
        weight(records.take(n)) <= weight(records),
    decreases records.len(),
{
    if n < records.len() {
        lemma_weight_prefix(records.drop_last(), n);
        assert(records.drop_last().take(n) =~= records.take(n));
    } else {
        assert(records.take(n) =~= records);
    }
}

/// Cutting by count loses nothing: the groups, one after the other, are
/// the records.
pub proof fn lemma_groups_by_count_flatten(records: Seq<Record>, n: nat)
    ensures
        groups_by_count(records, n).flatten() == records,
    decreases records.len(),
{
    let groups = groups_by_count(records, n);
    if records.len() == 0 {
    } else if n == 0 || records.len() <= n {
        groups.lemma_flatten_singleton();
    } else {
        lemma_groups_by_count_flatten(records.skip(n as int), n);
        assert(groups.drop_first() =~= groups_by_count(records.skip(n as int), n));
        assert(groups.flatten() =~= records.take(n as int) + records.skip(n as int));
        assert(records.take(n as int) + records.skip(n as int) =~= records);
    }
}

/// Cutting by count fills every group but the last: each group holds `n`
/// records, and the last holds between one and `n`.
pub proof fn lemma_groups_by_count_sizes(records: Seq<Record>, n: nat, k: int)
    requires
        n > 0,
        0 <= k < groups_by_count(records, n).len(),
    ensures
        0 < groups_by_count(records, n)[k].len() <= n,
        k < groups_by_count(records, n).len() - 1 ==> groups_by_count(records, n)[k].len() == n,
    decreases records.len(),
{
    if records.len() == 0 {
    } else if records.len() <= n {
    } else if k > 0 {
        lemma_groups_by_count_sizes(records.skip(n as int), n, k - 1);
    }
}

/// Putting the chunks of a cut by count together, in the order in which
/// they were made, gives back the records of the document.
pub proof fn lemma_count_chunks_restore(d: Document, n: nat)
    ensures
        all_records(chunks_by_count(d, n)) == d.records,
{
    lemma_groups_by_count_flatten(d.records, n);
    assert(groups_of(chunks_by_count(d, n)) =~= groups_by_count(d.records, n));
}

/// Putting the chunks of a cut by token budget together, in the order in
/// which they were made, gives back the records of the document.
pub proof fn lemma_token_plan_restore(d: Document, max: nat, chunks: Seq<Document>)
    requires
        is_token_plan(d, max, chunks),
    ensures
        all_records(chunks) == d.records,
{
}

/// Every chunk of a cut by token budget stays within the budget, except a
/// chunk that holds a single record which is over the budget on its own.
pub proof fn lemma_token_budget_respected(d: Document, max: nat, chunks: Seq<Document>, k: int)
    requires
        is_token_plan(d, max, chunks),
        0 <= k < chunks.len(),
        !(chunks[k].records.len() == 1 && tokens(chunks[k].records[0]) > max),
    ensures
        weight(chunks[k].records) <= max,
{
    let group = groups_of(chunks)[k];
    assert(group == chunks[k].records);
    if group.len() == 1 {
        assert(group.drop_last() =~= Seq::<Record>::empty());
        assert(weight(group.drop_last()) == 0);
        assert(weight(group) == tokens(group[0]));
    }
}

/// A record that is over the budget on its own is alone in its chunk.
pub proof fn lemma_oversized_record_alone(
    d: Document,
    max: nat,
    chunks: Seq<Document>,
    k: int,
    j: int,
)
    requires
        is_token_plan(d, max, chunks),
        0 <= k < chunks.len(),
        0 <= j < chunks[k].records.len(),
        tokens(chunks[k].records[j]) > max,
    ensures
        chunks[k].records == seq![chunks[k].records[j]],
{
    let group = groups_of(chunks)[k];
    assert(group == chunks[k].records);
    lemma_weight_covers(group, j);
    assert(group =~= seq![group[j]]);
}

/// Every element of the groups' concatenation stands in one of the groups.
pub proof fn lemma_flatten_member<A>(groups: Seq<Seq<A>>, i: int) -> (at: (int, int))
    requires
        0 <= i < groups.flatten().len(),
    ensures
        0 <= at.0 < groups.len(),
        0 <= at.1 < groups[at.0].len(),
        groups[at.0][at.1] == groups.flatten()[i],
    decreases groups.len(),
{
    if groups.len() == 0 {
        (0, 0)
    } else if i < groups.first().len() {
        (0, i)
    } else {
        let rest = lemma_flatten_member(groups.drop_first(), i - groups.first().len());
        (rest.0 + 1, rest.1)
    }
}

/// A record of the document that is over the budget on its own is never
/// dropped and never merged: one chunk of the plan holds it and nothing
/// else.
pub proof fn lemma_oversized_record_isolated(
    d: Document,
    max: nat,
    chunks: Seq<Document>,
    i: int,
) -> (k: int)
    requires
        is_token_plan(d, max, chunks),
        0 <= i < d.records.len(),
        tokens(d.records[i]) > max,
    ensures
        0 <= k < chunks.len(),
        chunks[k].records == seq![d.records[i]],
{
    let at = lemma_flatten_member(groups_of(chunks), i);
    assert(groups_of(chunks)[at.0] == chunks[at.0].records);
    lemma_oversized_record_alone(d, max, chunks, at.0, at.1);
    at.0
}

/// The rest of a greedy grouping is the greedy grouping of the rest of the
/// records.
proof fn lemma_grouping_tail(records: Seq<Record>, max: nat, groups: Seq<Seq<Record>>)
    requires
        is_greedy_grouping(records, max, groups),
        groups.len() > 0,
    ensures
        groups[0].len() <= records.len(),
        groups[0] == records.take(groups[0].len() as int),
        is_greedy_grouping(records.skip(groups[0].len() as int), max, groups.drop_first()),
{
    let rest = groups.drop_first();
    assert(groups.flatten() == groups.first() + rest.flatten());
    assert(records.take(groups[0].len() as int) =~= groups[0]);
    assert(records.skip(groups[0].len() as int) =~= rest.flatten());
    assert forall|k: int| 0 <= k < rest.len() implies (#[trigger] rest[k]).len() > 0 && (weight(
        rest[k],
    ) <= max || rest[k].len() == 1) by {
        assert(rest[k] == groups[k + 1]);
    }
    assert forall|k: int| 0 <= k < rest.len() - 1 implies #[trigger] is_full(rest, max, k) by {
        assert(rest[k] == groups[k + 1]);
        assert(rest[k + 1] == groups[k + 2]);
        assert(is_full(groups, max, k + 1));
    }
}

/// The first group of a greedy grouping is no shorter than that of
/// another greedy grouping of the same records.
proof fn lemma_first_group_longest(
    records: Seq<Record>,
    max: nat,
    a: Seq<Seq<Record>>,
    b: Seq<Seq<Record>>,
)
    requires
        is_greedy_grouping(records, max, a),
        is_greedy_grouping(records, max, b),
        a.len() > 0,
        b.len() > 0,
    ensures
        a[0].len() >= b[0].len(),
{
    if a[0].len() < b[0].len() {
        let n = a[0].len() as int;
        lemma_grouping_tail(records, max, a);
        lemma_grouping_tail(records, max, b);
        // `a` goes on after its first group, with the record that `b` still
        // holds in its first group.
        let rest = a.drop_first();
        if rest.len() == 0 {
            assert(rest.flatten() =~= Seq::<Record>::empty());
            assert(records.skip(n).len() == 0);
        }
        assert(rest[0] == a[1]);
        lemma_grouping_tail(records.skip(n), max, rest);
        assert(a[1][0] == records.skip(n).take(a[1].len() as int)[0]);
        assert(a[1][0] == records[n]);
        assert(b[0][n] == records[n]);
        // So the first group of `a` with that record is a prefix of the
        // first group of `b`, which holds two records or more and therefore
        // keeps to the budget.
        assert(b[0].take(n) =~= a[0]);
        assert(b[0].take(n + 1) =~= a[0].push(records[n]));
        lemma_weight_push(a[0], records[n]);
        lemma_weight_prefix(b[0], n + 1);
        assert(is_full(a, max, 0));
        assert(weight(b[0]) <= max);
    }
}

/// There is one greedy grouping of given records under a given budget.
pub proof fn lemma_greedy_grouping_unique(
    records: Seq<Record>,
    max: nat,
    a: Seq<Seq<Record>>,
    b: Seq<Seq<Record>>,
)
    requires
        is_greedy_grouping(records, max, a),
        is_greedy_grouping(records, max, b),
    ensures
        a == b,
    decreases a.len(),
{
    if a.len() == 0 || b.len() == 0 {
        if a.len() > 0 {
            lemma_grouping_tail(records, max, a);
        }
        if b.len() > 0 {
            lemma_grouping_tail(records, max, b);
        }
        assert(a =~= b);
    } else {
        lemma_first_group_longest(records, max, a, b);
        lemma_first_group_longest(records, max, b, a);
        lemma_grouping_tail(records, max, a);
        lemma_grouping_tail(records, max, b);
        lemma_greedy_grouping_unique(
            records.skip(a[0].len() as int),
            max,
            a.drop_first(),
            b.drop_first(),
        );
        assert(a =~= seq![a[0]] + a.drop_first());
        assert(b =~= seq![b[0]] + b.drop_first());
    }
}

/// The budget decides the plan: two plans for one document under one
/// budget are the same plan.
pub proof fn lemma_token_plan_unique(d: Document, max: nat, a: Seq<Document>, b: Seq<Document>)
    requires
        is_token_plan(d, max, a),
        is_token_plan(d, max, b),
    ensures
        a == b,
{
    lemma_greedy_grouping_unique(d.records, max, groups_of(a), groups_of(b));
    assert(a.len() == groups_of(a).len());
    assert(b.len() == groups_of(b).len());
    assert forall|k: int| 0 <= k < a.len() implies a[k] == b[k] by {
        assert(a[k].records == groups_of(a)[k]);
        assert(b[k].records == groups_of(b)[k]);
    }
    assert(a =~= b);
}

} // verus!
