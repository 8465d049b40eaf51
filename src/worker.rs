//! The worker: the map and reduce functions it runs, the map and reduce
//! executors, and the decisions of its request loop.
use crate::codec::{decode_records, encode_records, json_of_pairs, pairs_of_json};
use crate::coordinator::{AssignError, TaskResponse};
use crate::naming::{decimal, intermediate_name, intermediate_name_of, to_decimal};
use crate::shuffle::{
    bucket, merged_input, group_records, grouping_of, groups_view, partition_records, records_view,
};
use crate::task::TaskKind;
use vstd::prelude::*;
use vstd::string::StringExecFns;

verus! {

/// A record of map output: a key and its value.
#[derive(Debug, PartialEq, Eq, PartialOrd, Ord)]
pub struct KVPair {
    pub key: String,
    pub val: u64,
}

/// Why a map or reduce task could not produce its output.
#[derive(Clone, Copy, Debug, PartialEq, Eq, Structural)]
pub enum WorkerError {
    /// An intermediate file does not hold a list of key and value pairs.
    MalformedIntermediate,
    /// The values of a key add up to more than a `u64` holds.
    ValueOverflow,
}

/// The words of a text, as `str::split_whitespace` finds them.
pub uninterp spec fn words_of(text: Seq<char>) -> Seq<Seq<char>>;

/// Relies on `str::split_whitespace`: the maximal runs of non-whitespace
/// characters of the text, in order; an empty text has none.
#[verifier::external_body]
fn split_words(text: &str) -> (r: Vec<String>)
    ensures
        r@.map_values(|w: String| w@) == words_of(text@),
        text@.len() == 0 ==> r@.len() == 0,
{
    text.split_whitespace().map(|w| w.to_string()).collect()
}

/// One record `(word, 1)` per word, in order.
pub open spec fn word_counts(words: Seq<Seq<char>>) -> Seq<(Seq<char>, u64)> {
    words.map_values(|w: Seq<char>| (w, 1u64))
}

/// The map function's records for a list of words: each word with the count 1.
pub fn emit_counts(words: &Vec<String>) -> (r: Vec<KVPair>)
    ensures
        records_view(r@) == word_counts(words@.map_values(|w: String| w@)),
        r@.len() == words@.len(),
{
    let mut records: Vec<KVPair> = Vec::new();
    let mut i: usize = 0;
    while i < words.len()
        invariant
            i <= words@.len(),
            records_view(records@) == word_counts(words@.take(i as int).map_values(|w: String| w@)),
            records@.len() == i,
        decreases words.len() - i,
    {
        let ghost before = records@;
        records.push(KVPair { key: words[i].clone(), val: 1 });
        assert(records_view(records@) =~= records_view(before).push((words@[i as int]@, 1u64)));
        assert(words@.take(i + 1).map_values(|w: String| w@) =~= words@.take(i as int).map_values(
            |w: String| w@,
        ).push(words@[i as int]@));
        assert(records_view(records@) =~= word_counts(
            words@.take(i + 1).map_values(|w: String| w@),
        ));
        i = i + 1;
    }
    assert(words@.take(words@.len() as int) =~= words@);
    records
}

/// The map function: a word count, one record `(word, 1)` for each word of the
/// text, in order.
pub fn map(contents: &str) -> (r: Vec<KVPair>)
    ensures
        records_view(r@) == word_counts(words_of(contents@)),
        contents@.len() == 0 ==> r@.len() == 0,
{
    let words = split_words(contents);
    emit_counts(&words)
}

/// The sum of the values.
pub open spec fn sum_of(vals: Seq<u64>) -> nat
    decreases vals.len(),
{
    if vals.len() == 0 {
        0
    } else {
        (sum_of(vals.drop_last()) + vals.last()) as nat
    }
}

proof fn lemma_sum_of_take(vals: Seq<u64>, i: int)
    requires
        0 <= i < vals.len(),
    ensures
        sum_of(vals.take(i + 1)) == sum_of(vals.take(i)) + vals[i],
{
    assert(vals.take(i + 1).drop_last() =~= vals.take(i));
}

proof fn lemma_sum_of_prefix(vals: Seq<u64>, i: int)
    requires
        0 <= i <= vals.len(),
    ensures
        sum_of(vals.take(i)) <= sum_of(vals),
    decreases vals.len() - i,
{
    if i < vals.len() {
        lemma_sum_of_take(vals, i);
        lemma_sum_of_prefix(vals, i + 1);
    } else {
        assert(vals.take(i) =~= vals);
    }
}

/// The reduce function: the sum of a key's values.
pub fn reduce(_key: String, vals: Vec<u64>) -> (total: u64)
    requires
        sum_of(vals@) <= u64::MAX,
    ensures
        total == sum_of(vals@),
{
    let mut total: u64 = 0;
    let mut i: usize = 0;
    assert(vals@.take(0) =~= Seq::<u64>::empty());
    while i < vals.len()
        invariant
            i <= vals@.len(),
            sum_of(vals@) <= u64::MAX,
            total == sum_of(vals@.take(i as int)),
        decreases vals.len() - i,
    {
        proof {
            lemma_sum_of_take(vals@, i as int);
            lemma_sum_of_prefix(vals@, i + 1);
        }
        total = total + vals[i];
        i = i + 1;
    }
    assert(vals@.take(vals@.len() as int) =~= vals@);
    total
}

/// Whether the values add up to no more than a `u64` holds.
pub fn sum_fits(vals: &Vec<u64>) -> (r: bool)
    ensures
        r == (sum_of(vals@) <= u64::MAX),
{
    let mut total: u64 = 0;
    let mut i: usize = 0;
    assert(vals@.take(0) =~= Seq::<u64>::empty());
    while i < vals.len()
        invariant
            i <= vals@.len(),
            total == sum_of(vals@.take(i as int)),
        decreases vals.len() - i,
    {
        proof {
            lemma_sum_of_take(vals@, i as int);
            lemma_sum_of_prefix(vals@, i + 1);
        }
        if vals[i] > u64::MAX - total {
            return false;
        }
        total = total + vals[i];
        i = i + 1;
    }
    assert(vals@.take(vals@.len() as int) =~= vals@);
    true
}

/// The line that a reduce task writes for a key and its result.
pub open spec fn output_line(key: Seq<char>, total: nat) -> Seq<char> {
    key + " "@ + decimal(total) + "\n"@
}

/// The output of a reduce task for the given groups: one line per group, in
/// order.
pub open spec fn report_of(g: Seq<(Seq<char>, Seq<u64>)>) -> Seq<char>
    decreases g.len(),
{
    if g.len() == 0 {
        seq![]
    } else {
        report_of(g.drop_last()) + output_line(g.last().0, sum_of(g.last().1))
    }
}

/// Every group's values add up to no more than a `u64` holds.
pub open spec fn sums_fit(g: Seq<(Seq<char>, Seq<u64>)>) -> bool {
    forall|a: int| 0 <= a < g.len() ==> sum_of(#[trigger] g[a].1) <= u64::MAX
}

/// The output of a reduce task over its records: the records grouped by key,
/// in key order, and for each key a line `key total`, where the total is
/// what the reduce function gives for the key's values. Fails when a total
/// does not fit in a `u64`.
pub fn reduce_partition(records: &Vec<KVPair>) -> (r: Result<String, WorkerError>)
    ensures
        match r {
            Ok(t) => sums_fit(grouping_of(records_view(records@))) && t@ == report_of(
                grouping_of(records_view(records@)),
            ),
            Err(e) => e == WorkerError::ValueOverflow && !sums_fit(
                grouping_of(records_view(records@)),
            ),
        },
{
    let groups = group_records(records);
    let ghost gv = groups_view(groups@);
    let mut out = String::new();
    let mut a: usize = 0;
    assert(gv.take(0) =~= seq![]);
    while a < groups.len()
        invariant
            gv == groups_view(groups@),
            gv == grouping_of(records_view(records@)),
            a <= groups@.len(),
            out@ == report_of(gv.take(a as int)),
            sums_fit(gv.take(a as int)),
        decreases groups.len() - a,
    {
        if !sum_fits(&groups[a].1) {
            assert(sum_of(gv[a as int].1) > u64::MAX);
            return Err(WorkerError::ValueOverflow);
        }
        let vals = groups[a].1.clone();
        assert(vals@ =~= gv[a as int].1);
        let total = reduce(groups[a].0.clone(), vals);
        out.append(groups[a].0.as_str());
        out.append(" ");
        let digits = to_decimal(total);
        out.append(digits.as_str());
        out.append("\n");
        proof {
            assert(gv.take(a + 1).drop_last() =~= gv.take(a as int));
            assert(out@ =~= report_of(gv.take(a as int)) + output_line(gv[a as int].0, sum_of(gv[a as int].1)));
            assert forall|b: int| 0 <= b < gv.take(a + 1).len() implies sum_of(#[trigger] gv.take(a + 1)[b].1) <= u64::MAX by {
                if b < a {
                    assert(gv.take(a + 1)[b] == gv.take(a as int)[b]);
                }
            }
        }
        a = a + 1;
    }
    assert(gv.take(gv.len() as int) =~= gv);
    Ok(out)
}

/// The records of a list of intermediate file texts, one after another, or
/// `None` where one of the texts is not a list of pairs.
pub open spec fn parse_all(texts: Seq<Seq<char>>) -> Option<Seq<(Seq<char>, u64)>>
    decreases texts.len(),
{
    if texts.len() == 0 {
        Some(seq![])
    } else {
        match (parse_all(texts.drop_last()), pairs_of_json(texts.last())) {
            (Some(a), Some(b)) => Some(a + b),
            _ => None,
        }
    }
}

proof fn lemma_parse_all_prefix(texts: Seq<Seq<char>>, i: int)
    requires
        0 <= i <= texts.len(),
        parse_all(texts.take(i)) is None,
    ensures
        parse_all(texts) is None,
    decreases texts.len() - i,
{
    if i < texts.len() {
        assert(texts.take(i + 1).drop_last() =~= texts.take(i));
        lemma_parse_all_prefix(texts, i + 1);
    } else {
        assert(texts.take(i) =~= texts);
    }
}

pub open spec fn texts_view(texts: Seq<String>) -> Seq<Seq<char>> {
    texts.map_values(|t: String| t@)
}

/// The records of a reduce task's intermediate files, read in the order given
/// (the files that exist, by map task). Fails when one of them does not hold
/// a list of pairs.
pub fn merge_intermediate(texts: &Vec<String>) -> (r: Result<Vec<KVPair>, WorkerError>)
    ensures
        match r {
            Ok(v) => parse_all(texts_view(texts@)) == Some(records_view(v@)),
            Err(e) => e == WorkerError::MalformedIntermediate && parse_all(texts_view(texts@)) is None,
        },
{
    let ghost tv = texts_view(texts@);
    let mut all: Vec<KVPair> = Vec::new();
    let mut i: usize = 0;
    assert(tv.take(0) =~= seq![]);
    assert(records_view(all@) =~= seq![]);
    while i < texts.len()
        invariant
            tv == texts_view(texts@),
            i <= texts@.len(),
            parse_all(tv.take(i as int)) == Some(records_view(all@)),
        decreases texts.len() - i,
    {
        assert(tv.take(i + 1).drop_last() =~= tv.take(i as int));
        assert(tv.take(i + 1).last() == texts@[i as int]@);
        match decode_records(texts[i].as_str()) {
            Ok(mut more) => {
                let ghost before = all@;
                let ghost added = more@;
                all.append(&mut more);
                assert(records_view(all@) =~= records_view(before) + records_view(added));
            },
            Err(e) => {
                proof {
                    lemma_parse_all_prefix(tv, i + 1);
                }
                return Err(e);
            },
        }
        i = i + 1;
    }
    assert(tv.take(tv.len() as int) =~= tv);
    Ok(all)
}

/// The output of a reduce task from the texts of its intermediate files: the
/// records of all of them grouped by key and reduced, one line per key in key
/// order. Fails when a text is not a list of pairs, or when a key's total does
/// not fit in a `u64`.
pub fn reduce_task_output(texts: &Vec<String>) -> (r: Result<String, WorkerError>)
    ensures
        match parse_all(texts_view(texts@)) {
            None => r == Err::<String, WorkerError>(WorkerError::MalformedIntermediate),
            Some(recs) => if sums_fit(grouping_of(recs)) {
                r matches Ok(t) && t@ == report_of(grouping_of(recs))
            } else {
                r == Err::<String, WorkerError>(WorkerError::ValueOverflow)
            },
        },
{
    let records = merge_intermediate(texts)?;
    reduce_partition(&records)
}

/// The intermediate files of map task `map_index` for its records: for each
/// partition, in order, the file's name and the text of the records routed
/// to it, which reads back as those records. Every partition gets a file, an
/// empty one included.
pub fn intermediate_files(records: &Vec<KVPair>, map_index: u64, reduce_task_count: u64) -> (files:
    Vec<(String, String)>)
    requires
        0 < reduce_task_count <= usize::MAX,
    ensures
        files@.len() == reduce_task_count,
        forall|p: int|
            0 <= p < files@.len() ==> {
                &&& (#[trigger] files@[p]).0@ == intermediate_name_of(map_index as nat, p as nat)
                &&& files@[p].1@ == json_of_pairs(
                    bucket(records_view(records@), reduce_task_count, p as u64),
                )
                &&& pairs_of_json(files@[p].1@) == Some(
                    bucket(records_view(records@), reduce_task_count, p as u64),
                )
            },
{
    let buckets = partition_records(records, reduce_task_count);
    let mut files: Vec<(String, String)> = Vec::new();
    let mut p: usize = 0;
    while p < buckets.len()
        invariant
            buckets@.len() == reduce_task_count,
            forall|q: int|
                0 <= q < buckets@.len() ==> records_view(#[trigger] buckets@[q]@) == bucket(
                    records_view(records@),
                    reduce_task_count,
                    q as u64,
                ),
            p <= buckets@.len(),
            files@.len() == p,
            forall|q: int|
                0 <= q < p ==> {
                    &&& (#[trigger] files@[q]).0@ == intermediate_name_of(map_index as nat, q as nat)
                    &&& files@[q].1@ == json_of_pairs(
                        bucket(records_view(records@), reduce_task_count, q as u64),
                    )
                    &&& pairs_of_json(files@[q].1@) == Some(
                        bucket(records_view(records@), reduce_task_count, q as u64),
                    )
                },
        decreases buckets.len() - p,
    {
        let text = encode_records(&buckets[p]);
        let name = intermediate_name(map_index, p as u64);
        files.push((name, text));
        p = p + 1;
    }
    files
}

/// What map task `map_index` writes for an input split: the word count of the
/// split's text, routed to the partitions, one intermediate file per
/// partition, each reading back as the records routed to it.
pub fn map_task_output(contents: &str, map_index: u64, reduce_task_count: u64) -> (files: Vec<
    (String, String),
>)
    requires
        0 < reduce_task_count <= usize::MAX,
    ensures
        files@.len() == reduce_task_count,
        forall|p: int|
            0 <= p < files@.len() ==> {
                &&& (#[trigger] files@[p]).0@ == intermediate_name_of(map_index as nat, p as nat)
                &&& files@[p].1@ == json_of_pairs(
                    bucket(word_counts(words_of(contents@)), reduce_task_count, p as u64),
                )
                &&& pairs_of_json(files@[p].1@) == Some(
                    bucket(word_counts(words_of(contents@)), reduce_task_count, p as u64),
                )
            },
{
    let records = map(contents);
    intermediate_files(&records, map_index, reduce_task_count)
}

/// What the reduce task for partition `p` reads back: where each of its
/// intermediate texts, in order of the map tasks, reads back as the part of
/// that map task's output routed to `p`, all of them together read back as
/// the partition's merged input.
pub proof fn lemma_read_back_merged(
    outs: Seq<Seq<(Seq<char>, u64)>>,
    texts: Seq<Seq<char>>,
    reduce_task_count: u64,
    p: u64,
)
    requires
        texts.len() == outs.len(),
        forall|m: int|
            0 <= m < texts.len() ==> pairs_of_json(#[trigger] texts[m]) == Some(
                bucket(outs[m], reduce_task_count, p),
            ),
    ensures
        parse_all(texts) == Some(merged_input(outs, reduce_task_count, p)),
    decreases texts.len(),
{
    if texts.len() > 0 {
        let n = texts.len() - 1;
        assert(texts.drop_last().len() == outs.drop_last().len());
        assert forall|m: int| 0 <= m < texts.drop_last().len() implies pairs_of_json(
            #[trigger] texts.drop_last()[m],
        ) == Some(bucket(outs.drop_last()[m], reduce_task_count, p)) by {
            assert(texts.drop_last()[m] == texts[m]);
            assert(outs.drop_last()[m] == outs[m]);
        }
        lemma_read_back_merged(outs.drop_last(), texts.drop_last(), reduce_task_count, p);
        assert(pairs_of_json(texts[n]) == Some(bucket(outs[n], reduce_task_count, p)));
    }
}

/// What a worker does next.
#[derive(Debug)]
pub enum WorkerAction {
    /// Run the map executor over an input split.
    RunMap { split: String, map_index: u64, reduce_task_count: u64 },
    /// Run the reduce executor for a partition.
    RunReduce { partition: u64, map_task_count: u64 },
    /// No task is free yet: wait, then ask again.
    Retry,
    /// The job is complete.
    Stop,
}

/// A worker process: its id, and whether it has learnt that the job is
/// complete.
#[derive(Debug)]
pub struct Worker {
    id: u32,
    done: bool,
}

impl View for Worker {
    type V = (u32, bool);

    closed spec fn view(&self) -> (u32, bool) {
        (self.id, self.done)
    }
}

impl Worker {
    pub fn new(id: u32, done: bool) -> (w: Worker)
        ensures
            w@ == (id, done),
    {
        Worker { id, done }
    }

    pub fn get_id(&self) -> (r: u32)
        ensures
            r == self@.0,
    {
        self.id
    }

    pub fn done(&self) -> (r: bool)
        ensures
            r == self@.1,
    {
        self.done
    }

    /// Decides what to do with the coordinator's answer to a request: run the
    /// task handed out, wait and ask again when none is free, or stop once the
    /// job is complete, which the worker then remembers.
    pub fn handle_reply(&mut self, reply: Result<TaskResponse, AssignError>) -> (a: WorkerAction)
        ensures
            final(self)@.0 == old(self)@.0,
            final(self)@.1 == (old(self)@.1 || reply matches Err(AssignError::JobComplete)),
            match reply {
                Ok(resp) => match resp.kind {
                    TaskKind::MapTask => a matches WorkerAction::RunMap {
                        split,
                        map_index,
                        reduce_task_count,
                    } && split@ == resp.task_name@ && map_index == resp.tasknum
                        && reduce_task_count == resp.reduce_task_count,
                    TaskKind::ReduceTask => a matches WorkerAction::RunReduce {
                        partition,
                        map_task_count,
                    } && partition == resp.tasknum && map_task_count == resp.map_task_count,
                },
                Err(AssignError::NoTaskAvailable) => a is Retry,
                Err(AssignError::JobComplete) => a is Stop,
            },
    {
        match reply {
            Ok(resp) => match resp.kind {
                TaskKind::MapTask => WorkerAction::RunMap {
                    split: resp.task_name,
                    map_index: resp.tasknum,
                    reduce_task_count: resp.reduce_task_count,
                },
                TaskKind::ReduceTask => WorkerAction::RunReduce {
                    partition: resp.tasknum,
                    map_task_count: resp.map_task_count,
                },
            },
            Err(AssignError::NoTaskAvailable) => WorkerAction::Retry,
            Err(AssignError::JobComplete) => {
                self.done = true;
                WorkerAction::Stop
            },
        }
    }
}

} // verus!
