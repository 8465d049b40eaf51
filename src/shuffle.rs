//! The shuffle: routing map output to partitions, and grouping a partition's
//! records by key for the reduce function.
use crate::keys::{
    key_less, key_lt, lemma_key_lt_asymmetric, lemma_key_lt_irreflexive, lemma_key_lt_total,
    lemma_key_lt_transitive,
};
use crate::partition::{partition, partition_of};
use crate::worker::KVPair;
use vstd::prelude::*;

verus! {

/// The records as pairs of a key and a value.
pub open spec fn records_view(s: Seq<KVPair>) -> Seq<(Seq<char>, u64)> {
    s.map_values(|r: KVPair| (r.key@, r.val))
}

/// The values of the records with key `k`, in the order of the records.
pub open spec fn values_for(recs: Seq<(Seq<char>, u64)>, k: Seq<char>) -> Seq<u64>
    decreases recs.len(),
{
    if recs.len() == 0 {
        seq![]
    } else if recs.last().0 == k {
        values_for(recs.drop_last(), k).push(recs.last().1)
    } else {
        values_for(recs.drop_last(), k)
    }
}

/// The records that partition `p` receives, in their order.
pub open spec fn bucket(recs: Seq<(Seq<char>, u64)>, reduce_task_count: u64, p: u64) -> Seq<
    (Seq<char>, u64),
>
    decreases recs.len(),
{
    if recs.len() == 0 {
        seq![]
    } else if partition_of(recs.last().0, reduce_task_count) == p {
        bucket(recs.drop_last(), reduce_task_count, p).push(recs.last())
    } else {
        bucket(recs.drop_last(), reduce_task_count, p)
    }
}

/// The records of several map tasks, one after another.
pub open spec fn concat_all(outs: Seq<Seq<(Seq<char>, u64)>>) -> Seq<(Seq<char>, u64)>
    decreases outs.len(),
{
    if outs.len() == 0 {
        seq![]
    } else {
        concat_all(outs.drop_last()) + outs.last()
    }
}

/// What the reduce task for partition `p` reads: the part of each map task's
/// output routed to `p`, in order of the map tasks.
pub open spec fn merged_input(outs: Seq<Seq<(Seq<char>, u64)>>, reduce_task_count: u64, p: u64) -> Seq<
    (Seq<char>, u64),
>
    decreases outs.len(),
{
    if outs.len() == 0 {
        seq![]
    } else {
        merged_input(outs.drop_last(), reduce_task_count, p) + bucket(
            outs.last(),
            reduce_task_count,
            p,
        )
    }
}

pub proof fn lemma_records_view_take(s: Seq<KVPair>, i: int)
    requires
        0 <= i < s.len(),
    ensures
        records_view(s.take(i + 1)) == records_view(s.take(i)).push((s[i].key@, s[i].val)),
        records_view(s.take(i + 1)).drop_last() == records_view(s.take(i)),
{
    assert(records_view(s.take(i + 1)) =~= records_view(s.take(i)).push((s[i].key@, s[i].val)));
    assert(records_view(s.take(i + 1)).drop_last() =~= records_view(s.take(i)));
}

/// Routes each record to its partition: one list per reduce task, each holding
/// the records whose key hashes to that partition, in the order given.
pub fn partition_records(records: &Vec<KVPair>, reduce_task_count: u64) -> (r: Vec<Vec<KVPair>>)
    requires
        0 < reduce_task_count <= usize::MAX,
    ensures
        r@.len() == reduce_task_count,
        forall|p: int|
            0 <= p < r@.len() ==> records_view(#[trigger] r@[p]@) == bucket(
                records_view(records@),
                reduce_task_count,
                p as u64,
            ),
{
    let mut buckets: Vec<Vec<KVPair>> = Vec::new();
    let mut p: u64 = 0;
    while p < reduce_task_count
        invariant
            p <= reduce_task_count,
            buckets@.len() == p,
            forall|q: int| 0 <= q < p ==> (#[trigger] buckets@[q])@.len() == 0,
        decreases reduce_task_count - p,
    {
        buckets.push(Vec::new());
        p = p + 1;
    }
    let mut i: usize = 0;
    assert(records@.take(0) =~= Seq::<KVPair>::empty());
    assert forall|q: int| 0 <= q < buckets@.len() implies records_view(#[trigger] buckets@[q]@)
        == bucket(records_view(records@.take(0)), reduce_task_count, q as u64) by {
        assert(records_view(buckets@[q]@) =~= seq![]);
    }
    while i < records.len()
        invariant
            0 < reduce_task_count <= usize::MAX,
            i <= records@.len(),
            buckets@.len() == reduce_task_count,
            forall|q: int|
                0 <= q < buckets@.len() ==> records_view(#[trigger] buckets@[q]@) == bucket(
                    records_view(records@.take(i as int)),
                    reduce_task_count,
                    q as u64,
                ),
        decreases records.len() - i,
    {
        let rec = &records[i];
        let q = partition(rec.key.as_str(), reduce_task_count);
        let ghost old_buckets = buckets@;
        buckets[q as usize].push(KVPair { key: rec.key.clone(), val: rec.val });
        proof {
            lemma_records_view_take(records@, i as int);
            assert forall|t: int| 0 <= t < buckets@.len() implies records_view(
                #[trigger] buckets@[t]@,
            ) == bucket(records_view(records@.take(i + 1)), reduce_task_count, t as u64) by {
                if t == q {
                    assert(records_view(buckets@[t]@) =~= records_view(old_buckets[t]@).push(
                        (rec.key@, rec.val),
                    ));
                } else {
                    assert(buckets@[t] == old_buckets[t]);
                }
            }
        }
        i = i + 1;
    }
    assert(records@.take(records@.len() as int) =~= records@);
    buckets
}

/// The groups as pairs of a key and its values.
pub open spec fn groups_view(g: Seq<(String, Vec<u64>)>) -> Seq<(Seq<char>, Seq<u64>)> {
    g.map_values(|e: (String, Vec<u64>)| (e.0@, e.1@))
}

/// Each key comes strictly before the keys that follow it.
pub open spec fn sorted_keys(ks: Seq<Seq<char>>) -> bool {
    forall|a: int, b: int| 0 <= a < b < ks.len() ==> key_lt(#[trigger] ks[a], #[trigger] ks[b])
}

pub open spec fn group_keys(g: Seq<(Seq<char>, Seq<u64>)>) -> Seq<Seq<char>> {
    g.map_values(|e: (Seq<char>, Seq<u64>)| e.0)
}

/// `g` is `recs` grouped by key: one group per key that occurs, in key order,
/// each holding that key's values in the order of the records.
pub open spec fn is_grouping(recs: Seq<(Seq<char>, u64)>, g: Seq<(Seq<char>, Seq<u64>)>) -> bool {
    &&& sorted_keys(group_keys(g))
    &&& forall|a: int|
        0 <= a < g.len() ==> (#[trigger] g[a]).1 == values_for(recs, g[a].0) && g[a].1.len() > 0
    &&& forall|k: Seq<char>|
        (#[trigger] values_for(recs, k)).len() > 0 ==> exists|a: int|
            0 <= a < g.len() && (#[trigger] g[a]).0 == k
}

pub proof fn lemma_values_for_push(recs: Seq<(Seq<char>, u64)>, r: (Seq<char>, u64), k: Seq<char>)
    ensures
        values_for(recs.push(r), k) == if r.0 == k {
            values_for(recs, k).push(r.1)
        } else {
            values_for(recs, k)
        },
{
    assert(recs.push(r).drop_last() =~= recs);
}

/// Two key lists, each in strictly increasing order, that hold the same keys
/// are the same list.
pub proof fn lemma_sorted_keys_unique(s1: Seq<Seq<char>>, s2: Seq<Seq<char>>)
    requires
        sorted_keys(s1),
        sorted_keys(s2),
        forall|k: Seq<char>| s1.contains(k) <==> s2.contains(k),
    ensures
        s1 == s2,
    decreases s1.len(),
{
    if s1.len() == 0 {
        if s2.len() > 0 {
            assert(s2.contains(s2[0]));
        }
        assert(s1 =~= s2);
    } else {
        assert(s1.contains(s1[0]));
        let j = choose|j: int| 0 <= j < s2.len() && s2[j] == s1[0];
        assert(s2.contains(s2[0]));
        let i = choose|i: int| 0 <= i < s1.len() && s1[i] == s2[0];
        if j > 0 {
            if i > 0 {
                lemma_key_lt_asymmetric(s1[0], s1[i]);
            } else {
                lemma_key_lt_irreflexive(s1[0]);
            }
        }
        let t1 = s1.drop_first();
        let t2 = s2.drop_first();
        assert forall|k: Seq<char>| t1.contains(k) implies t2.contains(k) by {
            let a = choose|a: int| 0 <= a < t1.len() && t1[a] == k;
            assert(s1[a + 1] == k);
            assert(s2.contains(k));
            let b = choose|b: int| 0 <= b < s2.len() && s2[b] == k;
            if b == 0 {
                assert(key_lt(s1[0], s1[a + 1]));
                lemma_key_lt_irreflexive(k);
            }
            assert(t2[b - 1] == k);
        }
        assert forall|k: Seq<char>| t2.contains(k) implies t1.contains(k) by {
            let b = choose|b: int| 0 <= b < t2.len() && t2[b] == k;
            assert(s2[b + 1] == k);
            assert(s1.contains(k));
            let a = choose|a: int| 0 <= a < s1.len() && s1[a] == k;
            if a == 0 {
                assert(key_lt(s2[0], s2[b + 1]));
                lemma_key_lt_irreflexive(k);
            }
            assert(t1[a - 1] == k);
        }
        assert(sorted_keys(t1)) by {
            assert forall|a: int, b: int| 0 <= a < b < t1.len() implies key_lt(
                #[trigger] t1[a],
                #[trigger] t1[b],
            ) by {
                assert(key_lt(s1[a + 1], s1[b + 1]));
            }
        }
        assert(sorted_keys(t2)) by {
            assert forall|a: int, b: int| 0 <= a < b < t2.len() implies key_lt(
                #[trigger] t2[a],
                #[trigger] t2[b],
            ) by {
                assert(key_lt(s2[a + 1], s2[b + 1]));
            }
        }
        lemma_sorted_keys_unique(t1, t2);
        assert(s1 =~= seq![s1[0]] + t1);
        assert(s2 =~= seq![s2[0]] + t2);
    }
}

/// Grouping by key leaves no choice: two groupings of the same records are
/// the same, so a reduce run over the same intermediate records always sees
/// the same groups, in the same order.
pub proof fn lemma_grouping_unique(
    recs: Seq<(Seq<char>, u64)>,
    g1: Seq<(Seq<char>, Seq<u64>)>,
    g2: Seq<(Seq<char>, Seq<u64>)>,
)
    requires
        is_grouping(recs, g1),
        is_grouping(recs, g2),
    ensures
        g1 == g2,
{
    let k1 = group_keys(g1);
    let k2 = group_keys(g2);
    assert forall|k: Seq<char>| k1.contains(k) <==> k2.contains(k) by {
        if k1.contains(k) {
            let a = choose|a: int| 0 <= a < k1.len() && k1[a] == k;
            assert(g1[a].0 == k);
            assert(values_for(recs, k).len() > 0);
            let b = choose|b: int| 0 <= b < g2.len() && (#[trigger] g2[b]).0 == k;
            assert(k2[b] == k);
        }
        if k2.contains(k) {
            let b = choose|b: int| 0 <= b < k2.len() && k2[b] == k;
            assert(g2[b].0 == k);
            assert(values_for(recs, k).len() > 0);
            let a = choose|a: int| 0 <= a < g1.len() && (#[trigger] g1[a]).0 == k;
            assert(k1[a] == k);
        }
    }
    lemma_sorted_keys_unique(k1, k2);
    assert forall|a: int| 0 <= a < g1.len() implies g1[a] == g2[a] by {
        assert(k1[a] == k2[a]);
    }
    assert(g1.len() == k1.len());
    assert(g1 =~= g2);
}

/// The one grouping of `recs` by key.
pub open spec fn grouping_of(recs: Seq<(Seq<char>, u64)>) -> Seq<(Seq<char>, Seq<u64>)> {
    choose|g: Seq<(Seq<char>, Seq<u64>)>| is_grouping(recs, g)
}

/// Adding a record whose key has a group at `j` appends its value to that
/// group.
pub proof fn lemma_grouping_push_found(
    recs: Seq<(Seq<char>, u64)>,
    g: Seq<(Seq<char>, Seq<u64>)>,
    k: Seq<char>,
    v: u64,
    j: int,
)
    requires
        is_grouping(recs, g),
        0 <= j < g.len(),
        g[j].0 == k,
    ensures
        is_grouping(recs.push((k, v)), g.update(j, (k, g[j].1.push(v)))),
{
    let np = recs.push((k, v));
    let ng = g.update(j, (k, g[j].1.push(v)));
    assert forall|kk: Seq<char>| kk != k implies values_for(np, kk) == values_for(recs, kk) by {
        lemma_values_for_push(recs, (k, v), kk);
    }
    lemma_values_for_push(recs, (k, v), k);
    assert(group_keys(ng) =~= group_keys(g));
    assert forall|a: int| 0 <= a < ng.len() implies (#[trigger] ng[a]).1 == values_for(np, ng[a].0)
        && ng[a].1.len() > 0 by {
        if a != j && g[a].0 == k {
            lemma_key_lt_irreflexive(k);
            if a < j {
                assert(key_lt(group_keys(g)[a], group_keys(g)[j]));
            } else {
                assert(key_lt(group_keys(g)[j], group_keys(g)[a]));
            }
        }
    }
    assert forall|kk: Seq<char>| (#[trigger] values_for(np, kk)).len() > 0 implies exists|a: int|
        0 <= a < ng.len() && (#[trigger] ng[a]).0 == kk by {
        if kk == k {
            assert(ng[j].0 == kk);
        } else {
            assert(values_for(recs, kk).len() > 0);
            let a = choose|a: int| 0 <= a < g.len() && (#[trigger] g[a]).0 == kk;
            assert(ng[a].0 == kk);
        }
    }
}

/// Adding a record whose key has no group opens a group for it at `j`, the
/// place where the keys before come before it and the key at `j`, if any,
/// does not.
pub proof fn lemma_grouping_push_new(
    recs: Seq<(Seq<char>, u64)>,
    g: Seq<(Seq<char>, Seq<u64>)>,
    k: Seq<char>,
    v: u64,
    j: int,
)
    requires
        is_grouping(recs, g),
        0 <= j <= g.len(),
        forall|a: int| 0 <= a < j ==> key_lt(g[a].0, k),
        j < g.len() ==> !key_lt(g[j].0, k) && g[j].0 != k,
    ensures
        is_grouping(recs.push((k, v)), g.insert(j, (k, seq![v]))),
{
    let np = recs.push((k, v));
    let ng = g.insert(j, (k, seq![v]));
    let gk = group_keys(g);
    assert forall|kk: Seq<char>| kk != k implies values_for(np, kk) == values_for(recs, kk) by {
        lemma_values_for_push(recs, (k, v), kk);
    }
    lemma_values_for_push(recs, (k, v), k);
    g.insert_ensures(j, (k, seq![v]));
    assert forall|a: int| 0 <= a < ng.len() implies #[trigger] ng[a] == (if a < j {
        g[a]
    } else if a == j {
        (k, seq![v])
    } else {
        g[a - 1]
    }) by {}
    if j < g.len() {
        lemma_key_lt_total(gk[j], k);
    }
    // the new key is not among the old ones
    assert forall|a: int| 0 <= a < g.len() implies g[a].0 != k by {
        lemma_key_lt_irreflexive(k);
        assert(gk[a] == g[a].0);
        if a > j {
            assert(key_lt(gk[j], gk[a]));
            lemma_key_lt_transitive(k, gk[j], gk[a]);
        }
    }
    assert(values_for(recs, k).len() == 0) by {
        if values_for(recs, k).len() > 0 {
            let a = choose|a: int| 0 <= a < g.len() && (#[trigger] g[a]).0 == k;
        }
    }
    assert(values_for(np, k) =~= seq![v]);
    assert(sorted_keys(group_keys(ng))) by {
        let nk = group_keys(ng);
        assert forall|a: int, b: int| 0 <= a < b < nk.len() implies key_lt(
            #[trigger] nk[a],
            #[trigger] nk[b],
        ) by {
            if a < j && b == j {
                assert(gk[a] == g[a].0);
            } else if a < j && b > j {
                assert(gk[a] == g[a].0);
                assert(key_lt(gk[a], k));
                assert(key_lt(k, gk[j]));
                if b - 1 > j {
                    assert(key_lt(gk[j], gk[b - 1]));
                    lemma_key_lt_transitive(k, gk[j], gk[b - 1]);
                }
                lemma_key_lt_transitive(gk[a], k, gk[b - 1]);
            } else if a == j {
                if b - 1 > j {
                    assert(key_lt(gk[j], gk[b - 1]));
                    lemma_key_lt_transitive(k, gk[j], gk[b - 1]);
                }
            } else if a < j {
                assert(key_lt(gk[a], gk[b]));
            } else {
                assert(key_lt(gk[a - 1], gk[b - 1]));
            }
        }
    }
    assert forall|a: int| 0 <= a < ng.len() implies (#[trigger] ng[a]).1 == values_for(np, ng[a].0)
        && ng[a].1.len() > 0 by {
        if a < j {
            assert(g[a].0 != k);
        } else if a > j {
            assert(g[a - 1].0 != k);
        }
    }
    assert forall|kk: Seq<char>| (#[trigger] values_for(np, kk)).len() > 0 implies exists|a: int|
        0 <= a < ng.len() && (#[trigger] ng[a]).0 == kk by {
        if kk == k {
            assert(ng[j].0 == kk);
        } else {
            assert(values_for(recs, kk).len() > 0);
            let a = choose|a: int| 0 <= a < g.len() && (#[trigger] g[a]).0 == kk;
            if a < j {
                assert(ng[a].0 == kk);
            } else {
                assert(ng[a + 1].0 == kk);
            }
        }
    }
}

/// The place in `ks` before which every key comes before `k` and at which,
/// if anywhere, the key does not.
proof fn lemma_insert_point(ks: Seq<Seq<char>>, k: Seq<char>) -> (j: int)
    ensures
        0 <= j <= ks.len(),
        forall|a: int| 0 <= a < j ==> key_lt(ks[a], k),
        j < ks.len() ==> !key_lt(ks[j], k),
    decreases ks.len(),
{
    if ks.len() == 0 {
        0
    } else {
        let n = ks.len() - 1;
        let j0 = lemma_insert_point(ks.drop_last(), k);
        assert forall|a: int| 0 <= a < j0 implies key_lt(ks[a], k) by {
            assert(ks.drop_last()[a] == ks[a]);
        }
        if j0 < n {
            assert(ks.drop_last()[j0] == ks[j0]);
            j0
        } else if key_lt(ks[n], k) {
            ks.len() as int
        } else {
            n
        }
    }
}

/// Every list of records has a grouping by key, so `grouping_of` is one.
pub proof fn lemma_grouping_exists(recs: Seq<(Seq<char>, u64)>)
    ensures
        is_grouping(recs, grouping_of(recs)),
    decreases recs.len(),
{
    if recs.len() == 0 {
        let g = Seq::<(Seq<char>, Seq<u64>)>::empty();
        assert(group_keys(g) =~= seq![]);
        assert(is_grouping(recs, g));
    } else {
        let prev = recs.drop_last();
        let (k, v) = recs.last();
        lemma_grouping_exists(prev);
        let g = grouping_of(prev);
        assert(recs =~= prev.push((k, v)));
        if exists|a: int| 0 <= a < g.len() && g[a].0 == k {
            let j = choose|a: int| 0 <= a < g.len() && g[a].0 == k;
            lemma_grouping_push_found(prev, g, k, v, j);
            assert(is_grouping(recs, g.update(j, (k, g[j].1.push(v)))));
        } else {
            let j = lemma_insert_point(group_keys(g), k);
            assert forall|a: int| 0 <= a < j implies key_lt(g[a].0, k) by {
                assert(group_keys(g)[a] == g[a].0);
            }
            if j < g.len() {
                assert(group_keys(g)[j] == g[j].0);
            }
            lemma_grouping_push_new(prev, g, k, v, j);
            assert(is_grouping(recs, g.insert(j, (k, seq![v]))));
        }
    }
}

/// Groups records by key: one group per distinct key, in increasing key order,
/// each with the values of that key's records in the order given.
pub fn group_records(records: &Vec<KVPair>) -> (g: Vec<(String, Vec<u64>)>)
    ensures
        is_grouping(records_view(records@), groups_view(g@)),
        groups_view(g@) == grouping_of(records_view(records@)),
{
    let mut groups: Vec<(String, Vec<u64>)> = Vec::new();
    let mut i: usize = 0;
    assert(records_view(records@.take(0)) =~= seq![]);
    assert(group_keys(groups_view(groups@)) =~= seq![]);
    while i < records.len()
        invariant
            i <= records@.len(),
            is_grouping(records_view(records@.take(i as int)), groups_view(groups@)),
        decreases records.len() - i,
    {
        let rec = &records[i];
        let ghost prefix = records_view(records@.take(i as int));
        let ghost gv = groups_view(groups@);
        let ghost k = rec.key@;
        let ghost v = rec.val;
        let mut j: usize = 0;
        while j < groups.len() && key_less(groups[j].0.as_str(), rec.key.as_str())
            invariant
                j <= groups@.len(),
                gv == groups_view(groups@),
                k == rec.key@,
                forall|a: int| 0 <= a < j ==> key_lt(gv[a].0, k),
            decreases groups.len() - j,
        {
            j = j + 1;
        }
        proof {
            lemma_records_view_take(records@, i as int);
        }
        if j < groups.len() && groups[j].0 == rec.key {
            groups[j].1.push(rec.val);
            proof {
                lemma_grouping_push_found(prefix, gv, k, v, j as int);
                assert(groups_view(groups@) =~= gv.update(j as int, (k, gv[j as int].1.push(v))));
            }
        } else {
            let mut vals: Vec<u64> = Vec::new();
            vals.push(rec.val);
            let ghost old_groups = groups@;
            groups.insert(j, (rec.key.clone(), vals));
            proof {
                lemma_grouping_push_new(prefix, gv, k, v, j as int);
                old_groups.insert_ensures(j as int, groups@[j as int]);
                assert(groups_view(groups@) =~= gv.insert(j as int, (k, seq![v])));
            }
        }
        i = i + 1;
    }
    assert(records@.take(records@.len() as int) =~= records@);
    proof {
        lemma_grouping_exists(records_view(records@));
        lemma_grouping_unique(
            records_view(records@),
            groups_view(groups@),
            grouping_of(records_view(records@)),
        );
    }
    groups
}

pub proof fn lemma_values_for_concat(a: Seq<(Seq<char>, u64)>, b: Seq<(Seq<char>, u64)>, k: Seq<char>)
    ensures
        values_for(a + b, k) == values_for(a, k) + values_for(b, k),
    decreases b.len(),
{
    if b.len() == 0 {
        assert(a + b =~= a);
        assert(values_for(a, k) + values_for(b, k) =~= values_for(a, k));
    } else {
        assert((a + b).drop_last() =~= a + b.drop_last());
        lemma_values_for_concat(a, b.drop_last(), k);
        if b.last().0 == k {
            assert(values_for(a, k) + values_for(b, k) =~= (values_for(a, k) + values_for(
                b.drop_last(),
                k,
            )).push(b.last().1));
        }
    }
}

/// The part of one map task's output routed to partition `p` holds all the
/// values of each key of that partition, and none of any other key.
pub proof fn lemma_values_for_bucket(
    recs: Seq<(Seq<char>, u64)>,
    reduce_task_count: u64,
    p: u64,
    k: Seq<char>,
)
    ensures
        values_for(bucket(recs, reduce_task_count, p), k) == if partition_of(k, reduce_task_count)
            == p {
            values_for(recs, k)
        } else {
            seq![]
        },
    decreases recs.len(),
{
    if recs.len() > 0 {
        lemma_values_for_bucket(recs.drop_last(), reduce_task_count, p, k);
        let rest = bucket(recs.drop_last(), reduce_task_count, p);
        if partition_of(recs.last().0, reduce_task_count) == p {
            lemma_values_for_push(rest, recs.last(), k);
        }
    }
}

proof fn lemma_merged_values(
    outs: Seq<Seq<(Seq<char>, u64)>>,
    reduce_task_count: u64,
    p: u64,
    k: Seq<char>,
)
    ensures
        values_for(merged_input(outs, reduce_task_count, p), k) == if partition_of(
            k,
            reduce_task_count,
        ) == p {
            values_for(concat_all(outs), k)
        } else {
            seq![]
        },
    decreases outs.len(),
{
    if outs.len() > 0 {
        lemma_merged_values(outs.drop_last(), reduce_task_count, p, k);
        lemma_values_for_concat(
            merged_input(outs.drop_last(), reduce_task_count, p),
            bucket(outs.last(), reduce_task_count, p),
            k,
        );
        lemma_values_for_concat(concat_all(outs.drop_last()), outs.last(), k);
        lemma_values_for_bucket(outs.last(), reduce_task_count, p, k);
        if partition_of(k, reduce_task_count) != p {
            assert(seq![] + seq![] =~= Seq::<u64>::empty());
        }
    }
}

/// Completeness of the shuffle: whatever the outputs of the map tasks, the
/// reduce task for a key's partition reads every value of that key, from
/// every map task, in the order of the map tasks and of their output; no
/// other reduce task reads any value of that key.
pub proof fn lemma_shuffle_complete(
    outs: Seq<Seq<(Seq<char>, u64)>>,
    reduce_task_count: u64,
    k: Seq<char>,
)
    requires
        reduce_task_count > 0,
    ensures
        values_for(merged_input(outs, reduce_task_count, partition_of(k, reduce_task_count)), k)
            == values_for(concat_all(outs), k),
        forall|p: u64|
            p != partition_of(k, reduce_task_count) ==> (#[trigger] values_for(
                merged_input(outs, reduce_task_count, p),
                k,
            )).len() == 0,
{
    lemma_merged_values(outs, reduce_task_count, partition_of(k, reduce_task_count), k);
    assert forall|p: u64| p != partition_of(k, reduce_task_count) implies (#[trigger] values_for(
        merged_input(outs, reduce_task_count, p),
        k,
    )).len() == 0 by {
        lemma_merged_values(outs, reduce_task_count, p, k);
    }
}

} // verus!
