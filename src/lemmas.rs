//! Facts about runs of accesses against the cache model.
use vstd::prelude::*;
use vstd::seq_lib::seq_to_set_is_finite;
use vstd::set_lib::lemma_len_subset;
use crate::address::{index_of, lemma_decompose_round_trip, tag_of};
use crate::cache::{
    choose_slot, first_free, first_hit, is_hit_slot, lemma_first_free_unique, lemma_step_wf,
    lru_index, model_wf, step, CacheLine, CacheModel, Options,
};

verus! {

/// The state after accessing each address of `addrs` in order.
pub open spec fn run(o: Options, m: CacheModel, addrs: Seq<u64>) -> CacheModel
    decreases addrs.len(),
{
    if addrs.len() == 0 {
        m
    } else {
        step(o, run(o, m, addrs.drop_last()), addrs.last()).0
    }
}

/// The distinct tags that valid lines of `set` hold.
pub open spec fn valid_tags(set: Seq<CacheLine>) -> Set<u64> {
    Set::new(|t: u64| exists|j: int| is_hit_slot(set, t, j))
}

/// Every run keeps the shape of the state, and advances the clock once per access.
pub proof fn lemma_run_wf(o: Options, m: CacheModel, addrs: Seq<u64>)
    requires
        model_wf(o, m),
        m.clock + addrs.len() <= u64::MAX,
    ensures
        model_wf(o, run(o, m, addrs)),
        run(o, m, addrs).clock == m.clock + addrs.len(),
    decreases addrs.len(),
{
    if addrs.len() > 0 {
        lemma_run_wf(o, m, addrs.drop_last());
        lemma_step_wf(o, run(o, m, addrs.drop_last()), addrs.last());
    }
}

/// No set ever holds more distinct valid tags than it has lines, whatever the
/// accesses that led there.
pub proof fn lemma_valid_tags_bounded(o: Options, m: CacheModel, addrs: Seq<u64>, i: int)
    requires
        model_wf(o, m),
        m.clock + addrs.len() <= u64::MAX,
        0 <= i < m.sets.len(),
    ensures
        valid_tags(run(o, m, addrs).sets[i]).finite(),
        valid_tags(run(o, m, addrs).sets[i]).len() <= o.lines,
{
    lemma_run_wf(o, m, addrs);
    let set = run(o, m, addrs).sets[i];
    let tags = set.map_values(|l: CacheLine| l.tag);
    assert(valid_tags(set).subset_of(tags.to_set())) by {
        assert forall|t: u64| valid_tags(set).contains(t) implies tags.to_set().contains(t) by {
            let j = choose|j: int| is_hit_slot(set, t, j);
            assert(tags[j] == t);
        }
    }
    seq_to_set_is_finite(tags);
    lemma_len_subset(valid_tags(set), tags.to_set());
    tags.lemma_cardinality_of_set();
}

/// `n` copies of `addr`.
pub open spec fn repeat(addr: u64, n: nat) -> Seq<u64> {
    Seq::new(n, |k: int| addr)
}

proof fn lemma_repeat_prefix(o: Options, m: CacheModel, addr: u64, n: nat)
    requires
        model_wf(o, m),
        1 <= n,
        m.clock + n <= u64::MAX,
        forall|j: int|
            0 <= j < o.lines ==> !(#[trigger] m.sets[index_of(addr, o.sets, o.blocks) as int][j]).valid,
    ensures
        run(o, m, repeat(addr, n)).hits == m.hits + n - 1,
        run(o, m, repeat(addr, n)).misses == m.misses + 1,
        run(o, m, repeat(addr, n)).evictions == m.evictions,
        exists|j: int|
            is_hit_slot(
                run(o, m, repeat(addr, n)).sets[index_of(addr, o.sets, o.blocks) as int],
                tag_of(addr, o.sets, o.blocks),
                j,
            ),
    decreases n,
{
    lemma_decompose_round_trip(addr, o.sets, o.blocks);
    let idx = index_of(addr, o.sets, o.blocks) as int;
    let tag = tag_of(addr, o.sets, o.blocks);
    assert(repeat(addr, n).drop_last() =~= repeat(addr, (n - 1) as nat));
    let prev = run(o, m, repeat(addr, (n - 1) as nat));
    lemma_run_wf(o, m, repeat(addr, (n - 1) as nat));
    let set = prev.sets[idx];
    let (slot, outcome) = choose_slot(set, tag);
    if n == 1 {
        assert(prev == m);
        assert(!exists|k: int| first_hit(set, tag, k));
        assert(first_free(set, 0));
    } else {
        lemma_repeat_prefix(o, m, addr, (n - 1) as nat);
        let j = choose|j: int| is_hit_slot(set, tag, j);
        crate::cache::lemma_first_hit_exists(set, tag, j);
    }
    assert(0 <= slot < set.len());
    assert(is_hit_slot(run(o, m, repeat(addr, n)).sets[idx], tag, slot));
}

/// Accessing one address `lines + 1` times in a row, starting with its set empty,
/// misses once and then hits every time, evicting nothing.
pub proof fn lemma_repeated_address(o: Options, m: CacheModel, addr: u64)
    requires
        model_wf(o, m),
        m.clock + o.lines + 1 <= u64::MAX,
        forall|j: int|
            0 <= j < o.lines ==> !(#[trigger] m.sets[index_of(addr, o.sets, o.blocks) as int][j]).valid,
    ensures
        run(o, m, repeat(addr, (o.lines + 1) as nat)).hits == m.hits + o.lines,
        run(o, m, repeat(addr, (o.lines + 1) as nat)).misses == m.misses + 1,
        run(o, m, repeat(addr, (o.lines + 1) as nat)).evictions == m.evictions,
{
    lemma_repeat_prefix(o, m, addr, (o.lines + 1) as nat);
}

/// What the fill-then-evict law asks of its inputs: `lines + 1` addresses of one
/// set with strictly increasing tags, that set empty at the start.
pub open spec fn ascending_into_empty_set(o: Options, m: CacheModel, addrs: Seq<u64>) -> bool {
    let idx = index_of(addrs[0], o.sets, o.blocks) as int;
    &&& model_wf(o, m)
    &&& addrs.len() == o.lines + 1
    &&& m.clock + addrs.len() <= u64::MAX
    &&& forall|k: int| 0 <= k < addrs.len() ==> index_of(#[trigger] addrs[k], o.sets, o.blocks) == idx
    &&& forall|i: int, j: int|
        0 <= i < j < addrs.len() ==> tag_of(#[trigger] addrs[i], o.sets, o.blocks) < tag_of(
            #[trigger] addrs[j],
            o.sets,
            o.blocks,
        )
    &&& forall|j: int| 0 <= j < o.lines ==> !(#[trigger] m.sets[idx][j]).valid
}

/// Where recency grows with the slot, the lowest slot is the least recently used.
proof fn lemma_lru_first(set: Seq<CacheLine>, n: int)
    requires
        1 <= n <= set.len(),
        forall|i: int, j: int| 0 <= i < j < n ==> set[i].last_used < set[j].last_used,
    ensures
        lru_index(set, n) == 0,
    decreases n,
{
    if n > 1 {
        lemma_lru_first(set, n - 1);
    }
}

proof fn lemma_fill(o: Options, m: CacheModel, addrs: Seq<u64>, n: nat)
    requires
        ascending_into_empty_set(o, m, addrs),
        n <= o.lines,
    ensures
        model_wf(o, run(o, m, addrs.take(n as int))),
        run(o, m, addrs.take(n as int)).clock == m.clock + n,
        run(o, m, addrs.take(n as int)).hits == m.hits,
        run(o, m, addrs.take(n as int)).misses == m.misses + n,
        run(o, m, addrs.take(n as int)).evictions == m.evictions,
        forall|j: int|
            0 <= j < n ==> #[trigger] run(o, m, addrs.take(n as int)).sets[index_of(
                addrs[0],
                o.sets,
                o.blocks,
            ) as int][j] == (CacheLine {
                valid: true,
                tag: tag_of(addrs[j], o.sets, o.blocks),
                last_used: (m.clock + j + 1) as u64,
            }),
        forall|j: int|
            n <= j < o.lines ==> !(#[trigger] run(o, m, addrs.take(n as int)).sets[index_of(
                addrs[0],
                o.sets,
                o.blocks,
            ) as int][j]).valid,
    decreases n,
{
    let idx = index_of(addrs[0], o.sets, o.blocks) as int;
    lemma_run_wf(o, m, addrs.take(n as int));
    if n == 0 {
        assert(addrs.take(0) =~= Seq::<u64>::empty());
    } else {
        let k = n - 1;
        lemma_fill(o, m, addrs, k as nat);
        assert(addrs.take(n as int).drop_last() =~= addrs.take(k));
        let prev = run(o, m, addrs.take(k));
        let addr = addrs[k];
        assert(index_of(addr, o.sets, o.blocks) == idx);
        let tag = tag_of(addr, o.sets, o.blocks);
        lemma_decompose_round_trip(addr, o.sets, o.blocks);
        let set = prev.sets[idx];
        assert(set.len() == o.lines);
        assert forall|j: int| !is_hit_slot(set, tag, j) by {
            if 0 <= j < k {
                assert(set[j].tag == tag_of(addrs[j], o.sets, o.blocks));
            }
        }
        assert(!exists|j: int| first_hit(set, tag, j));
        assert(first_free(set, k));
        assert forall|j: int| first_free(set, j) implies j == k by {
            lemma_first_free_unique(set, j, k);
        }
        assert(choose_slot(set, tag).0 == k);
        let next = run(o, m, addrs.take(n as int));
        assert(next == step(o, prev, addr).0);
        assert forall|j: int| 0 <= j < n implies #[trigger] next.sets[idx][j] == (CacheLine {
            valid: true,
            tag: tag_of(addrs[j], o.sets, o.blocks),
            last_used: (m.clock + j + 1) as u64,
        }) by {
            if j < k {
                assert(next.sets[idx][j] == set[j]);
            }
        }
        assert forall|j: int| n <= j < o.lines implies !(#[trigger] next.sets[idx][j]).valid by {
            assert(next.sets[idx][j] == set[j]);
        }
    }
}

/// Accessing `lines + 1` distinct tags of one set in increasing order, the set
/// empty at the start: the first `lines` accesses miss without evicting, and the
/// last one misses and evicts the first tag, the least recently used.
pub proof fn lemma_fill_then_evict(o: Options, m: CacheModel, addrs: Seq<u64>)
    requires
        ascending_into_empty_set(o, m, addrs),
    ensures
        run(o, m, addrs.take(o.lines as int)).hits == m.hits,
        run(o, m, addrs.take(o.lines as int)).misses == m.misses + o.lines,
        run(o, m, addrs.take(o.lines as int)).evictions == m.evictions,
        run(o, m, addrs).hits == m.hits,
        run(o, m, addrs).misses == m.misses + o.lines + 1,
        run(o, m, addrs).evictions == m.evictions + 1,
        !valid_tags(run(o, m, addrs).sets[index_of(addrs[0], o.sets, o.blocks) as int]).contains(
            tag_of(addrs[0], o.sets, o.blocks),
        ),
        forall|k: int|
            1 <= k < addrs.len() ==> valid_tags(
                run(o, m, addrs).sets[index_of(addrs[0], o.sets, o.blocks) as int],
            ).contains(tag_of(#[trigger] addrs[k], o.sets, o.blocks)),
{
    let e = o.lines as int;
    let idx = index_of(addrs[0], o.sets, o.blocks) as int;
    lemma_fill(o, m, addrs, o.lines as nat);
    assert(addrs.drop_last() =~= addrs.take(e));
    let prev = run(o, m, addrs.take(e));
    let addr = addrs[e];
    assert(index_of(addr, o.sets, o.blocks) == idx);
    let tag = tag_of(addr, o.sets, o.blocks);
    lemma_decompose_round_trip(addr, o.sets, o.blocks);
    let set = prev.sets[idx];
    assert(set.len() == e);
    assert forall|j: int| !is_hit_slot(set, tag, j) by {
        if 0 <= j < e {
            assert(set[j].tag == tag_of(addrs[j], o.sets, o.blocks));
        }
    }
    assert(!exists|j: int| first_hit(set, tag, j));
    assert forall|j: int| !first_free(set, j) by {
        if 0 <= j < e {
            assert(set[j].valid);
        }
    }
    assert forall|i: int, j: int| 0 <= i < j < e implies set[i].last_used < set[j].last_used by {
        assert(set[i].last_used == (m.clock + i + 1) as u64);
        assert(set[j].last_used == (m.clock + j + 1) as u64);
    }
    lemma_lru_first(set, e);
    assert(choose_slot(set, tag).0 == 0);
    let last = run(o, m, addrs);
    assert(last == step(o, prev, addr).0);
    let fin = last.sets[idx];
    let t0 = tag_of(addrs[0], o.sets, o.blocks);
    assert forall|j: int| !is_hit_slot(fin, t0, j) by {
        if 1 <= j < e {
            assert(fin[j] == set[j]);
            assert(fin[j].tag == tag_of(addrs[j], o.sets, o.blocks));
        }
    }
    assert forall|k: int| 1 <= k < addrs.len() implies valid_tags(fin).contains(
        tag_of(#[trigger] addrs[k], o.sets, o.blocks),
    ) by {
        if k < e {
            assert(fin[k] == set[k]);
            assert(is_hit_slot(fin, tag_of(addrs[k], o.sets, o.blocks), k));
        } else {
            assert(is_hit_slot(fin, tag, 0));
        }
    }
}

} // verus!
