//! The cache state, its well-formedness, and the access operation with
//! least-recently-used replacement.
use vstd::prelude::*;
use crate::trace::{parse_record, parse_spec, Access, AccessKind, MalformedRecordError};
use vstd::string::StringSliceAdditionalSpecFns;
use crate::address::{ADDRESS_BITS, bits_fit, decompose, index_of, lemma_decompose_round_trip, tag_of};

verus! {

/// One line of a set: whether it holds a block, which one, and when it was last used.
#[derive(Clone, Copy, Debug, PartialEq, Eq, Structural)]
pub struct CacheLine {
    pub valid: bool,
    pub tag: u64,
    pub last_used: u64,
}

/// What a single access did.
#[derive(Clone, Copy, Debug, PartialEq, Eq, Structural)]
pub enum Outcome {
    Hit,
    Miss,
    MissWithEviction,
}

/// Cumulative counters of a run.
#[derive(Clone, Copy, Debug, PartialEq, Eq, Structural)]
pub struct Statistics {
    pub hits: u64,
    pub misses: u64,
    pub evictions: u64,
}

/// The structural parameters of a cache: set-index bits, lines per set and
/// block-offset bits.
#[derive(Clone, Copy, Debug, PartialEq, Eq, Structural)]
pub struct Options {
    pub sets: u32,
    pub lines: u64,
    pub blocks: u32,
}

/// Why a geometry was rejected.
#[derive(Clone, Copy, Debug, PartialEq, Eq, Structural)]
pub enum ConfigError {
    /// A set must hold at least one line.
    NoLines,
    /// The set-index and block-offset bits together exceed the address width.
    BitsExceedWidth,
}

/// The abstract state of a cache: the lines of every set, the counters and the
/// logical clock.
pub struct CacheModel {
    pub sets: Seq<Seq<CacheLine>>,
    pub hits: nat,
    pub misses: nat,
    pub evictions: nat,
    pub clock: u64,
}

/// A simulated cache of `2^sets` sets of `lines` lines each.
pub struct ModelCache {
    opts: Options,
    stats: Statistics,
    sets: Vec<Vec<CacheLine>>,
    clock: u64,
}

/// Number of sets under `s` set-index bits.
pub open spec fn set_count(s: u32) -> u128 {
    1u128 << (s as u128)
}

/// A geometry that a cache can be built from.
pub open spec fn valid_options(o: Options) -> bool {
    o.lines >= 1 && bits_fit(o.sets, o.blocks)
}

/// Slot `i` of `set` holds block `tag`.
pub open spec fn is_hit_slot(set: Seq<CacheLine>, tag: u64, i: int) -> bool {
    0 <= i < set.len() && set[i].valid && set[i].tag == tag
}

/// Slot `i` is the lowest slot of `set` holding block `tag`.
pub open spec fn first_hit(set: Seq<CacheLine>, tag: u64, i: int) -> bool {
    is_hit_slot(set, tag, i) && forall|j: int| 0 <= j < i ==> !is_hit_slot(set, tag, j)
}

/// Slot `i` is the lowest empty slot of `set`.
pub open spec fn first_free(set: Seq<CacheLine>, i: int) -> bool {
    0 <= i < set.len() && !set[i].valid && forall|j: int| 0 <= j < i ==> set[j].valid
}

/// Slot `i` was used least recently in `set`; among equally old slots it is the lowest.
pub open spec fn lru_slot(set: Seq<CacheLine>, i: int) -> bool {
    &&& 0 <= i < set.len()
    &&& forall|j: int|
        0 <= j < set.len() ==> set[i].last_used <= #[trigger] set[j].last_used && (j < i
            ==> set[i].last_used < set[j].last_used)
}

/// The least recently used of the first `n` slots of `set`, the lowest among ties.
pub open spec fn lru_index(set: Seq<CacheLine>, n: int) -> int
    decreases n,
{
    if n <= 1 {
        0
    } else {
        let best = lru_index(set, n - 1);
        if set[n - 1].last_used < set[best].last_used {
            n - 1
        } else {
            best
        }
    }
}

/// `lru_index` picks the slot used least recently, the lowest among ties.
pub proof fn lemma_lru_index(set: Seq<CacheLine>, n: int)
    requires
        1 <= n <= set.len(),
    ensures
        lru_slot(set.subrange(0, n), lru_index(set, n)),
    decreases n,
{
    if n > 1 {
        lemma_lru_index(set, n - 1);
        let best = lru_index(set, n - 1);
        let pre = set.subrange(0, n - 1);
        assert forall|j: int| 0 <= j < n - 1 implies #[trigger] set[j] == pre[j] by {}
        assert(set[best] == pre[best]);
    }
}

/// The slot that an access of `tag` writes, and what the access counts as.
pub open spec fn choose_slot(set: Seq<CacheLine>, tag: u64) -> (int, Outcome) {
    if exists|i: int| first_hit(set, tag, i) {
        (choose|i: int| first_hit(set, tag, i), Outcome::Hit)
    } else if exists|i: int| first_free(set, i) {
        (choose|i: int| first_free(set, i), Outcome::Miss)
    } else {
        (lru_index(set, set.len() as int), Outcome::MissWithEviction)
    }
}

/// The state after accessing `addr`, and the outcome of that access.
pub open spec fn step(o: Options, m: CacheModel, addr: u64) -> (CacheModel, Outcome) {
    let tag = tag_of(addr, o.sets, o.blocks);
    let index = index_of(addr, o.sets, o.blocks) as int;
    let set = m.sets[index];
    let (slot, outcome) = choose_slot(set, tag);
    let clock = (m.clock + 1) as u64;
    let line = CacheLine { valid: true, tag, last_used: clock };
    let next = CacheModel {
        sets: m.sets.update(index, set.update(slot, line)),
        hits: if outcome == Outcome::Hit { m.hits + 1 } else { m.hits },
        misses: if outcome == Outcome::Hit { m.misses } else { m.misses + 1 },
        evictions: if outcome == Outcome::MissWithEviction { m.evictions + 1 } else { m.evictions },
        clock,
    };
    (next, outcome)
}

/// The shape that every state of a cache built from `o` has.
pub open spec fn model_wf(o: Options, m: CacheModel) -> bool {
    &&& valid_options(o)
    &&& m.sets.len() == set_count(o.sets)
    &&& forall|i: int| 0 <= i < m.sets.len() ==> (#[trigger] m.sets[i]).len() == o.lines
    &&& forall|i: int, j: int, k: int|
        0 <= i < m.sets.len() && is_hit_slot(m.sets[i], m.sets[i][j].tag, j) && #[trigger]
            is_hit_slot(m.sets[i], m.sets[i][j].tag, k) ==> j == k
    &&& forall|i: int, j: int|
        0 <= i < m.sets.len() && 0 <= j < m.sets[i].len() ==> #[trigger] m.sets[i][j].last_used
            <= m.clock
}

/// At most one slot is the lowest that holds a tag.
pub proof fn lemma_first_hit_unique(set: Seq<CacheLine>, tag: u64, i: int, j: int)
    requires
        first_hit(set, tag, i),
        first_hit(set, tag, j),
    ensures
        i == j,
{
    if i < j {
        assert(!is_hit_slot(set, tag, i));
    } else if j < i {
        assert(!is_hit_slot(set, tag, j));
    }
}

/// At most one slot is the lowest empty one.
pub proof fn lemma_first_free_unique(set: Seq<CacheLine>, i: int, j: int)
    requires
        first_free(set, i),
        first_free(set, j),
    ensures
        i == j,
{
}

/// Where some slot holds `tag`, a lowest such slot exists.
pub proof fn lemma_first_hit_exists(set: Seq<CacheLine>, tag: u64, i: int)
    requires
        is_hit_slot(set, tag, i),
    ensures
        exists|k: int| first_hit(set, tag, k),
    decreases i,
{
    if exists|j: int| 0 <= j < i && is_hit_slot(set, tag, j) {
        let j = choose|j: int| 0 <= j < i && is_hit_slot(set, tag, j);
        lemma_first_hit_exists(set, tag, j);
    } else {
        assert(first_hit(set, tag, i));
    }
}

/// A step keeps the shape of the state: tags stay distinct within a set, and
/// recency stamps stay at or below the clock.
pub proof fn lemma_step_wf(o: Options, m: CacheModel, addr: u64)
    requires
        model_wf(o, m),
        m.clock < u64::MAX,
    ensures
        model_wf(o, step(o, m, addr).0),
        step(o, m, addr).0.sets.len() == m.sets.len(),
{
    lemma_decompose_round_trip(addr, o.sets, o.blocks);
    let tag = tag_of(addr, o.sets, o.blocks);
    let idx = index_of(addr, o.sets, o.blocks) as int;
    let set = m.sets[idx];
    let (slot, outcome) = choose_slot(set, tag);
    let next = step(o, m, addr).0;
    let line = CacheLine { valid: true, tag, last_used: (m.clock + 1) as u64 };
    assert(set.len() == o.lines);
    if exists|i: int| first_hit(set, tag, i) {
    } else if exists|i: int| first_free(set, i) {
    } else {
        lemma_lru_index(set, set.len() as int);
        assert(set.subrange(0, set.len() as int) =~= set);
    }
    assert(0 <= slot < set.len());
    let nset = set.update(slot, line);
    assert(next.sets[idx] == nset);
    if outcome != Outcome::Hit {
        assert forall|k: int| !is_hit_slot(set, tag, k) by {
            if is_hit_slot(set, tag, k) {
                lemma_first_hit_exists(set, tag, k);
            }
        }
    }
    assert forall|i: int, j: int, k: int|
        0 <= i < next.sets.len() && is_hit_slot(next.sets[i], next.sets[i][j].tag, j)
            && #[trigger] is_hit_slot(next.sets[i], next.sets[i][j].tag, k) implies j == k by {
        if i == idx {
            let t = nset[j].tag;
            if j != slot && k != slot {
                assert(is_hit_slot(set, set[j].tag, j));
                assert(is_hit_slot(set, set[j].tag, k));
            } else if j == slot && k != slot {
                assert(is_hit_slot(set, tag, k));
                assert(is_hit_slot(set, set[k].tag, k));
                assert(is_hit_slot(set, set[k].tag, slot));
            } else if j != slot && k == slot {
                assert(is_hit_slot(set, tag, j));
                assert(is_hit_slot(set, set[j].tag, j));
                assert(is_hit_slot(set, set[j].tag, slot));
            }
        } else {
            assert(next.sets[i] == m.sets[i]);
        }
    }
    assert forall|i: int, j: int|
        0 <= i < next.sets.len() && 0 <= j < next.sets[i].len() implies #[trigger] next.sets[i][j].last_used
            <= next.clock by {
        if i != idx {
            assert(next.sets[i] == m.sets[i]);
        } else if j != slot {
            assert(nset[j] == set[j]);
        }
    }
    assert forall|i: int| 0 <= i < next.sets.len() implies (#[trigger] next.sets[i]).len() == o.lines by {
        if i != idx {
            assert(next.sets[i] == m.sets[i]);
        }
    }
}

/// The lowest slot of `lines` that holds `tag`, if any does.
fn find_hit(lines: &Vec<CacheLine>, tag: u64) -> (r: Option<usize>)
    ensures
        match r {
            Some(i) => first_hit(lines@, tag, i as int),
            None => forall|i: int| !is_hit_slot(lines@, tag, i),
        },
{
    let mut i: usize = 0;
    while i < lines.len()
        invariant
            i <= lines@.len(),
            forall|j: int| 0 <= j < i ==> !is_hit_slot(lines@, tag, j),
        decreases lines@.len() - i,
    {
        if lines[i].valid && lines[i].tag == tag {
            return Some(i);
        }
        i += 1;
    }
    None
}

/// The lowest empty slot of `lines`, if any is.
fn find_free(lines: &Vec<CacheLine>) -> (r: Option<usize>)
    ensures
        match r {
            Some(i) => first_free(lines@, i as int),
            None => forall|i: int| 0 <= i < lines@.len() ==> lines@[i].valid,
        },
{
    let mut i: usize = 0;
    while i < lines.len()
        invariant
            i <= lines@.len(),
            forall|j: int| 0 <= j < i ==> lines@[j].valid,
        decreases lines@.len() - i,
    {
        if !lines[i].valid {
            return Some(i);
        }
        i += 1;
    }
    None
}

/// The least recently used slot of `lines`, the lowest among ties.
fn find_lru(lines: &Vec<CacheLine>) -> (r: usize)
    requires
        lines@.len() > 0,
    ensures
        r == lru_index(lines@, lines@.len() as int),
{
    let mut best: usize = 0;
    let mut i: usize = 1;
    while i < lines.len()
        invariant
            1 <= i <= lines@.len(),
            best < i,
            best == lru_index(lines@, i as int),
        decreases lines@.len() - i,
    {
        if lines[i].last_used < lines[best].last_used {
            best = i;
        }
        i += 1;
    }
    best
}

impl ModelCache {
    /// The abstract state of this cache.
    pub closed spec fn view(&self) -> CacheModel {
        CacheModel {
            sets: self.sets@.map_values(|v: Vec<CacheLine>| v@),
            hits: self.stats.hits as nat,
            misses: self.stats.misses as nat,
            evictions: self.stats.evictions as nat,
            clock: self.clock,
        }
    }

    /// The geometry this cache was built from.
    pub closed spec fn spec_options(&self) -> Options {
        self.opts
    }

    /// The counters of this cache.
    pub closed spec fn spec_statistics(&self) -> Statistics {
        self.stats
    }

    /// The cache is in a state its operations keep.
    pub open spec fn wf(&self) -> bool {
        model_wf(self.spec_options(), self@)
    }

    /// `n` more accesses cannot overflow a counter or the clock.
    pub open spec fn room_for(&self, n: nat) -> bool {
        &&& self@.clock + n <= u64::MAX
        &&& self@.hits + n <= u64::MAX
        &&& self@.misses + n <= u64::MAX
        &&& self@.evictions + n <= u64::MAX
    }

    proof fn lemma_view_stats(&self)
        ensures
            self@.hits == self.spec_statistics().hits,
            self@.misses == self.spec_statistics().misses,
            self@.evictions == self.spec_statistics().evictions,
            self@.sets.len() == self.sets@.len(),
    {
    }

    /// Accesses `addr`: a hit refreshes the line's recency; a miss fills the lowest
    /// empty line of the set, or else replaces its least recently used line.
    pub fn access(&mut self, addr: u64) -> (r: Outcome)
        requires
            old(self).wf(),
            old(self).room_for(1),
        ensures
            final(self).wf(),
            final(self).spec_options() == old(self).spec_options(),
            (final(self)@, r) == step(old(self).spec_options(), old(self)@, addr),
    {
        let ghost o = self.opts;
        let ghost m = self@;
        let (tag, index, _) = decompose(addr, self.opts.sets, self.opts.blocks);
        proof {
            lemma_decompose_round_trip(addr, o.sets, o.blocks);
            self.lemma_view_stats();
        }
        let n_sets = self.sets.len();
        assert((index as int) < n_sets);
        let idx = index as usize;
        assert(m.sets[idx as int] == self.sets@[idx as int]@);
        let clock = self.clock + 1;
        let line = CacheLine { valid: true, tag, last_used: clock };
        let ghost set = m.sets[idx as int];
        let slot: usize;
        let r: Outcome;
        match find_hit(&self.sets[idx], tag) {
            Some(i) => {
                proof {
                    assert forall|k: int| first_hit(set, tag, k) implies k == i by {
                        lemma_first_hit_unique(set, tag, k, i as int);
                    }
                }
                slot = i;
                r = Outcome::Hit;
                self.stats.hits = self.stats.hits + 1;
            },
            None => {
                assert(!exists|k: int| first_hit(set, tag, k));
                match find_free(&self.sets[idx]) {
                    Some(i) => {
                        proof {
                            assert forall|k: int| first_free(set, k) implies k == i by {
                                lemma_first_free_unique(set, k, i as int);
                            }
                        }
                        slot = i;
                        r = Outcome::Miss;
                    },
                    None => {
                        assert(!exists|k: int| first_free(set, k));
                        let i = find_lru(&self.sets[idx]);
                        proof {
                            lemma_lru_index(set, set.len() as int);
                            assert(set.subrange(0, set.len() as int) =~= set);
                        }
                        slot = i;
                        r = Outcome::MissWithEviction;
                        self.stats.evictions = self.stats.evictions + 1;
                    },
                }
                self.stats.misses = self.stats.misses + 1;
            },
        }
        assert(choose_slot(set, tag) == (slot as int, r));
        self.sets[idx].set(slot, line);
        self.clock = clock;
        proof {
            let (next, _) = step(o, m, addr);
            assert(self@.sets =~= next.sets) by {
                assert forall|i: int| 0 <= i < next.sets.len() implies #[trigger] self@.sets[i]
                    == next.sets[i] by {
                    if i != idx {
                        assert(self@.sets[i] == m.sets[i]);
                    } else {
                        assert(self@.sets[i] == self.sets@[i]@);
                    }
                }
            }
            lemma_step_wf(o, m, addr);
        }
        r
    }
}

/// An empty cache of the geometry `options`, starting from the counters `statistics`.
/// It is refused when a set would hold no line, or when the set-index and
/// block-offset bits do not fit in an address.
pub fn make_cache(options: Options, statistics: Statistics) -> (r: Result<ModelCache, ConfigError>)
    requires
        valid_options(options) ==> set_count(options.sets) * options.lines <= usize::MAX,
    ensures
        r == Err::<ModelCache, ConfigError>(ConfigError::NoLines) <==> options.lines == 0,
        r == Err::<ModelCache, ConfigError>(ConfigError::BitsExceedWidth) <==> options.lines >= 1
            && !bits_fit(options.sets, options.blocks),
        r is Ok <==> valid_options(options),
        r matches Ok(c) ==> {
            &&& c.wf()
            &&& c.spec_options() == options
            &&& c.spec_statistics() == statistics
            &&& c@.clock == 0
            &&& forall|i: int, j: int|
                0 <= i < c@.sets.len() && 0 <= j < c@.sets[i].len() ==> !(
                #[trigger] c@.sets[i][j]).valid
        },
{
    if options.lines == 0 {
        return Err(ConfigError::NoLines);
    }
    if options.sets as u64 + options.blocks as u64 > ADDRESS_BITS as u64 {
        return Err(ConfigError::BitsExceedWidth);
    }
    let count: u128 = 1u128 << options.sets;
    assert(count == set_count(options.sets));
    let sb = options.sets;
    assert(sb <= 64 ==> (1u128 << (sb as u128)) >= 1) by (bit_vector);
    assert(count <= usize::MAX && options.lines <= usize::MAX) by (nonlinear_arith)
        requires
            count * options.lines <= usize::MAX,
            count >= 1,
            options.lines >= 1,
    {}
    let empty = CacheLine { valid: false, tag: 0, last_used: 0 };
    let mut sets: Vec<Vec<CacheLine>> = Vec::new();
    let mut i: usize = 0;
    while i < count as usize
        invariant
            count <= usize::MAX,
            options.lines <= usize::MAX,
            sets@.len() == i,
            i <= count,
            forall|k: int| 0 <= k < i ==> (#[trigger] sets@[k])@ == Seq::new(options.lines as nat, |j: int| empty),
        decreases count - i,
    {
        let mut lines: Vec<CacheLine> = Vec::new();
        let mut j: u64 = 0;
        while j < options.lines
            invariant
                lines@ == Seq::new(j as nat, |k: int| empty),
                j <= options.lines,
            decreases options.lines - j,
        {
            lines.push(empty);
            j += 1;
            assert(lines@ =~= Seq::new(j as nat, |k: int| empty));
        }
        sets.push(lines);
        i += 1;
    }
    let c = ModelCache { opts: options, stats: statistics, sets, clock: 0 };
    assert forall|k: int| 0 <= k < c@.sets.len() implies (#[trigger] c@.sets[k]) == Seq::new(options.lines as nat, |j: int| empty) by {
        assert(c@.sets[k] == sets@[k]@);
    }
    Ok(c)
}

impl ModelCache {
    /// The counters so far.
    pub fn statistics(&self) -> (r: Statistics)
        ensures
            r == self.spec_statistics(),
            r.hits == self@.hits,
            r.misses == self@.misses,
            r.evictions == self@.evictions,
    {
        self.stats
    }

    /// The geometry of this cache.
    pub fn options(&self) -> (r: Options)
        ensures
            r == self.spec_options(),
    {
        self.opts
    }

    /// Whether `n` more accesses fit in the counters and the clock.
    pub fn has_room_for(&self, n: u64) -> (r: bool)
        ensures
            r == self.room_for(n as nat),
    {
        self.clock <= u64::MAX - n && self.stats.hits <= u64::MAX - n && self.stats.misses
            <= u64::MAX - n && self.stats.evictions <= u64::MAX - n
    }
}

/// The state after `access`, and the outcome of each cache access it makes: a
/// modify is a load and then a store to the same address.
pub open spec fn apply_access(o: Options, m: CacheModel, access: Access) -> (CacheModel, Seq<Outcome>) {
    let (m1, r1) = step(o, m, access.address);
    if access.kind == AccessKind::Modify {
        let (m2, r2) = step(o, m1, access.address);
        (m2, seq![r1, r2])
    } else {
        (m1, seq![r1])
    }
}

/// The state after the trace record `b`, and the outcomes of its accesses or why
/// it is malformed. A skipped or malformed record leaves the state as it was.
pub open spec fn apply_line(o: Options, m: CacheModel, b: Seq<u8>) -> (CacheModel, Result<Seq<Outcome>, MalformedRecordError>) {
    match parse_spec(b) {
        Ok(None) => (m, Ok(Seq::empty())),
        Ok(Some(access)) => (apply_access(o, m, access).0, Ok(apply_access(o, m, access).1)),
        Err(e) => (m, Err(e)),
    }
}

/// A malformed record changes neither the lines nor the counters, so the record
/// after it is handled as though it had not been there.
pub proof fn lemma_malformed_line_keeps_state(o: Options, m: CacheModel, b: Seq<u8>, next: Seq<u8>)
    requires
        parse_spec(b) is Err,
    ensures
        apply_line(o, m, b).0 == m,
        apply_line(o, apply_line(o, m, b).0, next) == apply_line(o, m, next),
{
}

impl ModelCache {
    /// Reads one trace record and applies its accesses in order. A skipped record
    /// gives no outcome; a malformed one is reported and changes nothing.
    pub fn handle_instruction(&mut self, line: &str) -> (r: Result<Vec<Outcome>, MalformedRecordError>)
        requires
            old(self).wf(),
            old(self).room_for(2),
        ensures
            final(self).wf(),
            final(self).spec_options() == old(self).spec_options(),
            final(self)@ == apply_line(old(self).spec_options(), old(self)@, line.spec_bytes()).0,
            match r {
                Ok(v) => apply_line(old(self).spec_options(), old(self)@, line.spec_bytes()).1 == Ok::<
                    Seq<Outcome>,
                    MalformedRecordError,
                >(v@),
                Err(e) => apply_line(old(self).spec_options(), old(self)@, line.spec_bytes()).1 == Err::<
                    Seq<Outcome>,
                    MalformedRecordError,
                >(e),
            },
    {
        match parse_record(line) {
            Ok(None) => {
                let v: Vec<Outcome> = Vec::new();
                assert(v@ =~= Seq::<Outcome>::empty());
                Ok(v)
            },
            Ok(Some(access)) => {
                let mut v: Vec<Outcome> = Vec::new();
                let first = self.access(access.address);
                v.push(first);
                if access.kind == AccessKind::Modify {
                    let second = self.access(access.address);
                    v.push(second);
                }
                assert(v@ =~= apply_access(old(self).spec_options(), old(self)@, access).1);
                Ok(v)
            },
            Err(e) => Err(e),
        }
    }
}

} // verus!
