//! The frecency store: per-path usage scores that grow on each visit, decay in
//! bulk once their total passes a ceiling, and weigh recent use more heavily.
//!
//! Scores are fixed-point: one use adds `UNIT` score units.
use vstd::prelude::*;
use crate::keys::{has_key, keys_unique, lemma_keys_step};

verus! {

/// Score units that one use adds.
pub const UNIT: u64 = 1000;

/// Ceiling on the total score of a store (ten thousand uses).
pub const MAX_TOTAL: u64 = 10000000;

/// The total that aging scales a store down to (nine tenths of the ceiling).
pub const AGED_TOTAL: u64 = 9000000;

pub const HOUR: u64 = 3600;

pub const DAY: u64 = 86400;

pub const WEEK: u64 = 604800;

/// Entries of missing paths are forgotten once unused for this long (90 days).
pub const PRUNE_AGE: u64 = 7776000;

/// Usage of one path: its accumulated score and the time of its last use.
#[derive(Clone, Copy, Debug, PartialEq, Eq)]
pub struct Entry {
    pub score: u64,
    pub last: u64,
}

/// How much a use weighs after `age` seconds, in quarters: four times within
/// the hour, twice within the day, half within the week, a quarter after.
pub open spec fn quarters(age: int) -> int {
    if age < HOUR {
        16
    } else if age < DAY {
        8
    } else if age < WEEK {
        2
    } else {
        1
    }
}

/// Seconds between `last` and `now`, zero when `last` lies ahead.
pub open spec fn elapsed(last: u64, now: u64) -> int {
    if now >= last {
        now - last
    } else {
        0
    }
}

/// Frecency of an entry at time `now`, in whole uses (truncated).
pub open spec fn frecency_of(e: Entry, now: u64) -> int {
    (e.score * quarters(elapsed(e.last, now))) / (4 * UNIT as int)
}

/// Frecency of `entry` at time `now`, in whole uses.
pub fn frecency_at(entry: &Entry, now: u64) -> (r: u64)
    ensures
        r == frecency_of(*entry, now),
{
    let age: u64 = now.saturating_sub(entry.last);
    let q: u128 = if age < HOUR {
        16
    } else if age < DAY {
        8
    } else if age < WEEK {
        2
    } else {
        1
    };
    let w: u128 = (entry.score as u128) * q / (4 * UNIT as u128);
    assert(w <= entry.score * 4) by (nonlinear_arith)
        requires
            w == (entry.score as u128) * q / 4000,
            q <= 16,
    ;
    w as u64
}


/// A store as the contracts see it: each path with its entry, in stored order.
pub type Usage = Seq<(Seq<char>, Entry)>;

/// The usage statistics of every path that was ever boosted, one entry per
/// path.
pub struct Store {
    pub entries: Vec<(String, Entry)>,
}

impl View for Store {
    type V = Usage;

    open spec fn view(&self) -> Usage {
        usage_of(self.entries@)
    }
}

/// The paths of stored entries seen as character sequences.
pub open spec fn usage_of(v: Seq<(String, Entry)>) -> Usage {
    v.map_values(|p: (String, Entry)| (p.0@, p.1))
}

/// No path occurs twice.
pub open spec fn unique_paths(s: Usage) -> bool {
    keys_unique(s)
}

/// Whether `path` has an entry.
pub open spec fn has_path(s: Usage, path: Seq<char>) -> bool {
    has_key(s, path)
}

/// The position of the entry of `path`, where there is one.
pub open spec fn path_pos(s: Usage, path: Seq<char>) -> int {
    choose|i: int| 0 <= i < s.len() && s[i].0 == path
}

/// Frecency of `path` in whole uses at time `now`; zero for an unknown path.
pub open spec fn score_of(s: Usage, path: Seq<char>, now: u64) -> int {
    if has_path(s, path) {
        frecency_of(s[path_pos(s, path)].1, now)
    } else {
        0
    }
}

/// Sum of all scores.
pub open spec fn total(s: Usage) -> int
    decreases s.len(),
{
    if s.len() == 0 {
        0
    } else {
        total(s.drop_last()) + s.last().1.score
    }
}

pub open spec fn sat_add(a: u64, b: u64) -> u64 {
    if a + b > u64::MAX {
        u64::MAX
    } else {
        (a + b) as u64
    }
}

/// The store after one more use of `path` at time `now`, before aging.
pub open spec fn bumped(s: Usage, path: Seq<char>, now: u64) -> Usage {
    if has_path(s, path) {
        let i = path_pos(s, path);
        s.update(i, (path, Entry { score: sat_add(s[i].1.score, UNIT), last: now }))
    } else {
        s.push((path, Entry { score: UNIT, last: now }))
    }
}

/// The store with the entry of `path` set to `e`: replaced where there is
/// one, added otherwise.
pub open spec fn with_entry(s: Usage, path: Seq<char>, e: Entry) -> Usage {
    if has_path(s, path) {
        s.update(path_pos(s, path), (path, e))
    } else {
        s.push((path, e))
    }
}

/// An entry's score multiplied by `AGED_TOTAL / t`, rounded down.
pub open spec fn scaled(e: Entry, t: int) -> Entry {
    Entry { score: ((e.score * AGED_TOTAL) / t) as u64, last: e.last }
}

/// Every entry scaled by `AGED_TOTAL / t`; those that fall under one use
/// are dropped.
pub open spec fn shrunk(s: Usage, t: int) -> Usage
    decreases s.len(),
{
    if s.len() == 0 {
        s
    } else {
        let rest = shrunk(s.drop_last(), t);
        let e = scaled(s.last().1, t);
        if e.score >= UNIT {
            rest.push((s.last().0, e))
        } else {
            rest
        }
    }
}

/// Aging: a store whose total passes `MAX_TOTAL` is scaled down to
/// `AGED_TOTAL`, and entries under one use are dropped.
pub open spec fn aged(s: Usage) -> Usage {
    if total(s) <= MAX_TOTAL {
        s
    } else {
        shrunk(s, total(s))
    }
}

impl Store {
    pub open spec fn wf(&self) -> bool {
        unique_paths(self@)
    }

    /// An empty store.
    pub fn new() -> (r: Store)
        ensures
            r@ == Seq::<(Seq<char>, Entry)>::empty(),
            r.wf(),
    {
        let r = Store { entries: Vec::new() };
        assert(r@ =~= Seq::<(Seq<char>, Entry)>::empty());
        r
    }

    /// Position of the entry of `path`.
    fn find_path(&self, path: &String) -> (r: Option<usize>)
        requires
            self.wf(),
        ensures
            r is Some <==> has_path(self@, path@),
            r is Some ==> r->0 == path_pos(self@, path@),
            r is Some ==> r->0 < self@.len() && self@[r->0 as int].0 == path@,
    {
        let mut i: usize = 0;
        while i < self.entries.len()
            invariant
                self.wf(),
                i <= self.entries@.len(),
                forall|j: int| 0 <= j < i ==> self@[j].0 != path@,
            decreases self.entries@.len() - i,
        {
            if self.entries[i].0 == *path {
                assert(self@[i as int].0 == path@);
                let ghost k = path_pos(self@, path@);
                assert(self@[k].0 == path@);
                assert(k == i as int) by {
                    if k != i as int {
                        assert(self@[k].0 != self@[i as int].0);
                    }
                }
                return Some(i);
            }
            i += 1;
        }
        None
    }
}

/// Frecency of `path` in `store` at time `now`, in whole uses; zero for a
/// path that was never boosted.
pub fn score_at(store: &Store, path: &str, now: u64) -> (r: u64)
    requires
        store.wf(),
    ensures
        r == score_of(store@, path@, now),
{
    let key = path.to_string();
    match store.find_path(&key) {
        Some(i) => frecency_at(&store.entries[i].1, now),
        None => 0,
    }
}


proof fn lemma_total_bound(s: Usage)
    ensures
        0 <= total(s) <= s.len() * (u64::MAX as int),
    decreases s.len(),
{
    if s.len() > 0 {
        lemma_total_bound(s.drop_last());
    }
}

proof fn lemma_usage_push(v: Seq<(String, Entry)>, x: (String, Entry))
    ensures
        usage_of(v.push(x)) == usage_of(v).push((x.0@, x.1)),
{
    assert(usage_of(v.push(x)) =~= usage_of(v).push((x.0@, x.1)));
}

/// Every path of `shrunk(s, t)` is a path of `s`, and no path occurs twice
/// where none did in `s`.
proof fn lemma_shrunk_paths(s: Usage, t: int)
    ensures
        forall|i: int| 0 <= i < shrunk(s, t).len() ==> has_path(s, #[trigger] shrunk(s, t)[i].0),
        unique_paths(s) ==> unique_paths(shrunk(s, t)),
    decreases s.len(),
{
    if s.len() > 0 {
        let d = s.drop_last();
        lemma_shrunk_paths(d, t);
        let rest = shrunk(d, t);
        let r = shrunk(s, t);
        if r != rest {
            assert(r.drop_last() =~= rest);
        }
        lemma_keys_step(s, rest, r);
    }
}

impl Store {
    /// Sum of all scores.
    fn total_score(&self) -> (r: u128)
        ensures
            r == total(self@),
    {
        let mut sum: u128 = 0;
        let mut i: usize = 0;
        while i < self.entries.len()
            invariant
                i <= self.entries@.len(),
                sum == total(self@.take(i as int)),
            decreases self.entries@.len() - i,
        {
            let ghost s = self@.take(i as int + 1);
            assert(s.drop_last() =~= self@.take(i as int));
            proof {
                lemma_total_bound(s);
                let n = s.len();
                assert(n * (u64::MAX as int) <= u128::MAX) by (nonlinear_arith)
                    requires
                        n <= usize::MAX,
                ;
            }
            sum = sum + self.entries[i].1.score as u128;
            i += 1;
        }
        assert(self@.take(self@.len() as int) =~= self@);
        sum
    }
}

/// Ages `store`: once the total score passes `MAX_TOTAL`, every score is
/// scaled by `AGED_TOTAL / total` and entries left under one use are dropped.
pub fn age(store: &mut Store)
    requires
        old(store).wf(),
    ensures
        final(store).wf(),
        final(store)@ == aged(old(store)@),
{
    let t = store.total_score();
    if t <= MAX_TOTAL as u128 {
        return;
    }
    let ghost s = store@;
    let mut kept: Vec<(String, Entry)> = Vec::new();
    let mut i: usize = 0;
    while i < store.entries.len()
        invariant
            store@ == s,
            t == total(s),
            t > MAX_TOTAL,
            i <= s.len(),
            usage_of(kept@) == shrunk(s.take(i as int), t as int),
        decreases s.len() - i,
    {
        let e = store.entries[i].1;
        assert((e.score as int) * (AGED_TOTAL as int) <= (u64::MAX as int) * 9000000)
            by (nonlinear_arith)
            requires
                e.score <= u64::MAX,
        ;
        let sc: u128 = (e.score as u128) * (AGED_TOTAL as u128) / t;
        assert(sc <= e.score) by {
            let a = e.score as int;
            assert(a * AGED_TOTAL <= a * t) by (nonlinear_arith)
                requires
                    a >= 0,
                    AGED_TOTAL <= t,
            ;
            vstd::arithmetic::div_mod::lemma_div_is_ordered(a * AGED_TOTAL, a * t, t as int);
            vstd::arithmetic::div_mod::lemma_div_by_multiple(a, t as int);
        }
        let ghost d = s.take(i as int + 1);
        assert(d.drop_last() =~= s.take(i as int));
        assert(d.last() == s[i as int]);
        if sc >= UNIT as u128 {
            let item = (store.entries[i].0.clone(), Entry { score: sc as u64, last: e.last });
            proof {
                lemma_usage_push(kept@, item);
            }
            kept.push(item);
        }
        i += 1;
    }
    assert(s.take(s.len() as int) =~= s);
    proof {
        lemma_shrunk_paths(s, t as int);
    }
    store.entries = kept;
}

impl Store {
    /// Sets the entry of `path` to `entry`, replacing any it had.
    pub fn put(&mut self, path: String, entry: Entry)
        requires
            old(self).wf(),
        ensures
            final(self).wf(),
            final(self)@ == with_entry(old(self)@, path@, entry),
    {
        let ghost s = self@;
        let ghost k = path@;
        match self.find_path(&path) {
            Some(i) => {
                self.entries[i] = (path, entry);
                assert(self@ =~= with_entry(s, k, entry));
            },
            None => {
                let item = (path, entry);
                proof {
                    lemma_usage_push(self.entries@, item);
                }
                self.entries.push(item);
                assert(self@ =~= with_entry(s, k, entry));
            },
        }
    }
}

/// Records one use of `path` at time `now`: its score grows by one use
/// (starting from nothing for a new path), its last use becomes `now`, and
/// the store is aged.
pub fn boost_at(store: &mut Store, path: &str, now: u64)
    requires
        old(store).wf(),
    ensures
        final(store).wf(),
        final(store)@ == aged(bumped(old(store)@, path@, now)),
        total(final(store)@) <= MAX_TOTAL,
{
    let key = path.to_string();
    let ghost s = store@;
    match store.find_path(&key) {
        Some(i) => {
            let e = store.entries[i].1;
            let item = (key, Entry { score: e.score.saturating_add(UNIT), last: now });
            store.entries[i] = item;
            assert(store@ =~= bumped(s, path@, now));
        },
        None => {
            let item = (key, Entry { score: UNIT, last: now });
            proof {
                lemma_usage_push(store.entries@, item);
            }
            store.entries.push(item);
            assert(store@ =~= bumped(s, path@, now));
        },
    }
    age(store);
    proof {
        lemma_aged_bounded(bumped(s, path@, now));
    }
}


proof fn lemma_shrunk_total(s: Usage, t: int)
    requires
        t >= AGED_TOTAL,
    ensures
        total(shrunk(s, t)) * t <= total(s) * AGED_TOTAL,
    decreases s.len(),
{
    if s.len() > 0 {
        let d = s.drop_last();
        lemma_shrunk_total(d, t);
        lemma_total_bound(d);
        let a = s.last().1.score as int;
        let x = (a * AGED_TOTAL) / t;
        assert(x * t <= a * AGED_TOTAL) by {
            vstd::arithmetic::div_mod::lemma_fundamental_div_mod(a * AGED_TOTAL, t);
            vstd::arithmetic::div_mod::lemma_mod_pos_bound(a * AGED_TOTAL, t);
        }
        assert(x <= a) by {
            assert(a * AGED_TOTAL <= a * t) by (nonlinear_arith)
                requires
                    a >= 0,
                    AGED_TOTAL <= t,
            ;
            vstd::arithmetic::div_mod::lemma_div_is_ordered(a * AGED_TOTAL, a * t, t);
            vstd::arithmetic::div_mod::lemma_div_by_multiple(a, t);
        }
        assert(0 <= x) by {
            vstd::arithmetic::div_mod::lemma_div_pos_is_pos(a * AGED_TOTAL, t);
        }
        let rest = shrunk(d, t);
        assert(total(s) == total(d) + a);
        if scaled(s.last().1, t).score >= UNIT {
            let e = scaled(s.last().1, t);
            let r2 = rest.push((s.last().0, e));
            assert(r2.drop_last() =~= rest);
            assert(shrunk(s, t) == r2);
            assert(e.score == x);
            assert(total(r2) == total(rest) + x);
            assert((total(rest) + x) * t <= (total(d) + a) * AGED_TOTAL) by (nonlinear_arith)
                requires
                    total(rest) * t <= total(d) * AGED_TOTAL,
                    x * t <= a * AGED_TOTAL,
            ;
            assert(total(shrunk(s, t)) * t <= total(s) * AGED_TOTAL);
        } else {
            assert(shrunk(s, t) == rest);
            assert(total(d) * AGED_TOTAL <= (total(d) + a) * AGED_TOTAL) by (nonlinear_arith)
                requires
                    a >= 0,
            ;
            assert(total(shrunk(s, t)) * t <= total(s) * AGED_TOTAL);
        }
    } else {
        assert(shrunk(s, t) == s);
        assert(total(s) == 0);
        assert(0 * t == 0) by (nonlinear_arith);
    }
}

/// After aging, the total score of any store is at most `MAX_TOTAL`.
pub proof fn lemma_aged_bounded(s: Usage)
    ensures
        total(aged(s)) <= MAX_TOTAL,
{
    let t = total(s);
    if t > MAX_TOTAL {
        lemma_shrunk_total(s, t);
        let r = total(shrunk(s, t));
        assert(r <= AGED_TOTAL) by (nonlinear_arith)
            requires
                r * t <= t * AGED_TOTAL,
                t > 0,
        ;
    }
}

/// The store after boosting `paths[i]` at time `times[i]`, one after another.
pub open spec fn boosts(s: Usage, paths: Seq<Seq<char>>, times: Seq<u64>) -> Usage
    decreases paths.len(),
{
    if paths.len() == 0 || times.len() == 0 {
        s
    } else {
        boosts(aged(bumped(s, paths[0], times[0])), paths.drop_first(), times.drop_first())
    }
}

/// After any sequence of one or more boosts, each followed by aging, the
/// total score is at most `MAX_TOTAL`, whatever the store held before.
pub proof fn lemma_boosts_bounded(s: Usage, paths: Seq<Seq<char>>, times: Seq<u64>)
    requires
        paths.len() > 0,
        paths.len() == times.len(),
    ensures
        total(boosts(s, paths, times)) <= MAX_TOTAL,
    decreases paths.len(),
{
    let next = aged(bumped(s, paths[0], times[0]));
    if paths.len() == 1 {
        lemma_aged_bounded(bumped(s, paths[0], times[0]));
        assert(paths.drop_first().len() == 0);
        assert(boosts(next, paths.drop_first(), times.drop_first()) == next);
    } else {
        lemma_boosts_bounded(next, paths.drop_first(), times.drop_first());
    }
}

/// Of two entries with the same score, the one used more recently has at
/// least the frecency of the other.
pub proof fn lemma_recency_monotonic(a: Entry, b: Entry, now: u64)
    requires
        a.score == b.score,
        a.last >= b.last,
    ensures
        frecency_of(a, now) >= frecency_of(b, now),
{
    let qa = quarters(elapsed(a.last, now));
    let qb = quarters(elapsed(b.last, now));
    assert(qa >= qb);
    let x = a.score as int;
    assert(x * qa >= x * qb) by (nonlinear_arith)
        requires
            x >= 0,
            qa >= qb,
    ;
    vstd::arithmetic::div_mod::lemma_div_is_ordered(x * qb, x * qa, 4 * UNIT as int);
}

/// The character sequences of a list of paths.
pub open spec fn paths_of(v: Seq<String>) -> Seq<Seq<char>> {
    v.map_values(|x: String| x@)
}

/// An entry unused for more than `PRUNE_AGE` seconds at time `now`.
pub open spec fn stale(e: Entry, now: u64) -> bool {
    elapsed(e.last, now) > PRUNE_AGE
}

/// Whether pruning keeps `p`: its path is among those `present` on disk, or
/// it was used recently.
pub open spec fn keeps(p: (Seq<char>, Entry), now: u64, present: Seq<Seq<char>>) -> bool {
    present.contains(p.0) || !stale(p.1, now)
}

/// The entries that pruning keeps, in order.
pub open spec fn pruned(s: Usage, now: u64, present: Seq<Seq<char>>) -> Usage
    decreases s.len(),
{
    if s.len() == 0 {
        s
    } else {
        let rest = pruned(s.drop_last(), now, present);
        if keeps(s.last(), now, present) {
            rest.push(s.last())
        } else {
            rest
        }
    }
}

proof fn lemma_pruned_keeps(s: Usage, now: u64, present: Seq<Seq<char>>)
    ensures
        forall|i: int|
            0 <= i < pruned(s, now, present).len() ==> keeps(
                #[trigger] pruned(s, now, present)[i],
                now,
                present,
            ),
        forall|i: int|
            0 <= i < pruned(s, now, present).len() ==> has_path(
                s,
                #[trigger] pruned(s, now, present)[i].0,
            ),
        unique_paths(s) ==> unique_paths(pruned(s, now, present)),
    decreases s.len(),
{
    if s.len() > 0 {
        let d = s.drop_last();
        lemma_pruned_keeps(d, now, present);
        let rest = pruned(d, now, present);
        let r = pruned(s, now, present);
        if r != rest {
            assert(r.drop_last() =~= rest);
        }
        lemma_keys_step(s, rest, r);
        assert forall|i: int| 0 <= i < r.len() implies keeps(#[trigger] r[i], now, present) by {
            if i < rest.len() {
                assert(r[i] == rest[i]);
            }
        }
    }
}

proof fn lemma_pruned_unchanged(s: Usage, now: u64, present: Seq<Seq<char>>)
    requires
        forall|i: int| 0 <= i < s.len() ==> keeps(#[trigger] s[i], now, present),
    ensures
        pruned(s, now, present) == s,
    decreases s.len(),
{
    if s.len() > 0 {
        let d = s.drop_last();
        assert forall|i: int| 0 <= i < d.len() implies keeps(#[trigger] d[i], now, present) by {
            assert(d[i] == s[i]);
        }
        lemma_pruned_unchanged(d, now, present);
        assert(keeps(s[s.len() - 1], now, present));
        assert(d.push(s.last()) =~= s);
    }
}

/// Pruning twice, at the same time and against the same present paths,
/// leaves what pruning once left.
pub proof fn lemma_prune_idempotent(s: Usage, now: u64, present: Seq<Seq<char>>)
    ensures
        pruned(pruned(s, now, present), now, present) == pruned(s, now, present),
{
    lemma_pruned_keeps(s, now, present);
    lemma_pruned_unchanged(pruned(s, now, present), now, present);
}

/// Whether `path` is one of `paths`.
pub(crate) fn listed(paths: &Vec<String>, path: &String) -> (r: bool)
    ensures
        r == paths_of(paths@).contains(path@),
{
    let mut i: usize = 0;
    while i < paths.len()
        invariant
            i <= paths@.len(),
            forall|j: int| 0 <= j < i ==> paths@[j]@ != path@,
        decreases paths@.len() - i,
    {
        if paths[i] == *path {
            assert(paths_of(paths@)[i as int] == path@);
            return true;
        }
        i += 1;
    }
    assert(!paths_of(paths@).contains(path@)) by {
        if paths_of(paths@).contains(path@) {
            let j = choose|j: int| 0 <= j < paths_of(paths@).len() && paths_of(paths@)[j] == path@;
            assert(paths@[j]@ == path@);
        }
    }
    false
}

/// Forgets the entries whose path is not among `present` (the stored paths
/// that still exist on disk) and that were last used more than `PRUNE_AGE`
/// seconds before `now`. Entries of present paths stay whatever their age.
pub fn prune(store: &mut Store, now: u64, present: &Vec<String>)
    requires
        old(store).wf(),
    ensures
        final(store).wf(),
        final(store)@ == pruned(old(store)@, now, paths_of(present@)),
{
    let ghost s = store@;
    let ghost ps = paths_of(present@);
    let mut kept: Vec<(String, Entry)> = Vec::new();
    let mut i: usize = 0;
    while i < store.entries.len()
        invariant
            store@ == s,
            ps == paths_of(present@),
            i <= s.len(),
            usage_of(kept@) == pruned(s.take(i as int), now, ps),
        decreases s.len() - i,
    {
        let e = store.entries[i].1;
        let old_enough = now.saturating_sub(e.last) > PRUNE_AGE;
        let ghost d = s.take(i as int + 1);
        assert(d.drop_last() =~= s.take(i as int));
        assert(d.last() == s[i as int]);
        if !old_enough || listed(present, &store.entries[i].0) {
            let item = (store.entries[i].0.clone(), e);
            proof {
                lemma_usage_push(kept@, item);
            }
            kept.push(item);
        }
        i += 1;
    }
    assert(s.take(s.len() as int) =~= s);
    proof {
        lemma_pruned_keeps(s, now, ps);
    }
    store.entries = kept;
}

/// Relies on std's `SystemTime::now` and `duration_since`: the current time in
/// whole seconds since the Unix epoch, zero for a clock set before it.
#[verifier::external_body]
pub fn now() -> (r: u64) {
    std::time::SystemTime::now()
        .duration_since(std::time::UNIX_EPOCH)
        .map(|d| d.as_secs())
        .unwrap_or(0)
}

/// Records one use of `path` now; see `boost_at`.
pub fn boost(store: &mut Store, path: &str)
    requires
        old(store).wf(),
    ensures
        final(store).wf(),
        exists|t: u64| final(store)@ == aged(bumped(old(store)@, path@, t)),
        total(final(store)@) <= MAX_TOTAL,
{
    let t = now();
    boost_at(store, path, t);
}

/// Frecency of `entry` now, in whole uses; see `frecency_at`.
pub fn frecency(entry: &Entry) -> (r: u64)
    ensures
        exists|t: u64| r == frecency_of(*entry, t),
{
    frecency_at(entry, now())
}

/// Frecency of `path` in `store` now, in whole uses; see `score_at`.
pub fn score(store: &Store, path: &str) -> (r: u64)
    requires
        store.wf(),
    ensures
        exists|t: u64| r == score_of(store@, path@, t),
{
    score_at(store, path, now())
}

} // verus!
