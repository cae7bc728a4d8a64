//! What a jump does with the ranking: nothing when no directory matches, the
//! directory itself when exactly one does, and otherwise a short list for the
//! picker. Also the list of most frecent directories.
use vstd::prelude::*;
use crate::frecency::{Store, Usage, frecency_at, frecency_of, listed, now, paths_of};
use crate::search::{find_at, insert_ranked, listing, lowered_all, ranked, sort_desc, lower_of};
use crate::text::words;

verus! {

/// Most candidates that a jump offers the picker.
pub const MAX_CHOICES: usize = 20;

/// Most directories that the frecency list shows.
pub const MAX_TOP: usize = 50;

/// The outcome of a jump.
pub enum Jump {
    /// No directory matches.
    Nothing,
    /// Exactly one directory matches.
    Direct(String),
    /// Several match: the best of them, for the picker.
    Pick(Vec<(String, u32)>),
}

/// The candidates other than the current directory `cwd`, in order.
pub open spec fn others(dirs: Seq<Seq<char>>, cwd: Seq<char>) -> Seq<Seq<char>>
    decreases dirs.len(),
{
    if dirs.len() == 0 {
        dirs
    } else {
        let r = others(dirs.drop_last(), cwd);
        if dirs.last() == cwd {
            r
        } else {
            r.push(dirs.last())
        }
    }
}

/// The first `n` items of `r`, or all of them.
pub open spec fn first_n(r: Seq<(Seq<char>, u32)>, n: int) -> Seq<(Seq<char>, u32)> {
    if r.len() > n {
        r.take(n)
    } else {
        r
    }
}

/// The jump that a shortlist `r` calls for.
pub open spec fn jump_of(j: Jump, r: Seq<(Seq<char>, u32)>) -> bool {
    match j {
        Jump::Nothing => r.len() == 0,
        Jump::Direct(p) => r.len() == 1 && p@ == r[0].0,
        Jump::Pick(v) => r.len() >= 2 && listing(v@) == r,
    }
}

/// The shortlist of a jump from `cwd` with `query` at time `now`.
pub open spec fn shortlist(
    dirs: Seq<Seq<char>>,
    cwd: Seq<char>,
    query: Seq<char>,
    s: Usage,
    now: u64,
) -> Seq<(Seq<char>, u32)> {
    let c = others(dirs, cwd);
    first_n(ranked(c, lowered_all(c), words(lower_of(query)), s, now), MAX_CHOICES as int)
}

/// Ranks the candidates `dirs`, leaving out the current directory `cwd`,
/// against `query` at time `now`, and decides the jump from the best
/// `MAX_CHOICES` of them.
pub fn plan_jump_at(dirs: &Vec<String>, cwd: &str, query: &str, store: &Store, now: u64) -> (j:
    Jump)
    requires
        store.wf(),
    ensures
        jump_of(j, shortlist(paths_of(dirs@), cwd@, query@, store@, now)),
{
    let here = cwd.to_string();
    let ghost ds = paths_of(dirs@);
    let mut cands: Vec<String> = Vec::new();
    let mut i: usize = 0;
    while i < dirs.len()
        invariant
            ds == paths_of(dirs@),
            here@ == cwd@,
            i <= ds.len(),
            paths_of(cands@) == others(ds.take(i as int), cwd@),
        decreases ds.len() - i,
    {
        let ghost d = ds.take(i as int + 1);
        assert(d.drop_last() =~= ds.take(i as int));
        assert(d.last() == dirs@[i as int]@);
        if dirs[i] != here {
            let ghost before = cands@;
            cands.push(dirs[i].clone());
            assert(paths_of(cands@) =~= paths_of(before).push(dirs@[i as int]@));
        }
        i += 1;
    }
    assert(ds.take(ds.len() as int) =~= ds);
    let mut r = find_at(&cands, query, store, now);
    let ghost full = listing(r@);
    if r.len() > MAX_CHOICES {
        r.truncate(MAX_CHOICES);
        assert(listing(r@) =~= full.take(MAX_CHOICES as int));
    }
    if r.len() == 0 {
        Jump::Nothing
    } else if r.len() == 1 {
        Jump::Direct(r[0].0.clone())
    } else {
        Jump::Pick(r)
    }
}

/// Decides the jump now; see `plan_jump_at`.
pub fn plan_jump(dirs: &Vec<String>, cwd: &str, query: &str, store: &Store) -> (j: Jump)
    requires
        store.wf(),
    ensures
        exists|t: u64| jump_of(j, shortlist(paths_of(dirs@), cwd@, query@, store@, t)),
{
    plan_jump_at(dirs, cwd, query, store, now())
}

/// `x` as a `u32`, saturating.
pub open spec fn sat_u32(x: int) -> u32 {
    if x > u32::MAX {
        u32::MAX
    } else {
        x as u32
    }
}

/// The stored paths that are `present`, each with its frecency at `now`.
pub open spec fn weighed(s: Usage, now: u64, present: Seq<Seq<char>>) -> Seq<(Seq<char>, u32)>
    decreases s.len(),
{
    if s.len() == 0 {
        Seq::empty()
    } else {
        let r = weighed(s.drop_last(), now, present);
        if present.contains(s.last().0) {
            r.push((s.last().0, sat_u32(frecency_of(s.last().1, now))))
        } else {
            r
        }
    }
}

/// The `MAX_TOP` most frecent stored paths among those `present` on disk,
/// with their frecency at `now`, highest first; ties keep stored order.
pub fn top(store: &Store, now: u64, present: &Vec<String>) -> (r: Vec<(String, u32)>)
    ensures
        listing(r@) == first_n(
            sort_desc(weighed(store@, now, paths_of(present@))),
            MAX_TOP as int,
        ),
{
    let ghost s = store@;
    let ghost ps = paths_of(present@);
    let mut out: Vec<(String, u32)> = Vec::new();
    let mut i: usize = 0;
    assert(listing(out@) =~= Seq::<(Seq<char>, u32)>::empty());
    while i < store.entries.len()
        invariant
            s == store@,
            ps == paths_of(present@),
            i <= s.len(),
            listing(out@) == sort_desc(weighed(s.take(i as int), now, ps)),
        decreases s.len() - i,
    {
        let ghost d = s.take(i as int + 1);
        assert(d.drop_last() =~= s.take(i as int));
        assert(d.last() == s[i as int]);
        if listed(present, &store.entries[i].0) {
            let f = frecency_at(&store.entries[i].1, now);
            let w: u32 = if f > u32::MAX as u64 {
                u32::MAX
            } else {
                f as u32
            };
            let ghost prev = weighed(s.take(i as int), now, ps);
            let ghost x = (s[i as int].0, w);
            assert(weighed(d, now, ps) == prev.push(x));
            assert(prev.push(x).drop_last() =~= prev);
            insert_ranked(&mut out, (store.entries[i].0.clone(), w));
        }
        i += 1;
    }
    assert(s.take(s.len() as int) =~= s);
    let ghost full = listing(out@);
    if out.len() > MAX_TOP {
        out.truncate(MAX_TOP);
        assert(listing(out@) =~= full.take(MAX_TOP as int));
    }
    out
}

} // verus!
