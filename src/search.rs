//! Ranking candidate directories against a query: a candidate is kept when
//! the query's words stand in order in the final component of its lowercased
//! path; its combined score is a bonus for how well that component matches,
//! plus its frecency. An exact match scores in a band of its own above every
//! partial match. The list is sorted by that score, best first, ties in input
//! order.
use vstd::prelude::*;
use vstd::multiset::Multiset;
use crate::frecency::{Store, Usage, paths_of, score_at, score_of, now};
use crate::text::{
    basename,
    base_name,
    char_seqs,
    chars_of,
    contains,
    has,
    in_order,
    matches_terms,
    first_occ,
    occurs_at,
    split_words,
    words,
    at,
};

verus! {

/// Bonus of a final component equal to a one-word query. Combined scores
/// from this value up belong to exact matches alone.
pub const EXACT_BONUS: u64 = 2147483648;

/// Bonus of a final component that starts with the query's first word.
pub const PREFIX_BONUS: u64 = 500;

/// Bonus of any other matching final component.
pub const CONTAINS_BONUS: u64 = 100;

/// What `str::to_lowercase` makes of a string.
pub uninterp spec fn lower_of(s: Seq<char>) -> Seq<char>;

/// Relies on std's `str::to_lowercase`: the result depends on the characters
/// alone, and the empty string stays empty.
#[verifier::external_body]
fn lowercase(s: &str) -> (r: String)
    ensures
        r@ == lower_of(s@),
        s@.len() == 0 ==> r@.len() == 0,
{
    s.to_lowercase()
}

/// Whether the final component `name` equals the query words `terms`.
pub open spec fn is_exact(name: Seq<char>, terms: Seq<Seq<char>>) -> bool {
    terms.len() == 1 && name == terms[0]
}

/// How well a matching final component `name` matches the query words
/// `terms`.
pub open spec fn text_score(name: Seq<char>, terms: Seq<Seq<char>>) -> int {
    if is_exact(name, terms) {
        EXACT_BONUS as int
    } else if occurs_at(name, terms[0], 0) {
        PREFIX_BONUS as int
    } else {
        CONTAINS_BONUS as int
    }
}

/// Text score plus frecency. An exact match's sum saturates at `u32::MAX`;
/// any other sum saturates just under `EXACT_BONUS`, so frecency never lifts a
/// partial match to an exact one.
pub open spec fn combined(text: int, weight: int) -> u32 {
    if text >= EXACT_BONUS {
        if text + weight > u32::MAX {
            u32::MAX
        } else {
            (text + weight) as u32
        }
    } else if text + weight >= EXACT_BONUS {
        (EXACT_BONUS - 1) as u32
    } else {
        (text + weight) as u32
    }
}

/// Whether candidate `i` matches: the query words stand in order in the final
/// component of its lowercased path.
pub open spec fn matches_at(lowered: Seq<Seq<char>>, terms: Seq<Seq<char>>, i: int) -> bool {
    in_order(basename(lowered[i]), terms, 0)
}

/// Candidate `i` with its combined score.
pub open spec fn entry_of(
    dirs: Seq<Seq<char>>,
    lowered: Seq<Seq<char>>,
    terms: Seq<Seq<char>>,
    s: Usage,
    now: u64,
    i: int,
) -> (Seq<char>, u32) {
    (dirs[i], combined(text_score(basename(lowered[i]), terms), score_of(s, dirs[i], now)))
}

/// The candidates that match, each with its combined score, in input order;
/// `lowered[i]` is the lowercased form of `dirs[i]`.
pub open spec fn scored(
    dirs: Seq<Seq<char>>,
    lowered: Seq<Seq<char>>,
    terms: Seq<Seq<char>>,
    s: Usage,
    now: u64,
) -> Seq<(Seq<char>, u32)>
    decreases dirs.len(),
{
    if dirs.len() == 0 || terms.len() == 0 {
        Seq::empty()
    } else {
        let rest = scored(dirs.drop_last(), lowered, terms, s, now);
        let i = dirs.len() - 1;
        if matches_at(lowered, terms, i) {
            rest.push(entry_of(dirs, lowered, terms, s, now, i))
        } else {
            rest
        }
    }
}

/// `x` placed into the descending list `r` after every item that scores at
/// least as much.
pub open spec fn insert_desc(r: Seq<(Seq<char>, u32)>, x: (Seq<char>, u32)) -> Seq<
    (Seq<char>, u32),
>
    decreases r.len(),
{
    if r.len() == 0 {
        seq![x]
    } else if r.last().1 >= x.1 {
        r.push(x)
    } else {
        insert_desc(r.drop_last(), x).push(r.last())
    }
}

/// `s` sorted by score, highest first; equal scores keep their order.
pub open spec fn sort_desc(s: Seq<(Seq<char>, u32)>) -> Seq<(Seq<char>, u32)>
    decreases s.len(),
{
    if s.len() == 0 {
        s
    } else {
        insert_desc(sort_desc(s.drop_last()), s.last())
    }
}

/// The ranking: matching candidates, best first.
pub open spec fn ranked(
    dirs: Seq<Seq<char>>,
    lowered: Seq<Seq<char>>,
    terms: Seq<Seq<char>>,
    s: Usage,
    now: u64,
) -> Seq<(Seq<char>, u32)> {
    sort_desc(scored(dirs, lowered, terms, s, now))
}

/// A ranked list as the contracts see it.
pub open spec fn listing(v: Seq<(String, u32)>) -> Seq<(Seq<char>, u32)> {
    v.map_values(|p: (String, u32)| (p.0@, p.1))
}


/// The lowercased forms of `v`.
pub open spec fn lowered_all(v: Seq<Seq<char>>) -> Seq<Seq<char>> {
    v.map_values(|p: Seq<char>| lower_of(p))
}

/// Text score of the final component `name` against `terms`.
fn text_tier(name: &Vec<char>, terms: &Vec<Vec<char>>) -> (r: u64)
    requires
        terms@.len() > 0,
    ensures
        r == text_score(name@, char_seqs(terms@)),
{
    let ghost ts = char_seqs(terms@);
    let first = &terms[0];
    assert(ts[0] == first@);
    let starts = at(name, first, 0);
    assert(name@.subrange(0, name@.len() as int) =~= name@);
    if terms.len() == 1 && name.len() == first.len() && starts {
        EXACT_BONUS
    } else if starts {
        PREFIX_BONUS
    } else {
        CONTAINS_BONUS
    }
}

/// The combined score of text score `text` and frecency `weight`.
fn combine(text: u64, weight: u64) -> (r: u32)
    ensures
        r == combined(text as int, weight as int),
{
    let c = text as u128 + weight as u128;
    if text >= EXACT_BONUS {
        if c > u32::MAX as u128 {
            u32::MAX
        } else {
            c as u32
        }
    } else if c >= EXACT_BONUS as u128 {
        (EXACT_BONUS - 1) as u32
    } else {
        c as u32
    }
}

proof fn lemma_insert_at(r: Seq<(Seq<char>, u32)>, x: (Seq<char>, u32), j: int)
    requires
        0 <= j <= r.len(),
        j == 0 || r[j - 1].1 >= x.1,
        forall|k: int| j <= k < r.len() ==> r[k].1 < x.1,
    ensures
        insert_desc(r, x) == r.take(j).push(x) + r.skip(j),
    decreases r.len(),
{
    if r.len() == j {
        assert(r.take(j).push(x) + r.skip(j) =~= r.push(x));
    } else {
        let d = r.drop_last();
        lemma_insert_at(d, x, j);
        assert((d.take(j).push(x) + d.skip(j)).push(r.last()) =~= r.take(j).push(x) + r.skip(j));
    }
}

/// Puts `x` into the descending list `out` after every item that scores at
/// least as much.
pub(crate) fn insert_ranked(out: &mut Vec<(String, u32)>, x: (String, u32))
    ensures
        listing(final(out)@) == insert_desc(listing(old(out)@), (x.0@, x.1)),
{
    let ghost r = listing(out@);
    let mut j: usize = out.len();
    while j > 0 && out[j - 1].1 < x.1
        invariant
            j <= out@.len(),
            r == listing(out@),
            forall|k: int| j <= k < out@.len() ==> out@[k].1 < x.1,
        decreases j,
    {
        j -= 1;
    }
    proof {
        lemma_insert_at(r, (x.0@, x.1), j as int);
    }
    let ghost xv = (x.0@, x.1);
    out.insert(j, x);
    assert(listing(out@) =~= r.take(j as int).push(xv) + r.skip(j as int));
}

/// Ranks `directories` against the query words `terms`, given the lowercased
/// form of each directory in `lowered`: the directories whose lowercased final
/// component holds the words in order, each with its combined score, best
/// first.
pub fn rank(
    directories: &Vec<String>,
    lowered: &Vec<String>,
    terms: &Vec<Vec<char>>,
    store: &Store,
    now: u64,
) -> (r: Vec<(String, u32)>)
    requires
        store.wf(),
        lowered@.len() == directories@.len(),
    ensures
        listing(r@) == ranked(
            paths_of(directories@),
            paths_of(lowered@),
            char_seqs(terms@),
            store@,
            now,
        ),
{
    let ghost ds = paths_of(directories@);
    let ghost ls = paths_of(lowered@);
    let ghost ts = char_seqs(terms@);
    let mut out: Vec<(String, u32)> = Vec::new();
    if terms.len() == 0 {
        assert(listing(out@) =~= Seq::<(Seq<char>, u32)>::empty());
        return out;
    }
    let mut i: usize = 0;
    assert(listing(out@) =~= Seq::<(Seq<char>, u32)>::empty());
    assert(ds.take(0).len() == 0);
    while i < directories.len()
        invariant
            store.wf(),
            ds == paths_of(directories@),
            ls == paths_of(lowered@),
            ts == char_seqs(terms@),
            ts.len() > 0,
            lowered@.len() == directories@.len(),
            i <= directories@.len(),
            listing(out@) == sort_desc(scored(ds.take(i as int), ls, ts, store@, now)),
        decreases directories@.len() - i,
    {
        let ghost d = ds.take(i as int + 1);
        assert(d.drop_last() =~= ds.take(i as int));
        assert(d.last() == directories@[i as int]@);
        assert(ls[d.len() - 1] == lowered@[i as int]@);
        let low = chars_of(lowered[i].as_str());
        let name = base_name(&low);
        if matches_terms(&name, terms) {
            let t = text_tier(&name, terms);
            let w = score_at(store, directories[i].as_str(), now);
            let c = combine(t, w);
            let ghost prev = scored(ds.take(i as int), ls, ts, store@, now);
            let ghost x = (directories@[i as int]@, c);
            assert(scored(d, ls, ts, store@, now) == prev.push(x));
            assert(prev.push(x).drop_last() =~= prev);
            insert_ranked(&mut out, (directories[i].clone(), c));
        }
        i += 1;
    }
    assert(ds.take(directories@.len() as int) =~= ds);
    out
}

/// Ranks `directories` against `query` at time `now`: the query and every
/// path are lowercased, the query is split into words, and the result is that
/// of `rank`. An empty query ranks nothing.
pub fn find_at(directories: &Vec<String>, query: &str, store: &Store, now: u64) -> (r: Vec<
    (String, u32),
>)
    requires
        store.wf(),
    ensures
        listing(r@) == ranked(
            paths_of(directories@),
            lowered_all(paths_of(directories@)),
            words(lower_of(query@)),
            store@,
            now,
        ),
        query@.len() == 0 ==> r@.len() == 0,
{
    let q = lowercase(query);
    let qc = chars_of(q.as_str());
    let terms = split_words(&qc);
    let ghost ds = paths_of(directories@);
    let mut lowered: Vec<String> = Vec::new();
    let mut i: usize = 0;
    while i < directories.len()
        invariant
            ds == paths_of(directories@),
            i <= directories@.len(),
            lowered@.len() == i,
            paths_of(lowered@) == lowered_all(ds).take(i as int),
        decreases directories@.len() - i,
    {
        let l = lowercase(directories[i].as_str());
        assert(l@ == lowered_all(ds)[i as int]);
        let ghost before = lowered@;
        lowered.push(l);
        assert(lowered@ == before.push(l));
        assert forall|j: int| 0 <= j < i + 1 implies paths_of(lowered@)[j] == lowered_all(ds)[j] by {
            if j < i {
                assert(lowered@[j] == before[j]);
                assert(paths_of(before)[j] == lowered_all(ds).take(i as int)[j]);
            }
        }
        i += 1;
        assert(paths_of(lowered@) =~= lowered_all(ds).take(i as int));
    }
    assert(lowered_all(ds).take(directories@.len() as int) =~= lowered_all(ds));
    proof {
        if query@.len() == 0 {
            assert(qc@.len() == 0);
            assert(words(qc@).len() == 0);
        }
    }
    rank(directories, &lowered, &terms, store, now)
}

/// Whether `name` holds `query`, both lowercased.
pub fn name_matches(name: &str, query: &str) -> (r: bool)
    ensures
        r == contains(lower_of(name@), lower_of(query@)),
{
    let n = chars_of(lowercase(name).as_str());
    let q = chars_of(lowercase(query).as_str());
    has(&n, &q)
}

/// Ranks `directories` against `query` now; see `find_at`.
pub fn find(directories: &Vec<String>, query: &str, store: &Store) -> (r: Vec<(String, u32)>)
    requires
        store.wf(),
    ensures
        exists|t: u64|
            listing(r@) == ranked(
                paths_of(directories@),
                lowered_all(paths_of(directories@)),
                words(lower_of(query@)),
                store@,
                t,
            ),
        query@.len() == 0 ==> r@.len() == 0,
{
    find_at(directories, query, store, now())
}


/// Scores never increase along `r`.
pub open spec fn sorted_desc(r: Seq<(Seq<char>, u32)>) -> bool {
    forall|i: int, j: int| 0 <= i < j < r.len() ==> r[i].1 >= r[j].1
}

proof fn lemma_insert_desc(r: Seq<(Seq<char>, u32)>, x: (Seq<char>, u32))
    ensures
        insert_desc(r, x).to_multiset() == r.to_multiset().insert(x),
        sorted_desc(r) ==> sorted_desc(insert_desc(r, x)),
    decreases r.len(),
{
    broadcast use vstd::seq_lib::group_to_multiset_ensures;

    if r.len() == 0 {
        assert(seq![x] =~= Seq::<(Seq<char>, u32)>::empty().push(x));
        assert(r.to_multiset() =~= Multiset::<(Seq<char>, u32)>::empty());
    } else if r.last().1 >= x.1 {
    } else {
        let d = r.drop_last();
        let l = r.last();
        lemma_insert_desc(d, x);
        assert(d.push(l) =~= r);
        let t = insert_desc(d, x);
        assert(insert_desc(r, x) == t.push(l));
        assert(t.push(l).to_multiset() =~= r.to_multiset().insert(x));
        if sorted_desc(r) {
            assert forall|i: int| 0 <= i < t.len() implies #[trigger] t[i].1 >= l.1 by {
                assert(t.contains(t[i]));
                assert(t.to_multiset().count(t[i]) > 0);
                if t[i] != x {
                    assert(d.to_multiset().count(t[i]) > 0);
                    assert(d.contains(t[i]));
                    let k = choose|k: int| 0 <= k < d.len() && d[k] == t[i];
                    assert(r[k] == d[k]);
                    assert(r[k].1 >= r[r.len() - 1].1);
                }
            }
            assert(sorted_desc(d)) by {
                assert forall|i: int, j: int| 0 <= i < j < d.len() implies d[i].1 >= d[j].1 by {
                    assert(r[i] == d[i] && r[j] == d[j]);
                }
            }
            let u = t.push(l);
            assert forall|i: int, j: int| 0 <= i < j < u.len() implies u[i].1 >= u[j].1 by {
                if j < t.len() {
                    assert(u[i] == t[i] && u[j] == t[j]);
                } else {
                    assert(u[i] == t[i]);
                }
            }
        }
    }
}

proof fn lemma_sort_desc(s: Seq<(Seq<char>, u32)>)
    ensures
        sorted_desc(sort_desc(s)),
        sort_desc(s).to_multiset() == s.to_multiset(),
    decreases s.len(),
{
    broadcast use vstd::seq_lib::group_to_multiset_ensures;

    if s.len() > 0 {
        let d = s.drop_last();
        lemma_sort_desc(d);
        lemma_insert_desc(sort_desc(d), s.last());
        assert(d.push(s.last()) =~= s);
    }
}

/// The ranking lists scores highest first, and holds each matching candidate
/// with its combined score exactly once for each time it was a candidate.
pub proof fn lemma_ranked_order(
    dirs: Seq<Seq<char>>,
    lowered: Seq<Seq<char>>,
    terms: Seq<Seq<char>>,
    s: Usage,
    now: u64,
)
    ensures
        sorted_desc(ranked(dirs, lowered, terms, s, now)),
        ranked(dirs, lowered, terms, s, now).to_multiset() == scored(
            dirs,
            lowered,
            terms,
            s,
            now,
        ).to_multiset(),
{
    lemma_sort_desc(scored(dirs, lowered, terms, s, now));
}

/// Without query words nothing is ranked.
pub proof fn lemma_no_query_no_results(
    dirs: Seq<Seq<char>>,
    lowered: Seq<Seq<char>>,
    s: Usage,
    now: u64,
)
    ensures
        ranked(dirs, lowered, Seq::empty(), s, now) == Seq::<(Seq<char>, u32)>::empty(),
{
}

proof fn lemma_first_occ_found(h: Seq<char>, n: Seq<char>, from: int, k: int)
    requires
        0 <= from <= k,
        occurs_at(h, n, k),
    ensures
        0 <= first_occ(h, n, from) <= k,
    decreases k - from,
{
    if from < k && !occurs_at(h, n, from) {
        lemma_first_occ_found(h, n, from + 1, k);
    }
}

/// A name in which `q` stands matches the one-word query `q`.
proof fn lemma_one_word_match(name: Seq<char>, q: Seq<char>, k: int)
    requires
        occurs_at(name, q, k),
    ensures
        in_order(name, seq![q], 0),
{
    lemma_first_occ_found(name, q, 0, k);
    assert(seq![q][0] == q);
    assert(seq![q].drop_first() =~= Seq::<Seq<char>>::empty());
    assert(in_order(name, Seq::<Seq<char>>::empty(), first_occ(name, q, 0) + q.len()));
}

/// Every matching candidate stands, with its combined score, among the scored
/// candidates.
proof fn lemma_scored_contains(
    dirs: Seq<Seq<char>>,
    lowered: Seq<Seq<char>>,
    terms: Seq<Seq<char>>,
    s: Usage,
    now: u64,
    i: int,
)
    requires
        0 <= i < dirs.len(),
        terms.len() > 0,
        matches_at(lowered, terms, i),
    ensures
        scored(dirs, lowered, terms, s, now).contains(entry_of(dirs, lowered, terms, s, now, i)),
    decreases dirs.len(),
{
    let d = dirs.drop_last();
    let e = entry_of(dirs, lowered, terms, s, now, i);
    let rest = scored(d, lowered, terms, s, now);
    if i == dirs.len() - 1 {
        let r = rest.push(e);
        assert(r[r.len() - 1] == e);
    } else {
        lemma_scored_contains(d, lowered, terms, s, now, i);
        assert(entry_of(d, lowered, terms, s, now, i) == e);
        let k = choose|k: int| 0 <= k < rest.len() && rest[k] == e;
        if matches_at(lowered, terms, dirs.len() - 1) {
            let r = rest.push(entry_of(dirs, lowered, terms, s, now, dirs.len() - 1));
            assert(r[k] == e);
        }
    }
}

/// Among the ranked candidates for a one-word query, one whose final
/// component equals the word comes before every other matching candidate,
/// whatever frecency the store gives either.
pub proof fn lemma_exact_first(
    dirs: Seq<Seq<char>>,
    lowered: Seq<Seq<char>>,
    terms: Seq<Seq<char>>,
    s: Usage,
    now: u64,
    i: int,
    j: int,
)
    requires
        0 <= i < dirs.len(),
        0 <= j < dirs.len(),
        lowered.len() == dirs.len(),
        terms.len() == 1,
        basename(lowered[i]) == terms[0],
        matches_at(lowered, terms, j),
        basename(lowered[j]) != terms[0],
    ensures
        ({
            let r = ranked(dirs, lowered, terms, s, now);
            let ei = entry_of(dirs, lowered, terms, s, now, i);
            let ej = entry_of(dirs, lowered, terms, s, now, j);
            &&& r.contains(ei)
            &&& r.contains(ej)
            &&& forall|k: int, l: int|
                0 <= k < r.len() && 0 <= l < r.len() && r[k] == ei && r[l] == ej ==> k < l
        }),
{
    broadcast use vstd::seq_lib::group_to_multiset_ensures;

    let q = terms[0];
    let name = basename(lowered[i]);
    assert(name.subrange(0, q.len() as int) =~= q);
    lemma_one_word_match(name, q, 0);
    assert(seq![q] =~= terms);
    lemma_scored_contains(dirs, lowered, terms, s, now, i);
    lemma_scored_contains(dirs, lowered, terms, s, now, j);
    lemma_ranked_order(dirs, lowered, terms, s, now);
    let sc = scored(dirs, lowered, terms, s, now);
    let r = ranked(dirs, lowered, terms, s, now);
    let ei = entry_of(dirs, lowered, terms, s, now, i);
    let ej = entry_of(dirs, lowered, terms, s, now, j);
    assert(sc.to_multiset().count(ei) > 0);
    assert(sc.to_multiset().count(ej) > 0);
    assert(r.to_multiset().count(ei) > 0);
    assert(r.to_multiset().count(ej) > 0);
    assert(ei.1 >= EXACT_BONUS);
    assert(ej.1 < EXACT_BONUS);
    assert forall|k: int, l: int|
        0 <= k < r.len() && 0 <= l < r.len() && r[k] == ei && r[l] == ej implies k < l by {
        if l < k {
            assert(r[l].1 >= r[k].1);
        }
    }
}

/// Where `insert_desc` puts its item: after the last item, counted from the
/// end, that scores at least as much.
pub open spec fn insert_pos(r: Seq<(Seq<char>, u32)>, x: (Seq<char>, u32)) -> int
    decreases r.len(),
{
    if r.len() == 0 {
        0
    } else if r.last().1 >= x.1 {
        r.len() as int
    } else {
        insert_pos(r.drop_last(), x)
    }
}

proof fn lemma_insert_pos(r: Seq<(Seq<char>, u32)>, x: (Seq<char>, u32))
    ensures
        0 <= insert_pos(r, x) <= r.len(),
        insert_pos(r, x) == 0 || r[insert_pos(r, x) - 1].1 >= x.1,
        forall|k: int| insert_pos(r, x) <= k < r.len() ==> r[k].1 < x.1,
        insert_desc(r, x) == r.take(insert_pos(r, x)).push(x) + r.skip(insert_pos(r, x)),
    decreases r.len(),
{
    if r.len() > 0 && r.last().1 < x.1 {
        let d = r.drop_last();
        lemma_insert_pos(d, x);
        let j = insert_pos(d, x);
        assert forall|k: int| j <= k < r.len() implies r[k].1 < x.1 by {
            if k < r.len() - 1 {
                assert(r[k] == d[k]);
            }
        }
        if j > 0 {
            assert(r[j - 1] == d[j - 1]);
        }
    }
    lemma_insert_at(r, x, insert_pos(r, x));
}

/// Sorting keeps order among items that do not rise above one another: an
/// item that comes earlier and scores at least as much stays earlier.
pub proof fn lemma_sort_stable(s: Seq<(Seq<char>, u32)>, a: int, b: int)
    requires
        0 <= a < b < s.len(),
        s[a].1 >= s[b].1,
        forall|m: int| 0 <= m < s.len() && s[m] == s[a] ==> m == a,
        forall|m: int| 0 <= m < s.len() && s[m] == s[b] ==> m == b,
    ensures
        forall|k: int, l: int|
            0 <= k < sort_desc(s).len() && 0 <= l < sort_desc(s).len() && sort_desc(s)[k] == s[a]
                && sort_desc(s)[l] == s[b] ==> k < l,
    decreases s.len(),
{
    broadcast use vstd::seq_lib::group_to_multiset_ensures;

    let d = s.drop_last();
    let x = s.last();
    let rr = sort_desc(d);
    lemma_sort_desc(d);
    lemma_insert_pos(rr, x);
    let j = insert_pos(rr, x);
    let r = sort_desc(s);
    assert(r == rr.take(j).push(x) + rr.skip(j));
    assert(r.len() == rr.len() + 1);
    assert forall|m: int| 0 <= m < r.len() implies #[trigger] r[m] == if m < j {
        rr[m]
    } else if m == j {
        x
    } else {
        rr[m - 1]
    } by {}
    if b == s.len() - 1 {
        assert forall|k: int, l: int|
            0 <= k < r.len() && 0 <= l < r.len() && r[k] == s[a] && r[l] == s[b] implies k < l by {
            if l != j {
                let m = if l < j { l } else { l - 1 };
                assert(rr[m] == x);
                assert(rr.to_multiset().count(x) > 0);
                assert(d.to_multiset().count(x) > 0);
                let n = choose|n: int| 0 <= n < d.len() && d[n] == x;
                assert(s[n] == d[n]);
            }
            if k > j {
                assert(rr[k - 1] == s[a]);
            }
        }
    } else {
        assert forall|m: int| 0 <= m < d.len() && d[m] == d[a] implies m == a by {
            assert(s[m] == d[m]);
        }
        assert forall|m: int| 0 <= m < d.len() && d[m] == d[b] implies m == b by {
            assert(s[m] == d[m]);
        }
        lemma_sort_stable(d, a, b);
        assert(s[s.len() - 1] != s[a]);
        assert(s[s.len() - 1] != s[b]);
        assert forall|k: int, l: int|
            0 <= k < r.len() && 0 <= l < r.len() && r[k] == s[a] && r[l] == s[b] implies k < l by {
            let k2 = if k < j { k } else { k - 1 };
            let l2 = if l < j { l } else { l - 1 };
            assert(rr[k2] == d[a]);
            assert(rr[l2] == d[b]);
        }
    }
}

/// The ranking keeps input order among matching candidates that do not rise
/// above one another: where the scored candidate at `a` comes before the one
/// at `b` and scores at least as much, it is ranked before it. Each of the two
/// is assumed to occur once among the scored candidates.
pub proof fn lemma_ranked_stable(
    dirs: Seq<Seq<char>>,
    lowered: Seq<Seq<char>>,
    terms: Seq<Seq<char>>,
    s: Usage,
    now: u64,
    a: int,
    b: int,
)
    requires
        ({
            let sc = scored(dirs, lowered, terms, s, now);
            &&& 0 <= a < b < sc.len()
            &&& sc[a].1 >= sc[b].1
            &&& forall|m: int| 0 <= m < sc.len() && sc[m] == sc[a] ==> m == a
            &&& forall|m: int| 0 <= m < sc.len() && sc[m] == sc[b] ==> m == b
        }),
    ensures
        ({
            let sc = scored(dirs, lowered, terms, s, now);
            let r = ranked(dirs, lowered, terms, s, now);
            forall|k: int, l: int|
                0 <= k < r.len() && 0 <= l < r.len() && r[k] == sc[a] && r[l] == sc[b] ==> k < l
        }),
{
    lemma_sort_stable(scored(dirs, lowered, terms, s, now), a, b);
}

/// For a one-word query, a candidate whose final component starts with the
/// word (without equalling it) ranks above one whose final component holds it
/// only further on, in either input order, while the second's frecency stays
/// under the first's plus `PREFIX_BONUS - CONTAINS_BONUS`.
pub proof fn lemma_prefix_over_contains(
    x: Seq<char>,
    y: Seq<char>,
    lx: Seq<char>,
    ly: Seq<char>,
    q: Seq<char>,
    s: Usage,
    now: u64,
)
    requires
        occurs_at(basename(lx), q, 0),
        basename(lx) != q,
        contains(basename(ly), q),
        !occurs_at(basename(ly), q, 0),
        score_of(s, y, now) < score_of(s, x, now) + PREFIX_BONUS - CONTAINS_BONUS,
        score_of(s, x, now) + PREFIX_BONUS < EXACT_BONUS,
    ensures
        ranked(seq![x, y], seq![lx, ly], seq![q], s, now).len() == 2,
        ranked(seq![x, y], seq![lx, ly], seq![q], s, now)[0].0 == x,
        ranked(seq![y, x], seq![ly, lx], seq![q], s, now).len() == 2,
        ranked(seq![y, x], seq![ly, lx], seq![q], s, now)[0].0 == x,
{
    let k = choose|k: int| occurs_at(basename(ly), q, k);
    lemma_one_word_match(basename(lx), q, 0);
    lemma_one_word_match(basename(ly), q, k);
    let t = seq![q];
    assert(t[0] == q);
    let cx = combined(text_score(basename(lx), t), score_of(s, x, now));
    let cy = combined(text_score(basename(ly), t), score_of(s, y, now));
    assert(cx > cy);
    let e = Seq::<(Seq<char>, u32)>::empty();
    let none = Seq::<Seq<char>>::empty();
    assert(seq![x, y].drop_last() =~= seq![x]);
    assert(seq![x].drop_last() =~= none);
    assert(seq![y, x].drop_last() =~= seq![y]);
    assert(seq![y].drop_last() =~= none);
    assert(scored(none, seq![lx, ly], t, s, now) == e);
    assert(scored(none, seq![ly, lx], t, s, now) == e);
    assert(seq![lx, ly][0] == lx && seq![lx, ly][1] == ly);
    assert(seq![ly, lx][0] == ly && seq![ly, lx][1] == lx);
    assert(seq![x, y][0] == x && seq![x, y][1] == y);
    assert(seq![y, x][0] == y && seq![y, x][1] == x);
    assert(seq![x][0] == x && seq![y][0] == y);
    assert(entry_of(seq![x], seq![lx, ly], t, s, now, 0) == (x, cx));
    assert(entry_of(seq![x, y], seq![lx, ly], t, s, now, 1) == (y, cy));
    assert(entry_of(seq![y], seq![ly, lx], t, s, now, 0) == (y, cy));
    assert(entry_of(seq![y, x], seq![ly, lx], t, s, now, 1) == (x, cx));
    assert(scored(seq![x], seq![lx, ly], t, s, now) == e.push((x, cx)));
    assert(scored(seq![x, y], seq![lx, ly], t, s, now) == e.push((x, cx)).push((y, cy)));
    assert(scored(seq![y], seq![ly, lx], t, s, now) == e.push((y, cy)));
    assert(scored(seq![y, x], seq![ly, lx], t, s, now) == e.push((y, cy)).push((x, cx)));
    assert(e.push((x, cx)).push((y, cy)).drop_last() =~= e.push((x, cx)));
    assert(e.push((x, cx)).drop_last() =~= e);
    assert(e.push((y, cy)).push((x, cx)).drop_last() =~= e.push((y, cy)));
    assert(e.push((y, cy)).drop_last() =~= e);
    assert(sort_desc(e) == e);
    assert(e.push((x, cx)).last() == (x, cx));
    assert(e.push((y, cy)).last() == (y, cy));
    assert(insert_desc(e, (x, cx)) == seq![(x, cx)]);
    assert(insert_desc(e, (y, cy)) == seq![(y, cy)]);
    assert(sort_desc(e.push((x, cx))) == seq![(x, cx)]);
    assert(sort_desc(e.push((y, cy))) == seq![(y, cy)]);
    assert(seq![(x, cx)].drop_last() =~= e);
    assert(seq![(y, cy)].drop_last() =~= e);
    assert(seq![(x, cx)].push((y, cy)) =~= seq![(x, cx), (y, cy)]);
    assert(insert_desc(e, (y, cy)).push((x, cx)) =~= seq![(y, cy), (x, cx)]);
    assert(seq![(x, cx)].last() == (x, cx));
}

} // verus!
