//! Character-level helpers for matching paths against queries: splitting a
//! query into words, taking a path's final component, and finding one
//! character sequence inside another.
use vstd::prelude::*;
use vstd::string::*;

verus! {

/// Unicode white space, as `char::is_whitespace` defines it.
pub open spec fn is_space(c: char) -> bool {
    let n = c as u32;
    n == 0x20 || (0x09 <= n && n <= 0x0d) || n == 0x85 || n == 0xa0 || n == 0x1680 || (0x2000
        <= n && n <= 0x200a) || n == 0x2028 || n == 0x2029 || n == 0x202f || n == 0x205f || n
        == 0x3000
}

pub fn space(c: char) -> (r: bool)
    ensures
        r == is_space(c),
{
    let n = c as u32;
    n == 0x20 || (0x09 <= n && n <= 0x0d) || n == 0x85 || n == 0xa0 || n == 0x1680 || (0x2000
        <= n && n <= 0x200a) || n == 0x2028 || n == 0x2029 || n == 0x202f || n == 0x205f || n
        == 0x3000
}

/// The characters of `s`, in order.
pub fn chars_of(s: &str) -> (r: Vec<char>)
    ensures
        r@ == s@,
{
    let n = s.unicode_len();
    let mut r: Vec<char> = Vec::new();
    let mut i: usize = 0;
    while i < n
        invariant
            n == s@.len(),
            i <= n,
            r@ == s@.take(i as int),
        decreases n - i,
    {
        r.push(s.get_char(i));
        i += 1;
        assert(r@ =~= s@.take(i as int));
    }
    assert(s@.take(n as int) =~= s@);
    r
}

/// The maximal runs of non-space characters of `s`, in order.
pub open spec fn words(s: Seq<char>) -> Seq<Seq<char>>
    decreases s.len(),
{
    if s.len() == 0 {
        Seq::empty()
    } else {
        let r = words(s.drop_last());
        let c = s.last();
        if is_space(c) {
            r
        } else if s.len() >= 2 && !is_space(s[s.len() - 2]) {
            r.drop_last().push(r.last().push(c))
        } else {
            r.push(seq![c])
        }
    }
}

proof fn lemma_words_nonempty(s: Seq<char>)
    requires
        s.len() > 0,
        !is_space(s.last()),
    ensures
        words(s).len() > 0,
    decreases s.len(),
{
    if s.len() >= 2 && !is_space(s[s.len() - 2]) {
        let d = s.drop_last();
        assert(d.last() == s[s.len() - 2]);
        lemma_words_nonempty(d);
    }
}

pub open spec fn char_seqs(v: Seq<Vec<char>>) -> Seq<Seq<char>> {
    v.map_values(|w: Vec<char>| w@)
}

/// Splits `s` into its words.
pub fn split_words(s: &Vec<char>) -> (r: Vec<Vec<char>>)
    ensures
        char_seqs(r@) == words(s@),
{
    let mut r: Vec<Vec<char>> = Vec::new();
    let mut i: usize = 0;
    while i < s.len()
        invariant
            i <= s@.len(),
            char_seqs(r@) == words(s@.take(i as int)),
        decreases s@.len() - i,
    {
        let c = s[i];
        let ghost t = s@.take(i as int + 1);
        assert(t.drop_last() =~= s@.take(i as int));
        assert(t.last() == c);
        if space(c) {
        } else if i >= 1 && !space(s[i - 1]) {
            assert(t[t.len() - 2] == s@[i - 1]);
            proof {
                lemma_words_nonempty(s@.take(i as int));
            }
            let mut w = r.pop().unwrap();
            w.push(c);
            r.push(w);
            assert(char_seqs(r@) =~= words(t));
        } else {
            let mut w: Vec<char> = Vec::new();
            w.push(c);
            r.push(w);
            assert(char_seqs(r@) =~= words(t));
        }
        i += 1;
    }
    assert(s@.take(s@.len() as int) =~= s@);
    r
}

/// The final component of a path: what follows its last `/`, or all of it.
pub open spec fn basename(p: Seq<char>) -> Seq<char>
    decreases p.len(),
{
    if p.len() == 0 {
        p
    } else if p.last() == '/' {
        Seq::empty()
    } else {
        basename(p.drop_last()).push(p.last())
    }
}

proof fn lemma_basename_skip(p: Seq<char>, j: int)
    requires
        0 <= j <= p.len(),
        j == 0 || p[j - 1] == '/',
        forall|k: int| j <= k < p.len() ==> p[k] != '/',
    ensures
        basename(p) == p.skip(j),
    decreases p.len(),
{
    if p.len() > 0 {
        if j == p.len() {
            assert(p.skip(j) =~= Seq::<char>::empty());
        } else {
            let d = p.drop_last();
            lemma_basename_skip(d, j);
            assert(d.skip(j).push(p.last()) =~= p.skip(j));
        }
    } else {
        assert(p.skip(j) =~= p);
    }
}

/// The final component of `p`.
pub fn base_name(p: &Vec<char>) -> (r: Vec<char>)
    ensures
        r@ == basename(p@),
{
    let mut j: usize = p.len();
    while j > 0 && p[j - 1] != '/'
        invariant
            j <= p@.len(),
            forall|k: int| j <= k < p@.len() ==> p@[k] != '/',
        decreases j,
    {
        j -= 1;
    }
    proof {
        lemma_basename_skip(p@, j as int);
    }
    let mut r: Vec<char> = Vec::new();
    let mut k: usize = j;
    while k < p.len()
        invariant
            j <= k <= p@.len(),
            r@ == p@.subrange(j as int, k as int),
        decreases p@.len() - k,
    {
        r.push(p[k]);
        k += 1;
        assert(r@ =~= p@.subrange(j as int, k as int));
    }
    assert(p@.subrange(j as int, p@.len() as int) =~= p@.skip(j as int));
    r
}

/// `n` stands in `h` from position `i` on.
pub open spec fn occurs_at(h: Seq<char>, n: Seq<char>, i: int) -> bool {
    0 <= i && i + n.len() <= h.len() && h.subrange(i, i + n.len()) == n
}

/// `n` stands somewhere in `h`.
pub open spec fn contains(h: Seq<char>, n: Seq<char>) -> bool {
    exists|i: int| occurs_at(h, n, i)
}

/// Whether `n` stands in `h` from position `i` on.
pub fn at(h: &Vec<char>, n: &Vec<char>, i: usize) -> (r: bool)
    ensures
        r == occurs_at(h@, n@, i as int),
{
    if i > h.len() || n.len() > h.len() - i {
        return false;
    }
    let hl = h.len();
    let mut k: usize = 0;
    while k < n.len()
        invariant
            hl == h@.len(),
            i + n@.len() <= hl,
            k <= n@.len(),
            forall|m: int| 0 <= m < k ==> h@[i + m] == n@[m],
        decreases n@.len() - k,
    {
        if h[i + k] != n[k] {
            assert(h@.subrange(i as int, i + n@.len())[k as int] != n@[k as int]);
            return false;
        }
        k += 1;
    }
    assert(h@.subrange(i as int, i + n@.len()) =~= n@);
    true
}

/// The first position at or after `from` where `n` stands in `h`, or -1.
pub open spec fn first_occ(h: Seq<char>, n: Seq<char>, from: int) -> int
    decreases h.len() + 1 - from,
{
    if from < 0 || from > h.len() {
        -1
    } else if occurs_at(h, n, from) {
        from
    } else {
        first_occ(h, n, from + 1)
    }
}

proof fn lemma_first_occ(h: Seq<char>, n: Seq<char>, from: int, f: int)
    requires
        0 <= from <= f,
        forall|k: int| from <= k < f ==> !occurs_at(h, n, k),
        occurs_at(h, n, f) || f > h.len(),
    ensures
        first_occ(h, n, from) == if f > h.len() { -1 } else { f },
    decreases f - from,
{
    if from < f && from <= h.len() {
        lemma_first_occ(h, n, from + 1, f);
    }
}

/// The first position at or after `from` where `n` stands in `h`.
pub fn find_from(h: &Vec<char>, n: &Vec<char>, from: usize) -> (r: Option<usize>)
    ensures
        r is Some ==> from <= r->0 && occurs_at(h@, n@, r->0 as int),
        r is Some ==> first_occ(h@, n@, from as int) == r->0,
        r is None ==> first_occ(h@, n@, from as int) == -1,
        forall|i: int| from <= i && (r is None || i < r->0) ==> !occurs_at(h@, n@, i),
{
    let mut i: usize = from;
    while i < h.len()
        invariant
            from <= i,
            forall|k: int| from <= k < i ==> !occurs_at(h@, n@, k),
        decreases h@.len() - i,
    {
        if at(h, n, i) {
            proof {
                lemma_first_occ(h@, n@, from as int, i as int);
            }
            return Some(i);
        }
        i += 1;
    }
    if i == h.len() && at(h, n, i) {
        proof {
            lemma_first_occ(h@, n@, from as int, i as int);
        }
        return Some(i);
    }
    proof {
        if from <= h@.len() {
            lemma_first_occ(h@, n@, from as int, h@.len() as int + 1);
        }
    }
    None
}

/// Whether `n` stands somewhere in `h`.
pub fn has(h: &Vec<char>, n: &Vec<char>) -> (r: bool)
    ensures
        r == contains(h@, n@),
{
    match find_from(h, n, 0) {
        Some(i) => true,
        None => {
            assert(!contains(h@, n@)) by {
                if contains(h@, n@) {
                    let i = choose|i: int| occurs_at(h@, n@, i);
                    assert(!occurs_at(h@, n@, i));
                }
            }
            false
        },
    }
}

/// The words of `terms` stand in `p` one after another, without overlap,
/// from position `from` on; each is taken at its first place after the one
/// before.
pub open spec fn in_order(p: Seq<char>, terms: Seq<Seq<char>>, from: int) -> bool
    decreases terms.len(),
{
    if terms.len() == 0 {
        true
    } else {
        let f = first_occ(p, terms[0], from);
        f >= 0 && in_order(p, terms.drop_first(), f + terms[0].len())
    }
}

/// Whether the words of `terms` stand in `p` in order, without overlap.
pub fn matches_terms(p: &Vec<char>, terms: &Vec<Vec<char>>) -> (r: bool)
    ensures
        r == in_order(p@, char_seqs(terms@), 0),
{
    let ghost ts = char_seqs(terms@);
    let pl = p.len();
    let mut pos: usize = 0;
    let mut k: usize = 0;
    assert(ts.skip(0) =~= ts);
    while k < terms.len()
        invariant
            pl == p@.len(),
            ts == char_seqs(terms@),
            k <= terms@.len(),
            pos <= p@.len(),
            in_order(p@, ts, 0) == in_order(p@, ts.skip(k as int), pos as int),
        decreases terms@.len() - k,
    {
        let ghost rest = ts.skip(k as int);
        assert(rest.len() > 0);
        assert(rest[0] == terms@[k as int]@);
        assert(rest.drop_first() =~= ts.skip(k as int + 1));
        match find_from(p, &terms[k], pos) {
            Some(f) => {
                pos = f + terms[k].len();
                k += 1;
            },
            None => {
                return false;
            },
        }
    }
    assert(ts.skip(k as int).len() == 0);
    true
}

} // verus!
