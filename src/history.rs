//! Reading the history of other directory jumpers: each line holds a path and
//! a score, separated by `|`, perhaps followed by more fields.
use vstd::prelude::*;
use vstd::string::*;
use crate::text::chars_of;

verus! {

/// Position of the first `|` in `s`, or -1.
pub open spec fn bar_pos(s: Seq<char>) -> int
    decreases s.len(),
{
    if s.len() == 0 {
        -1
    } else if s[0] == '|' {
        0
    } else {
        let i = bar_pos(s.drop_first());
        if i < 0 {
            -1
        } else {
            i + 1
        }
    }
}

proof fn lemma_bar_pos(s: Seq<char>, i: int)
    requires
        0 <= i <= s.len(),
        i < s.len() ==> s[i] == '|',
        forall|j: int| 0 <= j < i ==> s[j] != '|',
    ensures
        bar_pos(s) == if i == s.len() { -1 } else { i },
    decreases s.len(),
{
    if s.len() > 0 && i > 0 {
        assert forall|j: int| 0 <= j < i - 1 implies s.drop_first()[j] != '|' by {
            assert(s[j + 1] != '|');
        }
        lemma_bar_pos(s.drop_first(), i - 1);
    }
}

/// The text of `s` up to its first `|`, or all of it.
pub open spec fn first_field(s: Seq<char>) -> Seq<char> {
    if bar_pos(s) < 0 {
        s
    } else {
        s.take(bar_pos(s))
    }
}

/// The path and score text of a history line; none for a line without `|`.
pub open spec fn history_fields(line: Seq<char>) -> Option<(Seq<char>, Seq<char>)> {
    let a = bar_pos(line);
    if a < 0 {
        None
    } else {
        Some((line.take(a), first_field(line.skip(a + 1))))
    }
}

/// Position of the first `|` in `s` from `from` on, or `s.len()`.
fn find_bar(s: &Vec<char>, from: usize) -> (r: usize)
    requires
        from <= s@.len(),
    ensures
        from <= r <= s@.len(),
        bar_pos(s@.skip(from as int)) == if r == s@.len() {
            -1
        } else {
            r - from
        },
{
    let mut i: usize = from;
    while i < s.len() && s[i] != '|'
        invariant
            from <= i <= s@.len(),
            forall|j: int| from <= j < i ==> s@[j] != '|',
        decreases s@.len() - i,
    {
        i += 1;
    }
    let ghost t = s@.skip(from as int);
    assert forall|j: int| 0 <= j < i - from implies t[j] != '|' by {
        assert(t[j] == s@[from + j]);
    }
    proof {
        lemma_bar_pos(t, i - from);
    }
    i
}

/// Splits a history line into its path and score text.
pub fn parse_line(line: &str) -> (r: Option<(String, String)>)
    ensures
        r is None <==> history_fields(line@) is None,
        r matches Some(f) ==> history_fields(line@) == Some((f.0@, f.1@)),
{
    let cs = chars_of(line);
    let a = find_bar(&cs, 0);
    assert(cs@.skip(0) =~= cs@);
    if a == cs.len() {
        return None;
    }
    let b = find_bar(&cs, a + 1);
    let path = line.substring_char(0, a).to_string();
    let score = line.substring_char(a + 1, b).to_string();
    let ghost t = cs@.skip(a + 1);
    proof {
        if b < cs@.len() {
            assert(t.take(b - a - 1) =~= cs@.subrange(a + 1, b as int));
        } else {
            assert(t =~= cs@.subrange(a + 1, b as int));
        }
    }
    assert(cs@.take(a as int) =~= cs@.subrange(0, a as int));
    Some((path, score))
}

} // verus!
