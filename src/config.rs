//! The configuration: the roots under which directories are indexed, and
//! named bookmarks to directories.
use vstd::prelude::*;
use crate::frecency::paths_of;
use crate::keys::{keys_unique, lemma_keys_step};

verus! {

/// Roots to index, and bookmarks from a name to a directory.
pub struct Config {
    pub roots: Vec<String>,
    pub marks: Vec<(String, String)>,
}

/// Bookmarks as the contracts see them.
pub open spec fn marks_of(v: Seq<(String, String)>) -> Seq<(Seq<char>, Seq<char>)> {
    v.map_values(|p: (String, String)| (p.0@, p.1@))
}

/// No bookmark name occurs twice.
pub open spec fn unique_names(m: Seq<(Seq<char>, Seq<char>)>) -> bool {
    keys_unique(m)
}

/// The first position of `x` in `s`, or -1.
pub open spec fn first_index(s: Seq<Seq<char>>, x: Seq<char>) -> int
    decreases s.len(),
{
    if s.len() == 0 {
        -1
    } else if s[0] == x {
        0
    } else {
        let i = first_index(s.drop_first(), x);
        if i < 0 {
            -1
        } else {
            i + 1
        }
    }
}

proof fn lemma_first_index(s: Seq<Seq<char>>, x: Seq<char>, i: int)
    requires
        0 <= i <= s.len(),
        i < s.len() ==> s[i] == x,
        forall|j: int| 0 <= j < i ==> s[j] != x,
    ensures
        first_index(s, x) == if i == s.len() { -1 } else { i },
    decreases s.len(),
{
    if s.len() > 0 && i > 0 {
        assert forall|j: int| 0 <= j < i - 1 implies s.drop_first()[j] != x by {
            assert(s[j + 1] != x);
        }
        lemma_first_index(s.drop_first(), x, i - 1);
    }
}

proof fn lemma_first_index_contains(s: Seq<Seq<char>>, x: Seq<char>)
    ensures
        (first_index(s, x) >= 0) == s.contains(x),
        first_index(s, x) < s.len(),
    decreases s.len(),
{
    if s.len() > 0 {
        lemma_first_index_contains(s.drop_first(), x);
        if s[0] != x && s.contains(x) {
            let j = choose|j: int| 0 <= j < s.len() && s[j] == x;
            assert(s.drop_first()[j - 1] == x);
        }
        if s[0] != x && s.drop_first().contains(x) {
            let j = choose|j: int| 0 <= j < s.len() - 1 && s.drop_first()[j] == x;
            assert(s[j + 1] == x);
        }
    }
}

/// The bookmarks after naming `target` `name`: an existing bookmark of that
/// name is pointed at `target`, else one is added.
pub open spec fn with_mark(m: Seq<(Seq<char>, Seq<char>)>, name: Seq<char>, target: Seq<char>) -> Seq<
    (Seq<char>, Seq<char>),
> {
    if exists|i: int| 0 <= i < m.len() && m[i].0 == name {
        let i = choose|i: int| 0 <= i < m.len() && m[i].0 == name;
        m.update(i, (name, target))
    } else {
        m.push((name, target))
    }
}

/// The bookmarks without any of name `name`.
pub open spec fn without_mark(m: Seq<(Seq<char>, Seq<char>)>, name: Seq<char>) -> Seq<
    (Seq<char>, Seq<char>),
>
    decreases m.len(),
{
    if m.len() == 0 {
        m
    } else {
        let rest = without_mark(m.drop_last(), name);
        if m.last().0 == name {
            rest
        } else {
            rest.push(m.last())
        }
    }
}

proof fn lemma_without_unique(m: Seq<(Seq<char>, Seq<char>)>, name: Seq<char>)
    ensures
        forall|i: int|
            0 <= i < without_mark(m, name).len() ==> crate::keys::has_key(
                m,
                #[trigger] without_mark(m, name)[i].0,
            ),
        unique_names(m) ==> unique_names(without_mark(m, name)),
    decreases m.len(),
{
    if m.len() > 0 {
        let d = m.drop_last();
        lemma_without_unique(d, name);
        let rest = without_mark(d, name);
        let r = without_mark(m, name);
        if r != rest {
            assert(r.drop_last() =~= rest);
        }
        lemma_keys_step(m, rest, r);
    }
}

impl Config {
    pub open spec fn wf(&self) -> bool {
        unique_names(marks_of(self.marks@))
    }

    /// No roots and no bookmarks.
    pub fn new() -> (r: Config)
        ensures
            r.roots@.len() == 0,
            r.marks@.len() == 0,
            r.wf(),
    {
        Config { roots: Vec::new(), marks: Vec::new() }
    }

    /// Adds `root` unless it is a root already; says whether it was added.
    pub fn insert_root(&mut self, root: String) -> (r: bool)
        ensures
            r == !paths_of(old(self).roots@).contains(root@),
            paths_of(final(self).roots@) == if r {
                paths_of(old(self).roots@).push(root@)
            } else {
                paths_of(old(self).roots@)
            },
            final(self).marks == old(self).marks,
    {
        let ghost s = paths_of(self.roots@);
        proof {
            lemma_first_index_contains(s, root@);
        }
        match self.root_index(&root) {
            Some(i) => false,
            None => {
                self.roots.push(root);
                assert(paths_of(self.roots@) =~= s.push(root@));
                true
            },
        }
    }

    /// The first position of `root` among the roots.
    fn root_index(&self, root: &String) -> (r: Option<usize>)
        ensures
            r is Some ==> r->0 == first_index(paths_of(self.roots@), root@),
            r is None ==> first_index(paths_of(self.roots@), root@) == -1,
            r is Some ==> r->0 < self.roots@.len(),
    {
        let ghost s = paths_of(self.roots@);
        let mut i: usize = 0;
        while i < self.roots.len()
            invariant
                s == paths_of(self.roots@),
                i <= s.len(),
                forall|j: int| 0 <= j < i ==> s[j] != root@,
            decreases s.len() - i,
        {
            if self.roots[i] == *root {
                proof {
                    lemma_first_index(s, root@, i as int);
                }
                return Some(i);
            }
            i += 1;
        }
        proof {
            lemma_first_index(s, root@, s.len() as int);
        }
        None
    }

    /// Removes the first occurrence of `root` among the roots; says whether
    /// there was one.
    pub fn delete_root(&mut self, root: &String) -> (r: bool)
        ensures
            r == (first_index(paths_of(old(self).roots@), root@) >= 0),
            paths_of(final(self).roots@) == if r {
                paths_of(old(self).roots@).remove(first_index(paths_of(old(self).roots@), root@))
            } else {
                paths_of(old(self).roots@)
            },
            final(self).marks == old(self).marks,
    {
        let ghost s = paths_of(self.roots@);
        match self.root_index(root) {
            Some(i) => {
                self.roots.remove(i);
                assert(paths_of(self.roots@) =~= s.remove(i as int));
                true
            },
            None => false,
        }
    }

    /// The directory that bookmark `name` points at.
    pub fn mark_target(&self, name: &str) -> (r: Option<String>)
        requires
            self.wf(),
        ensures
            r is Some <==> exists|i: int|
                0 <= i < self.marks@.len() && marks_of(self.marks@)[i].0 == name@,
            r matches Some(t) ==> exists|i: int|
                0 <= i < self.marks@.len() && marks_of(self.marks@)[i] == (name@, t@),
    {
        let key = name.to_string();
        let ghost m = marks_of(self.marks@);
        let mut i: usize = 0;
        while i < self.marks.len()
            invariant
                m == marks_of(self.marks@),
                key@ == name@,
                i <= self.marks@.len(),
                forall|j: int| 0 <= j < i ==> m[j].0 != name@,
            decreases self.marks@.len() - i,
        {
            if self.marks[i].0 == key {
                let t = self.marks[i].1.clone();
                assert(m[i as int] == (name@, t@));
                return Some(t);
            }
            i += 1;
        }
        None
    }

    /// Points bookmark `name` at `target`, adding it if it is new.
    pub fn set_mark(&mut self, name: String, target: String)
        requires
            old(self).wf(),
        ensures
            final(self).wf(),
            marks_of(final(self).marks@) == with_mark(marks_of(old(self).marks@), name@, target@),
            final(self).roots == old(self).roots,
    {
        let ghost m = marks_of(self.marks@);
        let mut i: usize = 0;
        while i < self.marks.len()
            invariant
                m == marks_of(self.marks@),
                m == marks_of(old(self).marks@),
                unique_names(m),
                self.roots == old(self).roots,
                i <= self.marks@.len(),
                forall|j: int| 0 <= j < i ==> m[j].0 != name@,
            decreases self.marks@.len() - i,
        {
            if self.marks[i].0 == name {
                assert(m[i as int].0 == name@);
                let ghost k = choose|k: int| 0 <= k < m.len() && m[k].0 == name@;
                assert(k == i as int) by {
                    if k != i as int {
                        assert(m[k].0 != m[i as int].0);
                    }
                }
                let ghost nv = name@;
                let ghost tv = target@;
                self.marks[i] = (name, target);
                assert(marks_of(self.marks@) =~= with_mark(m, nv, tv));
                return;
            }
            i += 1;
        }
        let ghost nv = name@;
        let ghost tv = target@;
        self.marks.push((name, target));
        assert(marks_of(self.marks@) =~= with_mark(m, nv, tv));
    }
}

/// Removes bookmark `name`.
pub fn unmark(config: &mut Config, name: &str)
    requires
        old(config).wf(),
    ensures
        final(config).wf(),
        marks_of(final(config).marks@) == without_mark(marks_of(old(config).marks@), name@),
        final(config).roots == old(config).roots,
{
    let key = name.to_string();
    let ghost m = marks_of(config.marks@);
    let mut kept: Vec<(String, String)> = Vec::new();
    let mut i: usize = 0;
    while i < config.marks.len()
        invariant
            m == marks_of(config.marks@),
            key@ == name@,
            i <= m.len(),
            marks_of(kept@) == without_mark(m.take(i as int), name@),
        decreases m.len() - i,
    {
        let ghost d = m.take(i as int + 1);
        assert(d.drop_last() =~= m.take(i as int));
        assert(d.last() == m[i as int]);
        if config.marks[i].0 != key {
            let item = (config.marks[i].0.clone(), config.marks[i].1.clone());
            let ghost before = kept@;
            kept.push(item);
            assert(marks_of(kept@) =~= marks_of(before).push((item.0@, item.1@)));
        }
        i += 1;
    }
    assert(m.take(m.len() as int) =~= m);
    proof {
        lemma_without_unique(m, name@);
    }
    config.marks = kept;
}

/// What `shellexpand::tilde` makes of `p`.
pub open spec fn tilde_expanded(p: Seq<char>, r: Seq<char>) -> bool {
    if p.len() > 0 && p[0] == '~' && (p.len() == 1 || p[1] == '/' || p[1] == '\\') {
        r == p || exists|h: Seq<char>| r == h + p.drop_first()
    } else {
        r == p
    }
}

/// Relies on `shellexpand::tilde`: a leading `~` alone or before a separator
/// becomes the home directory when there is one; anything else is returned
/// as it is.
#[verifier::external_body]
fn expand_tilde(p: &str) -> (r: String)
    ensures
        tilde_expanded(p@, r@),
{
    shellexpand::tilde(p).into_owned()
}

/// Adds `path`, with a leading `~` expanded, to the roots unless it is one
/// already; returns the added root.
pub fn add_root(config: &mut Config, path: &str) -> (r: Option<String>)
    ensures
        r matches Some(e) ==> tilde_expanded(path@, e@) && paths_of(final(config).roots@)
            == paths_of(old(config).roots@).push(e@),
        r is None ==> paths_of(final(config).roots@) == paths_of(old(config).roots@)
            && exists|e: Seq<char>|
            tilde_expanded(path@, e) && paths_of(old(config).roots@).contains(e),
        final(config).marks == old(config).marks,
{
    let expanded = expand_tilde(path);
    let copy = expanded.clone();
    if config.insert_root(expanded) {
        Some(copy)
    } else {
        None
    }
}

/// Removes `path`, with a leading `~` expanded, from the roots; says whether
/// it was one.
pub fn remove_root(config: &mut Config, path: &str) -> (r: bool)
    ensures
        exists|e: Seq<char>|
            tilde_expanded(path@, e) && r == (first_index(paths_of(old(config).roots@), e) >= 0)
                && paths_of(final(config).roots@) == if r {
                paths_of(old(config).roots@).remove(first_index(paths_of(old(config).roots@), e))
            } else {
                paths_of(old(config).roots@)
            },
        final(config).marks == old(config).marks,
{
    let expanded = expand_tilde(path);
    config.delete_root(&expanded)
}

/// Points bookmark `name` at `path`, with a leading `~` expanded; returns the
/// target.
pub fn mark(config: &mut Config, name: &str, path: &str) -> (r: String)
    requires
        old(config).wf(),
    ensures
        final(config).wf(),
        tilde_expanded(path@, r@),
        marks_of(final(config).marks@) == with_mark(marks_of(old(config).marks@), name@, r@),
        final(config).roots == old(config).roots,
{
    let target = expand_tilde(path);
    let copy = target.clone();
    config.set_mark(name.to_string(), target);
    copy
}

} // verus!
