//! The interactive picker as a state machine: a cursor over a ranked list
//! shown a page at a time. The terminal loop that reads keys and draws pages
//! runs outside; it hands each key to `Picker::step` and acts on the answer.
use vstd::prelude::*;
use crate::search::listing;
use crate::text::{basename, base_name, chars_of};

verus! {

/// Rows shown at once.
pub const PAGE_SIZE: usize = 5;

/// A key or mouse input, as the terminal reports it.
#[derive(Clone, Copy, Debug, PartialEq, Eq)]
pub enum Key {
    Enter,
    Esc,
    /// Ctrl-C.
    Interrupt,
    Up,
    Down,
    ScrollUp,
    ScrollDown,
    Tab,
    Char(char),
    Other,
}

/// What the loop is to do after a key.
#[derive(Clone, Copy, Debug, PartialEq, Eq)]
pub enum Step {
    /// Nothing changed: wait for the next key.
    Stay,
    /// The view changed: draw the page again.
    Redraw,
    /// The row at this index of the list was chosen.
    Commit(usize),
    /// The user gave up.
    Cancel,
}

/// The picker's state over a list of `total` rows.
#[derive(Clone, Copy, Debug, PartialEq, Eq)]
pub struct Picker {
    pub selected: usize,
    pub offset: usize,
    pub show_detail: bool,
    pub total: usize,
    pub visible: usize,
}

impl Picker {
    /// The cursor is on a row, and that row is on the page.
    pub open spec fn wf(&self) -> bool {
        &&& self.total > 0
        &&& self.visible == if self.total < PAGE_SIZE {
            self.total
        } else {
            PAGE_SIZE
        }
        &&& self.selected < self.total
        &&& self.offset <= self.selected < self.offset + self.visible
    }
}

/// The row that the digit `c` picks: `1` to `9` the first nine, `0` the
/// tenth; -1 for any other character.
pub open spec fn pick_index(c: char) -> int {
    if '1' <= c && c <= '9' {
        c as int - '1' as int
    } else if c == '0' {
        9
    } else {
        -1
    }
}

/// The cursor one row down, if there is one; the page follows it.
pub open spec fn moved_down(p: Picker) -> Picker {
    if p.selected + 1 < p.total {
        let s = (p.selected + 1) as usize;
        Picker {
            selected: s,
            offset: if s >= p.offset + p.visible {
                (s - p.visible + 1) as usize
            } else {
                p.offset
            },
            show_detail: p.show_detail,
            total: p.total,
            visible: p.visible,
        }
    } else {
        p
    }
}

/// The cursor one row up, if there is one; the page follows it.
pub open spec fn moved_up(p: Picker) -> Picker {
    if p.selected > 0 {
        let s = (p.selected - 1) as usize;
        Picker {
            selected: s,
            offset: if s < p.offset {
                s
            } else {
                p.offset
            },
            show_detail: p.show_detail,
            total: p.total,
            visible: p.visible,
        }
    } else {
        p
    }
}

/// `p` with the detail column switched.
pub open spec fn toggled(p: Picker) -> Picker {
    Picker {
        selected: p.selected,
        offset: p.offset,
        show_detail: !p.show_detail,
        total: p.total,
        visible: p.visible,
    }
}

/// A move up: nothing to draw again when the cursor is on the first row.
pub open spec fn up_step(p: Picker) -> (Picker, Step) {
    if p.selected > 0 {
        (moved_up(p), Step::Redraw)
    } else {
        (p, Step::Stay)
    }
}

/// A move down: nothing to draw again when the cursor is on the last row.
pub open spec fn down_step(p: Picker) -> (Picker, Step) {
    if p.selected + 1 < p.total {
        (moved_down(p), Step::Redraw)
    } else {
        (p, Step::Stay)
    }
}

/// The state after key `k`, and what the loop is to do.
pub open spec fn stepped(p: Picker, k: Key) -> (Picker, Step) {
    match k {
        Key::Enter => (p, Step::Commit(p.selected)),
        Key::Esc => (p, Step::Cancel),
        Key::Interrupt => (p, Step::Cancel),
        Key::Up => up_step(p),
        Key::ScrollUp => up_step(p),
        Key::Down => down_step(p),
        Key::ScrollDown => down_step(p),
        Key::Tab => (toggled(p), Step::Redraw),
        Key::Char(c) => if c == 'q' {
            (p, Step::Cancel)
        } else if c == 'k' {
            up_step(p)
        } else if c == 'j' {
            down_step(p)
        } else if 0 <= pick_index(c) < p.total {
            (p, Step::Commit(pick_index(c) as usize))
        } else {
            (p, Step::Stay)
        },
        Key::Other => (p, Step::Stay),
    }
}

/// Which row the keys `keys` choose from state `p`: the first commit decides;
/// a cancel, or keys that run out first, choose none.
pub open spec fn outcome(p: Picker, keys: Seq<Key>) -> Option<int>
    decreases keys.len(),
{
    if keys.len() == 0 {
        None
    } else {
        let (q, st) = stepped(p, keys[0]);
        match st {
            Step::Commit(i) => Some(i as int),
            Step::Cancel => None,
            _ => outcome(q, keys.drop_first()),
        }
    }
}

/// The state in which a picker over `total` rows starts.
pub open spec fn initial(total: usize, show_detail: bool) -> Picker {
    Picker {
        selected: 0,
        offset: 0,
        show_detail,
        total,
        visible: if total < PAGE_SIZE {
            total
        } else {
            PAGE_SIZE
        },
    }
}

impl Picker {
    /// A picker over `total` rows, cursor on the first.
    pub fn start(total: usize, show_detail: bool) -> (r: Picker)
        requires
            total > 0,
        ensures
            r == initial(total, show_detail),
            r.wf(),
    {
        let visible = if total < PAGE_SIZE {
            total
        } else {
            PAGE_SIZE
        };
        Picker { selected: 0, offset: 0, show_detail, total, visible }
    }

    fn down(&mut self) -> (r: Step)
        requires
            old(self).wf(),
        ensures
            (*final(self), r) == down_step(*old(self)),
    {
        if self.selected + 1 < self.total {
            self.selected = self.selected + 1;
            if self.selected - self.offset >= self.visible {
                self.offset = self.selected - self.visible + 1;
            }
            Step::Redraw
        } else {
            Step::Stay
        }
    }

    fn up(&mut self) -> (r: Step)
        requires
            old(self).wf(),
        ensures
            (*final(self), r) == up_step(*old(self)),
    {
        if self.selected > 0 {
            self.selected = self.selected - 1;
            if self.selected < self.offset {
                self.offset = self.selected;
            }
            Step::Redraw
        } else {
            Step::Stay
        }
    }

    /// Applies key `k`: moves the cursor (the page follows it), switches the
    /// detail column, or says which row was chosen or that the user gave up.
    /// `Redraw` comes exactly when the state changed.
    pub fn step(&mut self, k: Key) -> (r: Step)
        requires
            old(self).wf(),
        ensures
            (*final(self), r) == stepped(*old(self), k),
            final(self).wf(),
            r matches Step::Commit(i) ==> i < old(self).total,
            r is Redraw <==> *final(self) != *old(self),
    {
        match k {
            Key::Enter => Step::Commit(self.selected),
            Key::Esc | Key::Interrupt => Step::Cancel,
            Key::Up | Key::ScrollUp => self.up(),
            Key::Down | Key::ScrollDown => self.down(),
            Key::Tab => {
                self.show_detail = !self.show_detail;
                Step::Redraw
            },
            Key::Char(c) => {
                if c == 'q' {
                    Step::Cancel
                } else if c == 'k' {
                    self.up()
                } else if c == 'j' {
                    self.down()
                } else {
                    let n: usize = if '1' <= c && c <= '9' {
                        (c as u32 - '1' as u32) as usize
                    } else if c == '0' {
                        9
                    } else {
                        self.total
                    };
                    if n < self.total {
                        Step::Commit(n)
                    } else {
                        Step::Stay
                    }
                }
            },
            Key::Other => Step::Stay,
        }
    }
}

/// The row that `keys` choose in a picker over `total` rows.
pub fn run_keys(total: usize, show_detail: bool, keys: &Vec<Key>) -> (r: Option<usize>)
    requires
        total > 0,
    ensures
        r matches Some(i) ==> i < total,
        r matches Some(i) ==> outcome(initial(total, show_detail), keys@) == Some(i as int),
        r is None ==> outcome(initial(total, show_detail), keys@) is None,
{
    let mut p = Picker::start(total, show_detail);
    let mut i: usize = 0;
    assert(keys@.skip(0) =~= keys@);
    while i < keys.len()
        invariant
            p.wf(),
            p.total == total,
            i <= keys@.len(),
            outcome(initial(total, show_detail), keys@) == outcome(p, keys@.skip(i as int)),
        decreases keys@.len() - i,
    {
        let ghost rest = keys@.skip(i as int);
        assert(rest[0] == keys@[i as int]);
        assert(rest.drop_first() =~= keys@.skip(i as int + 1));
        match p.step(keys[i]) {
            Step::Commit(j) => {
                return Some(j);
            },
            Step::Cancel => {
                return None;
            },
            _ => {},
        }
        i += 1;
    }
    assert(keys@.skip(i as int).len() == 0);
    None
}

/// The path that the keys `keys` choose from the ranked list `items`, the
/// detail column hidden at first; none for an empty list.
pub fn select(items: &Vec<(String, u32)>, keys: &Vec<Key>) -> (r: Option<String>)
    ensures
        items@.len() == 0 ==> r is None,
        items@.len() > 0 ==> (r is Some <==> outcome(
            initial(items@.len() as usize, false),
            keys@,
        ) is Some),
        r matches Some(s) ==> outcome(initial(items@.len() as usize, false), keys@) matches Some(
            i,
        ) && 0 <= i < items@.len() && s@ == listing(items@)[i].0,
{
    choose_with(items, keys, false)
}

/// As `select`, with the detail column shown at first.
pub fn browse(items: &Vec<(String, u32)>, keys: &Vec<Key>) -> (r: Option<String>)
    ensures
        items@.len() == 0 ==> r is None,
        items@.len() > 0 ==> (r is Some <==> outcome(
            initial(items@.len() as usize, true),
            keys@,
        ) is Some),
        r matches Some(s) ==> outcome(initial(items@.len() as usize, true), keys@) matches Some(
            i,
        ) && 0 <= i < items@.len() && s@ == listing(items@)[i].0,
{
    choose_with(items, keys, true)
}

fn choose_with(items: &Vec<(String, u32)>, keys: &Vec<Key>, show_detail: bool) -> (r: Option<
    String,
>)
    ensures
        items@.len() == 0 ==> r is None,
        items@.len() > 0 ==> (r is Some <==> outcome(
            initial(items@.len() as usize, show_detail),
            keys@,
        ) is Some),
        r matches Some(s) ==> outcome(initial(items@.len() as usize, show_detail), keys@) matches Some(
            i,
        ) && 0 <= i < items@.len() && s@ == listing(items@)[i].0,
{
    if items.len() == 0 {
        return None;
    }
    match run_keys(items.len(), show_detail, keys) {
        Some(i) => Some(items[i].0.clone()),
        None => None,
    }
}


/// Width of the score bar in the detail column.
pub const BAR_WIDTH: u64 = 8;

/// The decimal digit `d`.
pub open spec fn digit_char(d: int) -> char {
    ((d + 48) as u8) as char
}

/// The decimal digits of `n`.
pub open spec fn digits(n: nat) -> Seq<char>
    decreases n,
{
    if n < 10 {
        seq![digit_char(n as int)]
    } else {
        digits(n / 10).push(digit_char((n % 10) as int))
    }
}

/// `n` written in decimal, right-aligned in four columns.
pub open spec fn padded(n: nat) -> Seq<char> {
    let d = digits(n);
    if d.len() >= 4 {
        d
    } else {
        Seq::new((4 - d.len()) as nat, |j: int| ' ') + d
    }
}

/// The highest score of a ranked list; zero for an empty one.
pub open spec fn max_score(items: Seq<(Seq<char>, u32)>) -> u32
    decreases items.len(),
{
    if items.len() == 0 {
        0
    } else {
        let m = max_score(items.drop_last());
        if items.last().1 > m {
            items.last().1
        } else {
            m
        }
    }
}

/// How many of the bar's cells a score fills, relative to the highest.
pub open spec fn bar_fill(score: u32, max: u32) -> int {
    if max == 0 {
        0
    } else {
        (score * BAR_WIDTH) / (max as int)
    }
}

/// A bar of `BAR_WIDTH` cells, the first `fill` of them drawn.
pub open spec fn bar(fill: int) -> Seq<char> {
    Seq::new(BAR_WIDTH as nat, |j: int| if j < fill { '=' } else { ' ' })
}

/// Switches the terminal to dim grey text.
pub open spec fn dim() -> Seq<char> {
    seq!['\x1b', '[', '9', '0', 'm']
}

/// Switches the terminal back to plain text.
pub open spec fn plain() -> Seq<char> {
    seq!['\x1b', '[', '0', 'm']
}

/// One row of the page: a marker on the selected row, the path's final
/// component, and with the detail column its score and a bar.
pub open spec fn row(path: Seq<char>, score: u32, max: u32, selected: bool, detail: bool) -> Seq<
    char,
> {
    let marker = if selected {
        seq!['>', ' ']
    } else {
        seq![' ', ' ']
    };
    let tail = if detail {
        dim() + seq![' '] + padded(score as nat) + seq![' '] + bar(bar_fill(score, max)) + plain()
    } else {
        Seq::empty()
    };
    marker + basename(path) + tail
}

/// Index one past the last row on the page.
pub open spec fn page_end(n: int, p: Picker) -> int {
    if p.offset + p.visible < n {
        p.offset + p.visible
    } else {
        n
    }
}

/// The rows of the page that `p` shows of `items`.
pub open spec fn page(items: Seq<(Seq<char>, u32)>, p: Picker) -> Seq<Seq<char>> {
    Seq::new(
        (page_end(items.len() as int, p) - p.offset) as nat,
        |k: int|
            row(
                items[p.offset + k].0,
                items[p.offset + k].1,
                max_score(items),
                p.offset + k == p.selected,
                p.show_detail,
            ),
    )
}

fn digit(d: u32) -> (r: char)
    requires
        d < 10,
    ensures
        r == digit_char(d as int),
{
    ((d + 48) as u8) as char
}

fn push_digits(out: &mut Vec<char>, n: u32)
    ensures
        final(out)@ == old(out)@ + digits(n as nat),
    decreases n,
{
    if n >= 10 {
        push_digits(out, n / 10);
    }
    out.push(digit(n % 10));
    proof {
        if n < 10 {
            assert(old(out)@ + digits(n as nat) =~= old(out)@.push(digit_char(n as int)));
        }
    }
    assert(final(out)@ =~= old(out)@ + digits(n as nat));
}

fn push_all(out: &mut Vec<char>, s: &Vec<char>)
    ensures
        final(out)@ == old(out)@ + s@,
{
    let mut i: usize = 0;
    while i < s.len()
        invariant
            i <= s@.len(),
            out@ == old(out)@ + s@.take(i as int),
        decreases s@.len() - i,
    {
        out.push(s[i]);
        i += 1;
        assert(out@ =~= old(out)@ + s@.take(i as int));
    }
    assert(s@.take(s@.len() as int) =~= s@);
}

fn highest(items: &Vec<(String, u32)>) -> (r: u32)
    ensures
        r == max_score(listing(items@)),
{
    let ghost l = listing(items@);
    let mut m: u32 = 0;
    let mut i: usize = 0;
    while i < items.len()
        invariant
            l == listing(items@),
            i <= items@.len(),
            m == max_score(l.take(i as int)),
        decreases items@.len() - i,
    {
        let ghost t = l.take(i as int + 1);
        assert(t.drop_last() =~= l.take(i as int));
        if items[i].1 > m {
            m = items[i].1;
        }
        i += 1;
    }
    assert(l.take(items@.len() as int) =~= l);
    m
}

fn push_padded(out: &mut Vec<char>, n: u32)
    ensures
        final(out)@ == old(out)@ + padded(n as nat),
{
    let mut num: Vec<char> = Vec::new();
    push_digits(&mut num, n);
    assert(num@ =~= digits(n as nat));
    let ghost head = out@;
    let mut pad: usize = num.len();
    while pad < 4
        invariant
            num@ == digits(n as nat),
            num@.len() <= pad,
            pad <= 4 || num@.len() == pad,
            out@ == head + Seq::new((pad - num@.len()) as nat, |j: int| ' '),
        decreases 4 - pad,
    {
        out.push(' ');
        pad += 1;
        assert(out@ =~= head + Seq::new((pad - num@.len()) as nat, |j: int| ' '));
    }
    push_all(out, &num);
    assert(out@ =~= head + padded(n as nat));
}

fn push_bar(out: &mut Vec<char>, fill: u64)
    ensures
        final(out)@ == old(out)@ + bar(fill as int),
{
    let ghost head = out@;
    let mut j: u64 = 0;
    while j < BAR_WIDTH
        invariant
            j <= BAR_WIDTH,
            out@ == head + bar(fill as int).take(j as int),
        decreases BAR_WIDTH - j,
    {
        if j < fill {
            out.push('=');
        } else {
            out.push(' ');
        }
        j += 1;
        assert(out@ =~= head + bar(fill as int).take(j as int));
    }
    assert(bar(fill as int).take(BAR_WIDTH as int) =~= bar(fill as int));
}

fn push_detail(out: &mut Vec<char>, score: u32, max: u32)
    ensures
        final(out)@ == old(out)@ + (dim() + seq![' '] + padded(score as nat) + seq![' '] + bar(
            bar_fill(score, max),
        ) + plain()),
{
    let ghost head = out@;
    out.push('\x1b');
    out.push('[');
    out.push('9');
    out.push('0');
    out.push('m');
    out.push(' ');
    let ghost a = out@;
    assert(a =~= head + dim() + seq![' ']);
    push_padded(out, score);
    out.push(' ');
    let ghost b = out@;
    let fill: u64 = if max == 0 {
        0
    } else {
        (score as u64) * BAR_WIDTH / (max as u64)
    };
    push_bar(out, fill);
    let ghost c = out@;
    out.push('\x1b');
    out.push('[');
    out.push('0');
    out.push('m');
    assert(out@ =~= c + plain());
    assert(out@ =~= head + (dim() + seq![' '] + padded(score as nat) + seq![' '] + bar(
        bar_fill(score, max),
    ) + plain()));
}

fn render_row(path: &String, score: u32, max: u32, selected: bool, detail: bool) -> (r: Vec<char>)
    ensures
        r@ == row(path@, score, max, selected, detail),
{
    let mut out: Vec<char> = Vec::new();
    if selected {
        out.push('>');
    } else {
        out.push(' ');
    }
    out.push(' ');
    let name = base_name(&chars_of(path.as_str()));
    push_all(&mut out, &name);
    let ghost head = out@;
    if detail {
        push_detail(&mut out, score, max);
    } else {
        assert(out@ =~= head + Seq::<char>::empty());
    }
    assert(out@ =~= row(path@, score, max, selected, detail));
    out
}

/// The rows of the page that `p` shows of `items`: those from the page's
/// offset on, at most `p.visible` of them.
pub fn page_rows(items: &Vec<(String, u32)>, p: &Picker) -> (r: Vec<Vec<char>>)
    requires
        p.offset <= items@.len(),
    ensures
        crate::text::char_seqs(r@) == page(listing(items@), *p),
{
    let ghost l = listing(items@);
    let max = highest(items);
    let end: usize = if p.visible < items.len() - p.offset {
        p.offset + p.visible
    } else {
        items.len()
    };
    assert(end == page_end(items@.len() as int, *p));
    let mut rows: Vec<Vec<char>> = Vec::new();
    let mut i: usize = p.offset;
    while i < end
        invariant
            l == listing(items@),
            max == max_score(l),
            p.offset <= i <= end <= items@.len(),
            end == page_end(items@.len() as int, *p),
            crate::text::char_seqs(rows@) == page(l, *p).take(i - p.offset),
        decreases end - i,
    {
        let r = render_row(&items[i].0, items[i].1, max, i == p.selected, p.show_detail);
        let ghost before = rows@;
        rows.push(r);
        proof {
            assert(crate::text::char_seqs(rows@) =~= crate::text::char_seqs(before).push(r@));
        }
        i += 1;
        assert(crate::text::char_seqs(rows@) =~= page(l, *p).take(i - p.offset));
    }
    assert(page(l, *p).take(end - p.offset) =~= page(l, *p));
    rows
}

} // verus!
