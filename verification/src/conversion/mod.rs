//! The composition buffer and the intervals produced by conversion.

use crate::model::WordId;
use crate::zhuyin::Syllable;
use vstd::prelude::*;

pub mod chewing;
pub mod decoder;
pub mod simple;
pub mod word_lattice;

verus! {

/// Whether `[a_start, a_end)` and `[b_start, b_end)` share a position.
pub open spec fn spec_ranges_intersect(a_start: int, a_end: int, b_start: int, b_end: int) -> bool {
    (if a_start > b_start {
        a_start
    } else {
        b_start
    }) < (if a_end < b_end {
        a_end
    } else {
        b_end
    })
}

/// Output of conversion.
///
/// Interval represents a segment of input buffer converted to a phrase.
#[derive(Debug, Clone, PartialEq, Eq)]
pub struct Interval {
    /// The starting offset of the interval.
    pub start: usize,
    /// The end (exclusive) of the interval.
    pub end: usize,
    /// Whether the output is a phrase from dictionary or just symbols.
    pub is_phrase: bool,
    /// The output string.
    pub text: String,
}

impl Interval {
    /// Whether the interval covers the whole range of the other interval.
    pub fn contains(&self, other: &Interval) -> (b: bool)
        ensures
            b == (self.start <= other.start && self.end >= other.end),
    {
        self.contains_range(other.start, other.end)
    }

    pub fn contains_range(&self, start: usize, end: usize) -> (b: bool)
        ensures
            b == (self.start <= start && self.end >= end),
    {
        self.start <= start && self.end >= end
    }

    /// Whether the interval covers the part of the other interval.
    pub fn intersect(&self, other: &Interval) -> (b: bool)
        ensures
            b == spec_ranges_intersect(
                self.start as int,
                self.end as int,
                other.start as int,
                other.end as int,
            ),
    {
        self.intersect_range(other.start, other.end)
    }

    pub fn intersect_range(&self, start: usize, end: usize) -> (b: bool)
        ensures
            b == spec_ranges_intersect(self.start as int, self.end as int, start as int, end as int),
    {
        let lo = if self.start > start {
            self.start
        } else {
            start
        };
        let hi = if self.end < end {
            self.end
        } else {
            end
        };
        lo < hi
    }

    /// The length of the interval.
    pub fn len(&self) -> (n: usize)
        requires
            self.start <= self.end,
        ensures
            n == self.end - self.start,
    {
        self.end - self.start
    }

    /// Whether the interval is empty (no output).
    pub fn is_empty(&self) -> (b: bool)
        requires
            self.start <= self.end,
        ensures
            b == (self.start == self.end),
    {
        self.len() == 0
    }
}

/// Represents the gap between symbols.
#[derive(Debug, Clone, Copy, PartialEq, Eq, Structural)]
pub enum Gap {
    /// Beginning of Buffer.
    Begin,
    /// Explicitly marked break point.
    Break,
    /// Explicitly marked connection point.
    Glue,
    /// Normal, default, gap.
    Normal,
}

/// A smallest unit of input in the pre-edit buffer.
#[derive(Debug, Clone, Copy, PartialEq, Eq, Structural)]
pub enum Symbol {
    /// Chinese syllable
    Syllable(Syllable),
    /// Any direct character
    Grapheme(char),
}

impl Symbol {
    pub fn is_syllable(&self) -> (b: bool)
        ensures
            b == (*self is Syllable),
    {
        match self {
            Symbol::Syllable(_) => true,
            Symbol::Grapheme(_) => false,
        }
    }

    pub fn is_char(&self) -> (b: bool)
        ensures
            b == (*self is Grapheme),
    {
        match self {
            Symbol::Syllable(_) => false,
            Symbol::Grapheme(_) => true,
        }
    }

    pub fn to_syllable(self) -> (r: Option<Syllable>)
        ensures
            r == (match self {
                Symbol::Syllable(s) => Some(s),
                Symbol::Grapheme(_) => None::<Syllable>,
            }),
    {
        match self {
            Symbol::Syllable(syllable) => Some(syllable),
            Symbol::Grapheme(_) => None,
        }
    }

    pub fn to_char(self) -> (r: Option<char>)
        ensures
            r == (match self {
                Symbol::Syllable(_) => None::<char>,
                Symbol::Grapheme(c) => Some(c),
            }),
    {
        match self {
            Symbol::Syllable(_) => None,
            Symbol::Grapheme(c) => Some(c),
        }
    }
}

impl From<Syllable> for Symbol {
    fn from(value: Syllable) -> (r: Symbol) {
        Symbol::Syllable(value)
    }
}

impl vstd::std_specs::convert::FromSpecImpl<Syllable> for Symbol {
    open spec fn obeys_from_spec() -> bool {
        true
    }

    open spec fn from_spec(v: Syllable) -> Symbol {
        Symbol::Syllable(v)
    }
}

impl From<char> for Symbol {
    fn from(value: char) -> (r: Symbol) {
        Symbol::Grapheme(value)
    }
}

impl vstd::std_specs::convert::FromSpecImpl<char> for Symbol {
    open spec fn obeys_from_spec() -> bool {
        true
    }

    open spec fn from_spec(v: char) -> Symbol {
        Symbol::Grapheme(v)
    }
}

/// A range of symbols that the user has bound to a word.
#[derive(Debug, Clone, Copy, PartialEq, Eq, Structural)]
pub struct Selection {
    /// The starting offset of the interval.
    pub start: usize,
    /// The end (exclusive) of the interval.
    pub end: usize,
    /// The selected word_id.
    pub wid: WordId,
}

/// Whether two selections share a position.
pub open spec fn spec_sel_intersect(a: Selection, b: Selection) -> bool {
    spec_ranges_intersect(a.start as int, a.end as int, b.start as int, b.end as int)
}

impl Selection {
    pub fn len(&self) -> (n: usize)
        requires
            self.start <= self.end,
        ensures
            n == self.end - self.start,
    {
        self.end - self.start
    }

    pub fn is_contained_by(&self, start: usize, end: usize) -> (b: bool)
        ensures
            b == (start <= self.start && end >= self.end),
    {
        start <= self.start && end >= self.end
    }

    /// Whether the selection covers the part of the other selection.
    pub fn intersect(&self, other: &Selection) -> (b: bool)
        ensures
            b == spec_sel_intersect(*self, *other),
    {
        self.intersect_range(other.start, other.end)
    }

    pub fn intersect_range(&self, start: usize, end: usize) -> (b: bool)
        ensures
            b == spec_ranges_intersect(self.start as int, self.end as int, start as int, end as int),
    {
        let lo = if self.start > start {
            self.start
        } else {
            start
        };
        let hi = if self.end < end {
            self.end
        } else {
            end
        };
        lo < hi
    }
}

/// Two ranges intersect in either order.
pub proof fn lemma_intersect_symmetric(a_start: int, a_end: int, b_start: int, b_end: int)
    ensures
        spec_ranges_intersect(a_start, a_end, b_start, b_end) == spec_ranges_intersect(
            b_start,
            b_end,
            a_start,
            a_end,
        ),
{
}

// ---------------------------------------------------------------------------
// Removing a set of positions from a sequence the way `Vec::swap_remove` does
// when it is applied from the highest position down.
// ---------------------------------------------------------------------------
/// `Vec::swap_remove`: the last element takes the place of the removed one.
pub open spec fn swap_remove_at<T>(s: Seq<T>, i: int) -> Seq<T> {
    s.update(i, s.last()).drop_last()
}

/// Applies `swap_remove` to the positions in `idxs`, the last one first.
pub open spec fn remove_indices<T>(s: Seq<T>, idxs: Seq<int>) -> Seq<T>
    decreases idxs.len(),
{
    if idxs.len() == 0 {
        s
    } else {
        remove_indices(swap_remove_at(s, idxs.last()), idxs.drop_last())
    }
}

/// The positions below `n` whose element satisfies `p`, in increasing order.
pub open spec fn indices_where<T>(s: Seq<T>, p: spec_fn(T) -> bool, n: int) -> Seq<int>
    decreases n,
{
    if n <= 0 {
        Seq::empty()
    } else {
        let r = indices_where(s, p, n - 1);
        if p(s[n - 1]) {
            r.push(n - 1)
        } else {
            r
        }
    }
}

pub open spec fn strictly_increasing_below(idxs: Seq<int>, n: int) -> bool {
    &&& forall|a: int, b: int| 0 <= a < b < idxs.len() ==> idxs[a] < idxs[b]
    &&& forall|a: int| 0 <= a < idxs.len() ==> 0 <= #[trigger] idxs[a] < n
}

/// `i` is not one of the listed positions.
pub open spec fn not_listed(idxs: Seq<int>, i: int) -> bool {
    forall|m: int| 0 <= m < idxs.len() ==> idxs[m] != i
}

pub open spec fn usize_seq_as_int(v: Seq<usize>) -> Seq<int> {
    v.map_values(|x: usize| x as int)
}

/// `indices_where` lists exactly the positions whose element satisfies `p`.
pub proof fn lemma_indices_where<T>(s: Seq<T>, p: spec_fn(T) -> bool, n: int)
    requires
        0 <= n <= s.len(),
    ensures
        strictly_increasing_below(indices_where(s, p, n), n),
        forall|a: int|
            0 <= a < indices_where(s, p, n).len() ==> p(s[#[trigger] indices_where(s, p, n)[a]]),
        forall|i: int|
            0 <= i < n && !p(s[i]) ==> forall|a: int|
                0 <= a < indices_where(s, p, n).len() ==> #[trigger] indices_where(s, p, n)[a]
                    != i,
        forall|i: int|
            0 <= i < n && p(s[i]) ==> exists|a: int|
                0 <= a < indices_where(s, p, n).len() && #[trigger] indices_where(s, p, n)[a]
                    == i,
        indices_where(s, p, n).len() <= n,
    decreases n,
{
    if n > 0 {
        lemma_indices_where(s, p, n - 1);
        let r = indices_where(s, p, n - 1);
        if p(s[n - 1]) {
            let r2 = r.push(n - 1);
            assert forall|i: int| 0 <= i < n && p(s[i]) implies exists|a: int|
                0 <= a < r2.len() && #[trigger] r2[a] == i by {
                if i == n - 1 {
                    assert(r2[r.len() as int] == i);
                } else {
                    let a = choose|a: int| 0 <= a < r.len() && #[trigger] r[a] == i;
                    assert(r2[a] == i);
                }
            }
        }
    }
}

/// One more step of the scan that lists the positions satisfying `p`.
pub proof fn lemma_indices_step<T>(
    s: Seq<T>,
    p: spec_fn(T) -> bool,
    i: int,
    before: Seq<usize>,
    after: Seq<usize>,
)
    requires
        0 <= i < s.len(),
        i <= usize::MAX,
        usize_seq_as_int(before) == indices_where(s, p, i),
        after == (if p(s[i]) {
            before.push(i as usize)
        } else {
            before
        }),
    ensures
        usize_seq_as_int(after) == indices_where(s, p, i + 1),
{
    if p(s[i]) {
        assert(usize_seq_as_int(after) =~= usize_seq_as_int(before).push(i));
    }
}

/// The elements left by `remove_indices` come, one for one, from positions
/// that were not removed.
pub proof fn lemma_remove_indices<T>(s: Seq<T>, idxs: Seq<int>) -> (f: spec_fn(int) -> int)
    requires
        strictly_increasing_below(idxs, s.len() as int),
    ensures
        remove_indices(s, idxs).len() == s.len() - idxs.len(),
        forall|k: int|
            0 <= k < remove_indices(s, idxs).len() ==> {
                &&& 0 <= #[trigger] f(k) < s.len()
                &&& remove_indices(s, idxs)[k] == s[f(k)]
                &&& not_listed(idxs, f(k))
            },
        forall|k1: int, k2: int|
            0 <= k1 < remove_indices(s, idxs).len() && 0 <= k2 < remove_indices(s, idxs).len()
                && k1 != k2 ==> #[trigger] f(k1) != #[trigger] f(k2),
    decreases idxs.len(),
{
    if idxs.len() == 0 {
        |k: int| k
    } else {
        let k0 = idxs.last();
        let t = swap_remove_at(s, k0);
        let rest = idxs.drop_last();
        assert(idxs.len() - 1 < idxs.len());
        assert forall|a: int, b: int| 0 <= a < b < rest.len() implies rest[a] < rest[b] by {
            assert(rest[a] == idxs[a]);
            assert(rest[b] == idxs[b]);
        }
        assert forall|a: int| 0 <= a < rest.len() implies 0 <= #[trigger] rest[a] < t.len() by {
            assert(rest[a] == idxs[a]);
            assert(idxs[a] < idxs[idxs.len() - 1]);
        }
        let g = lemma_remove_indices(t, rest);
        let last = s.len() - 1;
        let f = |k: int|
            if g(k) == k0 {
                last
            } else {
                g(k)
            };
        let r = remove_indices(s, idxs);
        assert(r == remove_indices(t, rest));
        assert forall|k: int| 0 <= k < r.len() implies {
            &&& 0 <= #[trigger] f(k) < s.len()
            &&& r[k] == s[f(k)]
            &&& not_listed(idxs, f(k))
        } by {
            let j = g(k);
            assert(0 <= j < t.len());
            if j == k0 {
                assert(t[j] == s.last());
                assert forall|m: int| 0 <= m < idxs.len() implies idxs[m] != f(k) by {
                    if m < idxs.len() - 1 {
                        assert(idxs[m] < idxs[idxs.len() - 1]);
                    }
                }
            } else {
                assert(t[j] == s[j]);
                assert forall|m: int| 0 <= m < idxs.len() implies idxs[m] != f(k) by {
                    if m < idxs.len() - 1 {
                        assert(rest[m] == idxs[m]);
                    }
                }
            }
        }
        assert forall|k1: int, k2: int|
            0 <= k1 < r.len() && 0 <= k2 < r.len() && k1 != k2 implies #[trigger] f(k1)
            != #[trigger] f(k2) by {
            assert(g(k1) != g(k2));
        }
        f
    }
}

/// Moves a selection one position right when it starts at or after `index`.
pub open spec fn shift_up(s: Selection, index: int) -> Selection {
    if s.start >= index {
        Selection { start: (s.start + 1) as usize, end: (s.end + 1) as usize, wid: s.wid }
    } else {
        s
    }
}

/// Moves a selection `n` positions left when it starts after `index`.
pub open spec fn shift_down(s: Selection, index: int, n: int) -> Selection {
    if s.start > index {
        Selection { start: (s.start - n) as usize, end: (s.end - n) as usize, wid: s.wid }
    } else {
        s
    }
}

/// A selection that a symbol inserted at `index` would cut in two.
pub open spec fn spans_gap(s: Selection, index: int) -> bool {
    s.start < index < s.end
}

/// The selections after inserting a symbol at `index`.
pub open spec fn spec_insert_selections(sels: Seq<Selection>, index: int) -> Seq<Selection> {
    remove_indices(
        sels.map_values(|s: Selection| shift_up(s, index)),
        indices_where(sels, |s: Selection| spans_gap(s, index), sels.len() as int),
    )
}

/// The gaps after inserting a symbol at `index`: the new symbol and the one
/// it pushes right both get a normal gap, the first gap stays `Begin`.
pub open spec fn spec_insert_gaps(gaps: Seq<Gap>, index: int) -> Seq<Gap> {
    Seq::new(
        (gaps.len() + 1) as nat,
        |i: int|
            if i == 0 {
                Gap::Begin
            } else if i == index || i == index + 1 {
                Gap::Normal
            } else if i < index {
                gaps[i]
            } else {
                gaps[i - 1]
            },
    )
}

/// The selections left after a break is set at `index`.
pub open spec fn spec_break_selections(sels: Seq<Selection>, index: int) -> Seq<Selection> {
    remove_indices(sels, indices_where(sels, |s: Selection| spans_gap(s, index), sels.len() as int))
}

/// The selections after a new selection is pushed.
pub open spec fn spec_push_selections(sels: Seq<Selection>, sel: Selection) -> Seq<Selection> {
    remove_indices(
        sels,
        indices_where(sels, |s: Selection| spec_sel_intersect(sel, s), sels.len() as int),
    ).push(sel)
}

/// The gaps inside a pushed selection become normal.
pub open spec fn spec_push_selection_gaps(gaps: Seq<Gap>, sel: Selection) -> Seq<Gap> {
    Seq::new(
        gaps.len(),
        |i: int|
            if sel.start < i < sel.end {
                Gap::Normal
            } else {
                gaps[i]
            },
    )
}

/// The selections after the first `n` symbols are removed.
pub open spec fn spec_remove_front_selections(sels: Seq<Selection>, n: int) -> Seq<Selection> {
    remove_indices(
        sels.map_values(|s: Selection| shift_down(s, n - 1, n)),
        indices_where(sels, |s: Selection| s.start < n, sels.len() as int),
    )
}

/// The selections after the symbol at `index` is removed.
pub open spec fn spec_remove_selections(sels: Seq<Selection>, index: int) -> Seq<Selection> {
    remove_indices(
        sels.map_values(|s: Selection| shift_down(s, index, 1)),
        indices_where(sels, |s: Selection| s.start <= index < s.end, sels.len() as int),
    )
}

/// The first gap of a non-empty buffer is `Begin`.
pub open spec fn with_begin(gaps: Seq<Gap>) -> Seq<Gap> {
    if gaps.len() == 0 {
        gaps
    } else {
        gaps.update(0, Gap::Begin)
    }
}

/// Selections lie inside the buffer and never overlap each other.
pub open spec fn selections_wf(sels: Seq<Selection>, len: int) -> bool {
    &&& forall|i: int| 0 <= i < sels.len() ==> #[trigger] sels[i].start <= sels[i].end <= len
    &&& forall|i: int, j: int|
        0 <= i < sels.len() && 0 <= j < sels.len() && i != j ==> !spec_sel_intersect(
            #[trigger] sels[i],
            #[trigger] sels[j],
        )
}

/// Removing positions keeps the selections that were already well placed.
pub proof fn lemma_remove_keeps_wf(s: Seq<Selection>, idxs: Seq<int>, len: int)
    requires
        strictly_increasing_below(idxs, s.len() as int),
        forall|i: int|
            0 <= i < s.len() && not_listed(idxs, i)
                ==> #[trigger] s[i].start <= s[i].end <= len,
        forall|i: int, j: int|
            0 <= i < s.len() && 0 <= j < s.len() && i != j && not_listed(idxs, i) && not_listed(idxs, j) ==> !spec_sel_intersect(
                #[trigger] s[i],
                #[trigger] s[j],
            ),
    ensures
        selections_wf(remove_indices(s, idxs), len),
{
    let f = lemma_remove_indices(s, idxs);
    let r = remove_indices(s, idxs);
    assert forall|i: int| 0 <= i < r.len() implies #[trigger] r[i].start <= r[i].end <= len by {
        assert(r[i] == s[f(i)]);
    }
    assert forall|i: int, j: int|
        0 <= i < r.len() && 0 <= j < r.len() && i != j implies !spec_sel_intersect(
        #[trigger] r[i],
        #[trigger] r[j],
    ) by {
        assert(r[i] == s[f(i)]);
        assert(r[j] == s[f(j)]);
        assert(f(i) != f(j));
    }
}

/// No selection has a break strictly inside it.
pub open spec fn breaks_outside(gaps: Seq<Gap>, sels: Seq<Selection>) -> bool {
    forall|k: int, i: int|
        #![trigger sels[k], gaps[i]]
        0 <= k < sels.len() && sels[k].start < i < sels[k].end && 0 <= i < gaps.len() ==> gaps[i]
            != Gap::Break
}

/// What is left after removing the positions picked by `p`, each element
/// mapped by `g`, is `g` of an element that `p` did not pick.
proof fn lemma_kept_mapped(
    s: Seq<Selection>,
    g: spec_fn(Selection) -> Selection,
    p: spec_fn(Selection) -> bool,
)
    ensures
        forall|k: int|
            0 <= k < remove_indices(s.map_values(g), indices_where(s, p, s.len() as int)).len()
                ==> exists|j: int|
                0 <= j < s.len() && !p(s[j]) && #[trigger] remove_indices(
                    s.map_values(g),
                    indices_where(s, p, s.len() as int),
                )[k] == g(s[j]),
{
    let idxs = indices_where(s, p, s.len() as int);
    lemma_indices_where(s, p, s.len() as int);
    let m = s.map_values(g);
    let f = lemma_remove_indices(m, idxs);
    assert forall|k: int| 0 <= k < remove_indices(m, idxs).len() implies exists|j: int|
        0 <= j < s.len() && !p(s[j]) && #[trigger] remove_indices(m, idxs)[k] == g(s[j]) by {
        let j = f(k);
        if p(s[j]) {
            let a = choose|a: int| 0 <= a < idxs.len() && #[trigger] idxs[a] == j;
            assert(not_listed(idxs, j));
        }
        assert(remove_indices(m, idxs)[k] == m[j]);
    }
}

/// Setting a gap keeps breaks out of the selections: a break drops the
/// selections around it, any other gap is no break.
pub proof fn lemma_set_gap_breaks_outside(gaps: Seq<Gap>, sels: Seq<Selection>, index: int, gap: Gap)
    requires
        breaks_outside(gaps, sels),
        0 <= index < gaps.len(),
    ensures
        breaks_outside(
            gaps.update(index, gap),
            if gap == Gap::Break {
                spec_break_selections(sels, index)
            } else {
                sels
            },
        ),
{
    if gap == Gap::Break {
        let ident = |x: Selection| x;
        let p = |x: Selection| spans_gap(x, index);
        lemma_kept_mapped(sels, ident, p);
        assert(sels.map_values(ident) =~= sels);
        let r = spec_break_selections(sels, index);
        let g2 = gaps.update(index, gap);
        assert forall|k: int, i: int|
            #![trigger r[k], g2[i]]
            0 <= k < r.len() && r[k].start < i < r[k].end && 0 <= i < g2.len() implies g2[i]
            != Gap::Break by {
            let j = choose|j: int| 0 <= j < sels.len() && !p(sels[j]) && #[trigger] remove_indices(
                sels.map_values(ident),
                indices_where(sels, p, sels.len() as int),
            )[k] == ident(sels[j]);
            assert(r[k] == sels[j]);
            assert(!spans_gap(sels[j], index));
            assert(sels[j].start < i < sels[j].end);
            assert(i != index);
            assert(gaps[i] != Gap::Break);
        }
    } else {
        let g2 = gaps.update(index, gap);
        assert forall|k: int, i: int|
            #![trigger sels[k], g2[i]]
            0 <= k < sels.len() && sels[k].start < i < sels[k].end && 0 <= i < g2.len() implies g2[i]
            != Gap::Break by {
            if i != index {
                assert(gaps[i] != Gap::Break);
            }
        }
    }
}

/// Inserting a symbol keeps breaks out of the selections.
pub proof fn lemma_insert_breaks_outside(gaps: Seq<Gap>, sels: Seq<Selection>, index: int)
    requires
        breaks_outside(gaps, sels),
        selections_wf(sels, gaps.len() as int),
        0 <= index <= gaps.len() < usize::MAX,
    ensures
        breaks_outside(spec_insert_gaps(gaps, index), spec_insert_selections(sels, index)),
{
    let g = |x: Selection| shift_up(x, index);
    let p = |x: Selection| spans_gap(x, index);
    lemma_kept_mapped(sels, g, p);
    let r = spec_insert_selections(sels, index);
    let g2 = spec_insert_gaps(gaps, index);
    assert forall|k: int, i: int|
        #![trigger r[k], g2[i]]
        0 <= k < r.len() && r[k].start < i < r[k].end && 0 <= i < g2.len() implies g2[i]
        != Gap::Break by {
        let j = choose|j: int| 0 <= j < sels.len() && !p(sels[j]) && #[trigger] remove_indices(
            sels.map_values(g),
            indices_where(sels, p, sels.len() as int),
        )[k] == g(sels[j]);
        let s0 = sels[j];
        assert(s0.start <= s0.end <= gaps.len());
        assert(r[k] == shift_up(s0, index));
        if s0.start >= index {
            assert(r[k].start == s0.start + 1 && r[k].end == s0.end + 1);
            assert(g2[i] == gaps[i - 1]);
            assert(gaps[i - 1] != Gap::Break);
        } else {
            assert(s0.end <= index);
            assert(g2[i] == gaps[i]);
            assert(gaps[i] != Gap::Break);
        }
    }
}

/// Pushing a selection keeps breaks out of the selections: its own gaps
/// become normal.
pub proof fn lemma_push_selection_breaks_outside(gaps: Seq<Gap>, sels: Seq<Selection>, sel: Selection)
    requires
        breaks_outside(gaps, sels),
    ensures
        breaks_outside(spec_push_selection_gaps(gaps, sel), spec_push_selections(sels, sel)),
{
    let ident = |x: Selection| x;
    let p = |x: Selection| spec_sel_intersect(sel, x);
    lemma_kept_mapped(sels, ident, p);
    assert(sels.map_values(ident) =~= sels);
    let kept = remove_indices(sels, indices_where(sels, p, sels.len() as int));
    let r = spec_push_selections(sels, sel);
    let g2 = spec_push_selection_gaps(gaps, sel);
    assert forall|k: int, i: int|
        #![trigger r[k], g2[i]]
        0 <= k < r.len() && r[k].start < i < r[k].end && 0 <= i < g2.len() implies g2[i]
        != Gap::Break by {
        if !(sel.start < i < sel.end) && k < kept.len() {
            let j = choose|j: int| 0 <= j < sels.len() && !p(sels[j]) && #[trigger] remove_indices(
                sels.map_values(ident),
                indices_where(sels, p, sels.len() as int),
            )[k] == ident(sels[j]);
            assert(r[k] == sels[j]);
            assert(gaps[i] != Gap::Break);
        }
    }
}

/// Removing the first `n` symbols keeps breaks out of the selections.
pub proof fn lemma_remove_front_breaks_outside(gaps: Seq<Gap>, sels: Seq<Selection>, n: int)
    requires
        breaks_outside(gaps, sels),
        selections_wf(sels, gaps.len() as int),
        0 <= n <= gaps.len(),
    ensures
        breaks_outside(
            with_begin(gaps.subrange(n, gaps.len() as int)),
            spec_remove_front_selections(sels, n),
        ),
{
    let g = |x: Selection| shift_down(x, n - 1, n);
    let p = |x: Selection| x.start < n;
    lemma_kept_mapped(sels, g, p);
    let r = spec_remove_front_selections(sels, n);
    let g2 = with_begin(gaps.subrange(n, gaps.len() as int));
    assert forall|k: int, i: int|
        #![trigger r[k], g2[i]]
        0 <= k < r.len() && r[k].start < i < r[k].end && 0 <= i < g2.len() implies g2[i]
        != Gap::Break by {
        let j = choose|j: int| 0 <= j < sels.len() && !p(sels[j]) && #[trigger] remove_indices(
            sels.map_values(g),
            indices_where(sels, p, sels.len() as int),
        )[k] == g(sels[j]);
        let s0 = sels[j];
        assert(s0.start <= s0.end <= gaps.len());
        assert(r[k] == shift_down(s0, n - 1, n));
        assert(r[k].start == s0.start - n && r[k].end == s0.end - n);
        assert(g2[i] == gaps[i + n]);
        assert(gaps[i + n] != Gap::Break);
    }
}

/// Removing a symbol keeps breaks out of the selections.
pub proof fn lemma_remove_breaks_outside(gaps: Seq<Gap>, sels: Seq<Selection>, index: int)
    requires
        breaks_outside(gaps, sels),
        selections_wf(sels, gaps.len() as int),
        0 <= index < gaps.len(),
    ensures
        breaks_outside(with_begin(gaps.remove(index)), spec_remove_selections(sels, index)),
{
    let g = |x: Selection| shift_down(x, index, 1);
    let p = |x: Selection| x.start <= index < x.end;
    lemma_kept_mapped(sels, g, p);
    let r = spec_remove_selections(sels, index);
    let g2 = with_begin(gaps.remove(index));
    assert forall|k: int, i: int|
        #![trigger r[k], g2[i]]
        0 <= k < r.len() && r[k].start < i < r[k].end && 0 <= i < g2.len() implies g2[i]
        != Gap::Break by {
        let j = choose|j: int| 0 <= j < sels.len() && !p(sels[j]) && #[trigger] remove_indices(
            sels.map_values(g),
            indices_where(sels, p, sels.len() as int),
        )[k] == g(sels[j]);
        let s0 = sels[j];
        assert(s0.start <= s0.end <= gaps.len());
        assert(r[k] == shift_down(s0, index, 1));
        if s0.start > index {
            assert(r[k].start == s0.start - 1 && r[k].end == s0.end - 1);
            assert(g2[i] == gaps[i + 1]);
            assert(gaps[i + 1] != Gap::Break);
        } else {
            assert(s0.end <= index);
            assert(g2[i] == gaps[i]);
            assert(gaps[i] != Gap::Break);
        }
    }
}

/// Every selection covers at least one symbol.
pub open spec fn sels_nonempty(sels: Seq<Selection>) -> bool {
    forall|k: int| 0 <= k < sels.len() ==> (#[trigger] sels[k]).start < sels[k].end
}

/// Every edit but a push keeps the selections non-empty: each selection
/// left is an earlier one, moved whole.
pub proof fn lemma_edits_keep_sels_nonempty(sels: Seq<Selection>, len: int, index: int)
    requires
        sels_nonempty(sels),
        selections_wf(sels, len),
    ensures
        sels_nonempty(spec_break_selections(sels, index)),
        0 <= index <= len < usize::MAX ==> sels_nonempty(spec_insert_selections(sels, index)),
        0 <= index <= len ==> sels_nonempty(spec_remove_front_selections(sels, index)),
        0 <= index < len ==> sels_nonempty(spec_remove_selections(sels, index)),
{
    let ident = |x: Selection| x;
    assert(sels.map_values(ident) =~= sels);
    let pb = |x: Selection| spans_gap(x, index);
    lemma_kept_mapped(sels, ident, pb);
    let rb = spec_break_selections(sels, index);
    assert forall|k: int| 0 <= k < rb.len() implies (#[trigger] rb[k]).start < rb[k].end by {
        let j = choose|j: int| 0 <= j < sels.len() && !pb(sels[j]) && #[trigger] remove_indices(
            sels.map_values(ident),
            indices_where(sels, pb, sels.len() as int),
        )[k] == ident(sels[j]);
        assert(sels[j].start < sels[j].end);
    }
    if 0 <= index <= len < usize::MAX {
        let g = |x: Selection| shift_up(x, index);
        lemma_kept_mapped(sels, g, pb);
        let ri = spec_insert_selections(sels, index);
        assert forall|k: int| 0 <= k < ri.len() implies (#[trigger] ri[k]).start < ri[k].end by {
            let j = choose|j: int| 0 <= j < sels.len() && !pb(sels[j]) && #[trigger] remove_indices(
                sels.map_values(g),
                indices_where(sels, pb, sels.len() as int),
            )[k] == g(sels[j]);
            assert(sels[j].start < sels[j].end <= len);
            assert(ri[k] == shift_up(sels[j], index));
        }
    }
    if 0 <= index <= len {
        let pf = |x: Selection| x.start < index;
        let gf = |x: Selection| shift_down(x, index - 1, index);
        lemma_kept_mapped(sels, gf, pf);
        let rf = spec_remove_front_selections(sels, index);
        assert forall|k: int| 0 <= k < rf.len() implies (#[trigger] rf[k]).start < rf[k].end by {
            let j = choose|j: int| 0 <= j < sels.len() && !pf(sels[j]) && #[trigger] remove_indices(
                sels.map_values(gf),
                indices_where(sels, pf, sels.len() as int),
            )[k] == gf(sels[j]);
            assert(sels[j].start < sels[j].end <= len);
            assert(rf[k] == shift_down(sels[j], index - 1, index));
        }
    }
    if 0 <= index < len {
        let pr = |x: Selection| x.start <= index < x.end;
        let gr = |x: Selection| shift_down(x, index, 1);
        lemma_kept_mapped(sels, gr, pr);
        let rr = spec_remove_selections(sels, index);
        assert forall|k: int| 0 <= k < rr.len() implies (#[trigger] rr[k]).start < rr[k].end by {
            let j = choose|j: int| 0 <= j < sels.len() && !pr(sels[j]) && #[trigger] remove_indices(
                sels.map_values(gr),
                indices_where(sels, pr, sels.len() as int),
            )[k] == gr(sels[j]);
            assert(sels[j].start < sels[j].end <= len);
            assert(rr[k] == shift_down(sels[j], index, 1));
        }
    }

}

/// Pushing a non-empty selection keeps the selections non-empty.
pub proof fn lemma_push_keeps_sels_nonempty(sels: Seq<Selection>, sel: Selection)
    requires
        sels_nonempty(sels),
        sel.start < sel.end,
    ensures
        sels_nonempty(spec_push_selections(sels, sel)),
{
    let ident = |x: Selection| x;
    assert(sels.map_values(ident) =~= sels);
    let pp = |x: Selection| spec_sel_intersect(sel, x);
    lemma_kept_mapped(sels, ident, pp);
    let kept = remove_indices(sels, indices_where(sels, pp, sels.len() as int));
    let rp = spec_push_selections(sels, sel);
    assert forall|k: int| 0 <= k < rp.len() implies (#[trigger] rp[k]).start < rp[k].end by {
        if k < kept.len() {
            let j = choose|j: int| 0 <= j < sels.len() && !pp(sels[j]) && #[trigger] remove_indices(
                sels.map_values(ident),
                indices_where(sels, pp, sels.len() as int),
            )[k] == ident(sels[j]);
            assert(rp[k] == sels[j]);
            assert(sels[j].start < sels[j].end);
        }
    }
}

/// Input data collected by the Editor.
#[derive(Debug, Clone)]
pub struct Composition {
    /// Pre-edit inputs either syllables or symbols.
    symbols: Vec<Symbol>,
    /// User indicates offset that shouldn't form a phrase.
    gaps: Vec<Gap>,
    /// User set constraint on that output must match.
    selections: Vec<Selection>,
}

impl Composition {
    pub closed spec fn spec_symbols(&self) -> Seq<Symbol> {
        self.symbols@
    }

    pub closed spec fn spec_gaps(&self) -> Seq<Gap> {
        self.gaps@
    }

    pub closed spec fn spec_selections(&self) -> Seq<Selection> {
        self.selections@
    }

    /// One gap per symbol, `Begin` exactly at the first gap, and selections
    /// inside the buffer that never overlap.
    pub open spec fn wf(&self) -> bool {
        &&& self.spec_symbols().len() == self.spec_gaps().len()
        &&& self.spec_gaps().len() > 0 ==> self.spec_gaps()[0] == Gap::Begin
        &&& forall|i: int|
            0 < i < self.spec_gaps().len() ==> #[trigger] self.spec_gaps()[i] != Gap::Begin
        &&& selections_wf(self.spec_selections(), self.spec_symbols().len() as int)
    }

    /// Every selection covers at least one symbol: every edit keeps this,
    /// as long as the selections pushed are non-empty.
    pub open spec fn selections_nonempty(&self) -> bool {
        sels_nonempty(self.spec_selections())
    }

    /// No selection has a break strictly inside it: every edit keeps this.
    pub open spec fn no_break_in_selections(&self) -> bool {
        breaks_outside(self.spec_gaps(), self.spec_selections())
    }

    pub fn new() -> (c: Composition)
        ensures
            c.wf(),
            c.spec_symbols() == Seq::<Symbol>::empty(),
            c.spec_gaps() == Seq::<Gap>::empty(),
            c.spec_selections() == Seq::<Selection>::empty(),
            c.no_break_in_selections(),
            c.selections_nonempty(),
    {
        Composition { symbols: Vec::new(), gaps: Vec::new(), selections: Vec::new() }
    }

    pub fn len(&self) -> (n: usize)
        requires
            self.wf(),
        ensures
            n == self.spec_symbols().len(),
    {
        self.symbols.len()
    }

    pub fn is_empty(&self) -> (b: bool)
        requires
            self.wf(),
        ensures
            b == (self.spec_symbols().len() == 0),
    {
        self.len() == 0
    }

    /// Get the symbol under the cursor
    ///
    /// The cursor always indicates the gap between symbols.
    ///
    /// ```text
    /// |S0|S1|S2|S3|S4|S5|
    /// ^                 ^
    /// |                 `--- cursor 6 and end of buffer
    /// `--- cursor 0
    /// ```
    ///
    /// When returning the symbol under the cursor, we always
    /// return the symbol that has the same index with the cursor.
    /// So cursor 0 will return `Some(S0)` and cursor 6 will return
    /// `None`.
    pub fn symbol(&self, index: usize) -> (r: Option<Symbol>)
        requires
            self.wf(),
        ensures
            r == (if index < self.spec_symbols().len() {
                Some(self.spec_symbols()[index as int])
            } else {
                None::<Symbol>
            }),
    {
        if index >= self.len() {
            return None;
        }
        Some(self.symbols[index])
    }

    pub fn symbols(&self) -> (r: &[Symbol])
        ensures
            r@ == self.spec_symbols(),
    {
        self.symbols.as_slice()
    }

    pub fn gaps(&self) -> (r: &[Gap])
        ensures
            r@ == self.spec_gaps(),
    {
        self.gaps.as_slice()
    }

    pub fn selections(&self) -> (r: &[Selection])
        ensures
            r@ == self.spec_selections(),
    {
        self.selections.as_slice()
    }

    pub fn gap(&self, index: usize) -> (r: Option<Gap>)
        requires
            self.wf(),
        ensures
            r == (if index < self.spec_gaps().len() {
                Some(self.spec_gaps()[index as int])
            } else {
                None::<Gap>
            }),
    {
        if index >= self.len() {
            return None;
        }
        Some(self.gaps[index])
    }

    pub fn gap_after(&self, index: usize) -> (r: Option<Gap>)
        requires
            self.wf(),
            index < usize::MAX,
        ensures
            r == (if index + 1 < self.spec_gaps().len() {
                Some(self.spec_gaps()[index + 1])
            } else {
                None::<Gap>
            }),
    {
        if index + 1 >= self.len() {
            return None;
        }
        Some(self.gaps[index + 1])
    }

    /// Removes the selections listed in `to_remove`, last one first, with
    /// `swap_remove`.
    fn remove_listed(sels: &mut Vec<Selection>, to_remove: &Vec<usize>)
        requires
            strictly_increasing_below(usize_seq_as_int(to_remove@), old(sels)@.len() as int),
        ensures
            final(sels)@ == remove_indices(old(sels)@, usize_seq_as_int(to_remove@)),
    {
        let ghost all = usize_seq_as_int(to_remove@);
        let ghost target = remove_indices(old(sels)@, all);
        let mut k = to_remove.len();
        proof {
            assert(all.take(k as int) =~= all);
        }
        while k > 0
            invariant
                0 <= k <= to_remove@.len(),
                all == usize_seq_as_int(to_remove@),
                strictly_increasing_below(all, old(sels)@.len() as int),
                sels@.len() == old(sels)@.len() - (to_remove@.len() - k),
                remove_indices(sels@, all.take(k as int)) == target,
            decreases k,
        {
            k = k - 1;
            let i = to_remove[k];
            proof {
                assert(all[k as int] == i as int);
                if k + 1 < to_remove@.len() {
                    assert(all[k as int] < all[k + 1]);
                }
                assert forall|a: int| 0 <= a < k implies all[a] < all[k as int] by {}
                assert(all[k as int] <= old(sels)@.len() - 1 - (to_remove@.len() - 1 - k)) by {
                    lemma_increasing_room(all, old(sels)@.len() as int, k as int);
                }
                assert(all.take(k + 1).last() == all[k as int]);
                assert(all.take(k + 1).drop_last() =~= all.take(k as int));
            }
            sels.swap_remove(i);
        }
        proof {
            assert(all.take(0) =~= Seq::<int>::empty());
        }
    }

    #[verifier::loop_isolation(false)]
    pub fn set_gap(&mut self, index: usize, gap: Gap)
        requires
            old(self).wf(),
            index < old(self).spec_symbols().len(),
            gap != Gap::Begin,
        ensures
            final(self).wf(),
            final(self).spec_symbols() == old(self).spec_symbols(),
            index == 0 ==> final(self).spec_gaps() == old(self).spec_gaps()
                && final(self).spec_selections() == old(self).spec_selections(),
            index != 0 ==> final(self).spec_gaps() == old(self).spec_gaps().update(
                index as int,
                gap,
            ),
            index != 0 && gap == Gap::Break ==> final(self).spec_selections()
                == spec_break_selections(old(self).spec_selections(), index as int),
            index != 0 && gap != Gap::Break ==> final(self).spec_selections()
                == old(self).spec_selections(),
            old(self).no_break_in_selections() ==> final(self).no_break_in_selections(),
            old(self).selections_nonempty() ==> final(self).selections_nonempty(),
    {
        if index == 0 {
            return;
        }
        if gap == Gap::Break {
            let ghost old_sels = self.selections@;
            let ghost p = |s: Selection| spans_gap(s, index as int);
            let mut to_remove: Vec<usize> = Vec::new();
            let mut i: usize = 0;
            while i < self.selections.len()
                invariant
                    0 <= i <= self.selections@.len(),
                        self.selections@ == old_sels,
                    self.symbols@ == old(self).symbols@,
                    self.gaps@ == old(self).gaps@,
                    usize_seq_as_int(to_remove@) == indices_where(old_sels, p, i as int),
                decreases self.selections@.len() - i,
            {
                let selection = self.selections[i];
                let ghost before = to_remove@;
                if selection.start < index && index < selection.end {
                    to_remove.push(i);
                }
                proof {
                    assert(p(old_sels[i as int]) == spans_gap(selection, index as int));
                    lemma_indices_step(old_sels, p, i as int, before, to_remove@);
                }
                i = i + 1;
            }
            proof {
                lemma_indices_where(old_sels, p, old_sels.len() as int);
            }
            Self::remove_listed(&mut self.selections, &to_remove);
            proof {
                let idxs = indices_where(old_sels, p, old_sels.len() as int);
                lemma_remove_keeps_wf(old_sels, idxs, self.symbols@.len() as int);
            }
        }
        self.gaps.set(index, gap);
        proof {
            if old(self).no_break_in_selections() {
                lemma_set_gap_breaks_outside(old(self).spec_gaps(), old(self).spec_selections(), index as int, gap);
            }
        }
        proof {
            if old(self).selections_nonempty() {
                lemma_edits_keep_sels_nonempty(old(self).spec_selections(), old(self).spec_symbols().len() as int, index as int);
            }
        }
    }

    pub fn push(&mut self, sym: Symbol)
        requires
            old(self).wf(),
            old(self).spec_symbols().len() < usize::MAX,
        ensures
            final(self).wf(),
            final(self).spec_symbols() == old(self).spec_symbols().push(sym),
            final(self).spec_gaps() == spec_insert_gaps(
                old(self).spec_gaps(),
                old(self).spec_symbols().len() as int,
            ),
            final(self).spec_selections() == spec_insert_selections(
                old(self).spec_selections(),
                old(self).spec_symbols().len() as int,
            ),
            old(self).no_break_in_selections() ==> final(self).no_break_in_selections(),
            old(self).selections_nonempty() ==> final(self).selections_nonempty(),
    {
        let n = self.len();
        self.insert(n, sym);
        proof {
            assert(old(self).spec_symbols().insert(n as int, sym) =~= old(
                self,
            ).spec_symbols().push(sym));
        }
    }

    #[verifier::loop_isolation(false)]
    pub fn insert(&mut self, index: usize, sym: Symbol)
        requires
            old(self).wf(),
            index <= old(self).spec_symbols().len(),
            old(self).spec_symbols().len() < usize::MAX,
        ensures
            final(self).wf(),
            final(self).spec_symbols() == old(self).spec_symbols().insert(index as int, sym),
            final(self).spec_gaps() == spec_insert_gaps(old(self).spec_gaps(), index as int),
            final(self).spec_selections() == spec_insert_selections(
                old(self).spec_selections(),
                index as int,
            ),
            old(self).no_break_in_selections() ==> final(self).no_break_in_selections(),
            old(self).selections_nonempty() ==> final(self).selections_nonempty(),
    {
        let ghost old_sels = self.selections@;
        let ghost len: int = self.symbols@.len() as int;
        let ghost p = |s: Selection| spans_gap(s, index as int);
        let ghost shifted = old_sels.map_values(|s: Selection| shift_up(s, index as int));
        let mut to_remove: Vec<usize> = Vec::new();
        let mut i: usize = 0;
        while i < self.selections.len()
            invariant
                0 <= i <= self.selections@.len(),
                self.selections@.len() == old_sels.len(),
                self.symbols@ == old(self).symbols@,
                self.gaps@ == old(self).gaps@,
                self.symbols@.len() == len < usize::MAX,
                selections_wf(old_sels, len as int),
                forall|k: int| 0 <= k < i ==> #[trigger] self.selections@[k] == shifted[k],
                forall|k: int|
                    i <= k < old_sels.len() ==> #[trigger] self.selections@[k] == old_sels[k],
                usize_seq_as_int(to_remove@) == indices_where(old_sels, p, i as int),
            decreases old_sels.len() - i,
        {
            let selection = self.selections[i];
                let ghost before = to_remove@;
            proof {
                assert(old_sels[i as int] == selection);
                assert(selection.start <= selection.end <= len);
            }
            if selection.start < index && index < selection.end {
                to_remove.push(i);
            }
            if selection.start >= index {
                let moved = Selection {
                    start: selection.start + 1,
                    end: selection.end + 1,
                    wid: selection.wid,
                };
                self.selections.set(i, moved);
            }
            proof {
                assert(p(old_sels[i as int]) == spans_gap(selection, index as int));
                assert(shifted[i as int] == shift_up(old_sels[i as int], index as int));
                lemma_indices_step(old_sels, p, i as int, before, to_remove@);
            }
            i = i + 1;
        }
        proof {
            assert(self.selections@ =~= shifted);
            lemma_indices_where(old_sels, p, old_sels.len() as int);
        }
        Self::remove_listed(&mut self.selections, &to_remove);
        proof {
            let idxs = indices_where(old_sels, p, old_sels.len() as int);
            assert forall|a: int, b: int|
                0 <= a < shifted.len() && 0 <= b < shifted.len() && a != b && not_listed(idxs, a) && not_listed(idxs, b) implies !spec_sel_intersect(
                #[trigger] shifted[a],
                #[trigger] shifted[b],
            ) by {
                assert(!spec_sel_intersect(old_sels[a], old_sels[b]));
                assert(!p(old_sels[a]));
                assert(!p(old_sels[b]));
            }
            lemma_remove_keeps_wf(shifted, idxs, len + 1);
        }
        self.symbols.insert(index, sym);
        let ghost mid_gaps = self.gaps@;
        if !self.gaps.is_empty() && index != self.gaps.len() {
            self.gaps.set(index, Gap::Normal);
        }
        self.gaps.insert(index, Gap::Normal);
        self.gaps.set(0, Gap::Begin);
        proof {
            assert(self.gaps@ =~= spec_insert_gaps(mid_gaps, index as int));
        }
        proof {
            if old(self).no_break_in_selections() {
                lemma_insert_breaks_outside(old(self).spec_gaps(), old(self).spec_selections(), index as int);
            }
        }
        proof {
            if old(self).selections_nonempty() {
                lemma_edits_keep_sels_nonempty(old(self).spec_selections(), old(self).spec_symbols().len() as int, index as int);
            }
        }
    }

    pub fn replace(&mut self, index: usize, sym: Symbol)
        requires
            old(self).wf(),
            index < old(self).spec_symbols().len(),
        ensures
            final(self).wf(),
            final(self).spec_symbols() == old(self).spec_symbols().update(index as int, sym),
            index == 0 ==> final(self).spec_gaps() == old(self).spec_gaps(),
            index != 0 ==> final(self).spec_gaps() == old(self).spec_gaps().update(
                index as int,
                Gap::Normal,
            ),
            final(self).spec_selections() == old(self).spec_selections(),
            old(self).no_break_in_selections() ==> final(self).no_break_in_selections(),
            old(self).selections_nonempty() ==> final(self).selections_nonempty(),
    {
        self.symbols.set(index, sym);
        self.set_gap(index, Gap::Normal);
    }

    #[verifier::loop_isolation(false)]
    pub fn push_selection(&mut self, selection: Selection)
        requires
            old(self).wf(),
            selection.start <= selection.end <= old(self).spec_symbols().len(),
        ensures
            final(self).wf(),
            final(self).spec_symbols() == old(self).spec_symbols(),
            final(self).spec_gaps() == spec_push_selection_gaps(old(self).spec_gaps(), selection),
            final(self).spec_selections() == spec_push_selections(
                old(self).spec_selections(),
                selection,
            ),
            old(self).no_break_in_selections() ==> final(self).no_break_in_selections(),
            old(self).selections_nonempty() && selection.start < selection.end ==> final(self).selections_nonempty(),
    {
        let ghost old_sels = self.selections@;
        let ghost p = |s: Selection| spec_sel_intersect(selection, s);
        let mut to_remove: Vec<usize> = Vec::new();
        let mut i: usize = 0;
        while i < self.selections.len()
            invariant
                0 <= i <= self.selections@.len(),
                self.selections@ == old_sels,
                self.symbols@ == old(self).symbols@,
                self.gaps@ == old(self).gaps@,
                usize_seq_as_int(to_remove@) == indices_where(old_sels, p, i as int),
            decreases self.selections@.len() - i,
        {
            let s = self.selections[i];
            let ghost before = to_remove@;
            if selection.intersect(&s) {
                to_remove.push(i);
            }
            proof {
                assert(old_sels[i as int] == s);
                assert(p(old_sels[i as int]) == spec_sel_intersect(selection, s));
                lemma_indices_step(old_sels, p, i as int, before, to_remove@);
            }
            i = i + 1;
        }
        proof {
            lemma_indices_where(old_sels, p, old_sels.len() as int);
        }
        Self::remove_listed(&mut self.selections, &to_remove);
        let ghost kept = self.selections@;
        proof {
            let idxs = indices_where(old_sels, p, old_sels.len() as int);
            lemma_remove_keeps_wf(old_sels, idxs, self.symbols@.len() as int);
            let f = lemma_remove_indices(old_sels, idxs);
            assert forall|k: int| 0 <= k < kept.len() implies !spec_sel_intersect(
                selection,
                #[trigger] kept[k],
            ) by {
                let j = f(k);
                assert(kept[k] == old_sels[j]);
                assert(!p(old_sels[j]));
            }
        }
        let ghost old_gaps = self.gaps@;
        let mut g = selection.start;
        while g < selection.end
            invariant
                selection.start <= g <= selection.end,
                selection.end <= self.gaps@.len(),
                self.gaps@.len() == old_gaps.len(),
                self.selections@ == kept,
                self.symbols@ == old(self).symbols@,
                forall|k: int|
                    0 <= k < old_gaps.len() ==> #[trigger] self.gaps@[k] == (if selection.start
                        < k < g {
                        Gap::Normal
                    } else {
                        old_gaps[k]
                    }),
            decreases selection.end - g,
        {
            if g > selection.start {
                self.gaps.set(g, Gap::Normal);
            }
            g = g + 1;
        }
        self.selections.push(selection);
        proof {
            assert(self.gaps@ =~= spec_push_selection_gaps(old_gaps, selection));
            let s = self.selections@;
            assert forall|a: int, b: int|
                0 <= a < s.len() && 0 <= b < s.len() && a != b implies !spec_sel_intersect(
                #[trigger] s[a],
                #[trigger] s[b],
            ) by {
                if a == kept.len() {
                    assert(!spec_sel_intersect(selection, kept[b]));
                } else if b == kept.len() {
                    assert(!spec_sel_intersect(selection, kept[a]));
                } else {
                    assert(s[a] == kept[a]);
                    assert(s[b] == kept[b]);
                }
            }
            assert forall|a: int| 0 <= a < s.len() implies #[trigger] s[a].start <= s[a].end
                <= self.symbols@.len() by {
                if a < kept.len() {
                    assert(s[a] == kept[a]);
                }
            }
        }
        proof {
            if old(self).no_break_in_selections() {
                lemma_push_selection_breaks_outside(old(self).spec_gaps(), old(self).spec_selections(), selection);
            }
        }
        proof {
            if old(self).selections_nonempty() && selection.start < selection.end {
                lemma_push_keeps_sels_nonempty(old(self).spec_selections(), selection);
            }
        }
    }

    #[verifier::loop_isolation(false)]
    pub fn remove_front(&mut self, n: usize)
        requires
            old(self).wf(),
            n <= old(self).spec_symbols().len(),
        ensures
            final(self).wf(),
            final(self).spec_symbols() == old(self).spec_symbols().subrange(
                n as int,
                old(self).spec_symbols().len() as int,
            ),
            final(self).spec_gaps() == with_begin(
                old(self).spec_gaps().subrange(n as int, old(self).spec_gaps().len() as int),
            ),
            final(self).spec_selections() == spec_remove_front_selections(
                old(self).spec_selections(),
                n as int,
            ),
            old(self).no_break_in_selections() ==> final(self).no_break_in_selections(),
            old(self).selections_nonempty() ==> final(self).selections_nonempty(),
    {
        let ghost old_sels = self.selections@;
        let ghost len: int = self.symbols@.len() as int;
        let ghost p = |s: Selection| s.start < n;
        let ghost shifted = old_sels.map_values(|s: Selection| shift_down(s, n - 1, n as int));
        let mut to_remove: Vec<usize> = Vec::new();
        let mut i: usize = 0;
        while i < self.selections.len()
            invariant
                0 <= i <= self.selections@.len(),
                self.selections@.len() == old_sels.len(),
                self.symbols@ == old(self).symbols@,
                self.gaps@ == old(self).gaps@,
                selections_wf(old_sels, len as int),
                forall|k: int| 0 <= k < i ==> #[trigger] self.selections@[k] == shifted[k],
                forall|k: int|
                    i <= k < old_sels.len() ==> #[trigger] self.selections@[k] == old_sels[k],
                usize_seq_as_int(to_remove@) == indices_where(old_sels, p, i as int),
            decreases old_sels.len() - i,
        {
            let selection = self.selections[i];
                let ghost before = to_remove@;
            proof {
                assert(old_sels[i as int] == selection);
                assert(selection.start <= selection.end <= len);
            }
            if selection.start < n {
                to_remove.push(i);
            } else {
                let moved = Selection {
                    start: selection.start - n,
                    end: selection.end - n,
                    wid: selection.wid,
                };
                self.selections.set(i, moved);
            }
            proof {
                assert(p(old_sels[i as int]) == (selection.start < n));
                assert(shifted[i as int] == shift_down(old_sels[i as int], n - 1, n as int));
                lemma_indices_step(old_sels, p, i as int, before, to_remove@);
            }
            i = i + 1;
        }
        proof {
            assert(self.selections@ =~= shifted);
            lemma_indices_where(old_sels, p, old_sels.len() as int);
        }
        Self::remove_listed(&mut self.selections, &to_remove);
        proof {
            let idxs = indices_where(old_sels, p, old_sels.len() as int);
            assert forall|a: int, b: int|
                0 <= a < shifted.len() && 0 <= b < shifted.len() && a != b && not_listed(idxs, a) && not_listed(idxs, b) implies !spec_sel_intersect(
                #[trigger] shifted[a],
                #[trigger] shifted[b],
            ) by {
                assert(!spec_sel_intersect(old_sels[a], old_sels[b]));
                assert(!p(old_sels[a]));
                assert(!p(old_sels[b]));
            }
            assert forall|a: int|
                0 <= a < shifted.len() && not_listed(idxs, a)
                    implies #[trigger] shifted[a].start <= shifted[a].end <= len - n by {
                assert(!p(old_sels[a]));
            }
            lemma_remove_keeps_wf(shifted, idxs, len - n);
        }
        let rest_symbols = self.symbols.split_off(n);
        self.symbols = rest_symbols;
        let rest_gaps = self.gaps.split_off(n);
        self.gaps = rest_gaps;
        if !self.gaps.is_empty() {
            self.gaps.set(0, Gap::Begin);
        }
        proof {
            if old(self).no_break_in_selections() {
                lemma_remove_front_breaks_outside(old(self).spec_gaps(), old(self).spec_selections(), n as int);
            }
        }
        proof {
            if old(self).selections_nonempty() {
                lemma_edits_keep_sels_nonempty(old(self).spec_selections(), old(self).spec_symbols().len() as int, n as int);
            }
        }
    }

    #[verifier::loop_isolation(false)]
    pub fn remove(&mut self, index: usize)
        requires
            old(self).wf(),
            index < old(self).spec_symbols().len(),
        ensures
            final(self).wf(),
            final(self).spec_symbols() == old(self).spec_symbols().remove(index as int),
            final(self).spec_gaps() == with_begin(old(self).spec_gaps().remove(index as int)),
            final(self).spec_selections() == spec_remove_selections(
                old(self).spec_selections(),
                index as int,
            ),
            old(self).no_break_in_selections() ==> final(self).no_break_in_selections(),
            old(self).selections_nonempty() ==> final(self).selections_nonempty(),
    {
        let ghost old_sels = self.selections@;
        let ghost len: int = self.symbols@.len() as int;
        let ghost p = |s: Selection| s.start <= index < s.end;
        let ghost shifted = old_sels.map_values(|s: Selection| shift_down(s, index as int, 1));
        let mut to_remove: Vec<usize> = Vec::new();
        let mut i: usize = 0;
        while i < self.selections.len()
            invariant
                0 <= i <= self.selections@.len(),
                self.selections@.len() == old_sels.len(),
                self.symbols@ == old(self).symbols@,
                self.gaps@ == old(self).gaps@,
                selections_wf(old_sels, len as int),
                forall|k: int| 0 <= k < i ==> #[trigger] self.selections@[k] == shifted[k],
                forall|k: int|
                    i <= k < old_sels.len() ==> #[trigger] self.selections@[k] == old_sels[k],
                usize_seq_as_int(to_remove@) == indices_where(old_sels, p, i as int),
            decreases old_sels.len() - i,
        {
            let selection = self.selections[i];
                let ghost before = to_remove@;
            proof {
                assert(old_sels[i as int] == selection);
                assert(selection.start <= selection.end <= len);
            }
            if selection.start <= index {
                if index < selection.end {
                    to_remove.push(i);
                }
            } else {
                let moved = Selection {
                    start: selection.start - 1,
                    end: selection.end - 1,
                    wid: selection.wid,
                };
                self.selections.set(i, moved);
            }
            proof {
                assert(p(old_sels[i as int]) == (selection.start <= index < selection.end));
                assert(shifted[i as int] == shift_down(old_sels[i as int], index as int, 1));
                lemma_indices_step(old_sels, p, i as int, before, to_remove@);
            }
            i = i + 1;
        }
        proof {
            assert(self.selections@ =~= shifted);
            lemma_indices_where(old_sels, p, old_sels.len() as int);
        }
        Self::remove_listed(&mut self.selections, &to_remove);
        proof {
            let idxs = indices_where(old_sels, p, old_sels.len() as int);
            assert forall|a: int, b: int|
                0 <= a < shifted.len() && 0 <= b < shifted.len() && a != b && not_listed(idxs, a) && not_listed(idxs, b) implies !spec_sel_intersect(
                #[trigger] shifted[a],
                #[trigger] shifted[b],
            ) by {
                assert(!spec_sel_intersect(old_sels[a], old_sels[b]));
                assert(!p(old_sels[a]));
                assert(!p(old_sels[b]));
            }
            assert forall|a: int|
                0 <= a < shifted.len() && not_listed(idxs, a)
                    implies #[trigger] shifted[a].start <= shifted[a].end <= len - 1 by {
                assert(!p(old_sels[a]));
            }
            lemma_remove_keeps_wf(shifted, idxs, len - 1);
        }
        self.symbols.remove(index);
        self.gaps.remove(index);
        if !self.gaps.is_empty() {
            self.gaps.set(0, Gap::Begin);
        }
        proof {
            if old(self).no_break_in_selections() {
                lemma_remove_breaks_outside(old(self).spec_gaps(), old(self).spec_selections(), index as int);
            }
        }
        proof {
            if old(self).selections_nonempty() {
                lemma_edits_keep_sels_nonempty(old(self).spec_selections(), old(self).spec_symbols().len() as int, index as int);
            }
        }
    }

    pub fn clear(&mut self)
        ensures
            final(self).wf(),
            final(self).spec_symbols() == Seq::<Symbol>::empty(),
            final(self).spec_gaps() == Seq::<Gap>::empty(),
            final(self).spec_selections() == Seq::<Selection>::empty(),
            final(self).no_break_in_selections(),
            final(self).selections_nonempty(),
    {
        self.symbols.clear();
        self.gaps.clear();
        self.selections.clear();
    }
}

/// In a strictly increasing list of positions below `n`, the entry at `k`
/// leaves room for the entries after it.
pub proof fn lemma_increasing_room(idxs: Seq<int>, n: int, k: int)
    requires
        strictly_increasing_below(idxs, n),
        0 <= k < idxs.len(),
    ensures
        idxs[k] <= n - 1 - (idxs.len() - 1 - k),
    decreases idxs.len() - k,
{
    if k + 1 < idxs.len() {
        lemma_increasing_room(idxs, n, k + 1);
        assert(idxs[k] < idxs[k + 1]);
    }
}


/// Whether `glue_fn` merges `interval` into the last interval of `acc`: both are
/// phrases and the user glued the gap between them.
pub open spec fn spec_glues(com: Composition, acc: Seq<Interval>, interval: Interval) -> bool {
    &&& acc.len() > 0
    &&& acc.last().is_phrase
    &&& interval.is_phrase
    &&& acc.last().end < com.spec_gaps().len()
    &&& com.spec_gaps()[acc.last().end as int] == Gap::Glue
}

/// Appends a converted interval, joining it with the previous phrase when
/// the user glued the gap between them.
pub fn glue_fn(com: &Composition, acc: Vec<Interval>, interval: Interval) -> (r: Vec<Interval>)
    requires
        com.wf(),
    ensures
        spec_glues(*com, acc@, interval) ==> {
            &&& r@.len() == acc@.len()
            &&& r@.drop_last() == acc@.drop_last()
            &&& r@.last().start == acc@.last().start
            &&& r@.last().end == interval.end
            &&& r@.last().is_phrase
            &&& r@.last().text@ == acc@.last().text@ + interval.text@
        },
        !spec_glues(*com, acc@, interval) ==> r@ == acc@.push(interval),
{
    let mut acc = acc;
    if acc.len() == 0 {
        acc.push(interval);
        return acc;
    }
    let n = acc.len();
    let last_is_phrase = acc[n - 1].is_phrase;
    let last_end = acc[n - 1].end;
    if !last_is_phrase || !interval.is_phrase {
        acc.push(interval);
        return acc;
    }
    match com.gap(last_end) {
        Some(Gap::Glue) => {
            let ghost before = acc@;
            let last = acc.pop().unwrap();
            let mut phrase = last.text;
            phrase.append(interval.text.as_str());
            acc.push(Interval { start: last.start, end: interval.end, is_phrase: true, text: phrase });
            proof {
                assert(acc@.drop_last() =~= before.drop_last());
            }
            acc
        },
        _ => {
            acc.push(interval);
            acc
        },
    }
}

/// Inserting a symbol and then removing it gives back the symbols.
pub proof fn lemma_insert_remove_symbols(symbols: Seq<Symbol>, index: int, sym: Symbol)
    requires
        0 <= index <= symbols.len(),
    ensures
        symbols.insert(index, sym).remove(index) == symbols,
{
    assert(symbols.insert(index, sym).remove(index) =~= symbols);
}

} // verus!
