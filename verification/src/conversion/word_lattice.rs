//! The spans of a composition that a word lattice is built from.
//!
//! For every span of at most [`MAX_PHRASE_LEN`] symbols the composition
//! decides what may stand there: the character itself, a word the user
//! selected, nothing at all, or whatever the dictionary holds for the span's
//! syllables.

use crate::conversion::{spec_ranges_intersect, Composition, Gap, Selection, Symbol};
use crate::model::WordId;
use crate::zhuyin::{Syllable, MAX_PHRASE_LEN};
use vstd::prelude::*;
use vstd::string::StrSliceExecFns;

verus! {

/// What the word lattice may hold for one span of the composition.
#[derive(Debug, Clone)]
pub enum SpanWords {
    /// A lone character stands for itself.
    Grapheme(char),
    /// No word may cover the span.
    Nothing,
    /// The user selected this word for exactly this span.
    Selected(WordId),
    /// The span is free: its words are those that the dictionary holds for
    /// these syllables.
    Lookup(Vec<Syllable>),
}

/// Whether a character (not a syllable) stands in `[start, end)`.
pub open spec fn span_has_char(syms: Seq<Symbol>, start: int, end: int) -> bool {
    exists|i: int| start <= i < end && (#[trigger] syms[i]) is Grapheme
}

/// Whether the user marked a break strictly inside `[start, end)`.
pub open spec fn span_has_break(gaps: Seq<Gap>, start: int, end: int) -> bool {
    exists|i: int| start < i < end && #[trigger] gaps[i] == Gap::Break
}

/// Whether a selection bears on the span: it is the span, or overlaps it.
pub open spec fn sel_touches(s: Selection, start: int, end: int) -> bool {
    (s.start == start && s.end == end) || spec_ranges_intersect(
        s.start as int,
        s.end as int,
        start,
        end,
    )
}

/// Whether `i` is the first selection that bears on the span.
pub open spec fn first_touching(sels: Seq<Selection>, start: int, end: int, i: int) -> bool {
    &&& 0 <= i < sels.len()
    &&& sel_touches(sels[i], start, end)
    &&& forall|j: int| 0 <= j < i ==> !sel_touches(#[trigger] sels[j], start, end)
}

/// The syllables of a span that holds no character.
pub open spec fn span_syllables(syms: Seq<Symbol>, start: int, end: int) -> Seq<Syllable> {
    syms.subrange(start, end).map_values(|s: Symbol| s->Syllable_0)
}

/// What may stand in `[start, end)`, in the order in which the composition
/// decides it: a lone character is itself; a span with a character, with a
/// break inside, or overlapping a selection that is not exactly the span holds
/// nothing; a selected span holds its word; any other span holds what the
/// dictionary has for its syllables.
pub open spec fn span_words_match(w: SpanWords, com: Composition, start: int, end: int) -> bool {
    let syms = com.spec_symbols();
    let sels = com.spec_selections();
    if end == start + 1 && syms[start] is Grapheme {
        w == SpanWords::Grapheme(syms[start]->Grapheme_0)
    } else if span_has_char(syms, start, end) || span_has_break(com.spec_gaps(), start, end) {
        w is Nothing
    } else if exists|i: int| first_touching(sels, start, end, i) {
        let i = choose|i: int| first_touching(sels, start, end, i);
        if sels[i].start == start && sels[i].end == end {
            w == SpanWords::Selected(sels[i].wid)
        } else {
            w is Nothing
        }
    } else {
        w matches SpanWords::Lookup(v) && v@ == span_syllables(syms, start, end)
    }
}

/// Decides what may stand in the span `[start, end)` of the composition.
pub fn span_words(com: &Composition, start: usize, end: usize) -> (r: SpanWords)
    requires
        com.wf(),
        start < end <= com.spec_symbols().len(),
    ensures
        span_words_match(r, *com, start as int, end as int),
{
    let symbols = com.symbols();
    if end - start == 1 {
        if let Symbol::Grapheme(c) = symbols[start] {
            return SpanWords::Grapheme(c);
        }
    }
    let mut i: usize = start;
    while i < end
        invariant
            start <= i <= end,
            end <= symbols@.len(),
            symbols@ == com.spec_symbols(),
            !(end == start + 1 && symbols@[start as int] is Grapheme),
            forall|j: int| start <= j < i ==> (#[trigger] symbols@[j]) is Syllable,
        decreases end - i,
    {
        if symbols[i].is_char() {
            assert(span_has_char(com.spec_symbols(), start as int, end as int));
            return SpanWords::Nothing;
        }
        i += 1;
    }
    let mut k: usize = start + 1;
    while k < end
        invariant
            start < k <= end,
            end <= com.spec_gaps().len(),
            com.wf(),
            !(end == start + 1 && com.spec_symbols()[start as int] is Grapheme),
            !span_has_char(com.spec_symbols(), start as int, end as int),
            forall|j: int| start < j < k ==> #[trigger] com.spec_gaps()[j] != Gap::Break,
        decreases end - k,
    {
        if let Some(Gap::Break) = com.gap(k) {
            assert(span_has_break(com.spec_gaps(), start as int, end as int));
            return SpanWords::Nothing;
        }
        k += 1;
    }
    let sels = com.selections();
    let mut s: usize = 0;
    while s < sels.len()
        invariant
            s <= sels@.len(),
            sels@ == com.spec_selections(),
            start < end,
            !(end == start + 1 && com.spec_symbols()[start as int] is Grapheme),
            !span_has_char(com.spec_symbols(), start as int, end as int),
            !span_has_break(com.spec_gaps(), start as int, end as int),
            forall|j: int| 0 <= j < s ==> !sel_touches(#[trigger] sels@[j], start as int, end as int),
        decreases sels@.len() - s,
    {
        let sel = sels[s];
        if sel.start == start && sel.end == end {
            assert(first_touching(sels@, start as int, end as int, s as int));
            return SpanWords::Selected(sel.wid);
        }
        if sel.intersect_range(start, end) {
            assert(first_touching(sels@, start as int, end as int, s as int));
            return SpanWords::Nothing;
        }
        s += 1;
    }
    let mut syllables: Vec<Syllable> = Vec::new();
    let mut i: usize = start;
    while i < end
        invariant
            start <= i <= end,
            end <= symbols@.len(),
            symbols@ == com.spec_symbols(),
            forall|j: int| start <= j < end ==> (#[trigger] symbols@[j]) is Syllable,
            syllables@ == span_syllables(symbols@, start as int, i as int),
        decreases end - i,
    {
        if let Symbol::Syllable(syl) = symbols[i] {
            syllables.push(syl);
        }
        proof {
            assert(span_syllables(symbols@, start as int, i + 1) =~= span_syllables(
                symbols@,
                start as int,
                i as int,
            ).push(symbols@[i as int]->Syllable_0));
        }
        i += 1;
    }
    proof {
        assert forall|j: int| start <= j < end implies !((#[trigger] com.spec_symbols()[j]) is Grapheme) by {
            assert(symbols@[j] is Syllable);
        }
        assert(!(exists|i: int| first_touching(sels@, start as int, end as int, i)));
    }
    SpanWords::Lookup(syllables)
}

/// For every start position, what may stand in each span that begins there
/// and holds at most [`MAX_PHRASE_LEN`] symbols: `r[start][k]` is the span
/// `[start, start + k + 1)`.
pub fn lattice_spans(com: &Composition) -> (r: Vec<Vec<SpanWords>>)
    requires
        com.wf(),
    ensures
        r@.len() == com.spec_symbols().len(),
        forall|s: int|
            0 <= s < r@.len() ==> #[trigger] r@[s]@.len() == (if com.spec_symbols().len() - s
                < MAX_PHRASE_LEN {
                com.spec_symbols().len() - s
            } else {
                MAX_PHRASE_LEN as int
            }),
        forall|s: int, k: int|
            0 <= s < r@.len() && 0 <= k < r@[s]@.len() ==> span_words_match(
                #[trigger] r@[s]@[k],
                *com,
                s,
                s + k + 1,
            ),
{
    let len = com.len();
    let mut rows: Vec<Vec<SpanWords>> = Vec::new();
    let mut start: usize = 0;
    while start < len
        invariant
            start <= len,
            len == com.spec_symbols().len(),
            com.wf(),
            rows@.len() == start,
            forall|s: int|
                0 <= s < start ==> #[trigger] rows@[s]@.len() == (if len - s < MAX_PHRASE_LEN {
                    len - s
                } else {
                    MAX_PHRASE_LEN as int
                }),
            forall|s: int, k: int|
                0 <= s < start && 0 <= k < rows@[s]@.len() ==> span_words_match(
                    #[trigger] rows@[s]@[k],
                    *com,
                    s,
                    s + k + 1,
                ),
        decreases len - start,
    {
        let max_end = if len - start < MAX_PHRASE_LEN {
            len
        } else {
            start + MAX_PHRASE_LEN
        };
        let mut row: Vec<SpanWords> = Vec::new();
        let mut end: usize = start;
        while end < max_end
            invariant
                start <= end <= max_end,
                max_end <= len,
                max_end - start == (if len - start < MAX_PHRASE_LEN {
                    len - start
                } else {
                    MAX_PHRASE_LEN as int
                }),
                len == com.spec_symbols().len(),
                com.wf(),
                row@.len() == end - start,
                forall|k: int|
                    0 <= k < row@.len() ==> span_words_match(
                        #[trigger] row@[k],
                        *com,
                        start as int,
                        start + k + 1,
                    ),
            decreases max_end - end,
        {
            end += 1;
            row.push(span_words(com, start, end));
        }
        rows.push(row);
        start += 1;
    }
    rows
}

/// For every character position of a text, the pieces of the text that begin
/// there and hold at most [`MAX_PHRASE_LEN`] characters: `r[start][k]` is the
/// piece `[start, start + k + 1)`.
pub fn str_spans(s: &str) -> (r: Vec<Vec<String>>)
    ensures
        r@.len() == s@.len(),
        forall|i: int|
            0 <= i < r@.len() ==> #[trigger] r@[i]@.len() == (if s@.len() - i < MAX_PHRASE_LEN {
                s@.len() - i
            } else {
                MAX_PHRASE_LEN as int
            }),
        forall|i: int, k: int|
            0 <= i < r@.len() && 0 <= k < r@[i]@.len() ==> (#[trigger] r@[i]@[k])@ == s@.subrange(
                i,
                i + k + 1,
            ),
{
    let len = s.unicode_len();
    let mut rows: Vec<Vec<String>> = Vec::new();
    let mut start: usize = 0;
    while start < len
        invariant
            start <= len,
            len == s@.len(),
            rows@.len() == start,
            forall|i: int|
                0 <= i < start ==> #[trigger] rows@[i]@.len() == (if len - i < MAX_PHRASE_LEN {
                    len - i
                } else {
                    MAX_PHRASE_LEN as int
                }),
            forall|i: int, k: int|
                0 <= i < start && 0 <= k < rows@[i]@.len() ==> (#[trigger] rows@[i]@[k])@
                    == s@.subrange(i, i + k + 1),
        decreases len - start,
    {
        let max_end = if len - start < MAX_PHRASE_LEN {
            len
        } else {
            start + MAX_PHRASE_LEN
        };
        let mut row: Vec<String> = Vec::new();
        let mut end: usize = start;
        while end < max_end
            invariant
                start <= end <= max_end <= len,
                len == s@.len(),
                max_end - start == (if len - start < MAX_PHRASE_LEN {
                    len - start
                } else {
                    MAX_PHRASE_LEN as int
                }),
                row@.len() == end - start,
                forall|k: int|
                    0 <= k < row@.len() ==> (#[trigger] row@[k])@ == s@.subrange(
                        start as int,
                        start + k + 1,
                    ),
            decreases max_end - end,
        {
            end += 1;
            row.push(String::from_str(s.substring_char(start, end)));
        }
        rows.push(row);
        start += 1;
    }
    rows
}

} // verus!
