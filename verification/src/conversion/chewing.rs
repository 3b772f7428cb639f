//! Turning a decoded path of candidates into the intervals of the output.
//!
//! Each candidate becomes an interval as long as the span of the buffer it
//! was decoded from, starting where the previous one ended; phrases that the
//! user glued together are then joined into one interval. A path whose spans
//! add up to the buffer covers the whole input.

use crate::conversion::{glue_fn, spec_glues, Composition, Gap, Interval};
use crate::dictionary::string_table::StringTable;
use crate::model::{spec_word_orig, WordId, WordOrig};
use vstd::prelude::*;

verus! {

/// `char::to_string`: the one-character string.
#[verifier::external_body]
pub(crate) fn char_to_string(ch: char) -> (s: String)
    ensures
        s@ == seq![ch],
{
    ch.to_string()
}

/// The part of a decoded candidate that the output reads.
#[derive(Debug, Clone, Copy, PartialEq, Eq, Structural)]
pub enum Choice {
    /// Nothing could be decoded here.
    Unknown,
    /// A word of the dictionaries.
    Word(WordId),
    /// A character that stands for itself.
    Grapheme(char),
}

/// The text shown for an unknown word.
pub open spec fn unknown_text() -> Seq<char> {
    seq!['<', 'u', 'n', 'k', '>']
}

/// Whether every word among the choices names a static or a user word.
pub open spec fn choices_known(cands: Seq<Choice>) -> bool {
    forall|i: int|
        0 <= i < cands.len() ==> (#[trigger] cands[i] matches Choice::Word(w) ==> spec_word_orig(
            w.0,
        ) != WordOrig::Unknown)
}

/// The text of a choice and whether it is a phrase: a word's text from the
/// table (`<unk>` where the table has none), a character itself, `<unk>` for
/// nothing.
pub open spec fn choice_text(table: StringTable, c: Choice) -> (Seq<char>, bool) {
    match c {
        Choice::Unknown => (unknown_text(), false),
        Choice::Word(wid) => (
            match table.spec_text(wid) {
                Some(t) => t,
                None => unknown_text(),
            },
            true,
        ),
        Choice::Grapheme(ch) => (seq![ch], false),
    }
}

/// An interval as plain values: start, end, phrase or not, text.
pub type IntervalView = (int, int, bool, Seq<char>);

pub open spec fn interval_view(i: Interval) -> IntervalView {
    (i.start as int, i.end as int, i.is_phrase, i.text@)
}

/// A piece of output as plain values: its text, whether it is a phrase, and
/// how many symbols of the buffer it stands for.
pub type LayoutItem = (Seq<char>, bool, int);

pub open spec fn layout_item_view(i: (String, bool, usize)) -> LayoutItem {
    (i.0@, i.1, i.2 as int)
}

/// Where the pieces end: the sum of their lengths.
pub open spec fn layout_end(items: Seq<LayoutItem>) -> int
    decreases items.len(),
{
    if items.len() == 0 {
        0
    } else {
        layout_end(items.drop_last()) + items.last().2
    }
}

/// One interval per piece, back to back from offset 0.
pub open spec fn raw_layout(items: Seq<LayoutItem>) -> Seq<IntervalView>
    decreases items.len(),
{
    if items.len() == 0 {
        Seq::empty()
    } else {
        let (text, is_phrase, n) = items.last();
        let start = layout_end(items.drop_last());
        raw_layout(items.drop_last()).push((start, start + n, is_phrase, text))
    }
}

/// The piece that a decoded candidate gives: its text, whether it is a
/// phrase, and the number of symbols it was decoded from.
pub open spec fn choice_item(table: StringTable, c: (Choice, usize)) -> LayoutItem {
    let (text, is_phrase) = choice_text(table, c.0);
    (text, is_phrase, c.1 as int)
}

pub open spec fn choice_items(table: StringTable, cands: Seq<(Choice, usize)>) -> Seq<LayoutItem> {
    cands.map_values(|c: (Choice, usize)| choice_item(table, c))
}

/// The number of symbols the candidates were decoded from.
pub open spec fn choices_span(cands: Seq<(Choice, usize)>) -> int
    decreases cands.len(),
{
    if cands.len() == 0 {
        0
    } else {
        choices_span(cands.drop_last()) + cands.last().1
    }
}

/// Appends an interval, joining it with the last one when both are phrases
/// and the gap where the last one ends is glued.
pub open spec fn glue_view(com: Composition, acc: Seq<IntervalView>, x: IntervalView) -> Seq<
    IntervalView,
> {
    if acc.len() > 0 && acc.last().2 && x.2 && 0 <= acc.last().1 < com.spec_gaps().len()
        && com.spec_gaps()[acc.last().1] == Gap::Glue {
        acc.drop_last().push((acc.last().0, x.1, true, acc.last().3 + x.3))
    } else {
        acc.push(x)
    }
}

/// The intervals after gluing, left to right.
pub open spec fn glued(com: Composition, xs: Seq<IntervalView>) -> Seq<IntervalView>
    decreases xs.len(),
{
    if xs.len() == 0 {
        Seq::empty()
    } else {
        glue_view(com, glued(com, xs.drop_last()), xs.last())
    }
}

/// Whether intervals lie back to back from offset 0 up to `end`.
pub open spec fn tiles(xs: Seq<IntervalView>, end: int) -> bool {
    &&& xs.len() == 0 ==> end == 0
    &&& xs.len() > 0 ==> xs[0].0 == 0 && xs.last().1 == end
    &&& forall|i: int| 0 <= i < xs.len() - 1 ==> #[trigger] xs[i].1 == xs[i + 1].0
    &&& forall|i: int| 0 <= i < xs.len() ==> #[trigger] xs[i].0 <= xs[i].1
}

/// When the pieces stand for as many symbols as the buffer holds, the output
/// intervals cover the whole input, back to back in order.
pub proof fn lemma_intervals_cover(com: Composition, items: Seq<LayoutItem>)
    requires
        forall|i: int| 0 <= i < items.len() ==> (#[trigger] items[i]).2 >= 0,
        layout_end(items) == com.spec_symbols().len(),
    ensures
        tiles(glued(com, raw_layout(items)), com.spec_symbols().len() as int),
{
    lemma_intervals_tile(com, items);
}

/// The output intervals lie back to back from offset 0 to the end of the last
/// piece, whatever the user glued.
pub proof fn lemma_intervals_tile(com: Composition, items: Seq<LayoutItem>)
    requires
        forall|i: int| 0 <= i < items.len() ==> (#[trigger] items[i]).2 >= 0,
    ensures
        tiles(glued(com, raw_layout(items)), layout_end(items)),
    decreases items.len(),
{
    if items.len() > 0 {
        let c = items.drop_last();
        assert(forall|i: int| 0 <= i < c.len() ==> (#[trigger] c[i]) == items[i]);
        lemma_intervals_tile(com, c);
        let xs = raw_layout(items);
        assert(xs.drop_last() =~= raw_layout(c));
        let acc = glued(com, raw_layout(c));
        let x = xs.last();
        assert(items.last() == items[items.len() - 1]);
        let out = glue_view(com, acc, x);
        assert(out == glued(com, xs));
        if acc.len() > 0 && acc.last().2 && x.2 && 0 <= acc.last().1 < com.spec_gaps().len()
            && com.spec_gaps()[acc.last().1] == Gap::Glue {
            assert forall|i: int| 0 <= i < out.len() - 1 implies #[trigger] out[i].1 == out[i + 1].0 by {
                assert(out[i] == acc[i]);
                if i + 1 < out.len() - 1 {
                    assert(out[i + 1] == acc[i + 1]);
                }
            }
            assert forall|i: int| 0 <= i < out.len() implies #[trigger] out[i].0 <= out[i].1 by {
                if i < out.len() - 1 {
                    assert(out[i] == acc[i]);
                }
            }
        } else {
            assert forall|i: int| 0 <= i < out.len() - 1 implies #[trigger] out[i].1 == out[i + 1].0 by {
                assert(out[i] == acc[i]);
            }
            assert forall|i: int| 0 <= i < out.len() implies #[trigger] out[i].0 <= out[i].1 by {
                if i < out.len() - 1 {
                    assert(out[i] == acc[i]);
                }
            }
        }
    }
}

proof fn lemma_end_bound(items: Seq<LayoutItem>, i: int)
    requires
        0 <= i <= items.len(),
        forall|j: int| 0 <= j < items.len() ==> (#[trigger] items[j]).2 >= 0,
    ensures
        0 <= layout_end(items.take(i)) <= layout_end(items),
    decreases items.len(),
{
    if i < items.len() {
        assert(items.take(i) =~= items.drop_last().take(i));
        lemma_end_bound(items.drop_last(), i);
        assert(items.last() == items[items.len() - 1]);
    } else {
        assert(items.take(i) =~= items);
        if items.len() > 0 {
            lemma_end_bound(items.drop_last(), items.len() - 1);
            assert(items.drop_last().take(items.len() - 1) =~= items.drop_last());
            assert(items.last() == items[items.len() - 1]);
        }
    }
}

/// Lays the pieces out back to back from offset 0, each as long as its given
/// length, and joins phrases that the user glued.
pub fn layout_intervals(com: &Composition, items: &Vec<(String, bool, usize)>) -> (r: Vec<Interval>)
    requires
        com.wf(),
        layout_end(items@.map_values(|i: (String, bool, usize)| layout_item_view(i))) <= usize::MAX,
    ensures
        r@.map_values(|i: Interval| interval_view(i)) == glued(
            *com,
            raw_layout(items@.map_values(|i: (String, bool, usize)| layout_item_view(i))),
        ),
{
    let ghost all = items@.map_values(|i: (String, bool, usize)| layout_item_view(i));
    let mut acc: Vec<Interval> = Vec::new();
    let mut cursor: usize = 0;
    let mut k: usize = 0;
    while k < items.len()
        invariant
            k <= items@.len(),
            all == items@.map_values(|i: (String, bool, usize)| layout_item_view(i)),
            com.wf(),
            layout_end(all) <= usize::MAX,
            cursor == layout_end(all.take(k as int)),
            acc@.map_values(|i: Interval| interval_view(i)) == glued(
                *com,
                raw_layout(all.take(k as int)),
            ),
        decreases items@.len() - k,
    {
        let ghost pre = all.take(k as int);
        let ghost next = all.take(k + 1);
        proof {
            assert(next.drop_last() =~= pre);
            assert(next.last() == all[k as int]);
            assert forall|j: int| 0 <= j < all.len() implies (#[trigger] all[j]).2 >= 0 by {}
            lemma_end_bound(all, k + 1);
        }
        let text = items[k].0.clone();
        let is_phrase = items[k].1;
        let n = items[k].2;
        let end = cursor + n;
        let interval = Interval { start: cursor, end, is_phrase, text };
        let ghost before = acc@;
        acc = glue_fn(com, acc, interval);
        proof {
            let f = |i: Interval| interval_view(i);
            assert(before.map_values(f).len() == before.len());
            if before.len() > 0 {
                assert(before.map_values(f).last() == f(before.last()));
                assert(before.map_values(f).drop_last() =~= before.drop_last().map_values(f));
            }
            if spec_glues(*com, before, interval) {
                assert(acc@.map_values(f).last() == f(acc@.last()));
                assert(acc@.map_values(f) =~= glue_view(*com, before.map_values(f), f(interval)));
            } else {
                assert(acc@.map_values(f) =~= glue_view(*com, before.map_values(f), f(interval)));
            }
            let raw_next = raw_layout(next);
            assert(raw_next == raw_layout(pre).push(f(interval)));
            assert(raw_next.drop_last() =~= raw_layout(pre));
            assert(raw_next.last() == f(interval));
            assert(glued(*com, raw_layout(next)) == glue_view(
                *com,
                glued(*com, raw_layout(pre)),
                f(interval),
            ));
        }
        cursor = end;
        k += 1;
    }
    proof {
        assert(all.take(all.len() as int) =~= all);
    }
    acc
}

proof fn lemma_choices_span(table: StringTable, cands: Seq<(Choice, usize)>)
    ensures
        layout_end(choice_items(table, cands)) == choices_span(cands),
    decreases cands.len(),
{
    if cands.len() > 0 {
        lemma_choices_span(table, cands.drop_last());
        assert(choice_items(table, cands).drop_last() =~= choice_items(table, cands.drop_last()));
        assert(choice_items(table, cands).last() == choice_item(table, cands.last()));
    }
}

/// The intervals that a decoded path of candidates gives: one per candidate,
/// each as long as the span it was decoded from, then glued phrases joined.
/// When the spans add up to the buffer, the intervals cover the whole input.
pub fn choices_to_intervals(com: &Composition, table: &StringTable, cands: &Vec<(Choice, usize)>) -> (r: Vec<
    Interval,
>)
    requires
        com.wf(),
        table.wf(),
        choices_known(cands@.map_values(|c: (Choice, usize)| c.0)),
        choices_span(cands@) <= usize::MAX,
    ensures
        r@.map_values(|i: Interval| interval_view(i)) == glued(
            *com,
            raw_layout(choice_items(*table, cands@)),
        ),
        choices_span(cands@) == com.spec_symbols().len() ==> tiles(
            r@.map_values(|i: Interval| interval_view(i)),
            com.spec_symbols().len() as int,
        ),
{
    let ghost kinds = cands@.map_values(|c: (Choice, usize)| c.0);
    let mut items: Vec<(String, bool, usize)> = Vec::new();
    let mut k: usize = 0;
    while k < cands.len()
        invariant
            k <= cands@.len(),
            table.wf(),
            kinds == cands@.map_values(|c: (Choice, usize)| c.0),
            choices_known(kinds),
            items@.map_values(|i: (String, bool, usize)| layout_item_view(i)) == choice_items(
                *table,
                cands@.take(k as int),
            ),
        decreases cands@.len() - k,
    {
        let (choice, n) = cands[k];
        proof {
            assert(kinds[k as int] == choice);
        }
        let (text, is_phrase) = match choice {
            Choice::Unknown => ("<unk>".to_owned(), false),
            Choice::Word(wid) => match table.get_text(wid) {
                Some(t) => (t, true),
                None => ("<unk>".to_owned(), true),
            },
            Choice::Grapheme(ch) => (char_to_string(ch), false),
        };
        proof {
            reveal_strlit("<unk>");
            assert(text@ == choice_text(*table, choice).0);
            assert(is_phrase == choice_text(*table, choice).1);
        }
        let ghost before = items@;
        items.push((text, is_phrase, n));
        proof {
            let f = |i: (String, bool, usize)| layout_item_view(i);
            assert(items@.map_values(f) =~= before.map_values(f).push(f(items@[k as int])));
            assert(choice_items(*table, cands@.take(k + 1)) =~= choice_items(
                *table,
                cands@.take(k as int),
            ).push(choice_item(*table, cands@[k as int])));
        }
        k += 1;
    }
    proof {
        assert(cands@.take(cands@.len() as int) =~= cands@);
        lemma_choices_span(*table, cands@);
    }
    let r = layout_intervals(com, &items);
    proof {
        let all = choice_items(*table, cands@);
        assert forall|i: int| 0 <= i < all.len() implies (#[trigger] all[i]).2 >= 0 by {
            assert(all[i] == choice_item(*table, cands@[i]));
        }
        lemma_intervals_tile(*com, all);
    }
    r
}

} // verus!
