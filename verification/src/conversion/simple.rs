//! The simple conversion: every symbol on its own, the user's selections kept.
//!
//! A symbol that no selection covers becomes an interval of one: a character
//! stands for itself; a syllable gives the first word that the dictionary
//! has for it, or its spelling when there is none. Each selection whose word
//! the table knows becomes an interval of its own. The intervals come ordered
//! by start, the symbol's before the selections that start at the same place.

use crate::conversion::chewing::{interval_view, IntervalView};
use crate::conversion::{spec_ranges_intersect, Composition, Interval, Selection, Symbol};
use crate::dictionary::string_table::StringTable;
use crate::model::{spec_word_orig, WordId, WordOrig};
use vstd::prelude::*;

verus! {

/// Whether a selection covers position `i`.
pub open spec fn covered(sels: Seq<Selection>, i: int) -> bool {
    exists|k: int|
        0 <= k < sels.len() && spec_ranges_intersect(
            (#[trigger] sels[k]).start as int,
            sels[k].end as int,
            i,
            i + 1,
        )
}

/// The interval of the symbol at `i`: the character itself, or the text of
/// the syllable's first word (empty when the table has no text for it), or
/// the syllable's spelling when there is no word.
pub open spec fn symbol_interval(
    sym: Symbol,
    i: int,
    table: StringTable,
    first: Option<WordId>,
    spelled: Seq<char>,
) -> IntervalView {
    match sym {
        Symbol::Grapheme(c) => (i, i + 1, false, seq![c]),
        Symbol::Syllable(_) => (
            i,
            i + 1,
            true,
            match first {
                Some(w) => match table.spec_text(w) {
                    Some(t) => t,
                    None => Seq::empty(),
                },
                None => spelled,
            },
        ),
    }
}

/// The intervals of the selections among the first `k` that start at `i`
/// and whose word the table knows, in selection order.
pub open spec fn selections_at(sels: Seq<Selection>, table: StringTable, i: int, k: int) -> Seq<
    IntervalView,
>
    decreases k,
{
    if k <= 0 {
        Seq::empty()
    } else {
        let before = selections_at(sels, table, i, k - 1);
        let s = sels[k - 1];
        if s.start == i && table.spec_text(s.wid) is Some {
            before.push((s.start as int, s.end as int, true, table.spec_text(s.wid)->0))
        } else {
            before
        }
    }
}

/// The intervals that start at `i`.
pub open spec fn simple_at(
    com: Composition,
    table: StringTable,
    firsts: Seq<Option<WordId>>,
    spelled: Seq<Seq<char>>,
    i: int,
) -> Seq<IntervalView> {
    let sels = com.spec_selections();
    (if i < com.spec_symbols().len() && !covered(sels, i) {
        seq![symbol_interval(com.spec_symbols()[i], i, table, firsts[i], spelled[i])]
    } else {
        Seq::empty()
    }) + selections_at(sels, table, i, sels.len() as int)
}

/// The intervals that start before `n`.
pub open spec fn simple_upto(
    com: Composition,
    table: StringTable,
    firsts: Seq<Option<WordId>>,
    spelled: Seq<Seq<char>>,
    n: int,
) -> Seq<IntervalView>
    decreases n,
{
    if n <= 0 {
        Seq::empty()
    } else {
        simple_upto(com, table, firsts, spelled, n - 1) + simple_at(com, table, firsts, spelled, n - 1)
    }
}

/// Whether every word that the conversion reads names a static or a user
/// word.
pub open spec fn simple_words_known(com: Composition, firsts: Seq<Option<WordId>>) -> bool {
    &&& forall|i: int|
        0 <= i < firsts.len() ==> (#[trigger] firsts[i] matches Some(w) ==> spec_word_orig(w.0)
            != WordOrig::Unknown)
    &&& forall|k: int|
        0 <= k < com.spec_selections().len() ==> spec_word_orig(
            (#[trigger] com.spec_selections()[k]).wid.0,
        ) != WordOrig::Unknown
}

/// The intervals of the simple conversion. `firsts[i]` is the first word
/// that the dictionary has for the syllable at `i`, and `spelled[i]` the
/// syllable's spelling.
pub fn simple_intervals(
    com: &Composition,
    table: &StringTable,
    firsts: &Vec<Option<WordId>>,
    spelled: &Vec<String>,
) -> (r: Vec<Interval>)
    requires
        com.wf(),
        table.wf(),
        com.spec_symbols().len() < usize::MAX,
        firsts@.len() == com.spec_symbols().len(),
        spelled@.len() == com.spec_symbols().len(),
        simple_words_known(*com, firsts@),
    ensures
        r@.map_values(|x: Interval| interval_view(x)) == simple_upto(
            *com,
            *table,
            firsts@,
            spelled@.map_values(|s: String| s@),
            com.spec_symbols().len() as int + 1,
        ),
{
    let ghost sp = spelled@.map_values(|s: String| s@);
    let symbols = com.symbols();
    let sels = com.selections();
    let len = symbols.len();
    let mut out: Vec<Interval> = Vec::new();
    proof {
        assert(out@.map_values(|x: Interval| interval_view(x)) =~= Seq::<IntervalView>::empty());
    }
    let mut i: usize = 0;
    while i <= len
        invariant
            com.wf(),
            table.wf(),
            symbols@ == com.spec_symbols(),
            sels@ == com.spec_selections(),
            len == symbols@.len(),
            len < usize::MAX,
            firsts@.len() == len,
            spelled@.len() == len,
            sp == spelled@.map_values(|s: String| s@),
            simple_words_known(*com, firsts@),
            i <= len + 1,
            out@.map_values(|x: Interval| interval_view(x)) == simple_upto(*com, *table, firsts@, sp, i as int),
        decreases len + 1 - i,
    {
        let ghost before = out@.map_values(|x: Interval| interval_view(x));
        // the symbol at i, unless a selection covers it
        let mut piece: Vec<Interval> = Vec::new();
        if i < len {
            let mut k: usize = 0;
            let mut hit = false;
            while k < sels.len()
                invariant
                    k <= sels@.len(),
                    i < len,
                    hit <==> exists|m: int|
                        0 <= m < k && spec_ranges_intersect(
                            (#[trigger] sels@[m]).start as int,
                            sels@[m].end as int,
                            i as int,
                            i + 1,
                        ),
                decreases sels@.len() - k,
            {
                if sels[k].intersect_range(i, i + 1) {
                    hit = true;
                }
                k += 1;
            }
            if !hit {
                let text = match symbols[i] {
                    Symbol::Grapheme(c) => crate::conversion::chewing::char_to_string(c),
                    Symbol::Syllable(_) => match firsts[i] {
                        Some(w) => match table.get_text(w) {
                            Some(t) => t,
                            None => String::new(),
                        },
                        None => spelled[i].clone(),
                    },
                };
                let is_phrase = symbols[i].is_syllable();
                piece.push(Interval { start: i, end: i + 1, is_phrase, text });
                proof {
                    assert(interval_view(piece@[0]) == symbol_interval(
                        symbols@[i as int],
                        i as int,
                        *table,
                        firsts@[i as int],
                        sp[i as int],
                    ));
                }
            }
        }
        let ghost sym_part = piece@.map_values(|x: Interval| interval_view(x));
        proof {
            let sels_s = com.spec_selections();
            if i < len && !covered(sels_s, i as int) {
                assert(sym_part =~= seq![symbol_interval(symbols@[i as int], i as int, *table, firsts@[i as int], sp[i as int])]);
            } else {
                if i < len {
                    let m = choose|m: int|
                        0 <= m < sels_s.len() && spec_ranges_intersect(
                            (#[trigger] sels_s[m]).start as int,
                            sels_s[m].end as int,
                            i as int,
                            i + 1,
                        );
                }
                assert(sym_part =~= Seq::<IntervalView>::empty());
            }
        }
        // the selections that start at i
        let mut k: usize = 0;
        while k < sels.len()
            invariant
                k <= sels@.len(),
                sels@ == com.spec_selections(),
                table.wf(),
                simple_words_known(*com, firsts@),
                piece@.map_values(|x: Interval| interval_view(x)) == sym_part + selections_at(
                    sels@,
                    *table,
                    i as int,
                    k as int,
                ),
            decreases sels@.len() - k,
        {
            let s = sels[k];
            if s.start == i {
                assert(spec_word_orig(sels@[k as int].wid.0) != WordOrig::Unknown);
                if let Some(t) = table.get_text(s.wid) {
                    let ghost pv = piece@;
                    piece.push(Interval { start: s.start, end: s.end, is_phrase: true, text: t });
                    proof {
                        assert(piece@.map_values(|x: Interval| interval_view(x)) =~= pv.map_values(
                            |x: Interval| interval_view(x),
                        ).push(interval_view(piece@[pv.len() as int])));
                    }
                }
            }
            k += 1;
        }
        let ghost pv = piece@.map_values(|x: Interval| interval_view(x));
        out.append(&mut piece);
        proof {
            assert(out@.map_values(|x: Interval| interval_view(x)) =~= before + pv);
            assert(simple_at(*com, *table, firsts@, sp, i as int) == sym_part + selections_at(
                sels@,
                *table,
                i as int,
                sels@.len() as int,
            ));
        }
        i += 1;
    }
    out
}

} // verus!
