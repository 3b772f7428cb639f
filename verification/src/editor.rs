//! Editor options, errors, phrase learning and phrase selection.

use crate::conversion::{Composition, Gap, Interval, Symbol};
use crate::dictionary::LookupStrategy;
use crate::zhuyin::{Syllable, MAX_PHRASE_LEN};
use crate::user::dict::{entries_of, set_entries, spec_insert_entry, spec_lookup_records, UserDict};
use crate::dictionary::string_table::{spec_interned, spec_interns};
use vstd::prelude::*;
use vstd::string::StrSliceExecFns;

verus! {

#[derive(Debug, Clone, Copy, PartialEq, Eq, Structural)]
pub enum LanguageMode {
    Chinese,
    English,
}

#[derive(Debug, Clone, Copy, PartialEq, Eq, Structural)]
pub enum CharacterForm {
    Halfwidth,
    Fullwidth,
}

#[derive(Debug, Clone, Copy, PartialEq, Eq, Structural)]
pub enum UserPhraseAddDirection {
    Forward,
    Backward,
}

#[derive(Debug, Clone, Copy, PartialEq, Eq, Structural)]
pub enum ConversionEngineKind {
    SimpleEngine,
    ChewingEngine,
    FuzzyChewingEngine,
}

#[derive(Debug, Clone, Copy, PartialEq, Eq, Structural)]
pub struct EditorOptions {
    pub easy_symbol_input: bool,
    pub esc_clear_all_buffer: bool,
    pub space_is_select_key: bool,
    pub auto_shift_cursor: bool,
    pub phrase_choice_rearward: bool,
    pub disable_auto_learn_phrase: bool,
    pub auto_commit_threshold: usize,
    pub candidates_per_page: usize,
    pub language_mode: LanguageMode,
    pub character_form: CharacterForm,
    pub user_phrase_add_dir: UserPhraseAddDirection,
    pub conversion_engine: ConversionEngineKind,
    pub enable_fullwidth_toggle_key: bool,
    pub sort_candidates_by_frequency: bool,
    pub auto_snapshot_selections: bool,
}

/// The options an editor starts with.
pub open spec fn spec_default_options() -> EditorOptions {
    EditorOptions {
        easy_symbol_input: false,
        esc_clear_all_buffer: false,
        space_is_select_key: false,
        auto_shift_cursor: false,
        phrase_choice_rearward: false,
        disable_auto_learn_phrase: false,
        auto_commit_threshold: 39,
        candidates_per_page: 10,
        language_mode: LanguageMode::Chinese,
        character_form: CharacterForm::Halfwidth,
        user_phrase_add_dir: UserPhraseAddDirection::Forward,
        conversion_engine: ConversionEngineKind::ChewingEngine,
        enable_fullwidth_toggle_key: true,
        sort_candidates_by_frequency: false,
        auto_snapshot_selections: false,
    }
}

impl Default for EditorOptions {
    fn default() -> (r: Self)
        ensures
            r == spec_default_options(),
    {
        EditorOptions {
            easy_symbol_input: false,
            esc_clear_all_buffer: false,
            space_is_select_key: false,
            auto_shift_cursor: false,
            phrase_choice_rearward: false,
            disable_auto_learn_phrase: false,
            auto_commit_threshold: 39,
            candidates_per_page: 10,
            language_mode: LanguageMode::Chinese,
            character_form: CharacterForm::Halfwidth,
            user_phrase_add_dir: UserPhraseAddDirection::Forward,
            conversion_engine: ConversionEngineKind::ChewingEngine,
            enable_fullwidth_toggle_key: true,
            sort_candidates_by_frequency: false,
            auto_snapshot_selections: false,
        }
    }
}

impl EditorOptions {
    /// Switches between Chinese and English input, leaving every other option.
    pub fn switch_language_mode(&mut self)
        ensures
            *final(self) == (EditorOptions {
                language_mode: match old(self).language_mode {
                    LanguageMode::English => LanguageMode::Chinese,
                    LanguageMode::Chinese => LanguageMode::English,
                },
                ..*old(self)
            }),
    {
        self.language_mode = match self.language_mode {
            LanguageMode::English => LanguageMode::Chinese,
            LanguageMode::Chinese => LanguageMode::English,
        };
    }

    /// Switches between half and full width characters, leaving every other
    /// option.
    pub fn switch_character_form(&mut self)
        ensures
            *final(self) == (EditorOptions {
                character_form: match old(self).character_form {
                    CharacterForm::Halfwidth => CharacterForm::Fullwidth,
                    CharacterForm::Fullwidth => CharacterForm::Halfwidth,
                },
                ..*old(self)
            }),
    {
        self.character_form = match self.character_form {
            CharacterForm::Halfwidth => CharacterForm::Fullwidth,
            CharacterForm::Fullwidth => CharacterForm::Halfwidth,
        };
    }

    /// The number of pages that `candidates` candidates fill, a page holding
    /// `candidates_per_page` of them; the last page may be partly filled.
    pub fn total_page(&self, candidates: usize) -> (r: usize)
        requires
            self.candidates_per_page > 0,
        ensures
            r == (candidates + self.candidates_per_page - 1) / self.candidates_per_page as int,
    {
        let per = self.candidates_per_page;
        let q = candidates / per;
        if candidates % per == 0 {
            proof {
                assert((candidates + per - 1) / per as int == q) by (nonlinear_arith)
                    requires
                        per > 0,
                        candidates % per == 0,
                        q == candidates / per,
                ;
            }
            q
        } else {
            proof {
                assert((candidates + per - 1) / per as int == q + 1) by (nonlinear_arith)
                    requires
                        per > 0,
                        candidates % per != 0,
                        q == candidates / per,
                ;
                assert(per >= 2);
                assert(q * per <= candidates) by (nonlinear_arith)
                    requires
                        per > 0,
                        q == candidates / per,
                ;
                assert(2 * q <= q * per) by (nonlinear_arith)
                    requires
                        per >= 2,
                        q >= 0,
                ;
                assert(candidates != 0);
                assert(q < candidates);
            }
            q + 1
        }
    }
}

/// Indicates the state change of the editor.
#[derive(Debug, Clone, Copy, PartialEq, Eq, Structural)]
pub enum EditorKeyBehavior {
    /// The key has no effect so it was ignored.
    Ignore,
    /// The key caused a conversion update.
    Commit,
    /// The key is an error.
    Bell,
    /// The key changed the editing state so was absorbed.
    Absorb,
}

/// All different errors that may happen when changing editor state.
#[derive(Debug, Clone, Copy, PartialEq, Eq, Structural)]
pub enum EditorErrorKind {
    /// Requested invalid state change.
    InvalidState,
    /// Requested invalid input.
    InvalidInput,
    /// Requested state change was not possible.
    Impossible,
}

#[derive(Debug)]
pub struct EditorError {
    kind: EditorErrorKind,
}

impl EditorError {
    pub fn new(kind: EditorErrorKind) -> (e: EditorError)
        ensures
            e.spec_kind() == kind,
    {
        EditorError { kind }
    }

    pub closed spec fn spec_kind(&self) -> EditorErrorKind {
        self.kind
    }

    pub fn kind(&self) -> (k: EditorErrorKind)
        ensures
            k == self.spec_kind(),
    {
        self.kind
    }
}

// ---------------------------------------------------------------------------
// Learning new phrases from a committed conversion
// ---------------------------------------------------------------------------
/// The syllable of a syllable symbol.
pub open spec fn symbol_syllable(s: Symbol) -> Syllable {
    match s {
        Symbol::Syllable(syl) => syl,
        Symbol::Grapheme(_) => arbitrary(),
    }
}

/// The syllables of `symbols[start..end]`.
pub open spec fn syllables_in(symbols: Seq<Symbol>, start: int, end: int) -> Seq<Syllable> {
    symbols.subrange(start, end).map_values(|s: Symbol| symbol_syllable(s))
}

/// A learned phrase: its syllables and its text.
pub type PhraseView = (Seq<Syllable>, Seq<char>);

pub open spec fn phrases_view(v: Seq<(Vec<Syllable>, String)>) -> Seq<PhraseView> {
    v.map_values(|e: (Vec<Syllable>, String)| (e.0@, e.1@))
}

pub open spec fn has_text(phrases: Seq<PhraseView>, text: Seq<char>) -> bool {
    exists|i: int| 0 <= i < phrases.len() && #[trigger] phrases[i].1 == text
}

/// Adds a phrase unless a phrase with the same text is already there.
pub open spec fn spec_collect(phrases: Seq<PhraseView>, syls: Seq<Syllable>, text: Seq<char>) -> Seq<
    PhraseView,
> {
    if has_text(phrases, text) {
        phrases
    } else {
        phrases.push((syls, text))
    }
}

/// Step 1: every converted phrase longer than one syllable, in order.
pub open spec fn spec_long_phrases(intervals: Seq<Interval>, symbols: Seq<Symbol>, k: int) -> Seq<
    PhraseView,
>
    decreases k,
{
    if k <= 0 {
        Seq::empty()
    } else {
        let acc = spec_long_phrases(intervals, symbols, k - 1);
        let it = intervals[k - 1];
        if it.end - it.start > 1 && it.is_phrase {
            spec_collect(acc, syllables_in(symbols, it.start as int, it.end as int), it.text@)
        } else {
            acc
        }
    }
}

/// Step 2: runs of single-syllable phrases are joined into one phrase, up to
/// the longest phrase length; the state is (phrases, pending text, pending
/// syllables).
pub open spec fn spec_join_singles(
    intervals: Seq<Interval>,
    symbols: Seq<Symbol>,
    k: int,
    init: Seq<PhraseView>,
) -> (Seq<PhraseView>, Seq<char>, Seq<Syllable>)
    decreases k,
{
    if k <= 0 {
        (init, Seq::empty(), Seq::empty())
    } else {
        let (ph, pend, syls) = spec_join_singles(intervals, symbols, k - 1, init);
        let it = intervals[k - 1];
        if it.is_phrase && it.end - it.start == 1 && syls.len() < MAX_PHRASE_LEN {
            (ph, pend + it.text@, syls + syllables_in(symbols, it.start as int, it.end as int))
        } else if pend.len() > 0 {
            (spec_collect(ph, syls, pend), Seq::empty(), Seq::empty())
        } else {
            (ph, pend, syls)
        }
    }
}

/// The phrases learned from a committed conversion.
pub open spec fn spec_new_phrases(intervals: Seq<Interval>, symbols: Seq<Symbol>) -> Seq<
    PhraseView,
> {
    let first = spec_long_phrases(intervals, symbols, intervals.len() as int);
    let (ph, pend, syls) = spec_join_singles(intervals, symbols, intervals.len() as int, first);
    if pend.len() > 0 {
        spec_collect(ph, syls, pend)
    } else {
        ph
    }
}

/// No two phrases have the same text.
pub open spec fn texts_distinct(ph: Seq<PhraseView>) -> bool {
    forall|i: int, j: int| 0 <= i < j < ph.len() ==> #[trigger] ph[i].1 != #[trigger] ph[j].1
}

/// `b` keeps the phrases of `a` in front.
pub open spec fn extends(a: Seq<PhraseView>, b: Seq<PhraseView>) -> bool {
    a.len() <= b.len() && forall|i: int| 0 <= i < a.len() ==> #[trigger] b[i] == a[i]
}

proof fn lemma_collect(ph: Seq<PhraseView>, syls: Seq<Syllable>, text: Seq<char>)
    ensures
        texts_distinct(ph) ==> texts_distinct(spec_collect(ph, syls, text)),
        extends(ph, spec_collect(ph, syls, text)),
        has_text(spec_collect(ph, syls, text), text),
{
    if !has_text(ph, text) {
        let r = ph.push((syls, text));
        assert(r[ph.len() as int].1 == text);
    }
}

proof fn lemma_extends_has_text(a: Seq<PhraseView>, b: Seq<PhraseView>, text: Seq<char>)
    requires
        extends(a, b),
        has_text(a, text),
    ensures
        has_text(b, text),
{
    let i = choose|i: int| 0 <= i < a.len() && #[trigger] a[i].1 == text;
    assert(b[i] == a[i]);
}

proof fn lemma_long_phrases(intervals: Seq<Interval>, symbols: Seq<Symbol>, k: int)
    requires
        k <= intervals.len(),
    ensures
        texts_distinct(spec_long_phrases(intervals, symbols, k)),
        forall|m: int|
            0 <= m < k && (#[trigger] intervals[m]).is_phrase && intervals[m].end - intervals[m].start > 1
                ==> has_text(spec_long_phrases(intervals, symbols, k), intervals[m].text@),
    decreases k,
{
    if k > 0 {
        lemma_long_phrases(intervals, symbols, k - 1);
        let acc = spec_long_phrases(intervals, symbols, k - 1);
        let it = intervals[k - 1];
        if it.end - it.start > 1 && it.is_phrase {
            let syls = syllables_in(symbols, it.start as int, it.end as int);
            lemma_collect(acc, syls, it.text@);
            assert forall|m: int|
                0 <= m < k && (#[trigger] intervals[m]).is_phrase && intervals[m].end - intervals[m].start > 1
                    implies has_text(spec_long_phrases(intervals, symbols, k), intervals[m].text@) by {
                if m < k - 1 {
                    lemma_extends_has_text(acc, spec_collect(acc, syls, it.text@), intervals[m].text@);
                }
            }
        }
    }
}

proof fn lemma_join_singles(intervals: Seq<Interval>, symbols: Seq<Symbol>, k: int, init: Seq<PhraseView>)
    requires
        k <= intervals.len(),
        texts_distinct(init),
    ensures
        texts_distinct(spec_join_singles(intervals, symbols, k, init).0),
        extends(init, spec_join_singles(intervals, symbols, k, init).0),
    decreases k,
{
    if k > 0 {
        lemma_join_singles(intervals, symbols, k - 1, init);
        let (ph, pend, syls) = spec_join_singles(intervals, symbols, k - 1, init);
        lemma_collect(ph, syls, pend);
    }
}

/// The phrases learned from a conversion have distinct texts, and the text
/// of every phrase longer than one syllable is among them.
pub proof fn lemma_new_phrases(intervals: Seq<Interval>, symbols: Seq<Symbol>)
    ensures
        texts_distinct(spec_new_phrases(intervals, symbols)),
        forall|m: int|
            0 <= m < intervals.len() && (#[trigger] intervals[m]).is_phrase && intervals[m].end
                - intervals[m].start > 1 ==> has_text(spec_new_phrases(intervals, symbols), intervals[m].text@),
{
    let n = intervals.len() as int;
    let first = spec_long_phrases(intervals, symbols, n);
    lemma_long_phrases(intervals, symbols, n);
    lemma_join_singles(intervals, symbols, n, first);
    let (ph, pend, syls) = spec_join_singles(intervals, symbols, n, first);
    lemma_collect(ph, syls, pend);
    let r = spec_new_phrases(intervals, symbols);
    assert(extends(first, r));
    assert forall|m: int|
        0 <= m < n && (#[trigger] intervals[m]).is_phrase && intervals[m].end - intervals[m].start > 1
            implies has_text(r, intervals[m].text@) by {
        lemma_extends_has_text(first, r, intervals[m].text@);
    }
}

/// Every interval starts before it ends, and phrases lie in the buffer and
/// cover syllables only.
pub open spec fn intervals_fit(intervals: Seq<Interval>, symbols: Seq<Symbol>) -> bool {
    forall|k: int|
        0 <= k < intervals.len() ==> {
            &&& #[trigger] intervals[k].start <= intervals[k].end
            &&& intervals[k].is_phrase ==> intervals[k].end <= symbols.len()
            &&& intervals[k].is_phrase ==> forall|j: int|
                intervals[k].start <= j < intervals[k].end ==> symbols[j] is Syllable
        }
}

fn collect_phrase(phrases: &mut Vec<(Vec<Syllable>, String)>, syllables: Vec<Syllable>, pending: String)
    ensures
        phrases_view(final(phrases)@) == spec_collect(
            phrases_view(old(phrases)@),
            syllables@,
            pending@,
        ),
{
    let ghost pv = phrases_view(phrases@);
    let mut i: usize = 0;
    while i < phrases.len()
        invariant
            0 <= i <= phrases@.len(),
            pv == phrases_view(phrases@),
            phrases@ == old(phrases)@,
            forall|j: int| 0 <= j < i ==> #[trigger] pv[j].1 != pending@,
        decreases phrases@.len() - i,
    {
        if phrases[i].1 == pending {
            proof {
                assert(pv[i as int].1 == pending@);
            }
            return;
        }
        i = i + 1;
    }
    phrases.push((syllables, pending));
    proof {
        assert(phrases_view(phrases@) =~= pv.push((syllables@, pending@)));
    }
}

fn syllables_of(symbols: &[Symbol], start: usize, end: usize) -> (r: Vec<Syllable>)
    requires
        start <= end <= symbols@.len(),
        forall|j: int| start <= j < end ==> symbols@[j] is Syllable,
    ensures
        r@ == syllables_in(symbols@, start as int, end as int),
{
    let mut r: Vec<Syllable> = Vec::new();
    let mut i = start;
    while i < end
        invariant
            start <= i <= end <= symbols@.len(),
            forall|j: int| start <= j < end ==> symbols@[j] is Syllable,
            r@ == syllables_in(symbols@, start as int, i as int),
        decreases end - i,
    {
        let syl = symbols[i].to_syllable().unwrap();
        r.push(syl);
        proof {
            assert(syllables_in(symbols@, start as int, i + 1) =~= syllables_in(
                symbols@,
                start as int,
                i as int,
            ).push(syl));
        }
        i = i + 1;
    }
    r
}

/// Finds the phrases that a committed conversion teaches: every phrase
/// longer than one syllable, and every run of single-syllable phrases joined
/// together; a text is learned once.
pub fn collect_new_phrases(intervals: &[Interval], symbols: &[Symbol]) -> (r: Vec<
    (Vec<Syllable>, String),
>)
    requires
        intervals_fit(intervals@, symbols@),
    ensures
        phrases_view(r@) == spec_new_phrases(intervals@, symbols@),
{
    let mut phrases: Vec<(Vec<Syllable>, String)> = Vec::new();
    let n = intervals.len();
    let mut k: usize = 0;
    proof {
        assert(phrases_view(phrases@) =~= Seq::<PhraseView>::empty());
    }
    // Step 1. collect all intervals
    while k < n
        invariant
            0 <= k <= n == intervals@.len(),
            intervals_fit(intervals@, symbols@),
            phrases_view(phrases@) == spec_long_phrases(intervals@, symbols@, k as int),
        decreases n - k,
    {
        let interval = &intervals[k];
        proof {
            assert(intervals@[k as int].start <= intervals@[k as int].end);
        }
        if interval.end - interval.start > 1 && interval.is_phrase {
            let syllables = syllables_of(symbols, interval.start, interval.end);
            let pending = interval.text.clone();
            collect_phrase(&mut phrases, syllables, pending);
        }
        k = k + 1;
    }
    let ghost first = phrases_view(phrases@);
    // Step 2. collect all intervals with length one including break words
    let mut pending = String::new();
    let mut syllables: Vec<Syllable> = Vec::new();
    k = 0;
    while k < n
        invariant
            0 <= k <= n == intervals@.len(),
            intervals_fit(intervals@, symbols@),
            first == spec_long_phrases(intervals@, symbols@, n as int),
            (phrases_view(phrases@), pending@, syllables@) == spec_join_singles(
                intervals@,
                symbols@,
                k as int,
                first,
            ),
        decreases n - k,
    {
        let interval = &intervals[k];
        proof {
            assert(intervals@[k as int].start <= intervals@[k as int].end);
        }
        if interval.is_phrase && interval.end - interval.start == 1 && syllables.len()
            < MAX_PHRASE_LEN {
            pending.append(interval.text.as_str());
            let more = syllables_of(symbols, interval.start, interval.end);
            let mut more = more;
            syllables.append(&mut more);
        } else if !pending.as_str().is_empty() {
            let taken_syllables = syllables;
            syllables = Vec::new();
            let taken_pending = pending;
            pending = String::new();
            collect_phrase(&mut phrases, taken_syllables, taken_pending);
            proof {
                assert(pending@ =~= Seq::<char>::empty());
                assert(syllables@ =~= Seq::<Syllable>::empty());
            }
        }
        k = k + 1;
    }
    if !pending.as_str().is_empty() {
        collect_phrase(&mut phrases, syllables, pending);
    }
    phrases
}

// ---------------------------------------------------------------------------
// Committing the front of a long buffer, and fixing the current conversion
// ---------------------------------------------------------------------------
/// Whether the intervals lie back to back from offset 0 to `len`, each with
/// its start before its end.
pub open spec fn intervals_cover(xs: Seq<Interval>, len: int) -> bool {
    &&& xs.len() == 0 ==> len == 0
    &&& xs.len() > 0 ==> xs[0].start == 0 && xs.last().end == len
    &&& forall|i: int| 0 <= i < xs.len() - 1 ==> #[trigger] xs[i].end == xs[i + 1].start
    &&& forall|i: int| 0 <= i < xs.len() ==> #[trigger] xs[i].start <= xs[i].end
}

/// The texts of the first `n` intervals, one after the other.
pub open spec fn texts_upto(xs: Seq<Interval>, n: int) -> Seq<char>
    decreases n,
{
    if n <= 0 {
        Seq::empty()
    } else {
        texts_upto(xs, n - 1) + xs[n - 1].text@
    }
}

/// Whether interval `k` is the first whose end leaves at most `threshold`
/// symbols of a buffer of `len`.
pub open spec fn is_commit_point(xs: Seq<Interval>, len: int, threshold: int, k: int) -> bool {
    &&& 0 <= k < xs.len()
    &&& len - xs[k].end <= threshold
    &&& forall|j: int| 0 <= j < k ==> len - (#[trigger] xs[j]).end > threshold
}

proof fn lemma_cover_end_bound(xs: Seq<Interval>, len: int, i: int)
    requires
        intervals_cover(xs, len),
        0 <= i < xs.len(),
    ensures
        xs[i].end <= len,
    decreases xs.len() - i,
{
    if i < xs.len() - 1 {
        lemma_cover_end_bound(xs, len, i + 1);
        assert(xs[i].end == xs[i + 1].start);
        assert(xs[i + 1].start <= xs[i + 1].end);
    }
}

/// When a buffer of `len` symbols holds more than `threshold`, the text to
/// commit and the number of leading symbols it takes: whole intervals from
/// the front, up to the first one after which at most `threshold` symbols are
/// left.
pub fn auto_commit(len: usize, threshold: usize, intervals: &Vec<Interval>) -> (r: Option<
    (String, usize),
>)
    requires
        intervals_cover(intervals@, len as int),
    ensures
        len <= threshold ==> r is None,
        len > threshold ==> (r matches Some((text, remove)) && exists|k: int|
            is_commit_point(intervals@, len as int, threshold as int, k) && remove
                == intervals@[k].end && text@ == texts_upto(intervals@, k + 1)),
{
    if len <= threshold {
        return None;
    }
    let mut out = String::new();
    let mut remove: usize = 0;
    let mut i: usize = 0;
    while i < intervals.len()
        invariant
            i <= intervals@.len(),
            intervals_cover(intervals@, len as int),
            len > threshold,
            remove == (if i == 0 {
                0
            } else {
                intervals@[i - 1].end as int
            }),
            out@ == texts_upto(intervals@, i as int),
            forall|j: int| 0 <= j < i ==> len - (#[trigger] intervals@[j]).end > threshold,
        decreases intervals@.len() - i,
    {
        let it = &intervals[i];
        proof {
            lemma_cover_end_bound(intervals@, len as int, i as int);
            if i > 0 {
                assert(intervals@[i - 1].end == intervals@[i as int].start);
            }
        }
        out.append(it.text.as_str());
        remove = remove + (it.end - it.start);
        if len - remove <= threshold {
            assert(is_commit_point(intervals@, len as int, threshold as int, i as int));
            return Some((out, remove));
        }
        i += 1;
    }
    proof {
        let n = intervals@.len() as int;
        assert(n > 0);
        assert(len - intervals@[n - 1].end > threshold);
    }
    None
}

/// The intervals that a snapshot fixes as selections, scanning from the last
/// interval back to `0`: while `skip` is larger than an interval, the interval
/// is passed over and `skip` shrinks by its length; any other phrase interval
/// is picked.
pub open spec fn snapshot_picks_from(xs: Seq<Interval>, i: int, skip: int) -> Seq<int>
    decreases i,
{
    if i <= 0 {
        Seq::empty()
    } else {
        let it = xs[i - 1];
        let l = it.end - it.start;
        if skip > l {
            snapshot_picks_from(xs, i - 1, skip - l)
        } else if it.is_phrase {
            seq![i - 1] + snapshot_picks_from(xs, i - 1, skip)
        } else {
            snapshot_picks_from(xs, i - 1, skip)
        }
    }
}

/// The indices of the intervals of the current conversion that a snapshot
/// turns into selections, in the order in which they are fixed (last interval
/// first); the last `flex` symbols are left free.
pub fn snapshot_picks(intervals: &Vec<Interval>, flex: usize) -> (r: Vec<usize>)
    requires
        forall|i: int| 0 <= i < intervals@.len() ==> #[trigger] intervals@[i].start <= intervals@[i].end,
    ensures
        r@.map_values(|k: usize| k as int) == snapshot_picks_from(
            intervals@,
            intervals@.len() as int,
            flex as int,
        ),
{
    let mut picks: Vec<usize> = Vec::new();
    let mut skip: usize = flex;
    let mut i: usize = intervals.len();
    while i > 0
        invariant
            i <= intervals@.len(),
            forall|j: int| 0 <= j < intervals@.len() ==> #[trigger] intervals@[j].start <= intervals@[j].end,
            picks@.map_values(|k: usize| k as int) + snapshot_picks_from(
                intervals@,
                i as int,
                skip as int,
            ) == snapshot_picks_from(intervals@, intervals@.len() as int, flex as int),
        decreases i,
    {
        let it = &intervals[i - 1];
        let l = it.end - it.start;
        let ghost before = picks@.map_values(|k: usize| k as int);
        if skip > l {
            skip = skip - l;
        } else if it.is_phrase {
            picks.push(i - 1);
            proof {
                assert(picks@.map_values(|k: usize| k as int) =~= before.push(i - 1));
                let rest = snapshot_picks_from(intervals@, i - 1, skip as int);
                assert(before.push(i - 1) + rest =~= before + (seq![i - 1] + rest));
            }
        }
        i -= 1;
    }
    proof {
        assert(picks@.map_values(|k: usize| k as int) + Seq::<int>::empty() =~= picks@.map_values(
            |k: usize| k as int,
        ));
    }
    picks
}

// ---------------------------------------------------------------------------
// Learning a phrase that the user marks in the buffer
// ---------------------------------------------------------------------------
/// The characters of a text from `start` up to `end`, as far as the text goes.
pub open spec fn clip(s: Seq<char>, start: int, end: int) -> Seq<char> {
    let a = if start < 0 {
        0
    } else if start < s.len() {
        start
    } else {
        s.len() as int
    };
    let b = if end < 0 {
        0
    } else if end < s.len() {
        end
    } else {
        s.len() as int
    };
    s.subrange(a, b)
}

proof fn lemma_clip_append(s: Seq<char>, t: Seq<char>, start: int, end: int)
    requires
        start <= end,
    ensures
        clip(s + t, start, end) =~= clip(s, start, end) + clip(t, start - s.len(), end - s.len()),
{
}

/// The characters `[start, end)` of the converted text, the texts of the
/// intervals one after the other; as far as that text goes.
pub fn converted_text_range(intervals: &Vec<Interval>, start: usize, end: usize) -> (r: String)
    requires
        start <= end,
    ensures
        r@ == clip(texts_upto(intervals@, intervals@.len() as int), start as int, end as int),
{
    let mut out = String::new();
    let mut pos: usize = 0;
    let mut i: usize = 0;
    while i < intervals.len()
        invariant
            i <= intervals@.len(),
            start <= end,
            pos == (if texts_upto(intervals@, i as int).len() < end {
                texts_upto(intervals@, i as int).len() as int
            } else {
                end as int
            }),
            out@ == clip(texts_upto(intervals@, i as int), start as int, end as int),
        decreases intervals@.len() - i,
    {
        let ghost before = texts_upto(intervals@, i as int);
        let text = intervals[i].text.as_str();
        proof {
            lemma_clip_append(before, text@, start as int, end as int);
            assert(texts_upto(intervals@, i + 1) == before + text@);
        }
        if pos < end {
            let n = text.unicode_len();
            let a = if start > pos {
                if start - pos < n {
                    start - pos
                } else {
                    n
                }
            } else {
                0
            };
            let b = if end - pos < n {
                end - pos
            } else {
                n
            };
            let piece = text.substring_char(a, b);
            out.append(piece);
            proof {
                assert(piece@ =~= clip(text@, start - before.len(), end - before.len()));
            }
            pos = if end - pos < n {
                end
            } else {
                pos + n
            };
        } else {
            proof {
                assert(clip(text@, start - before.len(), end - before.len()) =~= Seq::<char>::empty());
            }
        }
        i += 1;
    }
    out
}

/// Why a phrase could not be learned.
#[derive(Debug, Clone, PartialEq, Eq)]
pub enum LearnError {
    /// The range leaves the buffer, holds a character that is not a
    /// syllable, or its text is not one character per syllable.
    Mismatch,
    /// The user's dictionary already has this text for these syllables.
    Exists(String),
}

impl LearnError {
    /// The notice shown to the user.
    pub fn message(&self) -> (r: String)
        ensures
            (match self {
                LearnError::Mismatch => r@ == "加詞失敗：字數不符或夾雜符號"@,
                LearnError::Exists(phrase) => r@ == "已有："@ + phrase@,
            }),
    {
        match self {
            LearnError::Mismatch => String::from_str("加詞失敗：字數不符或夾雜符號"),
            LearnError::Exists(phrase) => {
                let mut m = String::from_str("已有：");
                m.append(phrase.as_str());
                m
            },
        }
    }
}

/// Whether the user's dictionary lists `text` among the words of the phrase
/// `syllables`.
pub open spec fn user_has_text(d: UserDict, syllables: Seq<Syllable>, text: Seq<char>) -> bool {
    let found = spec_lookup_records(d.spec_records(), syllables, LookupStrategy::Standard);
    exists|i: int| 0 <= i < found.len() && d.spec_table().spec_text((#[trigger] found[i]).0) == Some(text)
}

/// Whether `symbols[start..end]` holds a character that is not a syllable.
pub open spec fn range_has_char(symbols: Seq<Symbol>, start: int, end: int) -> bool {
    exists|j: int| start <= j < end && (#[trigger] symbols[j]) is Grapheme
}

/// Teaches the user's dictionary the phrase that the user marked: the
/// syllables `[start, end)` of the buffer with the converted text at the same
/// place. Fails when the range leaves the buffer or holds a character, when
/// the dictionary already has that text for those syllables, or when the text
/// is not one character per syllable; returns the learned text.
pub fn learn_phrase_in_range(
    user_dict: &mut UserDict,
    symbols: &[Symbol],
    intervals: &Vec<Interval>,
    start: usize,
    end: usize,
) -> (r: Result<String, LearnError>)
    requires
        old(user_dict).wf(),
        old(user_dict).has_room(),
        start <= end,
    ensures
        final(user_dict).wf(),
        ({
            let phrase = clip(texts_upto(intervals@, intervals@.len() as int), start as int, end as int);
            let syls = syllables_in(symbols@, start as int, end as int);
            if end > symbols@.len() || range_has_char(symbols@, start as int, end as int) {
                r == Err::<String, LearnError>(LearnError::Mismatch) && *final(user_dict) == *old(user_dict)
            } else if user_has_text(*old(user_dict), syls, phrase) {
                r matches Err(LearnError::Exists(p)) && p@ == phrase && *final(user_dict) == *old(user_dict)
            } else if phrase.len() != end - start {
                r == Err::<String, LearnError>(LearnError::Mismatch) && *final(user_dict) == *old(user_dict)
            } else {
                &&& r matches Ok(p) && p@ == phrase
                &&& spec_interns(old(user_dict).spec_table(), final(user_dict).spec_table(), phrase)
                &&& final(user_dict).spec_records() == set_entries(
                    old(user_dict).spec_records(),
                    syls,
                    spec_insert_entry(
                        entries_of(old(user_dict).spec_records(), syls),
                        spec_interned(old(user_dict).spec_table(), phrase),
                    ),
                )
            }
        }),
{
    if end > symbols.len() {
        return Err(LearnError::Mismatch);
    }
    let mut j = start;
    while j < end
        invariant
            start <= j <= end <= symbols@.len(),
            *user_dict == *old(user_dict),
            user_dict.wf(),
            forall|k: int| start <= k < j ==> (#[trigger] symbols@[k]) is Syllable,
        decreases end - j,
    {
        if symbols[j].is_char() {
            assert(range_has_char(symbols@, start as int, end as int));
            return Err(LearnError::Mismatch);
        }
        j += 1;
    }
    assert(!range_has_char(symbols@, start as int, end as int));
    let syllables = syllables_of(symbols, start, end);
    let phrase = converted_text_range(intervals, start, end);
    let found = user_dict.lookup(syllables.as_slice(), LookupStrategy::Standard);
    let mut k: usize = 0;
    while k < found.len()
        invariant
            k <= found@.len(),
            *user_dict == *old(user_dict),
            user_dict.wf(),
            end <= symbols@.len(),
            !range_has_char(symbols@, start as int, end as int),
            syllables@ == syllables_in(symbols@, start as int, end as int),
            phrase@ == clip(texts_upto(intervals@, intervals@.len() as int), start as int, end as int),
            found@ == spec_lookup_records(user_dict.spec_records(), syllables@, LookupStrategy::Standard),
            forall|m: int| 0 <= m < k ==> user_dict.spec_table().spec_text((#[trigger] found@[m]).0) != Some(phrase@),
        decreases found@.len() - k,
    {
        if let Some(text) = user_dict.get_text(found[k].0) {
            if text == phrase {
                assert(user_has_text(*user_dict, syllables@, phrase@));
                return Err(LearnError::Exists(phrase));
            }
        }
        k += 1;
    }
    let n = phrase.as_str().unicode_len();
    if n != end - start {
        return Err(LearnError::Mismatch);
    }
    user_dict.insert(syllables.as_slice(), phrase.as_str());
    Ok(phrase)
}

/// What teaching the user's dictionary a phrase did.
#[derive(Debug, Clone, Copy, PartialEq, Eq, Structural)]
pub enum Learned {
    /// The phrase was added to the user's dictionary.
    Added,
    /// The user's dictionary already had it; only its use is to be recorded
    /// in the learned history.
    Known,
}

/// Teaches the user's dictionary a phrase: fails unless the text has one
/// character per syllable; adds it unless the dictionary already has that
/// text for these syllables.
pub fn learn_phrase(user_dict: &mut UserDict, syllables: &[Syllable], phrase: &str) -> (r: Result<
    Learned,
    EditorError,
>)
    requires
        old(user_dict).wf(),
        old(user_dict).has_room(),
    ensures
        final(user_dict).wf(),
        phrase@.len() != syllables@.len() ==> (r matches Err(e) && e.spec_kind()
            == EditorErrorKind::InvalidState && *final(user_dict) == *old(user_dict)),
        phrase@.len() == syllables@.len() && user_has_text(*old(user_dict), syllables@, phrase@)
            ==> (r == Ok::<Learned, EditorError>(Learned::Known) && *final(user_dict) == *old(
            user_dict,
        )),
        phrase@.len() == syllables@.len() && !user_has_text(*old(user_dict), syllables@, phrase@)
            ==> {
            &&& r == Ok::<Learned, EditorError>(Learned::Added)
            &&& spec_interns(old(user_dict).spec_table(), final(user_dict).spec_table(), phrase@)
            &&& final(user_dict).spec_records() == set_entries(
                old(user_dict).spec_records(),
                syllables@,
                spec_insert_entry(
                    entries_of(old(user_dict).spec_records(), syllables@),
                    spec_interned(old(user_dict).spec_table(), phrase@),
                ),
            )
        },
{
    if phrase.unicode_len() != syllables.len() {
        return Err(EditorError::new(EditorErrorKind::InvalidState));
    }
    let wanted = String::from_str(phrase);
    let found = user_dict.lookup(syllables, LookupStrategy::Standard);
    let mut k: usize = 0;
    while k < found.len()
        invariant
            k <= found@.len(),
            *user_dict == *old(user_dict),
            user_dict.wf(),
            wanted@ == phrase@,
            phrase@.len() == syllables@.len(),
            found@ == spec_lookup_records(user_dict.spec_records(), syllables@, LookupStrategy::Standard),
            forall|m: int| 0 <= m < k ==> user_dict.spec_table().spec_text((#[trigger] found@[m]).0) != Some(phrase@),
        decreases found@.len() - k,
    {
        if let Some(text) = user_dict.get_text(found[k].0) {
            if text == wanted {
                assert(user_has_text(*user_dict, syllables@, phrase@));
                return Ok(Learned::Known);
            }
        }
        k += 1;
    }
    user_dict.insert(syllables, phrase);
    Ok(Learned::Added)
}

// ---------------------------------------------------------------------------
// Phrase selection boundaries
// ---------------------------------------------------------------------------
/// The start of the phrase that can end at `cursor`: walking left, stop at
/// the buffer start, at a break the user set, or after a non-syllable.
pub open spec fn spec_after_previous_break(symbols: Seq<Symbol>, gaps: Seq<Gap>, cursor: int) -> int
    decreases cursor,
{
    if cursor <= 0 {
        0
    } else if cursor < gaps.len() && gaps[cursor] == Gap::Break {
        cursor
    } else if cursor - 1 < symbols.len() && symbols[cursor - 1] is Grapheme {
        cursor
    } else {
        spec_after_previous_break(symbols, gaps, cursor - 1)
    }
}

/// The end of the phrase that can start at `cursor`: walking right, stop at
/// the buffer end or before a non-syllable.
pub open spec fn spec_next_break(symbols: Seq<Symbol>, cursor: int) -> int
    decreases symbols.len() - cursor,
{
    if cursor >= symbols.len() {
        cursor
    } else if symbols[cursor] is Grapheme {
        cursor
    } else {
        spec_next_break(symbols, cursor + 1)
    }
}

/// Whether the symbols from `b` to `e` spell a phrase that the dictionary
/// knows: `spans[b][e]`.
pub open spec fn span_has(spans: Seq<Vec<bool>>, b: int, e: int) -> bool {
    spans[b]@[e]
}

/// The table answers for every span of a buffer of `len` symbols.
pub open spec fn spans_cover(spans: Seq<Vec<bool>>, len: int) -> bool {
    &&& spans.len() > len
    &&& forall|b: int| 0 <= b <= len ==> #[trigger] spans[b]@.len() > len
}

/// Where a forward selection starts at `cursor`: the symbol there, or the
/// last one at the end of the buffer.
pub open spec fn forward_start(com: Composition, cursor: int) -> int {
    if cursor == com.spec_symbols().len() {
        cursor - 1
    } else {
        cursor
    }
}

/// A forward selection at `cursor` finds a phrase: some span from its start
/// up to the next break spells one.
pub open spec fn init_forward_ok(com: Composition, cursor: int, spans: Seq<Vec<bool>>) -> bool {
    let b = forward_start(com, cursor);
    &&& 0 <= b
    &&& exists|e: int| b < e <= spec_next_break(com.spec_symbols(), cursor) && #[trigger] span_has(spans, b, e)
}

/// The span of symbols that a backward selection at `cursor` ends with.
pub open spec fn backward_end(com: Composition, cursor: int) -> int {
    if cursor + 1 < com.spec_symbols().len() {
        cursor + 1
    } else {
        com.spec_symbols().len() as int
    }
}

/// A backward selection at `cursor` finds a phrase: some span from the
/// previous break on, to its end, spells one.
pub open spec fn init_backward_ok(com: Composition, cursor: int, spans: Seq<Vec<bool>>) -> bool {
    let e = backward_end(com, cursor);
    exists|b: int|
        spec_after_previous_break(com.spec_symbols(), com.spec_gaps(), cursor) <= b < e && #[trigger] span_has(
            spans,
            b,
            e,
        )
}

/// `[begin, end)` is the longest span from the forward start that spells a
/// phrase and ends by the next break.
pub open spec fn init_forward_result(
    com: Composition,
    cursor: int,
    spans: Seq<Vec<bool>>,
    begin: int,
    end: int,
) -> bool {
    let limit = spec_next_break(com.spec_symbols(), cursor);
    &&& begin == forward_start(com, cursor)
    &&& begin < end <= limit
    &&& span_has(spans, begin, end)
    &&& forall|x: int| end < x <= limit ==> !span_has(spans, begin, x)
}

/// `[begin, end)` is the longest span to the backward end that spells a
/// phrase and starts from the previous break.
pub open spec fn init_backward_result(
    com: Composition,
    cursor: int,
    spans: Seq<Vec<bool>>,
    begin: int,
    end: int,
) -> bool {
    let start = spec_after_previous_break(com.spec_symbols(), com.spec_gaps(), cursor);
    &&& end == backward_end(com, cursor)
    &&& start <= begin < end
    &&& span_has(spans, begin, end)
    &&& forall|x: int| start <= x < begin ==> !span_has(spans, x, end)
}

/// The next break is at or after the cursor, and inside the buffer.
pub proof fn lemma_next_break_bounds(symbols: Seq<Symbol>, cursor: int)
    requires
        0 <= cursor <= symbols.len(),
    ensures
        cursor <= spec_next_break(symbols, cursor) <= symbols.len(),
    decreases symbols.len() - cursor,
{
    if cursor < symbols.len() && !(symbols[cursor] is Grapheme) {
        lemma_next_break_bounds(symbols, cursor + 1);
    }
}

/// The previous break is at or before the cursor.
pub proof fn lemma_after_previous_break_bounds(symbols: Seq<Symbol>, gaps: Seq<Gap>, cursor: int)
    ensures
        cursor >= 0 ==> 0 <= spec_after_previous_break(symbols, gaps, cursor) <= cursor,
    decreases cursor,
{
    if cursor > 0 {
        lemma_after_previous_break_bounds(symbols, gaps, cursor - 1);
    }
}

/// Selects the span of symbols that a candidate phrase replaces.
#[derive(Debug)]
pub struct PhraseSelector {
    begin: usize,
    end: usize,
    forward_select: bool,
    orig: usize,
    lookup_strategy: LookupStrategy,
    com: Composition,
}

impl PhraseSelector {
    pub closed spec fn spec_begin(&self) -> usize {
        self.begin
    }

    pub closed spec fn spec_end(&self) -> usize {
        self.end
    }

    pub closed spec fn spec_orig(&self) -> usize {
        self.orig
    }

    pub closed spec fn spec_com(&self) -> Composition {
        self.com
    }

    pub closed spec fn spec_forward_select(&self) -> bool {
        self.forward_select
    }

    pub closed spec fn spec_lookup_strategy(&self) -> LookupStrategy {
        self.lookup_strategy
    }

    pub fn new(forward_select: bool, lookup_strategy: LookupStrategy, com: Composition) -> (r:
        PhraseSelector)
        requires
            com.wf(),
        ensures
            r.spec_begin() == 0,
            r.spec_end() == com.spec_symbols().len(),
            r.spec_orig() == 0,
            r.spec_forward_select() == forward_select,
            r.spec_lookup_strategy() == lookup_strategy,
            r.spec_com() == com,
    {
        let end = com.len();
        PhraseSelector { begin: 0, end, forward_select, orig: 0, lookup_strategy, com }
    }

    /// Selects the single symbol before `cursor`.
    pub fn init_single_word(&mut self, cursor: usize)
        requires
            old(self).spec_com().wf(),
            cursor >= 1,
            old(self).spec_com().spec_symbols().len() >= 1,
        ensures
            final(self).spec_orig() == cursor,
            final(self).spec_end() == (if cursor < old(self).spec_com().spec_symbols().len() {
                cursor as int
            } else {
                old(self).spec_com().spec_symbols().len() as int
            }),
            final(self).spec_begin() == final(self).spec_end() - 1,
            final(self).spec_com() == old(self).spec_com(),
            final(self).spec_forward_select() == old(self).spec_forward_select(),
            final(self).spec_lookup_strategy() == old(self).spec_lookup_strategy(),
    {
        self.orig = cursor;
        let len = self.com.len();
        self.end = if cursor < len {
            cursor
        } else {
            len
        };
        self.begin = self.end - 1;
    }

    pub fn begin(&self) -> (r: usize)
        ensures
            r == self.spec_begin(),
    {
        self.begin
    }

    pub fn end(&self) -> (r: usize)
        ensures
            r == self.spec_end(),
    {
        self.end
    }

    /// The end of the phrase that can start at `cursor`.
    pub fn next_break_point(&self, start: usize) -> (r: usize)
        requires
            self.spec_com().wf(),
            start <= self.spec_com().spec_symbols().len(),
        ensures
            r == spec_next_break(self.spec_com().spec_symbols(), start as int),
    {
        let mut cursor = start;
        let len = self.com.len();
        while cursor < len
            invariant
                self.com.wf(),
                len == self.com.spec_symbols().len(),
                cursor <= len,
                spec_next_break(self.com.spec_symbols(), cursor as int) == spec_next_break(
                    self.com.spec_symbols(),
                    start as int,
                ),
            ensures
                cursor == spec_next_break(self.com.spec_symbols(), start as int),
            decreases len - cursor,
        {
            if let Some(sym) = self.com.symbol(cursor) {
                if !sym.is_syllable() {
                    break;
                }
            }
            cursor = cursor + 1;
        }
        cursor
    }

    /// The start of the phrase that can end at `cursor`.
    pub fn after_previous_break_point(&self, start: usize) -> (r: usize)
        requires
            self.spec_com().wf(),
        ensures
            r == spec_after_previous_break(
                self.spec_com().spec_symbols(),
                self.spec_com().spec_gaps(),
                start as int,
            ),
    {
        let mut cursor = start;
        loop
            invariant
                self.com.wf(),
                spec_after_previous_break(
                    self.com.spec_symbols(),
                    self.com.spec_gaps(),
                    cursor as int,
                ) == spec_after_previous_break(
                    self.com.spec_symbols(),
                    self.com.spec_gaps(),
                    start as int,
                ),
            ensures
                cursor == spec_after_previous_break(
                    self.com.spec_symbols(),
                    self.com.spec_gaps(),
                    start as int,
                ),
            decreases cursor,
        {
            if cursor == 0 {
                return 0;
            }
            if let Some(Gap::Break) = self.com.gap(cursor) {
                break;
            }
            if let Some(sym) = self.com.symbol(cursor - 1) {
                if !sym.is_syllable() {
                    break;
                }
            }
            cursor = cursor - 1;
        }
        cursor
    }

    /// Whether the span from `b` to `e` spells a known phrase.
    fn has_phrase(spans: &Vec<Vec<bool>>, b: usize, e: usize, Ghost(len): Ghost<int>) -> (r: bool)
        requires
            spans_cover(spans@, len),
            b <= len,
            e <= len,
        ensures
            r == span_has(spans@, b as int, e as int),
    {
        spans[b][e]
    }

    /// The next, shorter span to select: forward, the longest shorter one
    /// from the same start; backward, the longest shorter one to the same
    /// end; `None` when no shorter span spells a phrase.
    pub fn next_selection_point(&self, spans: &Vec<Vec<bool>>) -> (r: Option<(usize, usize)>)
        requires
            self.spec_com().wf(),
            spans_cover(spans@, self.spec_com().spec_symbols().len() as int),
            self.spec_begin() < self.spec_end() <= self.spec_com().spec_symbols().len(),
        ensures
            self.spec_forward_select() ==> match r {
                Some((b, e)) => b == self.spec_begin() && self.spec_begin() < e < self.spec_end()
                    && span_has(spans@, b as int, e as int) && forall|x: int|
                    e < x < self.spec_end() ==> !span_has(spans@, b as int, x),
                None => forall|x: int|
                    self.spec_begin() < x < self.spec_end() ==> !span_has(
                        spans@,
                        self.spec_begin() as int,
                        x,
                    ),
            },
            !self.spec_forward_select() ==> match r {
                Some((b, e)) => e == self.spec_end() && self.spec_begin() < b < self.spec_end()
                    && span_has(spans@, b as int, e as int) && forall|x: int|
                    self.spec_begin() < x < b ==> !span_has(spans@, x, e as int),
                None => forall|x: int|
                    self.spec_begin() < x < self.spec_end() ==> !span_has(
                        spans@,
                        x,
                        self.spec_end() as int,
                    ),
            },
    {
        let ghost len = self.com.spec_symbols().len() as int;
        let mut begin = self.begin;
        let mut end = self.end;
        if self.forward_select {
            loop
                invariant
                    self.forward_select,
                    spans_cover(spans@, len),
                    self.end <= len,
                    begin == self.begin,
                    begin < end <= self.end,
                    forall|x: int| end <= x < self.end ==> !span_has(spans@, begin as int, x),
                decreases end,
            {
                end = end - 1;
                if begin == end {
                    return None;
                }
                if Self::has_phrase(spans, begin, end, Ghost(len)) {
                    return Some((begin, end));
                }
            }
        } else {
            loop
                invariant
                    !self.forward_select,
                    spans_cover(spans@, len),
                    self.end <= len,
                    end == self.end,
                    self.begin <= begin < end,
                    forall|x: int| self.begin < x <= begin ==> !span_has(spans@, x, end as int),
                decreases end - begin,
            {
                begin = begin + 1;
                if begin == end {
                    return None;
                }
                if Self::has_phrase(spans, begin, end, Ghost(len)) {
                    return Some((begin, end));
                }
            }
        }
    }

    /// The previous, longer span to select, within the phrase that can be
    /// formed around the cursor the selection started at; `None` when no
    /// longer span spells a phrase.
    pub fn prev_selection_point(&self, spans: &Vec<Vec<bool>>) -> (r: Option<(usize, usize)>)
        requires
            self.spec_com().wf(),
            spans_cover(spans@, self.spec_com().spec_symbols().len() as int),
            self.spec_begin() < self.spec_end() <= self.spec_com().spec_symbols().len(),
            self.spec_orig() <= self.spec_com().spec_symbols().len(),
        ensures
            ({
                let len = self.spec_com().spec_symbols().len() as int;
                let limit = spec_next_break(self.spec_com().spec_symbols(), self.spec_orig() as int);
                self.spec_forward_select() ==> match r {
                    Some((b, e)) => b == self.spec_begin() && self.spec_end() < e <= len && e <= limit
                        && span_has(spans@, b as int, e as int) && forall|x: int|
                        self.spec_end() < x < e ==> !span_has(spans@, b as int, x),
                    None => forall|x: int|
                        self.spec_end() < x <= len && x <= limit ==> !span_has(
                            spans@,
                            self.spec_begin() as int,
                            x,
                        ),
                }
            }),
            ({
                let start = spec_after_previous_break(
                    self.spec_com().spec_symbols(),
                    self.spec_com().spec_gaps(),
                    self.spec_orig() as int,
                );
                !self.spec_forward_select() ==> match r {
                    Some((b, e)) => e == self.spec_end() && start <= b < self.spec_begin() && span_has(
                        spans@,
                        b as int,
                        e as int,
                    ) && forall|x: int| b < x < self.spec_begin() ==> !span_has(spans@, x, e as int),
                    None => forall|x: int|
                        start <= x < self.spec_begin() ==> !span_has(
                            spans@,
                            x,
                            self.spec_end() as int,
                        ),
                }
            }),
    {
        let ghost len_i = self.com.spec_symbols().len() as int;
        let len = self.com.len();
        let mut begin = self.begin;
        let mut end = self.end;
        if self.forward_select {
            let limit = self.next_break_point(self.orig);
            loop
                invariant
                    self.forward_select,
                    len_i == self.com.spec_symbols().len(),
                    limit == spec_next_break(self.com.spec_symbols(), self.orig as int),
                    spans_cover(spans@, len_i),
                    len == len_i,
                    self.begin < self.end,
                    begin == self.begin,
                    self.end <= end <= len,
                    forall|x: int| self.end < x <= end ==> !span_has(spans@, begin as int, x) && x <= limit,
                decreases len - end,
            {
                if end == len {
                    return None;
                }
                end = end + 1;
                if end > limit {
                    return None;
                }
                if Self::has_phrase(spans, begin, end, Ghost(len_i)) {
                    return Some((begin, end));
                }
            }
        } else {
            let start = self.after_previous_break_point(self.orig);
            loop
                invariant
                    !self.forward_select,
                    len_i == self.com.spec_symbols().len(),
                    start == spec_after_previous_break(
                        self.com.spec_symbols(),
                        self.com.spec_gaps(),
                        self.orig as int,
                    ),
                    spans_cover(spans@, len_i),
                    self.end <= len_i,
                    self.begin < self.end,
                    end == self.end,
                    begin <= self.begin,
                    forall|x: int| begin <= x < self.begin ==> !span_has(spans@, x, end as int) && start <= x,
                decreases begin,
            {
                if begin == 0 {
                    return None;
                }
                begin = begin - 1;
                if begin < start {
                    return None;
                }
                if Self::has_phrase(spans, begin, end, Ghost(len_i)) {
                    return Some((begin, end));
                }
            }
        }
    }

    /// Moves the selection to the next, shorter span; an error when there
    /// is none.
    pub fn jump_to_next_selection_point(&mut self, spans: &Vec<Vec<bool>>) -> (r: Result<(), EditorError>)
        requires
            old(self).spec_com().wf(),
            spans_cover(spans@, old(self).spec_com().spec_symbols().len() as int),
            old(self).spec_begin() < old(self).spec_end() <= old(self).spec_com().spec_symbols().len(),
        ensures
            final(self).spec_com() == old(self).spec_com(),
            final(self).spec_orig() == old(self).spec_orig(),
            final(self).spec_forward_select() == old(self).spec_forward_select(),
            final(self).spec_lookup_strategy() == old(self).spec_lookup_strategy(),
            match old(self).next_selection_point_spec(spans@) {
                Some((b, e)) => r is Ok && final(self).spec_begin() == b && final(self).spec_end() == e,
                None => r matches Err(err) && err.spec_kind() == EditorErrorKind::Impossible
                    && final(self).spec_begin() == old(self).spec_begin() && final(self).spec_end()
                    == old(self).spec_end(),
            },
    {
        match self.next_selection_point(spans) {
            Some((begin, end)) => {
                proof {
                    self.lemma_next_point_unique(spans@, Some((begin, end)));
                }
                self.begin = begin;
                self.end = end;
                Ok(())
            },
            None => {
                proof {
                    self.lemma_next_point_unique(spans@, None);
                }
                Err(EditorError::new(EditorErrorKind::Impossible))
            },
        }
    }

    /// Moves the selection to the previous, longer span; an error when
    /// there is none.
    pub fn jump_to_prev_selection_point(&mut self, spans: &Vec<Vec<bool>>) -> (r: Result<(), EditorError>)
        requires
            old(self).spec_com().wf(),
            spans_cover(spans@, old(self).spec_com().spec_symbols().len() as int),
            old(self).spec_begin() < old(self).spec_end() <= old(self).spec_com().spec_symbols().len(),
            old(self).spec_orig() <= old(self).spec_com().spec_symbols().len(),
        ensures
            final(self).spec_com() == old(self).spec_com(),
            final(self).spec_orig() == old(self).spec_orig(),
            final(self).spec_forward_select() == old(self).spec_forward_select(),
            final(self).spec_lookup_strategy() == old(self).spec_lookup_strategy(),
            r matches Err(err) ==> err.spec_kind() == EditorErrorKind::Impossible && final(self).spec_begin()
                == old(self).spec_begin() && final(self).spec_end() == old(self).spec_end(),
            ({
                let len = old(self).spec_com().spec_symbols().len() as int;
                let limit = spec_next_break(old(self).spec_com().spec_symbols(), old(self).spec_orig() as int);
                let b = old(self).spec_begin() as int;
                let e = final(self).spec_end() as int;
                old(self).spec_forward_select() ==> if r is Ok {
                    final(self).spec_begin() == b && old(self).spec_end() < e <= len && e <= limit
                        && span_has(spans@, b, e) && forall|x: int|
                        old(self).spec_end() < x < e ==> !span_has(spans@, b, x)
                } else {
                    forall|x: int| old(self).spec_end() < x <= len && x <= limit ==> !span_has(spans@, b, x)
                }
            }),
            ({
                let start = spec_after_previous_break(
                    old(self).spec_com().spec_symbols(),
                    old(self).spec_com().spec_gaps(),
                    old(self).spec_orig() as int,
                );
                let e = old(self).spec_end() as int;
                let b = final(self).spec_begin() as int;
                !old(self).spec_forward_select() ==> if r is Ok {
                    final(self).spec_end() == e && start <= b < old(self).spec_begin() && span_has(spans@, b, e)
                        && forall|x: int| b < x < old(self).spec_begin() ==> !span_has(spans@, x, e)
                } else {
                    forall|x: int| start <= x < old(self).spec_begin() ==> !span_has(spans@, x, e)
                }
            }),
    {
        match self.prev_selection_point(spans) {
            Some((begin, end)) => {
                self.begin = begin;
                self.end = end;
                Ok(())
            },
            None => Err(EditorError::new(EditorErrorKind::Impossible)),
        }
    }

    /// The next, shorter span to select, as `next_selection_point` finds it.
    pub open spec fn next_selection_point_spec(&self, spans: Seq<Vec<bool>>) -> Option<(usize, usize)> {
        if self.spec_forward_select() {
            if exists|x: int| self.spec_begin() < x < self.spec_end() && #[trigger] span_has(spans, self.spec_begin() as int, x) {
                let e = choose|x: int|
                    self.spec_begin() < x < self.spec_end() && #[trigger] span_has(spans, self.spec_begin() as int, x)
                        && forall|y: int| x < y < self.spec_end() ==> !span_has(spans, self.spec_begin() as int, y);
                Some((self.spec_begin(), e as usize))
            } else {
                None
            }
        } else {
            if exists|x: int| self.spec_begin() < x < self.spec_end() && #[trigger] span_has(spans, x, self.spec_end() as int) {
                let b = choose|x: int|
                    self.spec_begin() < x < self.spec_end() && #[trigger] span_has(spans, x, self.spec_end() as int)
                        && forall|y: int| self.spec_begin() < y < x ==> !span_has(spans, y, self.spec_end() as int);
                Some((b as usize, self.spec_end()))
            } else {
                None
            }
        }
    }

    /// What `next_selection_point` returns is `next_selection_point_spec`.
    proof fn lemma_next_point_unique(&self, spans: Seq<Vec<bool>>, r: Option<(usize, usize)>)
        requires
            self.spec_forward_select() ==> match r {
                Some((b, e)) => b == self.spec_begin() && self.spec_begin() < e < self.spec_end()
                    && span_has(spans, b as int, e as int) && forall|x: int|
                    e < x < self.spec_end() ==> !span_has(spans, b as int, x),
                None => forall|x: int|
                    self.spec_begin() < x < self.spec_end() ==> !span_has(spans, self.spec_begin() as int, x),
            },
            !self.spec_forward_select() ==> match r {
                Some((b, e)) => e == self.spec_end() && self.spec_begin() < b < self.spec_end()
                    && span_has(spans, b as int, e as int) && forall|x: int|
                    self.spec_begin() < x < b ==> !span_has(spans, x, e as int),
                None => forall|x: int|
                    self.spec_begin() < x < self.spec_end() ==> !span_has(spans, x, self.spec_end() as int),
            },
        ensures
            self.next_selection_point_spec(spans) == r,
    {
        if self.spec_forward_select() {
            if let Some((b, e)) = r {
                assert(span_has(spans, self.spec_begin() as int, e as int));
                let c = choose|x: int|
                    self.spec_begin() < x < self.spec_end() && #[trigger] span_has(spans, self.spec_begin() as int, x)
                        && forall|y: int| x < y < self.spec_end() ==> !span_has(spans, self.spec_begin() as int, y);
                if c < e {
                    assert(!span_has(spans, self.spec_begin() as int, e as int));
                } else if c > e {
                    assert(!span_has(spans, self.spec_begin() as int, c));
                }
            }
        } else {
            if let Some((b, e)) = r {
                assert(span_has(spans, b as int, self.spec_end() as int));
                let c = choose|x: int|
                    self.spec_begin() < x < self.spec_end() && #[trigger] span_has(spans, x, self.spec_end() as int)
                        && forall|y: int| self.spec_begin() < y < x ==> !span_has(spans, y, self.spec_end() as int);
                if c < b {
                    assert(!span_has(spans, c, self.spec_end() as int));
                } else if c > b {
                    assert(!span_has(spans, b as int, self.spec_end() as int));
                }
            }
        }
    }

    /// Selects, around `cursor`, the longest span that spells a known
    /// phrase: forward, from the cursor (or the last symbol, at the end) up
    /// to the next break at most; backward, up to the symbol at the cursor
    /// (or the end) from the previous break at least.
    pub fn init(&mut self, cursor: usize, spans: &Vec<Vec<bool>>)
        requires
            old(self).spec_com().wf(),
            spans_cover(spans@, old(self).spec_com().spec_symbols().len() as int),
            cursor <= old(self).spec_com().spec_symbols().len(),
            old(self).spec_forward_select() ==> init_forward_ok(old(self).spec_com(), cursor as int, spans@),
            !old(self).spec_forward_select() ==> init_backward_ok(old(self).spec_com(), cursor as int, spans@),
        ensures
            final(self).spec_orig() == cursor,
            final(self).spec_com() == old(self).spec_com(),
            final(self).spec_forward_select() == old(self).spec_forward_select(),
            final(self).spec_lookup_strategy() == old(self).spec_lookup_strategy(),
            old(self).spec_forward_select() ==> init_forward_result(
                old(self).spec_com(),
                cursor as int,
                spans@,
                final(self).spec_begin() as int,
                final(self).spec_end() as int,
            ),
            !old(self).spec_forward_select() ==> init_backward_result(
                old(self).spec_com(),
                cursor as int,
                spans@,
                final(self).spec_begin() as int,
                final(self).spec_end() as int,
            ),
    {
        let ghost len_i = self.com.spec_symbols().len() as int;
        let len = self.com.len();
        self.orig = cursor;
        if self.forward_select {
            let begin = if cursor == len {
                cursor - 1
            } else {
                cursor
            };
            let limit = self.next_break_point(cursor);
            proof {
                lemma_next_break_bounds(self.com.spec_symbols(), cursor as int);
            }
            let end = Self::longest_from(spans, begin, limit, Ghost(len_i));
            self.begin = begin;
            self.end = end;
        } else {
            let end = if cursor < len {
                cursor + 1
            } else {
                len
            };
            let start = self.after_previous_break_point(cursor);
            let begin = Self::longest_to(spans, start, end, Ghost(len_i));
            self.begin = begin;
            self.end = end;
        }
    }

    /// The largest `e` up to `limit` with `[begin, e)` spelling a phrase.
    fn longest_from(spans: &Vec<Vec<bool>>, begin: usize, limit: usize, Ghost(len): Ghost<int>) -> (end: usize)
        requires
            spans_cover(spans@, len),
            begin < len,
            limit <= len,
            exists|e: int| begin < e <= limit && #[trigger] span_has(spans@, begin as int, e),
        ensures
            begin < end <= limit,
            span_has(spans@, begin as int, end as int),
            forall|x: int| end < x <= limit ==> !span_has(spans@, begin as int, x),
    {
        let mut end = limit;
        loop
            invariant
                spans_cover(spans@, len),
                begin < len,
                end <= limit <= len,
                exists|e: int| begin < e <= end && #[trigger] span_has(spans@, begin as int, e),
                forall|x: int| end < x <= limit ==> !span_has(spans@, begin as int, x),
            ensures
                begin < end <= limit,
                span_has(spans@, begin as int, end as int),
                forall|x: int| end < x <= limit ==> !span_has(spans@, begin as int, x),
            decreases end,
        {
            if Self::has_phrase(spans, begin, end, Ghost(len)) {
                break;
            }
            end = end - 1;
        }
        end
    }

    /// The smallest `b` from `start` with `[b, end)` spelling a phrase.
    fn longest_to(spans: &Vec<Vec<bool>>, start: usize, end: usize, Ghost(len): Ghost<int>) -> (begin: usize)
        requires
            spans_cover(spans@, len),
            end <= len,
            exists|b: int| start <= b < end && #[trigger] span_has(spans@, b, end as int),
        ensures
            start <= begin < end,
            span_has(spans@, begin as int, end as int),
            forall|x: int| start <= x < begin ==> !span_has(spans@, x, end as int),
    {
        let mut begin = start;
        loop
            invariant
                spans_cover(spans@, len),
                end <= len,
                start <= begin,
                exists|b: int| begin <= b < end && #[trigger] span_has(spans@, b, end as int),
                forall|x: int| start <= x < begin ==> !span_has(spans@, x, end as int),
            ensures
                start <= begin < end,
                span_has(spans@, begin as int, end as int),
                forall|x: int| start <= x < begin ==> !span_has(spans@, x, end as int),
            decreases end - begin,
        {
            if Self::has_phrase(spans, begin, end, Ghost(len)) {
                break;
            }
            begin = begin + 1;
        }
        begin
    }

    /// Selects again the longest span around the cursor the selection
    /// started at.
    pub fn jump_to_first_selection_point(&mut self, spans: &Vec<Vec<bool>>)
        requires
            old(self).spec_com().wf(),
            spans_cover(spans@, old(self).spec_com().spec_symbols().len() as int),
            old(self).spec_orig() <= old(self).spec_com().spec_symbols().len(),
            old(self).spec_forward_select() ==> init_forward_ok(
                old(self).spec_com(),
                old(self).spec_orig() as int,
                spans@,
            ),
            !old(self).spec_forward_select() ==> init_backward_ok(
                old(self).spec_com(),
                old(self).spec_orig() as int,
                spans@,
            ),
        ensures
            final(self).spec_orig() == old(self).spec_orig(),
            final(self).spec_com() == old(self).spec_com(),
            final(self).spec_forward_select() == old(self).spec_forward_select(),
            final(self).spec_lookup_strategy() == old(self).spec_lookup_strategy(),
            old(self).spec_forward_select() ==> init_forward_result(
                old(self).spec_com(),
                old(self).spec_orig() as int,
                spans@,
                final(self).spec_begin() as int,
                final(self).spec_end() as int,
            ),
            !old(self).spec_forward_select() ==> init_backward_result(
                old(self).spec_com(),
                old(self).spec_orig() as int,
                spans@,
                final(self).spec_begin() as int,
                final(self).spec_end() as int,
            ),
    {
        let orig = self.orig;
        self.init(orig, spans);
    }

    /// Moves the selection to the shortest span that spells a phrase:
    /// forward, from the same start; backward, to the same end.
    pub fn jump_to_last_selection_point(&mut self, spans: &Vec<Vec<bool>>)
        requires
            old(self).spec_com().wf(),
            spans_cover(spans@, old(self).spec_com().spec_symbols().len() as int),
            old(self).spec_begin() < old(self).spec_end() <= old(self).spec_com().spec_symbols().len(),
        ensures
            final(self).spec_orig() == old(self).spec_orig(),
            final(self).spec_com() == old(self).spec_com(),
            final(self).spec_forward_select() == old(self).spec_forward_select(),
            final(self).spec_lookup_strategy() == old(self).spec_lookup_strategy(),
            old(self).spec_forward_select() ==> {
                let b = old(self).spec_begin() as int;
                &&& final(self).spec_begin() == b
                &&& b < final(self).spec_end() <= old(self).spec_end()
                &&& (final(self).spec_end() == old(self).spec_end() || span_has(
                    spans@,
                    b,
                    final(self).spec_end() as int,
                ))
                &&& forall|x: int| b < x < final(self).spec_end() ==> !span_has(spans@, b, x)
            },
            !old(self).spec_forward_select() ==> {
                let e = old(self).spec_end() as int;
                &&& final(self).spec_end() == e
                &&& old(self).spec_begin() <= final(self).spec_begin() < e
                &&& (final(self).spec_begin() == old(self).spec_begin() || span_has(
                    spans@,
                    final(self).spec_begin() as int,
                    e,
                ))
                &&& forall|x: int| final(self).spec_begin() < x < e ==> !span_has(spans@, x, e)
            },
    {
        loop
            invariant
                self.com.wf(),
                self.com == old(self).com,
                self.orig == old(self).orig,
                self.forward_select == old(self).forward_select,
                self.lookup_strategy == old(self).lookup_strategy,
                spans_cover(spans@, self.com.spec_symbols().len() as int),
                self.begin < self.end <= self.com.spec_symbols().len(),
                self.forward_select ==> self.begin == old(self).begin && self.end <= old(self).end && (
                self.end == old(self).end || span_has(spans@, self.begin as int, self.end as int)),
                !self.forward_select ==> self.end == old(self).end && self.begin >= old(self).begin && (
                self.begin == old(self).begin || span_has(spans@, self.begin as int, self.end as int)),
            ensures
                self.spec_forward_select() ==> forall|x: int|
                    self.spec_begin() < x < self.spec_end() ==> !span_has(spans@, self.spec_begin() as int, x),
                !self.spec_forward_select() ==> forall|x: int|
                    self.spec_begin() < x < self.spec_end() ==> !span_has(spans@, x, self.spec_end() as int),
            decreases self.end - self.begin,
        {
            match self.next_selection_point(spans) {
                Some((begin, end)) => {
                    self.begin = begin;
                    self.end = end;
                },
                None => {
                    break;
                },
            }
        }
    }

    /// Moves the selection to the next span that spells a phrase, cycling:
    /// forward, the next shorter span from the same start, else the longest
    /// up to the next break; backward, the next shorter span to the same
    /// end, else the longest from the break before its last symbol.
    pub fn next(&mut self, spans: &Vec<Vec<bool>>)
        requires
            old(self).spec_com().wf(),
            spans_cover(spans@, old(self).spec_com().spec_symbols().len() as int),
            old(self).spec_begin() < old(self).spec_end() <= old(self).spec_com().spec_symbols().len(),
            old(self).spec_forward_select() ==> (exists|e: int|
                old(self).spec_begin() < e < old(self).spec_end() && #[trigger] span_has(
                    spans@,
                    old(self).spec_begin() as int,
                    e,
                )) || (exists|e: int|
                old(self).spec_begin() < e <= spec_next_break(
                    old(self).spec_com().spec_symbols(),
                    old(self).spec_begin() as int,
                ) && #[trigger] span_has(spans@, old(self).spec_begin() as int, e)),
            !old(self).spec_forward_select() ==> (exists|b: int|
                old(self).spec_begin() < b < old(self).spec_end() && #[trigger] span_has(
                    spans@,
                    b,
                    old(self).spec_end() as int,
                )) || (exists|b: int|
                spec_after_previous_break(
                    old(self).spec_com().spec_symbols(),
                    old(self).spec_com().spec_gaps(),
                    old(self).spec_end() - 1,
                ) <= b < old(self).spec_end() && #[trigger] span_has(spans@, b, old(self).spec_end() as int)),
        ensures
            final(self).spec_orig() == old(self).spec_orig(),
            final(self).spec_com() == old(self).spec_com(),
            final(self).spec_forward_select() == old(self).spec_forward_select(),
            final(self).spec_lookup_strategy() == old(self).spec_lookup_strategy(),
            old(self).spec_forward_select() ==> {
                let b = old(self).spec_begin() as int;
                let e = final(self).spec_end() as int;
                let limit = spec_next_break(old(self).spec_com().spec_symbols(), b);
                &&& final(self).spec_begin() == b
                &&& span_has(spans@, b, e)
                &&& if exists|x: int| b < x < old(self).spec_end() && #[trigger] span_has(spans@, b, x) {
                    b < e < old(self).spec_end() && forall|x: int|
                        e < x < old(self).spec_end() ==> !span_has(spans@, b, x)
                } else {
                    b < e <= limit && forall|x: int| e < x <= limit ==> !span_has(spans@, b, x)
                }
            },
            !old(self).spec_forward_select() ==> {
                let e = old(self).spec_end() as int;
                let b = final(self).spec_begin() as int;
                let start = spec_after_previous_break(
                    old(self).spec_com().spec_symbols(),
                    old(self).spec_com().spec_gaps(),
                    e - 1,
                );
                &&& final(self).spec_end() == e
                &&& span_has(spans@, b, e)
                &&& if exists|x: int| old(self).spec_begin() < x < e && #[trigger] span_has(spans@, x, e) {
                    old(self).spec_begin() < b < e && forall|x: int|
                        old(self).spec_begin() < x < b ==> !span_has(spans@, x, e)
                } else {
                    start <= b < e && forall|x: int| start <= x < b ==> !span_has(spans@, x, e)
                }
            },
    {
        let ghost len_i = self.com.spec_symbols().len() as int;
        if self.forward_select {
            let begin = self.begin;
            let mut end = self.end;
            loop
                invariant_except_break
                    begin < end <= self.end,
                    forall|x: int| end <= x < self.end ==> !span_has(spans@, begin as int, x),
                invariant
                    self.forward_select,
                    self.com == old(self).com,
                    self.orig == old(self).orig,
                    self.lookup_strategy == old(self).lookup_strategy,
                    self.forward_select == old(self).forward_select,
                    self.begin == old(self).begin,
                    self.end == old(self).end,
                    spans_cover(spans@, len_i),
                    len_i == self.com.spec_symbols().len(),
                    self.com.wf(),
                    begin == self.begin,
                    self.end <= len_i,
                ensures
                    end == begin,
                    forall|x: int| begin < x < self.end ==> !span_has(spans@, begin as int, x),
                decreases end,
            {
                end = end - 1;
                if begin == end {
                    break;
                }
                if Self::has_phrase(spans, begin, end, Ghost(len_i)) {
                    self.end = end;
                    return;
                }
            }
            let limit = self.next_break_point(begin);
            proof {
                lemma_next_break_bounds(self.com.spec_symbols(), begin as int);
            }
            let end = Self::longest_from(spans, begin, limit, Ghost(len_i));
            self.end = end;
        } else {
            let mut begin = self.begin;
            let end = self.end;
            loop
                invariant_except_break
                    self.begin <= begin < end,
                invariant
                    !self.forward_select,
                    self.com == old(self).com,
                    self.orig == old(self).orig,
                    self.lookup_strategy == old(self).lookup_strategy,
                    self.forward_select == old(self).forward_select,
                    self.begin == old(self).begin,
                    self.end == old(self).end,
                    self.com.wf(),
                    len_i == self.com.spec_symbols().len(),
                    spans_cover(spans@, len_i),
                    end == self.end,
                    self.end <= len_i,
                    self.begin <= begin,
                    forall|x: int| self.begin < x <= begin && x < end ==> !span_has(spans@, x, end as int),
                ensures
                    begin == end,
                decreases end - begin,
            {
                begin = begin + 1;
                if begin == end {
                    break;
                }
                if Self::has_phrase(spans, begin, end, Ghost(len_i)) {
                    self.begin = begin;
                    return;
                }
            }
            let start = self.after_previous_break_point(end - 1);
            proof {
                lemma_after_previous_break_bounds(self.com.spec_symbols(), self.com.spec_gaps(), end - 1);
            }
            let begin = Self::longest_to(spans, start, end, Ghost(len_i));
            self.begin = begin;
        }
    }

    /// The interval that selecting `phrase` produces.
    pub fn interval(&self, phrase: String) -> (r: Interval)
        ensures
            r.start == self.spec_begin(),
            r.end == self.spec_end(),
            r.is_phrase,
            r.text == phrase,
    {
        Interval { start: self.begin, end: self.end, is_phrase: true, text: phrase }
    }
}

} // verus!
