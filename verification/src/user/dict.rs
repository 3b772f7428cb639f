//! The user editable phrase dictionary.
//!
//! Phrases are kept sorted by their syllables, each with its words in the
//! order they were added; every word carries a boost between
//! [`UserDict::MIN`] and [`UserDict::MAX`].

use crate::dictionary::string_table::{spec_interned, spec_interns, StringTable};
use crate::dictionary::LookupStrategy;
use crate::model::{spec_word_orig, WordId, WordOrig};
use crate::zhuyin::{lemma_value_injective, Syllable};
use vstd::prelude::*;
use vstd::slice::slice_to_vec;

verus! {

/// The rank of a syllable in phrase order: by packed value, the empty
/// syllable after every other.
pub open spec fn syl_rank(s: Syllable) -> int {
    if s.spec_value() == 0 {
        0x10000
    } else {
        s.spec_value() as int
    }
}

/// Compares two phrases syllable by syllable: -1, 0 or 1.
pub open spec fn phrase_order(a: Seq<Syllable>, b: Seq<Syllable>) -> int
    decreases a.len(),
{
    if a.len() == 0 {
        if b.len() == 0 {
            0
        } else {
            -1
        }
    } else if b.len() == 0 {
        1
    } else if syl_rank(a[0]) < syl_rank(b[0]) {
        -1
    } else if syl_rank(a[0]) > syl_rank(b[0]) {
        1
    } else {
        phrase_order(a.drop_first(), b.drop_first())
    }
}

/// Phrases compare equal only to themselves, and the order is antisymmetric.
proof fn lemma_key_order_basics(a: Seq<Syllable>, b: Seq<Syllable>)
    ensures
        -1 <= phrase_order(a, b) <= 1,
        phrase_order(a, b) == 0 <==> a == b,
        phrase_order(b, a) == -phrase_order(a, b),
    decreases a.len(),
{
    if a.len() > 0 && b.len() > 0 {
        lemma_key_order_basics(a.drop_first(), b.drop_first());
        if syl_rank(a[0]) == syl_rank(b[0]) {
            lemma_value_injective(a[0], b[0]);
            assert(a[0] == b[0]);
            if a.drop_first() == b.drop_first() {
                assert(a =~= seq![a[0]] + a.drop_first());
                assert(b =~= seq![b[0]] + b.drop_first());
            }
        }
        if a == b {
            assert(a.drop_first() == b.drop_first());
        }
    } else if a.len() == 0 && b.len() == 0 {
        assert(a =~= b);
    }
}

/// The order is transitive.
proof fn lemma_key_order_trans(a: Seq<Syllable>, b: Seq<Syllable>, c: Seq<Syllable>)
    requires
        phrase_order(a, b) < 0,
        phrase_order(b, c) < 0,
    ensures
        phrase_order(a, c) < 0,
    decreases a.len(),
{
    if a.len() > 0 && b.len() > 0 && c.len() > 0 {
        if syl_rank(a[0]) == syl_rank(b[0]) && syl_rank(b[0]) == syl_rank(c[0]) {
            lemma_key_order_trans(a.drop_first(), b.drop_first(), c.drop_first());
        }
    }
}

/// Compares two phrases.
fn compare_keys(a: &[Syllable], b: &[Syllable]) -> (r: i8)
    ensures
        r == phrase_order(a@, b@),
{
    let mut i: usize = 0;
    proof {
        assert(a@.skip(0) =~= a@);
        assert(b@.skip(0) =~= b@);
    }
    while i < a.len() && i < b.len()
        invariant
            0 <= i <= a@.len(),
            i <= b@.len(),
            phrase_order(a@, b@) == phrase_order(a@.skip(i as int), b@.skip(i as int)),
        decreases a@.len() - i,
    {
        let x = if a[i].to_u16() == 0 {
            0x10000u32
        } else {
            a[i].to_u16() as u32
        };
        let y = if b[i].to_u16() == 0 {
            0x10000u32
        } else {
            b[i].to_u16() as u32
        };
        proof {
            assert(a@.skip(i as int)[0] == a@[i as int]);
            assert(b@.skip(i as int)[0] == b@[i as int]);
            assert(a@.skip(i as int).drop_first() =~= a@.skip(i + 1));
            assert(b@.skip(i as int).drop_first() =~= b@.skip(i + 1));
        }
        if x < y {
            return -1;
        }
        if x > y {
            return 1;
        }
        i = i + 1;
    }
    if i < a.len() {
        1
    } else if i < b.len() {
        -1
    } else {
        0
    }
}


/// A phrase and its words, each with its boost.
pub type PhraseRecord = (Seq<Syllable>, Seq<(WordId, i8)>);

/// Where the record of `key` is.
pub open spec fn find_record(recs: Seq<PhraseRecord>, key: Seq<Syllable>) -> Option<int> {
    if exists|i: int| 0 <= i < recs.len() && recs[i].0 == key {
        Some(choose|i: int| 0 <= i < recs.len() && recs[i].0 == key)
    } else {
        None
    }
}

/// The words of `key`, none when it has no record.
pub open spec fn entries_of(recs: Seq<PhraseRecord>, key: Seq<Syllable>) -> Seq<(WordId, i8)> {
    match find_record(recs, key) {
        Some(i) => recs[i].1,
        None => Seq::empty(),
    }
}

/// How many of the first `n` records sort before `key`.
pub open spec fn count_before(recs: Seq<PhraseRecord>, key: Seq<Syllable>, n: int) -> int
    decreases n,
{
    if n <= 0 {
        0
    } else {
        count_before(recs, key, n - 1) + if phrase_order(recs[n - 1].0, key) < 0 {
            1int
        } else {
            0int
        }
    }
}

/// The records with the words of `key` set to `es`; a new record takes its
/// place in phrase order.
pub open spec fn set_entries(recs: Seq<PhraseRecord>, key: Seq<Syllable>, es: Seq<(WordId, i8)>) -> Seq<
    PhraseRecord,
> {
    match find_record(recs, key) {
        Some(i) => recs.update(i, (key, es)),
        None => recs.insert(count_before(recs, key, recs.len() as int), (key, es)),
    }
}

/// The first place of word `w` among `es`.
pub open spec fn first_pos(es: Seq<(WordId, i8)>, w: WordId, n: int) -> Option<int>
    decreases n,
{
    if n <= 0 {
        None
    } else {
        match first_pos(es, w, n - 1) {
            Some(t) => Some(t),
            None => if es[n - 1].0 == w {
                Some(n - 1)
            } else {
                None
            },
        }
    }
}

/// A boost brought back between -100 and 100.
pub open spec fn clamp_boost(b: int) -> i8 {
    if b < -100 {
        -100i8
    } else if b > 100 {
        100i8
    } else {
        b as i8
    }
}

/// Adding `w`: a new word comes last with boost 10, a known word stays.
pub open spec fn spec_insert_entry(es: Seq<(WordId, i8)>, w: WordId) -> Seq<(WordId, i8)> {
    match first_pos(es, w, es.len() as int) {
        Some(t) => es,
        None => es.push((w, 10i8)),
    }
}

/// Boosting `w` by 100, or adding it with boost 10.
pub open spec fn spec_boost_entry(es: Seq<(WordId, i8)>, w: WordId) -> Seq<(WordId, i8)> {
    match first_pos(es, w, es.len() as int) {
        Some(t) => es.update(t, (w, clamp_boost(es[t].1 + 100))),
        None => es.push((w, 10i8)),
    }
}

/// Lowering `w` by 10, or adding it with boost -10.
pub open spec fn spec_deboost_entry(es: Seq<(WordId, i8)>, w: WordId) -> Seq<(WordId, i8)> {
    match first_pos(es, w, es.len() as int) {
        Some(t) => es.update(t, (w, clamp_boost(es[t].1 - 10))),
        None => es.push((w, -10i8)),
    }
}

/// Dropping the first `w`.
pub open spec fn spec_remove_entry(es: Seq<(WordId, i8)>, w: WordId) -> Seq<(WordId, i8)> {
    match first_pos(es, w, es.len() as int) {
        Some(t) => es.remove(t),
        None => es,
    }
}

/// `k` lies in the range of phrases that start with `key`: from `key` up to,
/// and without, `key` followed by the empty syllable.
pub open spec fn in_prefix_range(k: Seq<Syllable>, key: Seq<Syllable>) -> bool {
    phrase_order(key, k) <= 0 && phrase_order(k, key.push(Syllable::spec_empty())) < 0
}

/// The words of the first `n` records whose phrase lies in the range of `key`.
pub open spec fn prefix_entries(recs: Seq<PhraseRecord>, key: Seq<Syllable>, n: int) -> Seq<(WordId, i8)>
    decreases n,
{
    if n <= 0 {
        Seq::empty()
    } else {
        prefix_entries(recs, key, n - 1) + if in_prefix_range(recs[n - 1].0, key) {
            recs[n - 1].1
        } else {
            Seq::empty()
        }
    }
}

/// Every word of the first `n` records, with its phrase and text.
pub open spec fn entry_texts(recs: Seq<PhraseRecord>, table: StringTable, n: int) -> Seq<
    (Seq<Syllable>, Seq<char>),
>
    decreases n,
{
    if n <= 0 {
        Seq::empty()
    } else {
        entry_texts(recs, table, n - 1) + recs[n - 1].1.map_values(
            |e: (WordId, i8)| (recs[n - 1].0, table.spec_text(e.0)->Some_0),
        )
    }
}

/// The phrases are sorted and distinct.
pub open spec fn records_sorted(recs: Seq<PhraseRecord>) -> bool {
    forall|i: int, j: int| 0 <= i < j < recs.len() ==> phrase_order(#[trigger] recs[i].0, #[trigger] recs[j].0) < 0
}

/// Every word is known to the table and has a boost between -100 and 100.
pub open spec fn entries_good(es: Seq<(WordId, i8)>, t: StringTable) -> bool {
    forall|k: int| 0 <= k < es.len() ==> t.spec_text((#[trigger] es[k]).0) is Some && -100 <= es[k].1 <= 100
}

/// A word of a phrase and its boost.
#[derive(Debug, Clone, Copy, PartialEq, Eq, Structural)]
struct UserDictEntry {
    wid: WordId,
    boost: i8,
}

spec fn entry_view(e: UserDictEntry) -> (WordId, i8) {
    (e.wid, e.boost)
}

spec fn record_view(r: (Vec<Syllable>, Vec<UserDictEntry>)) -> PhraseRecord {
    (r.0@, r.1@.map_values(|e: UserDictEntry| entry_view(e)))
}

/// User provided dictionary: phrases the user typed or taught, with a boost
/// for each of their words.
#[derive(Debug)]
pub struct UserDict {
    string_table: StringTable,
    records: Vec<(Vec<Syllable>, Vec<UserDictEntry>)>,
}

impl UserDict {
    /// The lowest boost.
    pub const MIN: i8 = -100;
    /// The highest boost.
    pub const MAX: i8 = 100;

    /// The phrases, in phrase order, with their words in the order they
    /// were added.
    pub closed spec fn spec_records(&self) -> Seq<PhraseRecord> {
        self.records@.map_values(|r: (Vec<Syllable>, Vec<UserDictEntry>)| record_view(r))
    }

    /// The table that gives the words their ids.
    pub closed spec fn spec_table(&self) -> StringTable {
        self.string_table
    }

    /// The dictionary's invariant: phrases sorted and distinct, every word
    /// known to the table, every boost between MIN and MAX.
    pub open spec fn wf(&self) -> bool {
        let recs = self.spec_records();
        let t = self.spec_table();
        &&& t.wf()
        &&& t.lookups_ok()
        &&& t.spec_user_words().len() < 0x1000000
        &&& records_sorted(recs)
        &&& forall|i: int| 0 <= i < recs.len() ==> entries_good(#[trigger] recs[i].1, t)
    }

    /// Room for one more word in the table.
    pub open spec fn has_room(&self) -> bool {
        self.spec_table().spec_user_words().len() + 1 < 0x1000000
    }

    /// Returns an empty dictionary.
    pub fn new(string_table: StringTable) -> (d: UserDict)
        requires
            string_table.wf(),
            string_table.lookups_ok(),
            string_table.spec_user_words().len() < 0x1000000,
        ensures
            d.wf(),
            d.spec_records() == Seq::<PhraseRecord>::empty(),
            d.spec_table() == string_table,
    {
        let d = UserDict { string_table, records: Vec::new() };
        proof {
            assert(d.spec_records() =~= Seq::<PhraseRecord>::empty());
        }
        d
    }

    /// The text of a word.
    pub fn get_text(&self, wid: WordId) -> (r: Option<String>)
        requires
            self.wf(),
        ensures
            r matches Some(s) ==> self.spec_table().spec_text(wid) == Some(s@),
            r is None ==> self.spec_table().spec_text(wid) is None,
    {
        match wid.orig() {
            WordOrig::Unknown => None,
            _ => self.string_table.get_text(wid),
        }
    }
}


/// Records past the first that does not sort before `key` do not count.
proof fn lemma_count_before_rest(recs: Seq<PhraseRecord>, key: Seq<Syllable>, i: int, n: int)
    requires
        0 <= i <= n <= recs.len(),
        count_before(recs, key, i) == i,
        forall|j: int| i <= j < n ==> phrase_order(#[trigger] recs[j].0, key) >= 0,
    ensures
        count_before(recs, key, n) == i,
    decreases n - i,
{
    if n > i {
        lemma_count_before_rest(recs, key, i, n - 1);
    }
}

proof fn lemma_count_before_bound(recs: Seq<PhraseRecord>, key: Seq<Syllable>, n: int)
    requires
        0 <= n,
    ensures
        0 <= count_before(recs, key, n) <= n,
    decreases n,
{
    if n > 0 {
        lemma_count_before_bound(recs, key, n - 1);
    }
}

proof fn lemma_first_pos(es: Seq<(WordId, i8)>, w: WordId, m: int, n: int)
    requires
        0 <= m <= n,
    ensures
        first_pos(es, w, m) matches Some(t) ==> 0 <= t < m && es[t].0 == w && first_pos(es, w, n)
            == Some(t),
    decreases n,
{
    if n > m {
        lemma_first_pos(es, w, m, n - 1);
    } else if m > 0 {
        lemma_first_pos(es, w, m - 1, m - 1);
    }
}

/// `first_pos` finds the first place of the word, if any.
proof fn lemma_first_pos_is_first(es: Seq<(WordId, i8)>, w: WordId, n: int)
    requires
        n <= es.len(),
    ensures
        first_pos(es, w, n) matches Some(t) ==> 0 <= t < n && es[t].0 == w && forall|j: int|
            0 <= j < t ==> #[trigger] es[j].0 != w,
        first_pos(es, w, n) is None ==> forall|j: int| 0 <= j < n ==> #[trigger] es[j].0 != w,
    decreases n,
{
    if n > 0 {
        lemma_first_pos_is_first(es, w, n - 1);
    }
}

/// Boosting a word of a phrase raises its boost by 100, up to 100, and
/// leaves the other words alone; a word not there yet comes last with
/// boost 10.
pub proof fn lemma_boost_entry(es: Seq<(WordId, i8)>, w: WordId)
    ensures
        (forall|j: int| 0 <= j < es.len() ==> #[trigger] es[j].0 != w) ==> spec_boost_entry(es, w)
            == es.push((w, 10i8)),
        forall|t: int|
            0 <= t < es.len() && es[t].0 == w && (forall|j: int| 0 <= j < t ==> #[trigger] es[j].0 != w)
                ==> {
                &&& spec_boost_entry(es, w).len() == es.len()
                &&& spec_boost_entry(es, w)[t].0 == w
                &&& spec_boost_entry(es, w)[t].1 == if es[t].1 + 100 > 100 {
                    100
                } else {
                    es[t].1 + 100
                }
                &&& forall|j: int| 0 <= j < es.len() && j != t ==> #[trigger] spec_boost_entry(es, w)[j] == es[j]
            },
{
    lemma_first_pos_is_first(es, w, es.len() as int);
    assert forall|t: int|
        0 <= t < es.len() && es[t].0 == w && (forall|j: int| 0 <= j < t ==> #[trigger] es[j].0 != w)
            implies first_pos(es, w, es.len() as int) == Some(t) by {
        if let Some(u) = first_pos(es, w, es.len() as int) {
            if u < t {
                assert(es[u].0 != w);
            } else if u > t {
                assert(es[t].0 != w);
            }
        } else {
            assert(es[t].0 != w);
        }
    }
}

/// Lowering a word of a phrase takes 10 off its boost, kept between -100
/// and 100, and leaves the other words alone; a word not there yet comes last with
/// boost -10.
pub proof fn lemma_deboost_entry(es: Seq<(WordId, i8)>, w: WordId)
    ensures
        (forall|j: int| 0 <= j < es.len() ==> #[trigger] es[j].0 != w) ==> spec_deboost_entry(es, w)
            == es.push((w, -10i8)),
        forall|t: int|
            0 <= t < es.len() && es[t].0 == w && (forall|j: int| 0 <= j < t ==> #[trigger] es[j].0 != w)
                ==> {
                &&& spec_deboost_entry(es, w).len() == es.len()
                &&& spec_deboost_entry(es, w)[t].0 == w
                &&& spec_deboost_entry(es, w)[t].1 == if es[t].1 - 10 < -100 {
                    -100
                } else if es[t].1 - 10 > 100 {
                    100
                } else {
                    es[t].1 - 10
                }
                &&& forall|j: int| 0 <= j < es.len() && j != t ==> #[trigger] spec_deboost_entry(es, w)[j] == es[j]
            },
{
    lemma_first_pos_is_first(es, w, es.len() as int);
    assert forall|t: int|
        0 <= t < es.len() && es[t].0 == w && (forall|j: int| 0 <= j < t ==> #[trigger] es[j].0 != w)
            implies first_pos(es, w, es.len() as int) == Some(t) by {
        if let Some(u) = first_pos(es, w, es.len() as int) {
            if u < t {
                assert(es[u].0 != w);
            } else if u > t {
                assert(es[t].0 != w);
            }
        } else {
            assert(es[t].0 != w);
        }
    }
}

/// Adding a word to a phrase puts it last with boost 10 when the phrase does
/// not have it yet, and changes nothing when it does.
pub proof fn lemma_insert_entry(es: Seq<(WordId, i8)>, w: WordId)
    ensures
        (forall|j: int| 0 <= j < es.len() ==> #[trigger] es[j].0 != w) ==> spec_insert_entry(es, w)
            == es.push((w, 10i8)),
        (exists|j: int| 0 <= j < es.len() && #[trigger] es[j].0 == w) ==> spec_insert_entry(es, w) == es,
{
    lemma_first_pos_is_first(es, w, es.len() as int);
}

/// Removing a word from a phrase drops its first place and keeps the others
/// in order; a phrase without the word is left as it is.
pub proof fn lemma_remove_entry(es: Seq<(WordId, i8)>, w: WordId)
    ensures
        (forall|j: int| 0 <= j < es.len() ==> #[trigger] es[j].0 != w) ==> spec_remove_entry(es, w) == es,
        forall|t: int|
            0 <= t < es.len() && es[t].0 == w && (forall|j: int| 0 <= j < t ==> #[trigger] es[j].0 != w)
                ==> spec_remove_entry(es, w) == es.subrange(0, t) + es.subrange(t + 1, es.len() as int),
{
    lemma_first_pos_is_first(es, w, es.len() as int);
    assert forall|t: int|
        0 <= t < es.len() && es[t].0 == w && (forall|j: int| 0 <= j < t ==> #[trigger] es[j].0 != w)
            implies spec_remove_entry(es, w) == es.subrange(0, t) + es.subrange(t + 1, es.len() as int) by {
        if let Some(u) = first_pos(es, w, es.len() as int) {
            if u < t {
                assert(es[u].0 != w);
            } else if u > t {
                assert(es[t].0 != w);
            }
        } else {
            assert(es[t].0 != w);
        }
        assert(es.remove(t) =~= es.subrange(0, t) + es.subrange(t + 1, es.len() as int));
    }
}

/// Setting the words of a phrase twice keeps the second.
proof fn lemma_set_twice(
    recs: Seq<PhraseRecord>,
    key: Seq<Syllable>,
    es1: Seq<(WordId, i8)>,
    es2: Seq<(WordId, i8)>,
    i: int,
)
    requires
        0 <= i < set_entries(recs, key, es1).len(),
        set_entries(recs, key, es1)[i].0 == key,
        forall|a: int, b: int|
            0 <= a < b < set_entries(recs, key, es1).len() ==> phrase_order(
                #[trigger] set_entries(recs, key, es1)[a].0,
                #[trigger] set_entries(recs, key, es1)[b].0,
            ) < 0,
    ensures
        set_entries(recs, key, es1).update(i, (key, es2)) == set_entries(recs, key, es2),
{
    let s1 = set_entries(recs, key, es1);
    match find_record(recs, key) {
        Some(j) => {
            if i != j {
                if i < j {
                    assert(phrase_order(s1[i].0, s1[j].0) < 0);
                } else {
                    assert(phrase_order(s1[j].0, s1[i].0) < 0);
                }
                lemma_key_order_basics(key, key);
            }
            assert(s1.update(i, (key, es2)) =~= recs.update(j, (key, es2)));
        },
        None => {
            let p = count_before(recs, key, recs.len() as int);
            lemma_count_before_bound(recs, key, recs.len() as int);
            if i != p {
                if i < p {
                    assert(recs[i].0 == key);
                } else {
                    assert(recs[i - 1].0 == key);
                }
            }
            assert(s1.update(i, (key, es2)) =~= recs.insert(p, (key, es2)));
        },
    }
}

/// Replacing the words of one phrase by good words keeps the records sorted
/// and good.
proof fn lemma_replace_entries(recs: Seq<PhraseRecord>, i: int, es: Seq<(WordId, i8)>, t: StringTable)
    requires
        records_sorted(recs),
        forall|a: int| 0 <= a < recs.len() ==> entries_good(#[trigger] recs[a].1, t),
        0 <= i < recs.len(),
        entries_good(es, t),
    ensures
        records_sorted(recs.update(i, (recs[i].0, es))),
        forall|a: int|
            0 <= a < recs.len() ==> entries_good(#[trigger] recs.update(i, (recs[i].0, es))[a].1, t),
{
    let n = recs.update(i, (recs[i].0, es));
    assert forall|a: int, b: int| 0 <= a < b < n.len() implies phrase_order(
        #[trigger] n[a].0,
        #[trigger] n[b].0,
    ) < 0 by {
        assert(n[a].0 == recs[a].0 && n[b].0 == recs[b].0);
    }
}

proof fn lemma_entries_push(es: Seq<(WordId, i8)>, w: WordId, b: i8, t: StringTable)
    requires
        entries_good(es, t),
        t.spec_text(w) is Some,
        -100 <= b <= 100,
    ensures
        entries_good(es.push((w, b)), t),
{
    assert forall|k: int| 0 <= k < es.len() + 1 implies t.spec_text((#[trigger] es.push((w, b))[k]).0) is Some
        && -100 <= es.push((w, b))[k].1 <= 100 by {
        if k < es.len() {
            assert(es.push((w, b))[k] == es[k]);
        }
    }
}

proof fn lemma_entries_update(es: Seq<(WordId, i8)>, k0: int, b: i8, t: StringTable)
    requires
        entries_good(es, t),
        0 <= k0 < es.len(),
        -100 <= b <= 100,
    ensures
        entries_good(es.update(k0, (es[k0].0, b)), t),
{
    assert forall|k: int| 0 <= k < es.len() implies t.spec_text(
        (#[trigger] es.update(k0, (es[k0].0, b))[k]).0,
    ) is Some && -100 <= es.update(k0, (es[k0].0, b))[k].1 <= 100 by {
        assert(t.spec_text(es[k].0) is Some);
    }
}

proof fn lemma_entries_remove(es: Seq<(WordId, i8)>, k0: int, t: StringTable)
    requires
        entries_good(es, t),
        0 <= k0 < es.len(),
    ensures
        entries_good(es.remove(k0), t),
{
    assert forall|k: int| 0 <= k < es.len() - 1 implies t.spec_text((#[trigger] es.remove(k0)[k]).0) is Some
        && -100 <= es.remove(k0)[k].1 <= 100 by {
        if k < k0 {
            assert(es.remove(k0)[k] == es[k]);
        } else {
            assert(es.remove(k0)[k] == es[k + 1]);
        }
    }
}

impl UserDict {
    /// The record of `key`, or where it would go.
    fn find_key(&self, key: &[Syllable]) -> (r: Result<usize, usize>)
        requires
            self.wf(),
        ensures
            r matches Ok(i) ==> find_record(self.spec_records(), key@) == Some(i as int),
            r matches Err(p) ==> find_record(self.spec_records(), key@) is None && p == count_before(
                self.spec_records(),
                key@,
                self.spec_records().len() as int,
            ) && (forall|j: int| 0 <= j < p ==> phrase_order(#[trigger] self.spec_records()[j].0, key@) < 0)
                && (forall|j: int|
                p <= j < self.spec_records().len() ==> phrase_order(
                    key@,
                    #[trigger] self.spec_records()[j].0,
                ) < 0),
    {
        let ghost recs = self.spec_records();
        let mut i: usize = 0;
        while i < self.records.len()
            invariant
                self.wf(),
                recs == self.spec_records(),
                recs.len() == self.records@.len(),
                0 <= i <= recs.len(),
                count_before(recs, key@, i as int) == i,
                forall|j: int| 0 <= j < i ==> phrase_order(#[trigger] recs[j].0, key@) < 0,
            decreases recs.len() - i,
        {
            let c = compare_keys(self.records[i].0.as_slice(), key);
            proof {
                assert(recs[i as int].0 == self.records@[i as int].0@);
                lemma_key_order_basics(recs[i as int].0, key@);
            }
            if c == 0 {
                proof {
                    assert forall|j: int| 0 <= j < recs.len() && recs[j].0 == key@ implies j == i by {
                        if j < i {
                            assert(phrase_order(recs[j].0, recs[i as int].0) < 0);
                        } else if j > i {
                            assert(phrase_order(recs[i as int].0, recs[j].0) < 0);
                        }
                        lemma_key_order_basics(key@, key@);
                    }
                }
                return Ok(i);
            }
            if c > 0 {
                proof {
                    assert forall|j: int| i <= j < recs.len() implies phrase_order(
                        key@,
                        #[trigger] recs[j].0,
                    ) < 0 by {
                        if j > i {
                            assert(phrase_order(recs[i as int].0, recs[j].0) < 0);
                            lemma_key_order_trans(key@, recs[i as int].0, recs[j].0);
                        }
                    }
                    assert forall|j: int| i <= j < recs.len() implies phrase_order(
                        #[trigger] recs[j].0,
                        key@,
                    ) >= 0 by {
                        lemma_key_order_basics(key@, recs[j].0);
                    }
                    lemma_count_before_rest(recs, key@, i as int, recs.len() as int);
                    assert forall|j: int| 0 <= j < recs.len() implies recs[j].0 != key@ by {
                        lemma_key_order_basics(recs[j].0, key@);
                        if j >= i {
                            lemma_key_order_basics(key@, recs[j].0);
                        }
                    }
                }
                return Err(i);
            }
            i = i + 1;
        }
        proof {
            assert forall|j: int| 0 <= j < recs.len() implies recs[j].0 != key@ by {
                lemma_key_order_basics(recs[j].0, key@);
            }
        }
        Err(i)
    }
}


impl UserDict {
    /// The record of `key`, made with no word when missing.
    fn record_index(&mut self, key: &[Syllable]) -> (i: usize)
        requires
            old(self).wf(),
        ensures
            final(self).wf(),
            final(self).spec_table() == old(self).spec_table(),
            final(self).spec_records() == set_entries(
                old(self).spec_records(),
                key@,
                entries_of(old(self).spec_records(), key@),
            ),
            i < final(self).spec_records().len(),
            final(self).spec_records()[i as int] == (key@, entries_of(old(self).spec_records(), key@)),
    {
        let ghost recs = self.spec_records();
        match self.find_key(key) {
            Ok(i) => {
                proof {
                    assert(recs.update(i as int, (key@, recs[i as int].1)) =~= recs);
                }
                i
            },
            Err(p) => {
                proof {
                    lemma_count_before_bound(recs, key@, recs.len() as int);
                }
                self.records.insert(p, (slice_to_vec(key), Vec::new()));
                proof {
                    let n = self.spec_records();
                    assert(self.records@[p as int].1@.map_values(|e: UserDictEntry| entry_view(e))
                        =~= Seq::<(WordId, i8)>::empty());
                    assert(n =~= recs.insert(p as int, (key@, Seq::<(WordId, i8)>::empty())));
                    assert forall|a: int, b: int| 0 <= a < b < n.len() implies phrase_order(
                        #[trigger] n[a].0,
                        #[trigger] n[b].0,
                    ) < 0 by {
                        if b < p {
                            assert(n[a] == recs[a] && n[b] == recs[b]);
                        } else if b == p {
                            assert(n[a] == recs[a]);
                        } else if a < p {
                            assert(n[a] == recs[a] && n[b] == recs[b - 1]);
                            assert(phrase_order(recs[a].0, key@) < 0);
                            assert(phrase_order(key@, recs[b - 1].0) < 0);
                            lemma_key_order_trans(recs[a].0, key@, recs[b - 1].0);
                        } else if a == p {
                            assert(n[b] == recs[b - 1]);
                        } else {
                            assert(n[a] == recs[a - 1] && n[b] == recs[b - 1]);
                        }
                    }
                    assert forall|a: int| 0 <= a < n.len() implies entries_good(
                        #[trigger] n[a].1,
                        self.spec_table(),
                    ) by {
                        if a < p {
                            assert(n[a] == recs[a]);
                        } else if a > p {
                            assert(n[a] == recs[a - 1]);
                        }
                    }
                }
                p
            },
        }
    }

    /// Where word `wid` first appears in record `i`.
    fn word_pos(&self, i: usize, wid: WordId) -> (r: Option<usize>)
        requires
            i < self.spec_records().len(),
        ensures
            r matches Some(t) ==> first_pos(
                self.spec_records()[i as int].1,
                wid,
                self.spec_records()[i as int].1.len() as int,
            ) == Some(t as int),
            r is None ==> first_pos(
                self.spec_records()[i as int].1,
                wid,
                self.spec_records()[i as int].1.len() as int,
            ) is None,
    {
        let ghost es = self.spec_records()[i as int].1;
        let entries = &self.records[i].1;
        let mut t: usize = 0;
        while t < entries.len()
            invariant
                i < self.spec_records().len(),
                es == self.spec_records()[i as int].1,
                es == entries@.map_values(|e: UserDictEntry| entry_view(e)),
                0 <= t <= entries@.len(),
                first_pos(es, wid, t as int) is None,
            decreases entries@.len() - t,
        {
            if entries[t].wid == wid {
                proof {
                    assert(es[t as int].0 == wid);
                    lemma_first_pos(es, wid, t + 1, es.len() as int);
                }
                return Some(t);
            }
            t = t + 1;
        }
        None
    }

    /// Adds `word` to the phrase `syllables` with boost 10; a word the phrase
    /// already has stays as it is.
    pub fn insert(&mut self, syllables: &[Syllable], word: &str)
        requires
            old(self).wf(),
            old(self).has_room(),
        ensures
            final(self).wf(),
            spec_interns(old(self).spec_table(), final(self).spec_table(), word@),
            final(self).spec_records() == set_entries(
                old(self).spec_records(),
                syllables@,
                spec_insert_entry(
                    entries_of(old(self).spec_records(), syllables@),
                    spec_interned(old(self).spec_table(), word@),
                ),
            ),
    {
        let ghost recs = self.spec_records();
        let wid = self.string_table.intern(word);
        proof {
            assert(self.spec_table().spec_text(wid) is Some);
        }
        let i = self.record_index(syllables);
        let ghost es = entries_of(recs, syllables@);
        let ghost s1 = self.spec_records();
        match self.word_pos(i, wid) {
            Some(_) => {
                proof {
                    assert(s1.update(i as int, (syllables@, es)) =~= s1);
                    lemma_set_twice(recs, syllables@, es, es, i as int);
                }
            },
            None => {
                self.records[i].1.push(UserDictEntry { wid, boost: 10 });
                proof {
                    let n = self.spec_records();
                    assert(self.records@[i as int].1@.map_values(|e: UserDictEntry| entry_view(e))
                        =~= es.push((wid, 10i8)));
                    assert(n =~= s1.update(i as int, (syllables@, es.push((wid, 10i8)))));
                    lemma_set_twice(recs, syllables@, es, es.push((wid, 10i8)), i as int);
                    assert(entries_good(s1[i as int].1, self.spec_table()));
                    lemma_entries_push(es, wid, 10i8, self.spec_table());
                    lemma_replace_entries(s1, i as int, es.push((wid, 10i8)), self.spec_table());
                }
            },
        }
    }

    /// Raises the boost of `word` in the phrase `syllables` by 100, up to
    /// MAX; a new word comes in with boost 10.
    pub fn boost(&mut self, syllables: &[Syllable], word: &str)
        requires
            old(self).wf(),
            old(self).has_room(),
        ensures
            final(self).wf(),
            spec_interns(old(self).spec_table(), final(self).spec_table(), word@),
            final(self).spec_records() == set_entries(
                old(self).spec_records(),
                syllables@,
                spec_boost_entry(
                    entries_of(old(self).spec_records(), syllables@),
                    spec_interned(old(self).spec_table(), word@),
                ),
            ),
    {
        let ghost recs = self.spec_records();
        let wid = self.string_table.intern(word);
        proof {
            assert(self.spec_table().spec_text(wid) is Some);
        }
        let i = self.record_index(syllables);
        let ghost es = entries_of(recs, syllables@);
        let ghost s1 = self.spec_records();
        match self.word_pos(i, wid) {
            Some(t) => {
                proof {
                    lemma_first_pos(es, wid, es.len() as int, es.len() as int);
                }
                let b = self.records[i].1[t].boost as i16 + 100;
                let nb: i8 = if b > 100 {
                    100
                } else {
                    b as i8
                };
                self.records[i].1.set(t, UserDictEntry { wid, boost: nb });
                proof {
                    let n = self.spec_records();
                    let ne = es.update(t as int, (wid, clamp_boost(es[t as int].1 + 100)));
                    assert(self.records@[i as int].1@.map_values(|e: UserDictEntry| entry_view(e)) =~= ne);
                    assert(n =~= s1.update(i as int, (syllables@, ne)));
                    lemma_set_twice(recs, syllables@, es, ne, i as int);
                    assert(entries_good(s1[i as int].1, self.spec_table()));
                    lemma_entries_update(es, t as int, ne[t as int].1, self.spec_table());
                    assert(es.update(t as int, (es[t as int].0, ne[t as int].1)) =~= ne);
                    lemma_replace_entries(s1, i as int, ne, self.spec_table());
                }
            },
            None => {
                self.records[i].1.push(UserDictEntry { wid, boost: 10 });
                proof {
                    let n = self.spec_records();
                    assert(self.records@[i as int].1@.map_values(|e: UserDictEntry| entry_view(e))
                        =~= es.push((wid, 10i8)));
                    assert(n =~= s1.update(i as int, (syllables@, es.push((wid, 10i8)))));
                    lemma_set_twice(recs, syllables@, es, es.push((wid, 10i8)), i as int);
                    assert(entries_good(s1[i as int].1, self.spec_table()));
                    lemma_entries_push(es, wid, 10i8, self.spec_table());
                    lemma_replace_entries(s1, i as int, es.push((wid, 10i8)), self.spec_table());
                }
            },
        }
    }

    /// Lowers the boost of `word` in the phrase `syllables` by 10, down to
    /// MIN; a new word comes in with boost -10.
    pub fn deboost(&mut self, syllables: &[Syllable], word: &str)
        requires
            old(self).wf(),
            old(self).has_room(),
        ensures
            final(self).wf(),
            spec_interns(old(self).spec_table(), final(self).spec_table(), word@),
            final(self).spec_records() == set_entries(
                old(self).spec_records(),
                syllables@,
                spec_deboost_entry(
                    entries_of(old(self).spec_records(), syllables@),
                    spec_interned(old(self).spec_table(), word@),
                ),
            ),
    {
        let ghost recs = self.spec_records();
        let wid = self.string_table.intern(word);
        proof {
            assert(self.spec_table().spec_text(wid) is Some);
        }
        let i = self.record_index(syllables);
        let ghost es = entries_of(recs, syllables@);
        let ghost s1 = self.spec_records();
        match self.word_pos(i, wid) {
            Some(t) => {
                proof {
                    lemma_first_pos(es, wid, es.len() as int, es.len() as int);
                }
                let b = self.records[i].1[t].boost as i16 - 10;
                let nb: i8 = if b < -100 {
                    -100
                } else {
                    b as i8
                };
                self.records[i].1.set(t, UserDictEntry { wid, boost: nb });
                proof {
                    let n = self.spec_records();
                    let ne = es.update(t as int, (wid, clamp_boost(es[t as int].1 - 10)));
                    assert(self.records@[i as int].1@.map_values(|e: UserDictEntry| entry_view(e)) =~= ne);
                    assert(n =~= s1.update(i as int, (syllables@, ne)));
                    lemma_set_twice(recs, syllables@, es, ne, i as int);
                    assert(entries_good(s1[i as int].1, self.spec_table()));
                    lemma_entries_update(es, t as int, ne[t as int].1, self.spec_table());
                    assert(es.update(t as int, (es[t as int].0, ne[t as int].1)) =~= ne);
                    lemma_replace_entries(s1, i as int, ne, self.spec_table());
                }
            },
            None => {
                self.records[i].1.push(UserDictEntry { wid, boost: -10 });
                proof {
                    let n = self.spec_records();
                    assert(self.records@[i as int].1@.map_values(|e: UserDictEntry| entry_view(e))
                        =~= es.push((wid, -10i8)));
                    assert(n =~= s1.update(i as int, (syllables@, es.push((wid, -10i8)))));
                    lemma_set_twice(recs, syllables@, es, es.push((wid, -10i8)), i as int);
                    assert(entries_good(s1[i as int].1, self.spec_table()));
                    lemma_entries_push(es, wid, -10i8, self.spec_table());
                    lemma_replace_entries(s1, i as int, es.push((wid, -10i8)), self.spec_table());
                }
            },
        }
    }

    /// Removes `word` from the phrase `syllables`.
    pub fn remove(&mut self, syllables: &[Syllable], word: &str)
        requires
            old(self).wf(),
            old(self).has_room(),
        ensures
            final(self).wf(),
            spec_interns(old(self).spec_table(), final(self).spec_table(), word@),
            final(self).spec_records() == set_entries(
                old(self).spec_records(),
                syllables@,
                spec_remove_entry(
                    entries_of(old(self).spec_records(), syllables@),
                    spec_interned(old(self).spec_table(), word@),
                ),
            ),
    {
        let ghost recs = self.spec_records();
        let wid = self.string_table.intern(word);
        proof {
            assert(self.spec_table().spec_text(wid) is Some);
        }
        let i = self.record_index(syllables);
        let ghost es = entries_of(recs, syllables@);
        let ghost s1 = self.spec_records();
        match self.word_pos(i, wid) {
            Some(t) => {
                proof {
                    lemma_first_pos(es, wid, es.len() as int, es.len() as int);
                }
                self.records[i].1.remove(t);
                proof {
                    let n = self.spec_records();
                    assert(self.records@[i as int].1@.map_values(|e: UserDictEntry| entry_view(e))
                        =~= es.remove(t as int));
                    assert(n =~= s1.update(i as int, (syllables@, es.remove(t as int))));
                    lemma_set_twice(recs, syllables@, es, es.remove(t as int), i as int);
                    assert(entries_good(s1[i as int].1, self.spec_table()));
                    lemma_entries_remove(es, t as int, self.spec_table());
                    lemma_replace_entries(s1, i as int, es.remove(t as int), self.spec_table());
                }
            },
            None => {
                proof {
                    assert(s1.update(i as int, (syllables@, es)) =~= s1);
                    lemma_set_twice(recs, syllables@, es, es, i as int);
                }
            },
        }
    }
}


/// The words that a lookup of `key` gives: the words of `key` itself, or
/// with the partial prefix strategy those of every phrase that starts with
/// `key`, in phrase order.
pub open spec fn spec_lookup_records(recs: Seq<PhraseRecord>, key: Seq<Syllable>, strategy: LookupStrategy) -> Seq<
    (WordId, i8),
> {
    match strategy {
        LookupStrategy::Standard => entries_of(recs, key),
        LookupStrategy::FuzzyPartialPrefix => prefix_entries(recs, key, recs.len() as int),
    }
}

/// The words of a record, as pairs.
fn entry_pairs(entries: &Vec<UserDictEntry>, out: &mut Vec<(WordId, i8)>)
    ensures
        final(out)@ == old(out)@ + entries@.map_values(|e: UserDictEntry| entry_view(e)),
{
    let ghost base = out@;
    let mut t: usize = 0;
    while t < entries.len()
        invariant
            0 <= t <= entries@.len(),
            out@ == base + entries@.map_values(|e: UserDictEntry| entry_view(e)).take(t as int),
        decreases entries@.len() - t,
    {
        out.push((entries[t].wid, entries[t].boost));
        proof {
            let v = entries@.map_values(|e: UserDictEntry| entry_view(e));
            assert(v.take(t + 1) =~= v.take(t as int).push(v[t as int]));
        }
        t = t + 1;
    }
    proof {
        let v = entries@.map_values(|e: UserDictEntry| entry_view(e));
        assert(v.take(entries@.len() as int) =~= v);
    }
}

impl UserDict {
    /// The words of the phrase `syllables`, each with its boost.
    pub fn lookup(&self, syllables: &[Syllable], strategy: LookupStrategy) -> (r: Vec<(WordId, i8)>)
        requires
            self.wf(),
        ensures
            r@ == spec_lookup_records(self.spec_records(), syllables@, strategy),
    {
        let ghost recs = self.spec_records();
        let mut out: Vec<(WordId, i8)> = Vec::new();
        match strategy {
            LookupStrategy::Standard => {
                if let Ok(i) = self.find_key(syllables) {
                    entry_pairs(&self.records[i].1, &mut out);
                    proof {
                        assert(out@ =~= recs[i as int].1);
                    }
                }
            },
            LookupStrategy::FuzzyPartialPrefix => {
                let mut end = slice_to_vec(syllables);
                end.push(Syllable::new());
                let mut i: usize = 0;
                proof {
                    assert(out@ =~= prefix_entries(recs, syllables@, 0));
                }
                while i < self.records.len()
                    invariant
                        recs == self.spec_records(),
                        recs.len() == self.records@.len(),
                        end@ == syllables@.push(Syllable::spec_empty()),
                        0 <= i <= recs.len(),
                        out@ == prefix_entries(recs, syllables@, i as int),
                    decreases recs.len() - i,
                {
                    let k = self.records[i].0.as_slice();
                    proof {
                        assert(recs[i as int].0 == k@);
                    }
                    if compare_keys(syllables, k) <= 0 && compare_keys(k, end.as_slice()) < 0 {
                        entry_pairs(&self.records[i].1, &mut out);
                    } else {
                        proof {
                            assert(out@ + Seq::<(WordId, i8)>::empty() =~= out@);
                        }
                    }
                    i = i + 1;
                }
            },
        }
        out
    }

    /// Every word of every phrase, with the phrase and the word's text, in
    /// phrase order.
    pub fn entries(&self) -> (r: Vec<(Vec<Syllable>, String)>)
        requires
            self.wf(),
        ensures
            r@.len() == entry_texts(self.spec_records(), self.spec_table(), self.spec_records().len() as int).len(),
            forall|k: int|
                0 <= k < r@.len() ==> (#[trigger] r@[k].0@, r@[k].1@) == entry_texts(
                    self.spec_records(),
                    self.spec_table(),
                    self.spec_records().len() as int,
                )[k],
    {
        let ghost recs = self.spec_records();
        let ghost t = self.spec_table();
        let mut out: Vec<(Vec<Syllable>, String)> = Vec::new();
        let mut i: usize = 0;
        while i < self.records.len()
            invariant
                self.wf(),
                recs == self.spec_records(),
                t == self.spec_table(),
                recs.len() == self.records@.len(),
                0 <= i <= recs.len(),
                out@.len() == entry_texts(recs, t, i as int).len(),
                forall|k: int|
                    0 <= k < out@.len() ==> (#[trigger] out@[k].0@, out@[k].1@) == entry_texts(
                        recs,
                        t,
                        i as int,
                    )[k],
            decreases recs.len() - i,
        {
            let key = &self.records[i].0;
            let entries = &self.records[i].1;
            let ghost before = entry_texts(recs, t, i as int);
            let ghost es = recs[i as int].1;
            let ghost add = es.map_values(|e: (WordId, i8)| (recs[i as int].0, t.spec_text(e.0)->Some_0));
            proof {
                assert(entries_good(es, t));
            }
            let mut j: usize = 0;
            while j < entries.len()
                invariant
                    self.wf(),
                    t == self.spec_table(),
                    0 <= i < recs.len(),
                    recs == self.spec_records(),
                    es == recs[i as int].1,
                    entries_good(es, t),
                    key@ == recs[i as int].0,
                    es == entries@.map_values(|e: UserDictEntry| entry_view(e)),
                    add == es.map_values(|e: (WordId, i8)| (recs[i as int].0, t.spec_text(e.0)->Some_0)),
                    0 <= j <= entries@.len(),
                    out@.len() == before.len() + j,
                    forall|k: int|
                        0 <= k < out@.len() ==> (#[trigger] out@[k].0@, out@[k].1@) == (before + add)[k],
                decreases entries@.len() - j,
            {
                let wid = entries[j].wid;
                proof {
                    assert(es[j as int].0 == wid);
                    assert(t.spec_text(wid) is Some);
                }
                let text = match self.get_text(wid) {
                    Some(s) => s,
                    None => {
                        proof {
                            assert(false);
                        }
                        String::new()
                    },
                };
                let ghost before_out = out@;
                out.push((slice_to_vec(key.as_slice()), text));
                proof {
                    assert forall|k: int| 0 <= k < out@.len() implies (#[trigger] out@[k].0@, out@[k].1@)
                        == (before + add)[k] by {
                        if k < before_out.len() {
                            assert(out@[k] == before_out[k]);
                        }
                    }
                }
                j = j + 1;
            }
            proof {
                assert(entry_texts(recs, t, i + 1) =~= before + add);
            }
            i = i + 1;
        }
        out
    }
}


/// In sorted records, the records before `key` are those counted before it.
proof fn lemma_count_before_prefix(recs: Seq<PhraseRecord>, key: Seq<Syllable>, n: int)
    requires
        records_sorted(recs),
        0 <= n <= recs.len(),
    ensures
        forall|i: int| 0 <= i < n ==> (i < count_before(recs, key, n) <==> phrase_order(#[trigger] recs[i].0, key) < 0),
    decreases n,
{
    if n > 0 {
        lemma_count_before_prefix(recs, key, n - 1);
        lemma_count_before_bound(recs, key, n - 1);
        if phrase_order(recs[n - 1].0, key) < 0 {
            assert forall|i: int| 0 <= i < n - 1 implies phrase_order(#[trigger] recs[i].0, key) < 0 by {
                assert(phrase_order(recs[i].0, recs[n - 1].0) < 0);
                lemma_key_order_trans(recs[i].0, recs[n - 1].0, key);
            }
        }
    }
}

/// Setting the words of a phrase: that phrase reads back the words set, every
/// other phrase reads back what it had, and the phrases stay sorted.
pub proof fn lemma_set_entries_read(
    recs: Seq<PhraseRecord>,
    key: Seq<Syllable>,
    es: Seq<(WordId, i8)>,
    other: Seq<Syllable>,
)
    requires
        records_sorted(recs),
    ensures
        records_sorted(set_entries(recs, key, es)),
        entries_of(set_entries(recs, key, es), key) == es,
        other != key ==> entries_of(set_entries(recs, key, es), other) == entries_of(recs, other),
{
    let n = set_entries(recs, key, es);
    match find_record(recs, key) {
        Some(j) => {
            assert forall|a: int, b: int| 0 <= a < b < n.len() implies phrase_order(
                #[trigger] n[a].0,
                #[trigger] n[b].0,
            ) < 0 by {
                assert(n[a].0 == recs[a].0 && n[b].0 == recs[b].0);
            }
        },
        None => {
            let p = count_before(recs, key, recs.len() as int);
            lemma_count_before_bound(recs, key, recs.len() as int);
            lemma_count_before_prefix(recs, key, recs.len() as int);
            assert forall|a: int, b: int| 0 <= a < b < n.len() implies phrase_order(
                #[trigger] n[a].0,
                #[trigger] n[b].0,
            ) < 0 by {
                if b < p {
                    assert(n[a] == recs[a] && n[b] == recs[b]);
                } else if b == p {
                    assert(n[a] == recs[a]);
                } else if a < p {
                    assert(n[a] == recs[a] && n[b] == recs[b - 1]);
                    assert(phrase_order(recs[b - 1].0, key) >= 0);
                    assert(recs[b - 1].0 != key);
                    lemma_key_order_basics(recs[b - 1].0, key);
                    lemma_key_order_trans(recs[a].0, key, recs[b - 1].0);
                } else if a == p {
                    assert(n[b] == recs[b - 1]);
                    assert(phrase_order(recs[b - 1].0, key) >= 0);
                    assert(recs[b - 1].0 != key);
                    lemma_key_order_basics(recs[b - 1].0, key);
                } else {
                    assert(n[a] == recs[a - 1] && n[b] == recs[b - 1]);
                }
            }
        },
    }
    // a phrase appears at most once
    assert forall|i: int, j: int| 0 <= i < n.len() && 0 <= j < n.len() && n[i].0 == n[j].0 implies i == j by {
        if i < j {
            assert(phrase_order(n[i].0, n[j].0) < 0);
        } else if j < i {
            assert(phrase_order(n[j].0, n[i].0) < 0);
        }
        lemma_key_order_basics(n[i].0, n[j].0);
    }
    assert forall|i: int, j: int| 0 <= i < recs.len() && 0 <= j < recs.len() && recs[i].0 == recs[j].0 implies i == j by {
        if i < j {
            assert(phrase_order(recs[i].0, recs[j].0) < 0);
        } else if j < i {
            assert(phrase_order(recs[j].0, recs[i].0) < 0);
        }
        lemma_key_order_basics(recs[i].0, recs[j].0);
    }
    let kidx = match find_record(recs, key) {
        Some(j) => j,
        None => count_before(recs, key, recs.len() as int),
    };
    lemma_count_before_bound(recs, key, recs.len() as int);
    assert(n[kidx].0 == key && n[kidx].1 == es);
    assert(find_record(n, key) == Some(kidx));
    if other != key {
        match find_record(recs, other) {
            Some(i) => {
                let i2: int = match find_record(recs, key) {
                    Some(j) => i,
                    None => if i < kidx {
                        i
                    } else {
                        i + 1
                    },
                };
                assert(n[i2] == recs[i]);
                assert(find_record(n, other) == Some(i2));
            },
            None => {
                assert forall|i: int| 0 <= i < n.len() implies n[i].0 != other by {
                    if i != kidx {
                        match find_record(recs, key) {
                            Some(j) => assert(n[i] == recs[i]),
                            None => if i < kidx {
                                assert(n[i] == recs[i]);
                            } else {
                                assert(n[i] == recs[i - 1]);
                            },
                        }
                    }
                }
            },
        }
    }
}

/// A word added to a phrase is found by a lookup of the phrase.
pub proof fn lemma_inserted_word_found(recs: Seq<PhraseRecord>, key: Seq<Syllable>, w: WordId)
    requires
        records_sorted(recs),
    ensures
        exists|b: i8|
            spec_lookup_records(
                set_entries(recs, key, spec_insert_entry(entries_of(recs, key), w)),
                key,
                LookupStrategy::Standard,
            ).contains((w, b)),
{
    let es = entries_of(recs, key);
    let ne = spec_insert_entry(es, w);
    lemma_set_entries_read(recs, key, ne, key);
    let found = spec_lookup_records(set_entries(recs, key, ne), key, LookupStrategy::Standard);
    assert(found == ne);
    match first_pos(es, w, es.len() as int) {
        Some(t) => {
            lemma_first_pos(es, w, es.len() as int, es.len() as int);
            assert(ne[t] == (w, es[t].1));
            assert(found.contains((w, es[t].1)));
        },
        None => {
            assert(ne[es.len() as int] == (w, 10i8));
            assert(found.contains((w, 10i8)));
        },
    }
}

} // verus!
