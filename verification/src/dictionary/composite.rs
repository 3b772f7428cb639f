//! Merging what the dictionaries know of a span of syllables.
//!
//! The system dictionary gives the words; the rare-word dictionary marks some
//! of them down; the learned history gives words a probability; the user's own
//! dictionary gives a preference. Each word appears once, in the order in
//! which it was first found.

use crate::lm::static_dict::StaticDict;
use crate::model::WordId;
use crate::user::dict::UserDict;
use crate::dictionary::LookupStrategy;
use crate::zhuyin::Syllable;
use vstd::prelude::*;

verus! {

/// The preference given to a word that the rare-word dictionary lists.
pub const RARE_BOOST: i8 = -100;

/// A word found for a span of syllables, with what the dictionaries say of it.
#[derive(Debug, Clone, Copy, PartialEq, Eq, Structural)]
pub struct Found {
    /// The word.
    pub wid: WordId,
    /// Where, among the learned history's answers, the word's probability
    /// stands.
    pub history: Option<usize>,
    /// The user's preference, or the rare-word mark.
    pub user_pref: Option<i8>,
}

/// Whether `i` is the first position of `wid` in `res`.
pub open spec fn is_first_with(res: Seq<Found>, wid: WordId, i: int) -> bool {
    &&& 0 <= i < res.len()
    &&& res[i].wid == wid
    &&& forall|j: int| 0 <= j < i ==> (#[trigger] res[j]).wid != wid
}

/// Changes the first entry of `wid` with `change`, or appends `fresh` when
/// the word is not there yet.
pub open spec fn upsert(
    res: Seq<Found>,
    wid: WordId,
    change: spec_fn(Found) -> Found,
    fresh: Found,
) -> Seq<Found> {
    if exists|i: int| is_first_with(res, wid, i) {
        let i = choose|i: int| is_first_with(res, wid, i);
        res.update(i, change(res[i]))
    } else {
        res.push(fresh)
    }
}

/// The system dictionary's words, with nothing said of them yet.
pub open spec fn base_found(words: Seq<WordId>) -> Seq<Found> {
    words.map_values(|w: WordId| Found { wid: w, history: None, user_pref: None })
}

pub open spec fn with_pref(p: i8) -> spec_fn(Found) -> Found {
    |f: Found| Found { wid: f.wid, history: f.history, user_pref: Some(p) }
}

pub open spec fn with_history(j: usize) -> spec_fn(Found) -> Found {
    |f: Found| Found { wid: f.wid, history: Some(j), user_pref: f.user_pref }
}

/// Marks the rare words, in order.
pub open spec fn fold_rare(res: Seq<Found>, rare: Seq<WordId>) -> Seq<Found>
    decreases rare.len(),
{
    if rare.len() == 0 {
        res
    } else {
        let w = rare.last();
        upsert(
            fold_rare(res, rare.drop_last()),
            w,
            with_pref(RARE_BOOST),
            Found { wid: w, history: None, user_pref: Some(RARE_BOOST) },
        )
    }
}

/// Attaches the history's answers, in order: a word's entry points at the
/// last answer for it.
pub open spec fn fold_history(res: Seq<Found>, hist: Seq<WordId>) -> Seq<Found>
    decreases hist.len(),
{
    if hist.len() == 0 {
        res
    } else {
        let w = hist.last();
        let j = (hist.len() - 1) as usize;
        upsert(
            fold_history(res, hist.drop_last()),
            w,
            with_history(j),
            Found { wid: w, history: Some(j), user_pref: None },
        )
    }
}

/// Attaches the user's preferences, in order.
pub open spec fn fold_user(res: Seq<Found>, user: Seq<(WordId, i8)>) -> Seq<Found>
    decreases user.len(),
{
    if user.len() == 0 {
        res
    } else {
        let (w, p) = user.last();
        upsert(
            fold_user(res, user.drop_last()),
            w,
            with_pref(p),
            Found { wid: w, history: None, user_pref: Some(p) },
        )
    }
}

/// The merged answer of the dictionaries.
pub open spec fn spec_merge(
    words: Seq<WordId>,
    rare: Seq<WordId>,
    hist: Seq<WordId>,
    user: Seq<(WordId, i8)>,
) -> Seq<Found> {
    fold_user(fold_history(fold_rare(base_found(words), rare), hist), user)
}

/// Whether `w` is among the words of `res`.
pub open spec fn has_word(res: Seq<Found>, w: WordId) -> bool {
    exists|i: int| 0 <= i < res.len() && (#[trigger] res[i]).wid == w
}

/// Whether `w` is among the words that the user's dictionary answered.
pub open spec fn user_has_word(user: Seq<(WordId, i8)>, w: WordId) -> bool {
    exists|i: int| 0 <= i < user.len() && (#[trigger] user[i]).0 == w
}

proof fn lemma_upsert_words(res: Seq<Found>, wid: WordId, change: spec_fn(Found) -> Found, fresh: Found, w: WordId)
    requires
        forall|f: Found| #[trigger] change(f).wid == f.wid,
        fresh.wid == wid,
    ensures
        has_word(upsert(res, wid, change, fresh), w) <==> (has_word(res, w) || w == wid),
{
    let out = upsert(res, wid, change, fresh);
    if exists|i: int| is_first_with(res, wid, i) {
        let i = choose|i: int| is_first_with(res, wid, i);
        assert(change(res[i]).wid == res[i].wid);
        assert(out[i].wid == wid);
        if has_word(res, w) {
            let k = choose|k: int| 0 <= k < res.len() && (#[trigger] res[k]).wid == w;
            assert(out[k].wid == w);
        }
        if has_word(out, w) {
            let k = choose|k: int| 0 <= k < out.len() && (#[trigger] out[k]).wid == w;
            if k != i {
                assert(res[k].wid == w);
            }
        }
    } else {
        assert(out[res.len() as int].wid == wid);
        if has_word(res, w) {
            let k = choose|k: int| 0 <= k < res.len() && (#[trigger] res[k]).wid == w;
            assert(out[k].wid == w);
        }
        if has_word(out, w) {
            let k = choose|k: int| 0 <= k < out.len() && (#[trigger] out[k]).wid == w;
            if k < res.len() {
                assert(res[k].wid == w);
            }
        }
    }
}

proof fn lemma_rare_words(res: Seq<Found>, rare: Seq<WordId>, w: WordId)
    ensures
        has_word(fold_rare(res, rare), w) <==> (has_word(res, w) || rare.contains(w)),
    decreases rare.len(),
{
    if rare.len() > 0 {
        lemma_rare_words(res, rare.drop_last(), w);
        lemma_upsert_words(
            fold_rare(res, rare.drop_last()),
            rare.last(),
            with_pref(RARE_BOOST),
            Found { wid: rare.last(), history: None, user_pref: Some(RARE_BOOST) },
            w,
        );
        if rare.contains(w) && !rare.drop_last().contains(w) {
            let k = choose|k: int| 0 <= k < rare.len() && rare[k] == w;
            if k < rare.len() - 1 {
                assert(rare.drop_last()[k] == w);
            }
        }
        if rare.drop_last().contains(w) {
            let k = choose|k: int| 0 <= k < rare.drop_last().len() && rare.drop_last()[k] == w;
            assert(rare[k] == w);
        }
    }
}

proof fn lemma_history_words(res: Seq<Found>, hist: Seq<WordId>, w: WordId)
    ensures
        has_word(fold_history(res, hist), w) <==> (has_word(res, w) || hist.contains(w)),
    decreases hist.len(),
{
    if hist.len() > 0 {
        let j = (hist.len() - 1) as usize;
        lemma_history_words(res, hist.drop_last(), w);
        lemma_upsert_words(
            fold_history(res, hist.drop_last()),
            hist.last(),
            with_history(j),
            Found { wid: hist.last(), history: Some(j), user_pref: None },
            w,
        );
        if hist.contains(w) && !hist.drop_last().contains(w) {
            let k = choose|k: int| 0 <= k < hist.len() && hist[k] == w;
            if k < hist.len() - 1 {
                assert(hist.drop_last()[k] == w);
            }
        }
        if hist.drop_last().contains(w) {
            let k = choose|k: int| 0 <= k < hist.drop_last().len() && hist.drop_last()[k] == w;
            assert(hist[k] == w);
        }
    }
}

proof fn lemma_user_words(res: Seq<Found>, user: Seq<(WordId, i8)>, w: WordId)
    ensures
        has_word(fold_user(res, user), w) <==> (has_word(res, w) || user_has_word(user, w)),
    decreases user.len(),
{
    if user.len() > 0 {
        let (u, p) = user.last();
        lemma_user_words(res, user.drop_last(), w);
        lemma_upsert_words(
            fold_user(res, user.drop_last()),
            u,
            with_pref(p),
            Found { wid: u, history: None, user_pref: Some(p) },
            w,
        );
        if user_has_word(user, w) && !user_has_word(user.drop_last(), w) {
            let k = choose|k: int| 0 <= k < user.len() && (#[trigger] user[k]).0 == w;
            if k < user.len() - 1 {
                assert(user.drop_last()[k].0 == w);
            }
        }
        if user_has_word(user.drop_last(), w) {
            let k = choose|k: int| 0 <= k < user.drop_last().len() && (#[trigger] user.drop_last()[k]).0 == w;
            assert(user[k].0 == w);
        }
    }
}

/// The merged answer lists exactly the words that one of the dictionaries
/// answered.
pub proof fn lemma_merge_words(
    words: Seq<WordId>,
    rare: Seq<WordId>,
    hist: Seq<WordId>,
    user: Seq<(WordId, i8)>,
    w: WordId,
)
    ensures
        has_word(spec_merge(words, rare, hist, user), w) <==> (words.contains(w) || rare.contains(w)
            || hist.contains(w) || user_has_word(user, w)),
{
    let base = base_found(words);
    assert(has_word(base, w) <==> words.contains(w)) by {
        if words.contains(w) {
            let k = choose|k: int| 0 <= k < words.len() && words[k] == w;
            assert(base[k].wid == w);
        }
        if has_word(base, w) {
            let k = choose|k: int| 0 <= k < base.len() && (#[trigger] base[k]).wid == w;
            assert(words[k] == w);
        }
    }
    lemma_rare_words(base, rare, w);
    lemma_history_words(fold_rare(base, rare), hist, w);
    lemma_user_words(fold_history(fold_rare(base, rare), hist), user, w);
}

proof fn lemma_first_exists(res: Seq<Found>, w: WordId, j: int)
    requires
        0 <= j < res.len(),
        res[j].wid == w,
    ensures
        exists|i: int| is_first_with(res, w, i),
    decreases j,
{
    if exists|m: int| 0 <= m < j && (#[trigger] res[m]).wid == w {
        let m = choose|m: int| 0 <= m < j && (#[trigger] res[m]).wid == w;
        lemma_first_exists(res, w, m);
    } else {
        assert(is_first_with(res, w, j));
    }
}

proof fn lemma_user_pref_in_fold(res: Seq<Found>, user: Seq<(WordId, i8)>, k: int)
    requires
        0 <= k < user.len(),
        forall|m: int| k < m < user.len() ==> (#[trigger] user[m]).0 != user[k].0,
    ensures
        exists|i: int|
            is_first_with(fold_user(res, user), user[k].0, i) && (#[trigger] fold_user(
                res,
                user,
            )[i]).user_pref == Some(user[k].1),
    decreases user.len(),
{
    let w = user[k].0;
    let prev = fold_user(res, user.drop_last());
    let (u, p) = user.last();
    let out = fold_user(res, user);
    let fresh = Found { wid: u, history: None, user_pref: Some(p) };
    assert(out == upsert(prev, u, with_pref(p), fresh));
    if k == user.len() - 1 {
        if exists|i: int| is_first_with(prev, u, i) {
            let i = choose|i: int| is_first_with(prev, u, i);
            assert(is_first_with(out, w, i));
            assert(out[i].user_pref == Some(user[k].1));
        } else {
            let n = prev.len() as int;
            assert forall|j: int| 0 <= j < n implies (#[trigger] out[j]).wid != w by {
                assert(out[j] == prev[j]);
                if prev[j].wid == w {
                    lemma_first_exists(prev, w, j);
                }
            }
            assert(is_first_with(out, w, n));
            assert(out[n].user_pref == Some(user[k].1));
        }
    } else {
        let d = user.drop_last();
        assert forall|m: int| k < m < d.len() implies (#[trigger] d[m]).0 != d[k].0 by {
            assert(d[m] == user[m]);
        }
        lemma_user_pref_in_fold(res, d, k);
        assert(d[k] == user[k]);
        let i = choose|i: int| is_first_with(prev, w, i) && (#[trigger] prev[i]).user_pref == Some(
            user[k].1,
        );
        assert(u != w);
        if exists|i2: int| is_first_with(prev, u, i2) {
            let i2 = choose|i2: int| is_first_with(prev, u, i2);
            assert(i2 != i);
            assert(out[i] == prev[i]);
            assert forall|j: int| 0 <= j < i implies (#[trigger] out[j]).wid != w by {
                if j != i2 {
                    assert(out[j] == prev[j]);
                }
            }
            assert(is_first_with(out, w, i));
        } else {
            assert(out[i] == prev[i]);
            assert forall|j: int| 0 <= j < i implies (#[trigger] out[j]).wid != w by {
                assert(out[j] == prev[j]);
            }
            assert(is_first_with(out, w, i));
        }
    }
}

/// A word that the user's dictionary answered carries, in the merged answer,
/// the preference of the user's last answer for it, whatever the system,
/// rare-word and history dictionaries said.
pub proof fn lemma_user_pref_wins(
    words: Seq<WordId>,
    rare: Seq<WordId>,
    hist: Seq<WordId>,
    user: Seq<(WordId, i8)>,
    k: int,
)
    requires
        0 <= k < user.len(),
        forall|m: int| k < m < user.len() ==> (#[trigger] user[m]).0 != user[k].0,
    ensures
        exists|i: int|
            is_first_with(spec_merge(words, rare, hist, user), user[k].0, i) && (
            #[trigger] spec_merge(words, rare, hist, user)[i]).user_pref == Some(user[k].1),
{
    let res = fold_history(fold_rare(base_found(words), rare), hist);
    lemma_user_pref_in_fold(res, user, k);
    let merged = spec_merge(words, rare, hist, user);
    assert(merged == fold_user(res, user));
    let i = choose|i: int|
        is_first_with(fold_user(res, user), user[k].0, i) && (#[trigger] fold_user(res, user)[i]).user_pref
            == Some(user[k].1);
    assert(is_first_with(merged, user[k].0, i) && merged[i].user_pref == Some(user[k].1));
}

proof fn lemma_history_in_fold(res: Seq<Found>, hist: Seq<WordId>, k: int)
    requires
        0 <= k < hist.len(),
        forall|m: int| k < m < hist.len() ==> (#[trigger] hist[m]) != hist[k],
    ensures
        exists|i: int|
            is_first_with(fold_history(res, hist), hist[k], i) && (#[trigger] fold_history(
                res,
                hist,
            )[i]).history == Some(k as usize),
    decreases hist.len(),
{
    let w = hist[k];
    let prev = fold_history(res, hist.drop_last());
    let u = hist.last();
    let j = (hist.len() - 1) as usize;
    let out = fold_history(res, hist);
    let fresh = Found { wid: u, history: Some(j), user_pref: None };
    assert(out == upsert(prev, u, with_history(j), fresh));
    if k == hist.len() - 1 {
        if exists|i: int| is_first_with(prev, u, i) {
            let i = choose|i: int| is_first_with(prev, u, i);
            assert(is_first_with(out, w, i));
            assert(out[i].history == Some(k as usize));
        } else {
            let n = prev.len() as int;
            assert forall|m: int| 0 <= m < n implies (#[trigger] out[m]).wid != w by {
                assert(out[m] == prev[m]);
                if prev[m].wid == w {
                    lemma_first_exists(prev, w, m);
                }
            }
            assert(is_first_with(out, w, n));
            assert(out[n].history == Some(k as usize));
        }
    } else {
        let d = hist.drop_last();
        assert forall|m: int| k < m < d.len() implies (#[trigger] d[m]) != d[k] by {
            assert(d[m] == hist[m]);
        }
        lemma_history_in_fold(res, d, k);
        assert(d[k] == hist[k]);
        let i = choose|i: int| is_first_with(prev, w, i) && (#[trigger] prev[i]).history == Some(
            k as usize,
        );
        assert(u != w);
        if exists|i2: int| is_first_with(prev, u, i2) {
            let i2 = choose|i2: int| is_first_with(prev, u, i2);
            assert(i2 != i);
            assert(out[i] == prev[i]);
            assert forall|m: int| 0 <= m < i implies (#[trigger] out[m]).wid != w by {
                if m != i2 {
                    assert(out[m] == prev[m]);
                }
            }
            assert(is_first_with(out, w, i));
        } else {
            assert(out[i] == prev[i]);
            assert forall|m: int| 0 <= m < i implies (#[trigger] out[m]).wid != w by {
                assert(out[m] == prev[m]);
            }
            assert(is_first_with(out, w, i));
        }
    }
}

proof fn lemma_user_keeps_history(res: Seq<Found>, user: Seq<(WordId, i8)>, w: WordId, i: int)
    requires
        is_first_with(res, w, i),
    ensures
        is_first_with(fold_user(res, user), w, i),
        fold_user(res, user)[i].history == res[i].history,
    decreases user.len(),
{
    if user.len() > 0 {
        let prev = fold_user(res, user.drop_last());
        lemma_user_keeps_history(res, user.drop_last(), w, i);
        let (u, p) = user.last();
        let out = fold_user(res, user);
        let fresh = Found { wid: u, history: None, user_pref: Some(p) };
        assert(out == upsert(prev, u, with_pref(p), fresh));
        if exists|i2: int| is_first_with(prev, u, i2) {
            let i2 = choose|i2: int| is_first_with(prev, u, i2);
            assert forall|m: int| 0 <= m < i implies (#[trigger] out[m]).wid != w by {
                if m != i2 {
                    assert(out[m] == prev[m]);
                } else {
                    assert(out[m].wid == prev[m].wid);
                }
            }
            assert(out[i].wid == prev[i].wid);
            assert(out[i].history == prev[i].history);
        } else {
            assert(out[i] == prev[i]);
            assert forall|m: int| 0 <= m < i implies (#[trigger] out[m]).wid != w by {
                assert(out[m] == prev[m]);
            }
        }
    }
}

/// A word that the learned history answered points, in the merged answer,
/// at the history's last answer for it, whatever the user's dictionary says.
pub proof fn lemma_history_points_to_last(
    words: Seq<WordId>,
    rare: Seq<WordId>,
    hist: Seq<WordId>,
    user: Seq<(WordId, i8)>,
    k: int,
)
    requires
        0 <= k < hist.len(),
        forall|m: int| k < m < hist.len() ==> (#[trigger] hist[m]) != hist[k],
    ensures
        exists|i: int|
            is_first_with(spec_merge(words, rare, hist, user), hist[k], i) && (
            #[trigger] spec_merge(words, rare, hist, user)[i]).history == Some(k as usize),
{
    let base = fold_rare(base_found(words), rare);
    lemma_history_in_fold(base, hist, k);
    let h = fold_history(base, hist);
    let i = choose|i: int|
        is_first_with(fold_history(base, hist), hist[k], i) && (#[trigger] fold_history(
            base,
            hist,
        )[i]).history == Some(k as usize);
    lemma_user_keeps_history(h, user, hist[k], i);
    let merged = spec_merge(words, rare, hist, user);
    assert(merged == fold_user(h, user));
    assert(is_first_with(merged, hist[k], i) && merged[i].history == Some(k as usize));
}

/// The first position of `wid` in `res`.
fn position(res: &Vec<Found>, wid: WordId) -> (r: Option<usize>)
    ensures
        r matches Some(i) ==> is_first_with(res@, wid, i as int),
        r is None ==> !exists|i: int| is_first_with(res@, wid, i),
{
    let mut i: usize = 0;
    while i < res.len()
        invariant
            i <= res@.len(),
            forall|j: int| 0 <= j < i ==> (#[trigger] res@[j]).wid != wid,
        decreases res@.len() - i,
    {
        if res[i].wid == wid {
            return Some(i);
        }
        i += 1;
    }
    None
}

/// The entry that a lookup answer gives: a history position, or else a
/// preference.
pub open spec fn answer_change(history: Option<usize>, pref: i8) -> spec_fn(Found) -> Found {
    match history {
        Some(j) => with_history(j),
        None => with_pref(pref),
    }
}

pub open spec fn answer_fresh(wid: WordId, history: Option<usize>, pref: i8) -> Found {
    match history {
        Some(j) => Found { wid, history: Some(j), user_pref: None },
        None => Found { wid, history: None, user_pref: Some(pref) },
    }
}

/// `upsert` on a vector, for one answer of a dictionary.
fn upsert_exec(res: &mut Vec<Found>, wid: WordId, history: Option<usize>, pref: i8)
    ensures
        final(res)@ == upsert(
            old(res)@,
            wid,
            answer_change(history, pref),
            answer_fresh(wid, history, pref),
        ),
{
    match position(res, wid) {
        Some(i) => {
            let old_entry = res[i];
            let entry = match history {
                Some(j) => Found { wid: old_entry.wid, history: Some(j), user_pref: old_entry.user_pref },
                None => Found { wid: old_entry.wid, history: old_entry.history, user_pref: Some(pref) },
            };
            proof {
                assert(is_first_with(old(res)@, wid, i as int));
                let k = choose|k: int| is_first_with(old(res)@, wid, k);
                if k < i {
                    assert(old(res)@[k].wid != wid);
                }
                if i < k {
                    assert(old(res)@[i as int].wid != wid);
                }
                assert(k == i);
                assert(entry == answer_change(history, pref)(old(res)@[i as int]));
            }
            res.set(i, entry);
        },
        None => {
            let fresh = match history {
                Some(j) => Found { wid, history: Some(j), user_pref: None },
                None => Found { wid, history: None, user_pref: Some(pref) },
            };
            res.push(fresh);
        },
    }
}

/// Merges the dictionaries' answers for one span: the system words first;
/// a rare word gets [`RARE_BOOST`] as its preference; a word of the history
/// points at its (last) answer there; a user word gets the user's preference.
/// Words not yet listed are appended.
pub fn merge_lookups(
    words: &Vec<WordId>,
    rare: &Vec<WordId>,
    hist: &Vec<WordId>,
    user: &Vec<(WordId, i8)>,
) -> (r: Vec<Found>)
    ensures
        r@ == spec_merge(words@, rare@, hist@, user@),
{
    let mut res: Vec<Found> = Vec::new();
    let mut i: usize = 0;
    while i < words.len()
        invariant
            i <= words@.len(),
            res@ == base_found(words@.take(i as int)),
        decreases words@.len() - i,
    {
        res.push(Found { wid: words[i], history: None, user_pref: None });
        proof {
            assert(base_found(words@.take(i + 1)) =~= base_found(words@.take(i as int)).push(
                Found { wid: words@[i as int], history: None, user_pref: None },
            ));
        }
        i += 1;
    }
    assert(words@.take(words@.len() as int) =~= words@);
    let ghost base = res@;
    let mut i: usize = 0;
    while i < rare.len()
        invariant
            i <= rare@.len(),
            res@ == fold_rare(base, rare@.take(i as int)),
        decreases rare@.len() - i,
    {
        upsert_exec(&mut res, rare[i], None, RARE_BOOST);
        proof {
            assert(rare@.take(i + 1).drop_last() =~= rare@.take(i as int));
        }
        i += 1;
    }
    assert(rare@.take(rare@.len() as int) =~= rare@);
    let ghost after_rare = res@;
    let mut i: usize = 0;
    while i < hist.len()
        invariant
            i <= hist@.len(),
            res@ == fold_history(after_rare, hist@.take(i as int)),
        decreases hist@.len() - i,
    {
        upsert_exec(&mut res, hist[i], Some(i), 0);
        proof {
            assert(hist@.take(i + 1).drop_last() =~= hist@.take(i as int));
        }
        i += 1;
    }
    assert(hist@.take(hist@.len() as int) =~= hist@);
    let ghost after_hist = res@;
    let mut i: usize = 0;
    while i < user.len()
        invariant
            i <= user@.len(),
            res@ == fold_user(after_hist, user@.take(i as int)),
        decreases user@.len() - i,
    {
        let (w, p) = user[i];
        upsert_exec(&mut res, w, None, p);
        proof {
            assert(user@.take(i + 1).drop_last() =~= user@.take(i as int));
        }
        i += 1;
    }
    assert(user@.take(user@.len() as int) =~= user@);
    res
}

/// What the system, rare-word and user dictionaries hold for the syllables,
/// merged with the words for which the learned history has an answer (in the
/// history's order).
pub fn composite_lookup(
    static_dict: &StaticDict,
    rare_dict: &StaticDict,
    user_dict: &UserDict,
    hist: &Vec<WordId>,
    syllables: &[Syllable],
    strategy: LookupStrategy,
) -> (r: Vec<Found>)
    requires
        user_dict.wf(),
    ensures
        r@ == spec_merge(
            static_dict.spec_lookup(syllables@, strategy),
            rare_dict.spec_lookup(syllables@, strategy),
            hist@,
            crate::user::dict::spec_lookup_records(user_dict.spec_records(), syllables@, strategy),
        ),
{
    let words = static_dict.lookup(syllables, strategy);
    let rare = rare_dict.lookup(syllables, strategy);
    let user = user_dict.lookup(syllables, strategy);
    merge_lookups(&words, &rare, hist, &user)
}

} // verus!
