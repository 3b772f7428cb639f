//! A read-only dictionary of word ids over a syllable trie.
//!
//! File layout (BARE): the magic `CHSD`, the version (`uint`, 0), the flags
//! (`u32`, 0), the trie index as `data` and the word list as `data`. Index
//! nodes are little endian; the word list holds 3-byte little endian word
//! ids.

use crate::bare::{
    lemma_data_roundtrip, lemma_uint_roundtrip, spec_encode_data, spec_encode_uint, BareEncoder,
};
use crate::dictionary::string_table::{p_data, p_u32, p_uint};
use crate::dictionary::LookupStrategy;
use crate::lm::trie_index::{
    child_begin, child_count, child_end, collect, descend, expand, leaf_words, matching_children,
    node_children, node_ok, parse_dict_file, spec_parse_dict_file, spec_trie_lookup,
    syllable_matches, trie_lookup, u16_at, u32_at, word_at, words_from, TrieLayout,
};
use crate::model::WordId;
use crate::zhuyin::{lemma_value_injective, Syllable};
use vstd::bytes::*;
use vstd::prelude::*;

pub use crate::lm::trie_index::StaticDictError;

verus! {

/// How this dictionary's index and word list are laid out.
pub open spec fn lm_layout() -> TrieLayout {
    TrieLayout { big_endian: false, word_width: 3 }
}

/// A read-only dictionary using a pre-built trie index that is both space
/// efficient and fast to look up.
///
/// A new dictionary can be built using a [`StaticDictBuilder`].
#[derive(Debug, Clone)]
pub struct StaticDict {
    index: Vec<u8>,
    words: Vec<u8>,
}

impl StaticDict {
    /// The trie index.
    pub closed spec fn spec_index(&self) -> Seq<u8> {
        self.index@
    }

    /// The word list.
    pub closed spec fn spec_words(&self) -> Seq<u8> {
        self.words@
    }

    /// The words of the phrases that `syllables` spell.
    pub open spec fn spec_lookup(&self, syllables: Seq<Syllable>, strategy: LookupStrategy) -> Seq<
        WordId,
    > {
        spec_trie_lookup(self.spec_index(), self.spec_words(), syllables, strategy, lm_layout())
    }

    /// An empty dictionary.
    pub fn new() -> (d: StaticDict)
        ensures
            d.spec_index() == Seq::<u8>::empty(),
            d.spec_words() == Seq::<u8>::empty(),
    {
        StaticDict { index: Vec::new(), words: Vec::new() }
    }

    /// Reads a dictionary from the bytes of its file.
    pub fn from_bytes(bytes: &[u8]) -> (r: Result<StaticDict, StaticDictError>)
        ensures
            match spec_parse_dict_file(bytes@) {
                Ok((index, words)) => r matches Ok(d) && d.spec_index() == index && d.spec_words()
                    == words,
                Err(e) => r == Err::<StaticDict, StaticDictError>(e),
            },
    {
        match parse_dict_file(bytes) {
            Ok((index, words)) => Ok(StaticDict { index, words }),
            Err(e) => Err(e),
        }
    }

    /// The words of the phrases that `syllables` spell, in trie order.
    pub fn lookup(&self, syllables: &[Syllable], strategy: LookupStrategy) -> (r: Vec<WordId>)
        ensures
            r@ == self.spec_lookup(syllables@, strategy),
    {
        trie_lookup(
            self.index.as_slice(),
            self.words.as_slice(),
            syllables,
            strategy,
            TrieLayout { big_endian: false, word_width: 3 },
        )
    }
}

} // verus!

verus! {

/// A node of a trie under construction: the root, an internal node (with a
/// syllable) or a leaf (the words of the phrase that ends at its parent).
#[derive(Debug)]
struct TrieBuilderNode {
    syllable: Option<Syllable>,
    /// Internal children, by increasing syllable.
    children: Vec<u32>,
    leaf_id: Option<u32>,
    words: Vec<WordId>,
}

/// Builds a [`StaticDict`] from phrases.
///
/// The builder holds the trie in an arena: node 0 is the root, and nodes
/// refer to their children by number.
#[derive(Debug)]
pub struct StaticDictBuilder {
    arena: Vec<TrieBuilderNode>,
}

/// The packed syllable of a node, 0 for the root and the leaves.
spec fn syl_val(n: TrieBuilderNode) -> int {
    match n.syllable {
        Some(s) => s.spec_value() as int,
        None => 0,
    }
}

/// The nodes that follow a node in the file: its leaf first, then its
/// internal children.
spec fn kids(n: TrieBuilderNode) -> Seq<u32> {
    match n.leaf_id {
        Some(l) => seq![l] + n.children@,
        None => n.children@,
    }
}

spec fn is_internal(a: Seq<TrieBuilderNode>, i: int) -> bool {
    i == 0 || a[i].syllable is Some
}

/// The arena is a tree rooted at node 0 whose internal children are sorted
/// by syllable, and whose leaves hang under internal nodes.
spec fn shape_ok(a: Seq<TrieBuilderNode>) -> bool {
    &&& 1 <= a.len() <= u32::MAX
    &&& a[0].syllable is None
    &&& forall|i: int, x: int|
        0 <= i < a.len() && 0 <= x < kids(a[i]).len() ==> 0 < #[trigger] kids(a[i])[x] < a.len()
    &&& forall|i: int, x: int|
        0 <= i < a.len() && 0 <= x < a[i].children@.len() ==> (#[trigger] a[i].children@[x]) < a.len()
            && a[a[i].children@[x] as int].syllable is Some
    &&& forall|i: int, x: int, y: int|
        0 <= i < a.len() && 0 <= x < y < a[i].children@.len() ==> syl_val(
            a[#[trigger] a[i].children@[x] as int],
        ) < syl_val(a[#[trigger] a[i].children@[y] as int])
    &&& forall|i: int|
        0 <= i < a.len() && (#[trigger] a[i].leaf_id) is Some ==> is_internal(a, i) && a[a[i].leaf_id->0 as int].syllable is None
            && a[i].leaf_id->0 < a.len()
    &&& forall|i: int|
        0 < i < a.len() && (#[trigger] a[i].syllable) is None ==> a[i].children@.len() == 0
            && a[i].leaf_id is None
    &&& forall|i: int| 0 <= i < a.len() && is_internal(a, i) ==> (#[trigger] a[i].words@).len() == 0
    &&& forall|i: int, j: int, x: int, y: int|
        0 <= i < a.len() && 0 <= j < a.len() && 0 <= x < kids(a[i]).len() && 0 <= y < kids(
            a[j],
        ).len() && #[trigger] kids(a[i])[x] == #[trigger] kids(a[j])[y] ==> i == j && x == y
}

/// Every leaf holds a word.
spec fn leaves_filled(a: Seq<TrieBuilderNode>) -> bool {
    forall|i: int| 0 < i < a.len() && (#[trigger] a[i].syllable) is None ==> a[i].words@.len() > 0
}

spec fn child_matches(a: Seq<TrieBuilderNode>, p: int, x: int, s: Syllable) -> bool {
    0 <= x < a[p].children@.len() && a[a[p].children@[x] as int].syllable == Some(s)
}

/// The internal child of `p` with syllable `s`.
spec fn child_with(a: Seq<TrieBuilderNode>, p: int, s: Syllable) -> Option<int> {
    if exists|x: int| child_matches(a, p, x, s) {
        Some(a[p].children@[choose|x: int| child_matches(a, p, x, s)] as int)
    } else {
        None
    }
}

/// The node reached from the root by following `syls`.
spec fn find_path(a: Seq<TrieBuilderNode>, syls: Seq<Syllable>) -> Option<int>
    decreases syls.len(),
{
    if syls.len() == 0 {
        Some(0)
    } else {
        match find_path(a, syls.drop_last()) {
            None => None,
            Some(p) => child_with(a, p, syls.last()),
        }
    }
}

/// The words of the phrase spelled by `syls`.
spec fn words_of(a: Seq<TrieBuilderNode>, syls: Seq<Syllable>) -> Seq<WordId> {
    match find_path(a, syls) {
        Some(n) => match a[n].leaf_id {
            Some(l) => a[l as int].words@,
            None => Seq::empty(),
        },
        None => Seq::empty(),
    }
}

proof fn lemma_child_unique(a: Seq<TrieBuilderNode>, p: int, x: int, s: Syllable)
    requires
        shape_ok(a),
        0 <= p < a.len(),
        child_matches(a, p, x, s),
    ensures
        child_with(a, p, s) == Some(a[p].children@[x] as int),
{
    let y = choose|y: int| child_matches(a, p, y, s);
    if y < x {
        assert(syl_val(a[a[p].children@[y] as int]) < syl_val(a[a[p].children@[x] as int]));
    } else if x < y {
        assert(syl_val(a[a[p].children@[x] as int]) < syl_val(a[a[p].children@[y] as int]));
    }
}

proof fn lemma_path_internal(a: Seq<TrieBuilderNode>, k: Seq<Syllable>)
    requires
        shape_ok(a),
    ensures
        find_path(a, k) matches Some(m) ==> 0 <= m < a.len() && is_internal(a, m),
    decreases k.len(),
{
    if k.len() > 0 {
        lemma_path_internal(a, k.drop_last());
        if let Some(p) = find_path(a, k.drop_last()) {
            if child_with(a, p, k.last()) is Some {
                let x = choose|x: int| child_matches(a, p, x, k.last());
                assert(a[p].children@[x] < a.len());
            }
        }
    }
}

/// Adding a new internal child `s` to `p` keeps the shape, keeps every path,
/// and the only new path reaches the new node.
proof fn lemma_add_child(
    a: Seq<TrieBuilderNode>,
    b: Seq<TrieBuilderNode>,
    p: int,
    pos: int,
    s: Syllable,
)
    requires
        shape_ok(a),
        a.len() < u32::MAX,
        0 <= p < a.len(),
        is_internal(a, p),
        0 <= pos <= a[p].children@.len(),
        forall|x: int| 0 <= x < pos ==> syl_val(a[#[trigger] a[p].children@[x] as int]) < s.spec_value(),
        forall|x: int|
            pos <= x < a[p].children@.len() ==> syl_val(a[#[trigger] a[p].children@[x] as int])
                > s.spec_value(),
        b.len() == a.len() + 1,
        b[a.len() as int].syllable == Some(s),
        b[a.len() as int].children@.len() == 0,
        b[a.len() as int].leaf_id is None,
        b[a.len() as int].words@.len() == 0,
        forall|i: int| 0 <= i < a.len() && i != p ==> #[trigger] b[i] == a[i],
        b[p].syllable == a[p].syllable,
        b[p].leaf_id == a[p].leaf_id,
        b[p].words@ == a[p].words@,
        b[p].children@ == a[p].children@.insert(pos, a.len() as u32),
    ensures
        shape_ok(b),
        forall|k: Seq<Syllable>| #[trigger] find_path(a, k) is Some ==> find_path(b, k) == find_path(a, k),
        forall|k: Seq<Syllable>|
            #[trigger] find_path(b, k) matches Some(m) ==> m == a.len() || find_path(a, k) == Some(m),
        forall|k: Seq<Syllable>|
            find_path(a, k) == Some(p) ==> #[trigger] find_path(b, k.push(s)) == Some(a.len() as int),
{
    let n = a.len() as int;
    assert forall|i: int| 0 <= i < n implies #[trigger] b[i].syllable == a[i].syllable by {
        if i != p {
            assert(b[i] == a[i]);
        }
    }
    assert forall|i: int| 0 <= i < n && i != p implies #[trigger] kids(b[i]) == kids(a[i]) by {
        assert(b[i] == a[i]);
    }
    // kids of p in b: the new child sits after the leaf (if any) at `pos`
    let off: int = if a[p].leaf_id is Some { 1 } else { 0 };
    assert(kids(b[p]) =~= kids(a[p]).insert(off + pos, n as u32)) by {
        if a[p].leaf_id is Some {
            assert(kids(b[p]) =~= seq![a[p].leaf_id->0] + a[p].children@.insert(pos, n as u32));
        }
    }
    assert(kids(b[n]) =~= Seq::<u32>::empty());
    // shape: every kid in range and nonzero
    assert forall|i: int, x: int| 0 <= i < b.len() && 0 <= x < kids(b[i]).len() implies 0
        < #[trigger] kids(b[i])[x] < b.len() by {
        if i == p {
            if x < off + pos {
                assert(kids(b[i])[x] == kids(a[p])[x]);
            } else if x > off + pos {
                assert(kids(b[i])[x] == kids(a[p])[x - 1]);
            }
        } else if i < n {
            assert(kids(b[i])[x] == kids(a[i])[x]);
        }
    }
    assert forall|i: int, x: int| 0 <= i < b.len() && 0 <= x < b[i].children@.len() implies (
    #[trigger] b[i].children@[x]) < b.len() && b[b[i].children@[x] as int].syllable is Some by {
        if i == p {
            if x < pos {
                assert(b[i].children@[x] == a[p].children@[x]);
            } else if x > pos {
                assert(b[i].children@[x] == a[p].children@[x - 1]);
            }
        } else if i < n {
            assert(b[i].children@[x] == a[i].children@[x]);
        }
    }
    assert forall|i: int, x: int, y: int| 0 <= i < b.len() && 0 <= x < y < b[i].children@.len() implies syl_val(
        b[#[trigger] b[i].children@[x] as int],
    ) < syl_val(b[#[trigger] b[i].children@[y] as int]) by {
        if i == p {
            let cx = b[i].children@[x] as int;
            let cy = b[i].children@[y] as int;
            if x < pos {
                assert(cx == a[p].children@[x]);
                assert(syl_val(b[cx]) == syl_val(a[cx]));
            } else if x > pos {
                assert(cx == a[p].children@[x - 1]);
                assert(syl_val(b[cx]) == syl_val(a[cx]));
            }
            if y < pos {
                assert(cy == a[p].children@[y]);
                assert(syl_val(b[cy]) == syl_val(a[cy]));
            } else if y > pos {
                assert(cy == a[p].children@[y - 1]);
                assert(syl_val(b[cy]) == syl_val(a[cy]));
            }
            if x < pos && y > pos {
                assert(syl_val(a[a[p].children@[x] as int]) < s.spec_value());
                assert(syl_val(a[a[p].children@[y - 1] as int]) > s.spec_value());
            }
            if x < pos && y < pos {
                assert(syl_val(a[a[p].children@[x] as int]) < syl_val(a[a[p].children@[y] as int]));
            }
            if x > pos && y > pos {
                assert(syl_val(a[a[p].children@[x - 1] as int]) < syl_val(
                    a[a[p].children@[y - 1] as int],
                ));
            }
        } else if i < n {
            let cx = b[i].children@[x] as int;
            let cy = b[i].children@[y] as int;
            assert(cx == a[i].children@[x] && cy == a[i].children@[y]);
            assert(syl_val(b[cx]) == syl_val(a[cx]));
            assert(syl_val(b[cy]) == syl_val(a[cy]));
        }
    }
    assert forall|i: int| 0 <= i < b.len() && (#[trigger] b[i].leaf_id) is Some implies is_internal(b, i)
        && b[b[i].leaf_id->0 as int].syllable is None && b[i].leaf_id->0 < b.len() by {
        if i < n && i != p {
            assert(b[i] == a[i]);
        }
    }
    assert forall|i: int| 0 < i < b.len() && (#[trigger] b[i].syllable) is None implies b[i].children@.len()
        == 0 && b[i].leaf_id is None by {
        if i < n && i != p {
            assert(b[i] == a[i]);
        }
    }
    assert forall|i: int| 0 <= i < b.len() && is_internal(b, i) implies (#[trigger] b[i].words@).len()
        == 0 by {
        if i < n && i != p {
            assert(b[i] == a[i]);
        }
    }
    // parent uniqueness
    assert forall|i: int, j: int, x: int, y: int|
        0 <= i < b.len() && 0 <= j < b.len() && 0 <= x < kids(b[i]).len() && 0 <= y < kids(
            b[j],
        ).len() && #[trigger] kids(b[i])[x] == #[trigger] kids(b[j])[y] implies i == j && x == y by {
        // map each position to the old one, or to the new node
        let xi: int = if i == p && x > off + pos { x - 1 } else { x };
        let yj: int = if j == p && y > off + pos { y - 1 } else { y };
        let newi = i == p && x == off + pos;
        let newj = j == p && y == off + pos;
        if newi && newj {
        } else if newi {
            assert(kids(b[j])[y] == kids(a[j])[yj]);
            assert(kids(a[j])[yj] < n);
        } else if newj {
            assert(kids(b[i])[x] == kids(a[i])[xi]);
            assert(kids(a[i])[xi] < n);
        } else {
            assert(kids(b[i])[x] == kids(a[i])[xi]);
            assert(kids(b[j])[y] == kids(a[j])[yj]);
        }
    }
    assert(shape_ok(b));
    assert forall|k: Seq<Syllable>| #[trigger] find_path(a, k) is Some implies find_path(b, k) == find_path(
        a,
        k,
    ) by {
        lemma_add_child_keeps(a, b, p, pos, s, k);
    }
    assert forall|k: Seq<Syllable>| #[trigger] find_path(b, k) is Some implies find_path(b, k)->0 == a.len()
        || find_path(a, k) == find_path(b, k) by {
        lemma_add_child_new(a, b, p, pos, s, k);
    }
    assert forall|k: Seq<Syllable>| find_path(a, k) == Some(p) implies #[trigger] find_path(
        b,
        k.push(s),
    ) == Some(a.len() as int) by {
        lemma_add_child_keeps(a, b, p, pos, s, k);
        assert(k.push(s).drop_last() =~= k);
        assert(b[p].children@[pos] == n);
        assert(child_matches(b, p, pos, s));
        lemma_child_unique(b, p, pos, s);
    }
}

proof fn lemma_add_child_keeps(
    a: Seq<TrieBuilderNode>,
    b: Seq<TrieBuilderNode>,
    p: int,
    pos: int,
    s: Syllable,
    k: Seq<Syllable>,
)
    requires
        shape_ok(a),
        shape_ok(b),
        0 <= p < a.len(),
        0 <= pos <= a[p].children@.len(),
        b.len() == a.len() + 1,
        forall|i: int| 0 <= i < a.len() ==> #[trigger] b[i].syllable == a[i].syllable,
        forall|i: int| 0 <= i < a.len() && i != p ==> #[trigger] b[i] == a[i],
        b[p].children@ == a[p].children@.insert(pos, a.len() as u32),
        find_path(a, k) is Some,
    ensures
        find_path(b, k) == find_path(a, k),
    decreases k.len(),
{
    if k.len() > 0 {
        let q = find_path(a, k.drop_last())->0;
        lemma_add_child_keeps(a, b, p, pos, s, k.drop_last());
        lemma_path_internal(a, k.drop_last());
        let x = choose|x: int| child_matches(a, q, x, k.last());
        let c = a[q].children@[x] as int;
        if q == p {
            let xb: int = if x < pos { x } else { x + 1 };
            assert(b[p].children@[xb] == c);
            assert(child_matches(b, q, xb, k.last()));
            lemma_child_unique(b, q, xb, k.last());
        } else {
            assert(b[q] == a[q]);
            assert(child_matches(b, q, x, k.last()));
            lemma_child_unique(b, q, x, k.last());
        }
    }
}

proof fn lemma_add_child_new(
    a: Seq<TrieBuilderNode>,
    b: Seq<TrieBuilderNode>,
    p: int,
    pos: int,
    s: Syllable,
    k: Seq<Syllable>,
)
    requires
        shape_ok(a),
        shape_ok(b),
        0 <= p < a.len(),
        0 <= pos <= a[p].children@.len(),
        b.len() == a.len() + 1,
        b[a.len() as int].children@.len() == 0,
        forall|i: int| 0 <= i < a.len() ==> #[trigger] b[i].syllable == a[i].syllable,
        forall|i: int| 0 <= i < a.len() && i != p ==> #[trigger] b[i] == a[i],
        b[p].children@ == a[p].children@.insert(pos, a.len() as u32),
    ensures
        find_path(b, k) matches Some(m) ==> m == a.len() || find_path(a, k) == Some(m),
    decreases k.len(),
{
    if k.len() > 0 {
        lemma_add_child_new(a, b, p, pos, s, k.drop_last());
        if let Some(q) = find_path(b, k.drop_last()) {
            lemma_path_internal(b, k.drop_last());
            if child_with(b, q, k.last()) is Some {
                let x = choose|x: int| child_matches(b, q, x, k.last());
                let c = b[q].children@[x] as int;
                if q == a.len() {
                } else if q == p {
                    if x < pos {
                        assert(a[p].children@[x] == c);
                        assert(child_matches(a, q, x, k.last()));
                        lemma_child_unique(a, q, x, k.last());
                    } else if x > pos {
                        assert(a[p].children@[x - 1] == c);
                        assert(child_matches(a, q, x - 1, k.last()));
                        lemma_child_unique(a, q, x - 1, k.last());
                    }
                } else {
                    assert(b[q] == a[q]);
                    assert(a[q].children@[x] == c);
                    assert(child_matches(a, q, x, k.last()));
                    lemma_child_unique(a, q, x, k.last());
                }
            }
        }
    }
}

/// A child, as a kid of its parent.
proof fn lemma_child_is_kid(n: TrieBuilderNode, x: int)
    requires
        0 <= x < n.children@.len(),
    ensures
        n.leaf_id is Some ==> kids(n)[x + 1] == n.children@[x],
        n.leaf_id is None ==> kids(n)[x] == n.children@[x],
        kids(n).len() == n.children@.len() + (if n.leaf_id is Some { 1int } else { 0int }),
{
}

/// Different phrases reach different nodes.
proof fn lemma_path_injective(a: Seq<TrieBuilderNode>, k1: Seq<Syllable>, k2: Seq<Syllable>)
    requires
        shape_ok(a),
        find_path(a, k1) is Some,
        find_path(a, k1) == find_path(a, k2),
    ensures
        k1 == k2,
    decreases k1.len(),
{
    if k1.len() == 0 && k2.len() == 0 {
        assert(k1 =~= k2);
    } else if k1.len() == 0 || k2.len() == 0 {
        let k = if k1.len() == 0 { k2 } else { k1 };
        let q = find_path(a, k.drop_last())->0;
        lemma_path_internal(a, k.drop_last());
        let x = choose|x: int| child_matches(a, q, x, k.last());
        lemma_child_is_kid(a[q], x);
        let off: int = if a[q].leaf_id is Some { 1 } else { 0 };
        assert(kids(a[q])[x + off] > 0);
    } else {
        let q1 = find_path(a, k1.drop_last())->0;
        let q2 = find_path(a, k2.drop_last())->0;
        lemma_path_internal(a, k1.drop_last());
        lemma_path_internal(a, k2.drop_last());
        let x1 = choose|x: int| child_matches(a, q1, x, k1.last());
        let x2 = choose|x: int| child_matches(a, q2, x, k2.last());
        lemma_child_is_kid(a[q1], x1);
        lemma_child_is_kid(a[q2], x2);
        let o1: int = if a[q1].leaf_id is Some { 1 } else { 0 };
        let o2: int = if a[q2].leaf_id is Some { 1 } else { 0 };
        assert(kids(a[q1])[x1 + o1] == kids(a[q2])[x2 + o2]);
        assert(q1 == q2);
        lemma_path_injective(a, k1.drop_last(), k2.drop_last());
        assert(k1 =~= k1.drop_last().push(k1.last()));
        assert(k2 =~= k2.drop_last().push(k2.last()));
    }
}

/// Paths only read syllables and children.
proof fn lemma_same_paths(a: Seq<TrieBuilderNode>, b: Seq<TrieBuilderNode>, k: Seq<Syllable>)
    requires
        shape_ok(a),
        shape_ok(b),
        a.len() <= b.len(),
        forall|i: int|
            0 <= i < a.len() ==> #[trigger] b[i].syllable == a[i].syllable && b[i].children@
                == a[i].children@,
    ensures
        find_path(b, k) == find_path(a, k),
    decreases k.len(),
{
    if k.len() > 0 {
        lemma_same_paths(a, b, k.drop_last());
        lemma_path_internal(a, k.drop_last());
        if let Some(q) = find_path(a, k.drop_last()) {
            if child_with(a, q, k.last()) is Some {
                let x = choose|x: int| child_matches(a, q, x, k.last());
                assert(b[q].children@[x] < a.len());
                assert(child_matches(b, q, x, k.last()));
                lemma_child_unique(a, q, x, k.last());
                lemma_child_unique(b, q, x, k.last());
            } else if child_with(b, q, k.last()) is Some {
                let x = choose|x: int| child_matches(b, q, x, k.last());
                assert(a[q].children@[x] < a.len());
                assert(child_matches(a, q, x, k.last()));
            }
        }
    }
}

/// `a` grew from `a0` by new internal nodes: old nodes keep their syllable,
/// leaf and words, and old paths stay.
spec fn keeps(a0: Seq<TrieBuilderNode>, a: Seq<TrieBuilderNode>) -> bool {
    &&& a0.len() <= a.len()
    &&& forall|i: int|
        0 <= i < a0.len() ==> #[trigger] a[i].syllable == a0[i].syllable && a[i].leaf_id
            == a0[i].leaf_id && a[i].words@ == a0[i].words@
    &&& forall|i: int| a0.len() <= i < a.len() ==> (#[trigger] a[i].leaf_id) is None && a[i].syllable is Some
    &&& forall|k: Seq<Syllable>| #[trigger] find_path(a0, k) is Some ==> find_path(a, k) == find_path(a0, k)
    &&& forall|k: Seq<Syllable>|
        #[trigger] find_path(a, k) is Some && find_path(a, k)->0 < a0.len() ==> find_path(a0, k)
            == find_path(a, k)
}

proof fn lemma_keeps_words(a0: Seq<TrieBuilderNode>, a: Seq<TrieBuilderNode>, k: Seq<Syllable>)
    requires
        shape_ok(a0),
        shape_ok(a),
        keeps(a0, a),
    ensures
        words_of(a, k) == words_of(a0, k),
{
    lemma_path_internal(a0, k);
    lemma_path_internal(a, k);
    if find_path(a0, k) is Some {
        assert(find_path(a, k) == find_path(a0, k));
    } else if let Some(m) = find_path(a, k) {
        if m < a0.len() {
            assert(find_path(a0, k) == find_path(a, k));
        }
    }
}

/// Hanging a new empty leaf under `t` keeps the shape and every path; the
/// phrase of `t` now has no word, the others keep theirs.
proof fn lemma_add_leaf(a: Seq<TrieBuilderNode>, b: Seq<TrieBuilderNode>, t: int)
    requires
        shape_ok(a),
        a.len() < u32::MAX,
        0 <= t < a.len(),
        is_internal(a, t),
        a[t].leaf_id is None,
        b.len() == a.len() + 1,
        b[a.len() as int].syllable is None,
        b[a.len() as int].children@.len() == 0,
        b[a.len() as int].leaf_id is None,
        b[a.len() as int].words@.len() == 0,
        forall|i: int| 0 <= i < a.len() && i != t ==> #[trigger] b[i] == a[i],
        b[t].syllable == a[t].syllable,
        b[t].children@ == a[t].children@,
        b[t].words@ == a[t].words@,
        b[t].leaf_id == Some(a.len() as u32),
    ensures
        shape_ok(b),
        forall|k: Seq<Syllable>| #[trigger] find_path(b, k) == find_path(a, k),
        forall|k: Seq<Syllable>|
            find_path(a, k) != Some(t) ==> #[trigger] words_of(b, k) == words_of(a, k),
{
    let n = a.len() as int;
    assert forall|i: int| 0 <= i < n && i != t implies #[trigger] kids(b[i]) == kids(a[i]) by {
        assert(b[i] == a[i]);
    }
    assert(kids(b[t]) =~= seq![n as u32] + kids(a[t]));
    assert(kids(b[n]) =~= Seq::<u32>::empty());
    assert forall|i: int| 0 <= i < n implies #[trigger] b[i].syllable == a[i].syllable && b[i].children@
        == a[i].children@ by {
        if i != t {
            assert(b[i] == a[i]);
        }
    }
    assert forall|i: int, x: int| 0 <= i < b.len() && 0 <= x < kids(b[i]).len() implies 0
        < #[trigger] kids(b[i])[x] < b.len() by {
        if i == t && x > 0 {
            assert(kids(b[i])[x] == kids(a[t])[x - 1]);
        } else if i < n && i != t {
            assert(kids(b[i])[x] == kids(a[i])[x]);
        }
    }
    assert forall|i: int, x: int| 0 <= i < b.len() && 0 <= x < b[i].children@.len() implies (
    #[trigger] b[i].children@[x]) < b.len() && b[b[i].children@[x] as int].syllable is Some by {
        assert(b[i].children@[x] == a[i].children@[x]);
    }
    assert forall|i: int, x: int, y: int| 0 <= i < b.len() && 0 <= x < y < b[i].children@.len() implies syl_val(
        b[#[trigger] b[i].children@[x] as int],
    ) < syl_val(b[#[trigger] b[i].children@[y] as int]) by {
        assert(b[i].children@[x] == a[i].children@[x]);
        assert(b[i].children@[y] == a[i].children@[y]);
        assert(syl_val(a[a[i].children@[x] as int]) < syl_val(a[a[i].children@[y] as int]));
    }
    assert forall|i: int| 0 <= i < b.len() && (#[trigger] b[i].leaf_id) is Some implies is_internal(b, i)
        && b[b[i].leaf_id->0 as int].syllable is None && b[i].leaf_id->0 < b.len() by {
        if i < n && i != t {
            assert(b[i] == a[i]);
        }
    }
    assert forall|i: int| 0 < i < b.len() && (#[trigger] b[i].syllable) is None implies b[i].children@.len()
        == 0 && b[i].leaf_id is None by {
        if i < n && i != t {
            assert(b[i] == a[i]);
        }
    }
    assert forall|i: int| 0 <= i < b.len() && is_internal(b, i) implies (#[trigger] b[i].words@).len()
        == 0 by {
        if i < n && i != t {
            assert(b[i] == a[i]);
        }
    }
    assert forall|i: int, j: int, x: int, y: int|
        0 <= i < b.len() && 0 <= j < b.len() && 0 <= x < kids(b[i]).len() && 0 <= y < kids(
            b[j],
        ).len() && #[trigger] kids(b[i])[x] == #[trigger] kids(b[j])[y] implies i == j && x == y by {
        let xi: int = if i == t { x - 1 } else { x };
        let yj: int = if j == t { y - 1 } else { y };
        let newi = i == t && x == 0;
        let newj = j == t && y == 0;
        if newi && newj {
        } else if newi {
            assert(kids(b[j])[y] == kids(a[j])[yj]);
            assert(kids(a[j])[yj] < n);
        } else if newj {
            assert(kids(b[i])[x] == kids(a[i])[xi]);
            assert(kids(a[i])[xi] < n);
        } else {
            assert(kids(b[i])[x] == kids(a[i])[xi]);
            assert(kids(b[j])[y] == kids(a[j])[yj]);
        }
    }
    assert(shape_ok(b));
    assert forall|k: Seq<Syllable>| #[trigger] find_path(b, k) == find_path(a, k) by {
        lemma_same_paths(a, b, k);
    }
    assert forall|k: Seq<Syllable>| find_path(a, k) != Some(t) implies #[trigger] words_of(b, k)
        == words_of(a, k) by {
        lemma_same_paths(a, b, k);
        lemma_path_internal(a, k);
        if let Some(m) = find_path(a, k) {
            assert(b[m] == a[m]);
            if let Some(l) = a[m].leaf_id {
                if l as int != t {
                    assert(b[l as int] == a[l as int]);
                }
            }
        }
    }
}

/// Changing the words of a leaf keeps the shape and every path.
proof fn lemma_set_leaf_words(a: Seq<TrieBuilderNode>, b: Seq<TrieBuilderNode>, leaf: int)
    requires
        shape_ok(a),
        0 < leaf < a.len(),
        a[leaf].syllable is None,
        b.len() == a.len(),
        forall|i: int| 0 <= i < a.len() && i != leaf ==> #[trigger] b[i] == a[i],
        b[leaf].syllable == a[leaf].syllable,
        b[leaf].children@ == a[leaf].children@,
        b[leaf].leaf_id == a[leaf].leaf_id,
    ensures
        shape_ok(b),
        forall|k: Seq<Syllable>| #[trigger] find_path(b, k) == find_path(a, k),
        forall|k: Seq<Syllable>|
            (find_path(a, k) matches Some(m) && a[m].leaf_id != Some(leaf as u32)) ==> #[trigger] words_of(
                b,
                k,
            ) == words_of(a, k),
{
    assert forall|i: int| 0 <= i < a.len() implies #[trigger] kids(b[i]) == kids(a[i]) && b[i].syllable
        == a[i].syllable && b[i].children@ == a[i].children@ && b[i].leaf_id == a[i].leaf_id by {
        if i != leaf {
            assert(b[i] == a[i]);
        }
        assert(kids(b[i]) =~= kids(a[i]));
    }
    assert forall|i: int| 0 <= i < b.len() && is_internal(b, i) implies (#[trigger] b[i].words@).len()
        == 0 by {
        if i != leaf {
            assert(b[i] == a[i]);
        }
    }
    assert forall|i: int, x: int, y: int| 0 <= i < b.len() && 0 <= x < y < b[i].children@.len() implies syl_val(
        b[#[trigger] b[i].children@[x] as int],
    ) < syl_val(b[#[trigger] b[i].children@[y] as int]) by {
        assert(syl_val(a[a[i].children@[x] as int]) < syl_val(a[a[i].children@[y] as int]));
    }
    assert(shape_ok(b));
    assert forall|k: Seq<Syllable>| #[trigger] find_path(b, k) == find_path(a, k) by {
        lemma_same_paths(a, b, k);
    }
    assert forall|k: Seq<Syllable>|
        (find_path(a, k) matches Some(m) && a[m].leaf_id != Some(leaf as u32)) implies #[trigger] words_of(
        b,
        k,
    ) == words_of(a, k) by {
        lemma_same_paths(a, b, k);
        lemma_path_internal(a, k);
        let m = find_path(a, k)->0;
        if let Some(l) = a[m].leaf_id {
            assert(b[l as int] == a[l as int]);
        }
    }
}

impl StaticDictBuilder {
    /// The words of the phrase spelled by `syls`, in insertion order.
    pub closed spec fn spec_words_of(&self, syls: Seq<Syllable>) -> Seq<WordId> {
        words_of(self.arena@, syls)
    }

    /// The number of trie nodes held.
    pub closed spec fn spec_node_count(&self) -> nat {
        self.arena@.len()
    }

    /// The number of words held over all phrases.
    pub closed spec fn spec_word_count(&self) -> nat {
        words_total(self.arena@, self.arena@.len() as int)
    }

    /// The builder's invariant.
    pub closed spec fn wf(&self) -> bool {
        shape_ok(self.arena@) && leaves_filled(self.arena@)
    }

    /// An empty builder.
    pub fn new() -> (b: StaticDictBuilder)
        ensures
            b.wf(),
            b.spec_node_count() == 1,
            b.spec_fits(),
            b.spec_word_count() == 0,
            forall|syls: Seq<Syllable>| #[trigger] b.spec_words_of(syls) == Seq::<WordId>::empty(),
    {
        let root = TrieBuilderNode {
            syllable: None,
            children: Vec::new(),
            leaf_id: None,
            words: Vec::new(),
        };
        let mut arena = Vec::new();
        arena.push(root);
        let b = StaticDictBuilder { arena };
        proof {
            let a = b.arena@;
            assert(a.len() == 1);
            assert(kids(a[0]) =~= Seq::<u32>::empty());
            assert(words_total(a, 0) == 0);
            assert(words_total(a, 1) == 0);
            assert(fits(a));
            assert forall|syls: Seq<Syllable>| #[trigger] b.spec_words_of(syls) == Seq::<WordId>::empty() by {
                lemma_path_internal(b.arena@, syls);
            }
        }
        b
    }

    /// The child of internal node `p` with syllable `s`, or the place
    /// where it would go among the children.
    fn find_child(&self, p: u32, s: Syllable) -> (r: Result<u32, usize>)
        requires
            shape_ok(self.arena@),
            p < self.arena@.len(),
        ensures
            r matches Ok(c) ==> child_with(self.arena@, p as int, s) == Some(c as int),
            r matches Err(pos) ==> {
                &&& child_with(self.arena@, p as int, s) is None
                &&& pos <= self.arena@[p as int].children@.len()
                &&& forall|x: int|
                    0 <= x < pos ==> syl_val(self.arena@[#[trigger] self.arena@[p as int].children@[x] as int])
                        < s.spec_value()
                &&& forall|x: int|
                    pos <= x < self.arena@[p as int].children@.len() ==> syl_val(
                        self.arena@[#[trigger] self.arena@[p as int].children@[x] as int],
                    ) > s.spec_value()
            },
    {
        let ghost a = self.arena@;
        let node = &self.arena[p as usize];
        let mut x: usize = 0;
        while x < node.children.len()
            invariant
                a == self.arena@,
                shape_ok(a),
                p < a.len(),
                *node == a[p as int],
                0 <= x <= node.children@.len(),
                forall|y: int| 0 <= y < x ==> syl_val(a[#[trigger] node.children@[y] as int]) < s.spec_value(),
            decreases node.children@.len() - x,
        {
            let c = node.children[x];
            let v: u16 = match self.arena[c as usize].syllable {
                Some(cs) => cs.to_u16(),
                None => 0,
            };
            if v == s.to_u16() {
                proof {
                    lemma_value_injective(a[c as int].syllable->0, s);
                    assert(child_matches(a, p as int, x as int, s));
                    lemma_child_unique(a, p as int, x as int, s);
                }
                return Ok(c);
            }
            if v > s.to_u16() {
                proof {
                    assert forall|y: int| x <= y < node.children@.len() implies syl_val(
                        a[#[trigger] node.children@[y] as int],
                    ) > s.spec_value() by {
                        if x < y {
                            assert(syl_val(a[node.children@[x as int] as int]) < syl_val(
                                a[node.children@[y] as int],
                            ));
                        }
                    }
                    assert(!exists|y: int| child_matches(a, p as int, y, s));
                }
                return Err(x);
            }
            x = x + 1;
        }
        Err(x)
    }

    /// Adds the word `wid` to the phrase spelled by `syllables`; a word that
    /// the phrase already has keeps its place.
    #[verifier::loop_isolation(false)]
    pub fn insert(&mut self, syllables: &[Syllable], wid: WordId)
        requires
            old(self).wf(),
            old(self).spec_node_count() + syllables@.len() < u32::MAX,
        ensures
            final(self).wf(),
            final(self).spec_node_count() <= old(self).spec_node_count() + syllables@.len() + 1,
            final(self).spec_words_of(syllables@) == (if old(self).spec_words_of(syllables@).contains(
                wid,
            ) {
                old(self).spec_words_of(syllables@)
            } else {
                old(self).spec_words_of(syllables@).push(wid)
            }),
            forall|k: Seq<Syllable>|
                k != syllables@ ==> #[trigger] final(self).spec_words_of(k) == old(self).spec_words_of(k),
            final(self).spec_word_count() == old(self).spec_word_count() + if old(
                self,
            ).spec_words_of(syllables@).contains(wid) {
                0int
            } else {
                1int
            },
            ({
                &&& old(self).spec_fits()
                &&& wid.0 < 0x1000000
                &&& 3 * (old(self).spec_words_of(syllables@).len() + 1) <= 0xffff
                &&& 3 * (old(self).spec_word_count() + 1) <= u32::MAX
                &&& old(self).spec_node_count() + syllables@.len() + 1 <= 0x10000
                &&& forall|j: int| 0 <= j < syllables@.len() ==> (#[trigger] syllables@[j]).spec_value() != 0
            }) ==> final(self).spec_fits(),
    {
        let ghost a0 = self.arena@;
        let leaf = self.find_or_insert_internal(syllables);
        let ghost a = self.arena@;
        let ghost t = find_path(a, syllables@)->0;
        proof {
            lemma_path_internal(a, syllables@);
            assert(kids(a[t])[0] == leaf);
            lemma_words_total_append(a0, a, a.len() as int);
        }
        let words = &self.arena[leaf as usize].words;
        let mut x: usize = 0;
        while x < words.len()
            invariant
                *words == a[leaf as int].words,
                0 <= x <= words@.len(),
                forall|y: int| 0 <= y < x ==> words@[y] != wid,
            decreases words@.len() - x,
        {
            if words[x] == wid {
                proof {
                    assert(words@.contains(wid));
                    if fits(a0) && wid.0 < 0x1000000 && 3 * (words_of(a0, syllables@).len() + 1) <= 0xffff
                        && 3 * (words_total(a0, a0.len() as int) + 1) <= u32::MAX && a0.len()
                        + syllables@.len() + 1 <= 0x10000 && forall|j: int|
                        0 <= j < syllables@.len() ==> (#[trigger] syllables@[j]).spec_value() != 0 {
                        assert forall|u: int| 0 <= u < a[leaf as int].words@.len() implies (
                        #[trigger] a[leaf as int].words@[u]).0 < 0x1000000 by {
                            assert(leaf < a0.len());
                            assert(a0[leaf as int].words@[u].0 < 0x1000000);
                        }
                        assert forall|j: int| 0 <= j < a0.len() implies #[trigger] a[j].syllable == a0[j].syllable by {
                            assert(a[j].words@ == a0[j].words@);
                        }
                        assert forall|j: int| a0.len() <= j < a.len() && (#[trigger] a[j].syllable) is Some implies syllables@.contains(
                            a[j].syllable->0,
                        ) by {
                            assert((a[j].words@).len() == 0);
                        }
                        lemma_insert_fits(a0, a, syllables@, leaf as int);
                    }
                }
                return;
            }
            x = x + 1;
        }
        self.arena[leaf as usize].words.push(wid);
        proof {
            let b = self.arena@;
            assert(!a[leaf as int].words@.contains(wid));
            lemma_set_leaf_words(a, b, leaf as int);
            assert forall|k: Seq<Syllable>| k != syllables@ implies #[trigger] words_of(b, k) == words_of(
                a,
                k,
            ) by {
                lemma_path_internal(a, k);
                if let Some(m) = find_path(a, k) {
                    if a[m].leaf_id == Some(leaf) {
                        assert(kids(a[m])[0] == kids(a[t])[0]);
                        lemma_path_injective(a, k, syllables@);
                    }
                }
            }
            assert(t != leaf);
            assert(b[t] == a[t]);
            lemma_words_total_bump(a, b, leaf as int, b.len() as int);
            if fits(a0) && wid.0 < 0x1000000 && 3 * (words_of(a0, syllables@).len() + 1) <= 0xffff && 3 * (
            words_total(a0, a0.len() as int) + 1) <= u32::MAX && a0.len() + syllables@.len() + 1 <= 0x10000
                && forall|j: int| 0 <= j < syllables@.len() ==> (#[trigger] syllables@[j]).spec_value() != 0 {
                assert forall|u: int| 0 <= u < b[leaf as int].words@.len() implies (
                #[trigger] b[leaf as int].words@[u]).0 < 0x1000000 by {
                    if u < a[leaf as int].words@.len() {
                        assert(b[leaf as int].words@[u] == a[leaf as int].words@[u]);
                        assert(leaf < a0.len());
                        assert(a0[leaf as int].words@[u].0 < 0x1000000);
                    }
                }
                assert forall|j: int| 0 <= j < a0.len() && j != leaf implies #[trigger] b[j].words@ == a0[j].words@ by {
                    assert(b[j] == a[j]);
                }
                assert forall|j: int| 0 <= j < a0.len() implies #[trigger] b[j].syllable == a0[j].syllable by {
                    assert(a[j].words@ == a0[j].words@);
                    if j != leaf {
                        assert(b[j] == a[j]);
                    }
                }
                assert forall|j: int| a0.len() <= j < b.len() && j != leaf implies (#[trigger] b[j].words@).len() == 0 by {
                    assert(b[j] == a[j]);
                }
                assert forall|j: int| a0.len() <= j < b.len() && (#[trigger] b[j].syllable) is Some implies syllables@.contains(
                    b[j].syllable->0,
                ) by {
                    assert((a[j].words@).len() == 0);
                    if j != leaf {
                        assert(b[j] == a[j]);
                    }
                }
                lemma_insert_fits(a0, b, syllables@, leaf as int);
            }
        }
    }

    /// Walks the syllables from the root, adding the missing internal
    /// nodes, and returns the leaf that holds the words of the phrase.
    fn find_or_insert_internal(&mut self, syllables: &[Syllable]) -> (leaf: u32)
        requires
            shape_ok(old(self).arena@),
            leaves_filled(old(self).arena@),
            old(self).arena@.len() + syllables@.len() < u32::MAX,
        ensures
            shape_ok(final(self).arena@),
            final(self).arena@.len() <= old(self).arena@.len() + syllables@.len() + 1,
            find_path(final(self).arena@, syllables@) matches Some(t) && final(self).arena@[t].leaf_id
                == Some(leaf),
            final(self).arena@[leaf as int].words@ == words_of(old(self).arena@, syllables@),
            forall|k: Seq<Syllable>|
                k != syllables@ ==> #[trigger] words_of(final(self).arena@, k) == words_of(
                    old(self).arena@,
                    k,
                ),
            forall|i: int|
                0 < i < final(self).arena@.len() && i != leaf && (#[trigger] final(self).arena@[i].syllable) is None
                    ==> final(self).arena@[i].words@.len() > 0,
            old(self).arena@.len() <= final(self).arena@.len(),
            forall|j: int|
                0 <= j < old(self).arena@.len() ==> #[trigger] final(self).arena@[j].words@ == old(
                    self,
                ).arena@[j].words@ && final(self).arena@[j].syllable == old(self).arena@[j].syllable,
            forall|j: int|
                old(self).arena@.len() <= j < final(self).arena@.len() ==> (
                #[trigger] final(self).arena@[j].words@).len() == 0 && (final(self).arena@[j].syllable is Some
                    ==> syllables@.contains(final(self).arena@[j].syllable->0)),
    {
        let ghost a0 = self.arena@;
        let mut node: u32 = 0;
        let mut i: usize = 0;
        proof {
            assert(syllables@.take(0) =~= Seq::<Syllable>::empty());
        }
        while i < syllables.len()
            invariant
                shape_ok(self.arena@),
                keeps(a0, self.arena@),
                shape_ok(a0),
                leaves_filled(a0),
                self.arena@.len() <= a0.len() + i,
                a0.len() + syllables@.len() < u32::MAX,
                0 <= i <= syllables@.len(),
                find_path(self.arena@, syllables@.take(i as int)) == Some(node as int),
                forall|j: int|
                    a0.len() <= j < self.arena@.len() ==> syllables@.contains(
                        (#[trigger] self.arena@[j].syllable)->0,
                    ),
            decreases syllables@.len() - i,
        {
            let syl = syllables[i];
            proof {
                lemma_path_internal(self.arena@, syllables@.take(i as int));
                assert(syllables@.take(i + 1) =~= syllables@.take(i as int).push(syl));
                assert(syllables@.take(i + 1).drop_last() =~= syllables@.take(i as int));
            }
            match self.find_child(node, syl) {
                Ok(c) => {
                    node = c;
                },
                Err(pos) => {
                    let ghost a = self.arena@;
                    let id = self.alloc_internal(syl);
                    self.arena[node as usize].children.insert(pos, id);
                    proof {
                        lemma_add_child(a, self.arena@, node as int, pos as int, syl);
                        let b = self.arena@;
                        assert forall|k: Seq<Syllable>| #[trigger] find_path(a0, k) is Some implies find_path(
                            b,
                            k,
                        ) == find_path(a0, k) by {
                            assert(find_path(a, k) == find_path(a0, k));
                        }
                        assert forall|k: Seq<Syllable>|
                            #[trigger] find_path(b, k) is Some && find_path(b, k)->0 < a0.len() implies find_path(a0, k)
                            == find_path(b, k) by {
                            assert(find_path(b, k)->0 == a.len() || find_path(a, k) == find_path(b, k));
                        }
                        assert forall|j: int| 0 <= j < a0.len() implies #[trigger] b[j].syllable == a0[j].syllable
                            && b[j].leaf_id == a0[j].leaf_id && b[j].words@ == a0[j].words@ by {
                            assert(a[j].syllable == a0[j].syllable);
                            if j != node {
                                assert(b[j] == a[j]);
                            }
                        }
                        assert forall|j: int| a0.len() <= j < b.len() implies syllables@.contains(
                            (#[trigger] b[j].syllable)->0,
                        ) by {
                            if j == a.len() {
                                assert(syllables@[i as int] == syl);
                            } else if j != node {
                                assert(b[j] == a[j]);
                                assert(syllables@.contains(a[j].syllable->0));
                            } else {
                                assert(syllables@.contains(a[j].syllable->0));
                            }
                        }
                        assert forall|j: int| a0.len() <= j < b.len() implies (#[trigger] b[j].leaf_id) is None
                            && b[j].syllable is Some by {
                            if j < a.len() {
                                assert(a[j].leaf_id is None && a[j].syllable is Some);
                                if j != node {
                                    assert(b[j] == a[j]);
                                }
                            }
                        }
                    }
                    node = id;
                },
            }
            i = i + 1;
        }
        proof {
            assert(syllables@.take(syllables@.len() as int) =~= syllables@);
            lemma_path_internal(self.arena@, syllables@);
            assert forall|j: int| 0 < j < self.arena@.len() && (#[trigger] self.arena@[j].syllable) is None implies self.arena@[j].words@.len() > 0 by {
                if j >= a0.len() {
                    assert(self.arena@[j].syllable is Some);
                } else {
                    assert(self.arena@[j].words@ == a0[j].words@);
                }
            }
        }
        let ghost a = self.arena@;
        match self.arena[node as usize].leaf_id {
            Some(l) => {
                proof {
                    assert forall|k: Seq<Syllable>| k != syllables@ implies #[trigger] words_of(a, k)
                        == words_of(a0, k) by {
                        lemma_keeps_words(a0, a, k);
                    }
                    lemma_keeps_words(a0, a, syllables@);
                }
                l
            },
            None => {
                let l = self.alloc_leaf();
                self.arena[node as usize].leaf_id = Some(l);
                proof {
                    lemma_keeps_words(a0, a, syllables@);
                    lemma_add_leaf(a, self.arena@, node as int);
                    assert forall|k: Seq<Syllable>| k != syllables@ implies #[trigger] words_of(
                        self.arena@,
                        k,
                    ) == words_of(a0, k) by {
                        lemma_keeps_words(a0, a, k);
                        if find_path(a, k) == Some(node as int) {
                            lemma_path_injective(a, k, syllables@);
                        }
                    }
                }
                l
            },
        }
    }

    /// Allocates a new internal node for `syl` and returns its number.
    fn alloc_internal(&mut self, syl: Syllable) -> (id: u32)
        requires
            old(self).arena@.len() < u32::MAX,
        ensures
            id == old(self).arena@.len(),
            final(self).arena@.len() == old(self).arena@.len() + 1,
            forall|i: int| 0 <= i < old(self).arena@.len() ==> #[trigger] final(self).arena@[i] == old(self).arena@[i],
            final(self).arena@[id as int].syllable == Some(syl),
            final(self).arena@[id as int].children@.len() == 0,
            final(self).arena@[id as int].leaf_id is None,
            final(self).arena@[id as int].words@.len() == 0,
    {
        let next_id = self.arena.len() as u32;
        self.arena.push(
            TrieBuilderNode { syllable: Some(syl), children: Vec::new(), leaf_id: None, words: Vec::new() },
        );
        next_id
    }

    /// Allocates a new leaf node and returns its number.
    fn alloc_leaf(&mut self) -> (id: u32)
        requires
            old(self).arena@.len() < u32::MAX,
        ensures
            id == old(self).arena@.len(),
            final(self).arena@.len() == old(self).arena@.len() + 1,
            forall|i: int| 0 <= i < old(self).arena@.len() ==> #[trigger] final(self).arena@[i] == old(self).arena@[i],
            final(self).arena@[id as int].syllable is None,
            final(self).arena@[id as int].children@.len() == 0,
            final(self).arena@[id as int].leaf_id is None,
            final(self).arena@[id as int].words@.len() == 0,
    {
        let next_id = self.arena.len() as u32;
        self.arena.push(
            TrieBuilderNode { syllable: None, children: Vec::new(), leaf_id: None, words: Vec::new() },
        );
        next_id
    }
}


/// Appends `x` as 4 little endian bytes.
fn push_u32_le(out: &mut Vec<u8>, x: u32)
    ensures
        final(out)@.len() == old(out)@.len() + 4,
        forall|i: int| 0 <= i < old(out)@.len() ==> #[trigger] final(out)@[i] == old(out)@[i],
        u32_at(final(out)@, old(out)@.len() as int, false) == x,
{
    let b0 = (x & 0xff) as u8;
    let b1 = ((x >> 8) & 0xff) as u8;
    let b2 = ((x >> 16) & 0xff) as u8;
    let b3 = ((x >> 24) & 0xff) as u8;
    proof {
        assert((x & 0xff) + ((x >> 8) & 0xff) * 256 + ((x >> 16) & 0xff) * 65536 + ((x >> 24) & 0xff)
            * 16777216 == x) by (bit_vector);
        assert(x & 0xff < 256 && (x >> 8) & 0xff < 256 && (x >> 16) & 0xff < 256 && (x >> 24) & 0xff
            < 256) by (bit_vector);
    }
    out.push(b0);
    out.push(b1);
    out.push(b2);
    out.push(b3);
}

/// Appends `x` as 2 little endian bytes.
fn push_u16_le(out: &mut Vec<u8>, x: u16)
    ensures
        final(out)@.len() == old(out)@.len() + 2,
        forall|i: int| 0 <= i < old(out)@.len() ==> #[trigger] final(out)@[i] == old(out)@[i],
        u16_at(final(out)@, old(out)@.len() as int, false) == x,
{
    let b0 = (x & 0xff) as u8;
    let b1 = ((x >> 8) & 0xff) as u8;
    proof {
        assert((x & 0xff) + ((x >> 8) & 0xff) * 256 == x) by (bit_vector);
        assert(x & 0xff < 256 && (x >> 8) & 0xff < 256) by (bit_vector);
    }
    out.push(b0);
    out.push(b1);
}

/// Appends the low 3 bytes of a word id, little endian.
fn push_word(out: &mut Vec<u8>, w: WordId)
    ensures
        final(out)@.len() == old(out)@.len() + 3,
        forall|i: int| 0 <= i < old(out)@.len() ==> #[trigger] final(out)@[i] == old(out)@[i],
        word_at(final(out)@, old(out)@.len() as int, 3) == WordId((w.0 % 0x1000000) as u32),
{
    let x = w.0;
    let b0 = (x & 0xff) as u8;
    let b1 = ((x >> 8) & 0xff) as u8;
    let b2 = ((x >> 16) & 0xff) as u8;
    proof {
        assert((x & 0xff) + ((x >> 8) & 0xff) * 256 + ((x >> 16) & 0xff) * 65536 == x % 0x1000000)
            by (bit_vector);
        assert(x & 0xff < 256 && (x >> 8) & 0xff < 256 && (x >> 16) & 0xff < 256) by (bit_vector);
    }
    out.push(b0);
    out.push(b1);
    out.push(b2);
}

/// The total number of words held by the first `n` nodes.
proof fn lemma_words_total_grows(a: Seq<TrieBuilderNode>, m: int, n: int)
    requires
        0 <= m <= n,
    ensures
        words_total(a, m) <= words_total(a, n),
    decreases n - m,
{
    if m < n {
        lemma_words_total_grows(a, m, n - 1);
    }
}

spec fn words_total(a: Seq<TrieBuilderNode>, n: int) -> nat
    decreases n,
{
    if n <= 0 {
        0
    } else {
        words_total(a, n - 1) + a[n - 1].words@.len()
    }
}

/// Appending nodes without words, and keeping the words of the others,
/// keeps the total.
proof fn lemma_words_total_append(a: Seq<TrieBuilderNode>, b: Seq<TrieBuilderNode>, n: int)
    requires
        a.len() <= b.len(),
        0 <= n <= b.len(),
        forall|i: int| 0 <= i < a.len() ==> (#[trigger] b[i].words@).len() == a[i].words@.len(),
        forall|i: int| a.len() <= i < b.len() ==> (#[trigger] b[i].words@).len() == 0,
    ensures
        words_total(b, n) == words_total(a, if n <= a.len() { n } else { a.len() as int }),
    decreases n,
{
    if n > 0 {
        lemma_words_total_append(a, b, n - 1);
        let _ = b[n - 1].words@.len();
    }
}

/// One more word in node `leaf` adds one to every total that counts it.
proof fn lemma_words_total_bump(a: Seq<TrieBuilderNode>, b: Seq<TrieBuilderNode>, leaf: int, n: int)
    requires
        a.len() == b.len(),
        0 <= leaf < a.len(),
        0 <= n <= a.len(),
        forall|i: int| 0 <= i < a.len() && i != leaf ==> (#[trigger] b[i].words@).len() == a[i].words@.len(),
        b[leaf].words@.len() == a[leaf].words@.len() + 1,
    ensures
        words_total(b, n) == words_total(a, n) + if n > leaf { 1int } else { 0int },
    decreases n,
{
    if n > 0 {
        lemma_words_total_bump(a, b, leaf, n - 1);
        let _ = b[n - 1].words@.len();
    }
}

/// A node has fewer kids than the arena has nodes: its kids are distinct
/// nodes other than the root.
proof fn lemma_kids_bound(a: Seq<TrieBuilderNode>, i: int)
    requires
        shape_ok(a),
        0 <= i < a.len(),
    ensures
        kids(a[i]).len() < a.len(),
{
    let s = kids(a[i]);
    let t = s.map_values(|v: u32| v as int);
    assert forall|x: int, y: int| 0 <= x < t.len() && 0 <= y < t.len() && x != y implies t[x] != t[y] by {
        if t[x] == t[y] {
            assert(kids(a[i])[x] == kids(a[i])[y]);
        }
    }
    assert(t.no_duplicates());
    t.unique_seq_to_set();
    assert(t.to_set().subset_of(vstd::set_lib::set_int_range(1, a.len() as int))) by {
        assert forall|v: int| t.to_set().contains(v) implies vstd::set_lib::set_int_range(1, a.len() as int).contains(v) by {
            let x = choose|x: int| 0 <= x < t.len() && t[x] == v;
            assert(0 < kids(a[i])[x] < a.len());
        }
    }
    vstd::set_lib::lemma_int_range(1, a.len() as int);
    vstd::set_lib::lemma_len_subset(t.to_set(), vstd::set_lib::set_int_range(1, a.len() as int));
}

/// An insertion that adds nodes for nonzero syllables, no more than 65536
/// in all, and words only to one leaf within the limits, keeps the trie
/// within what the file can hold.
proof fn lemma_insert_fits(
    a0: Seq<TrieBuilderNode>,
    b: Seq<TrieBuilderNode>,
    syls: Seq<Syllable>,
    leaf: int,
)
    requires
        fits(a0),
        shape_ok(b),
        a0.len() <= b.len() <= 0x10000,
        0 <= leaf < b.len(),
        forall|j: int| 0 <= j < a0.len() && j != leaf ==> #[trigger] b[j].words@ == a0[j].words@,
        forall|j: int| 0 <= j < a0.len() ==> #[trigger] b[j].syllable == a0[j].syllable,
        forall|j: int|
            a0.len() <= j < b.len() && j != leaf ==> (#[trigger] b[j].words@).len() == 0,
        forall|j: int|
            a0.len() <= j < b.len() && (#[trigger] b[j].syllable) is Some ==> syls.contains(
                b[j].syllable->0,
            ),
        forall|j: int| 0 <= j < syls.len() ==> (#[trigger] syls[j]).spec_value() != 0,
        3 * b[leaf].words@.len() <= 0xffff,
        forall|t: int| 0 <= t < b[leaf].words@.len() ==> (#[trigger] b[leaf].words@[t]).0 < 0x1000000,
        3 * words_total(b, b.len() as int) <= u32::MAX,
    ensures
        fits(b),
{
    assert forall|i: int| 0 <= i < b.len() implies (#[trigger] kids(b[i])).len() <= 0xffff by {
        lemma_kids_bound(b, i);
    }
    assert forall|i: int| 0 <= i < b.len() implies 3 * (#[trigger] b[i].words@).len() <= 0xffff by {
        if i != leaf && i < a0.len() {
            assert(b[i].words@ == a0[i].words@);
            assert(3 * a0[i].words@.len() <= 0xffff);
        }
    }
    assert forall|i: int, t: int| 0 <= i < b.len() && 0 <= t < b[i].words@.len() implies (
    #[trigger] b[i].words@[t]).0 < 0x1000000 by {
        if i != leaf && i < a0.len() {
            assert(b[i].words@ == a0[i].words@);
            assert(a0[i].words@[t].0 < 0x1000000);
        }
    }
    assert forall|i: int| 0 < i < b.len() && (#[trigger] b[i].syllable) is Some implies syl_val(b[i]) != 0 by {
        if i < a0.len() {
            assert(b[i].syllable == a0[i].syllable);
            assert(syl_val(a0[i]) != 0);
        } else {
            let j = choose|j: int| 0 <= j < syls.len() && syls[j] == b[i].syllable->0;
            assert(syls[j].spec_value() != 0);
        }
    }
}

/// The number of words held by the nodes `ids`.
spec fn words_sum(a: Seq<TrieBuilderNode>, ids: Seq<u32>) -> nat
    decreases ids.len(),
{
    if ids.len() == 0 {
        0
    } else {
        words_sum(a, ids.drop_last()) + a[ids.last() as int].words@.len()
    }
}

/// What the file holds for the node at position `q`: an internal node
/// gives the position of its first kid, its number of kids and its
/// syllable; a leaf gives where its words start, their length in bytes and 0.
spec fn record_ok(
    a: Seq<TrieBuilderNode>,
    index: Seq<u8>,
    order: Seq<u32>,
    starts: Seq<int>,
    dbegin: Seq<int>,
    q: int,
) -> bool {
    let n = a[order[q] as int];
    if is_internal(a, order[q] as int) {
        &&& u32_at(index, 8 * q, false) == (starts[q] as u32)
        &&& u16_at(index, 8 * q + 4, false) == (kids(n).len() as u16)
        &&& u16_at(index, 8 * q + 6, false) == (syl_val(n) as u16)
    } else {
        &&& u32_at(index, 8 * q, false) == (dbegin[q] as u32)
        &&& u16_at(index, 8 * q + 4, false) == ((3 * n.words@.len()) as u16)
        &&& u16_at(index, 8 * q + 6, false) == 0
    }
}

/// The words of the leaf at position `q` lie in the word list.
spec fn leaf_data_ok(a: Seq<TrieBuilderNode>, data: Seq<u8>, order: Seq<u32>, dbegin: Seq<int>, q: int) -> bool {
    let n = a[order[q] as int];
    !is_internal(a, order[q] as int) ==> {
        &&& 0 <= dbegin[q]
        &&& dbegin[q] + 3 * n.words@.len() <= data.len()
        &&& forall|t: int|
            0 <= t < n.words@.len() ==> #[trigger] word_at(data, dbegin[q] + 3 * t, 3) == WordId(
                (n.words@[t].0 % 0x1000000) as u32,
            )
    }
}

/// The kids of the node at position `q` sit from position `starts[q]` on.
spec fn kids_placed(a: Seq<TrieBuilderNode>, order: Seq<u32>, starts: Seq<int>, q: int) -> bool {
    let ks = kids(a[order[q] as int]);
    &&& 0 < starts[q]
    &&& starts[q] + ks.len() <= order.len()
    &&& forall|x: int| 0 <= x < ks.len() ==> #[trigger] order[starts[q] + x] == ks[x]
}

/// The index and the word list lay out the arena, nodes in the order
/// `order` (each node once), the root first.
spec fn laid_out(
    a: Seq<TrieBuilderNode>,
    index: Seq<u8>,
    data: Seq<u8>,
    order: Seq<u32>,
    starts: Seq<int>,
    dbegin: Seq<int>,
) -> bool {
    &&& 1 <= order.len() <= a.len()
    &&& order[0] == 0
    &&& index.len() == 8 * order.len()
    &&& starts.len() == order.len()
    &&& dbegin.len() == order.len()
    &&& forall|q: int| 0 <= q < order.len() ==> #[trigger] order[q] < a.len()
    &&& forall|q: int, r: int| 0 <= q < r < order.len() ==> #[trigger] order[q] != #[trigger] order[r]
    &&& forall|q: int| 0 <= q < order.len() ==> #[trigger] kids_placed(a, order, starts, q)
    &&& forall|q: int| 0 <= q < order.len() ==> #[trigger] record_ok(a, index, order, starts, dbegin, q)
    &&& forall|q: int| 0 <= q < order.len() ==> #[trigger] leaf_data_ok(a, data, order, dbegin, q)
    &&& data.len() == 3 * words_sum(a, order)
}


/// A sequence of distinct numbers below `n` has at most `n` elements.
proof fn lemma_distinct_len(s: Seq<u32>, n: int)
    requires
        0 <= n,
        forall|q: int| 0 <= q < s.len() ==> #[trigger] s[q] < n,
        forall|q: int, r: int| 0 <= q < r < s.len() ==> #[trigger] s[q] != #[trigger] s[r],
    ensures
        s.len() <= n,
{
    let t = s.map_values(|x: u32| x as int);
    assert(t.no_duplicates()) by {
        assert forall|q: int, r: int| 0 <= q < t.len() && 0 <= r < t.len() && q != r implies t[q]
            != t[r] by {
            if q < r {
                assert(s[q] != s[r]);
            } else {
                assert(s[r] != s[q]);
            }
        }
    }
    t.unique_seq_to_set();
    vstd::set_lib::lemma_int_range(0, n);
    assert(t.to_set().subset_of(vstd::set_lib::set_int_range(0, n)));
    vstd::set_lib::lemma_len_subset(t.to_set(), vstd::set_lib::set_int_range(0, n));
}

impl StaticDictBuilder {
    /// Writes the record of node `id` at the end of `index` and, for a leaf,
    /// its words at the end of `data`.
    fn write_record(&self, id: u32, child_begin: usize, index: &mut Vec<u8>, data: &mut Vec<u8>)
        requires
            shape_ok(self.arena@),
            id < self.arena@.len(),
            child_begin <= u32::MAX,
        ensures
            final(index)@.len() == old(index)@.len() + 8,
            forall|i: int| 0 <= i < old(index)@.len() ==> #[trigger] final(index)@[i] == old(index)@[i],
            final(data)@.len() == old(data)@.len() + 3 * self.arena@[id as int].words@.len(),
            forall|i: int| 0 <= i < old(data)@.len() ==> #[trigger] final(data)@[i] == old(data)@[i],
            ({
                let n = self.arena@[id as int];
                let o = old(index)@.len() as int;
                let ix = final(index)@;
                if is_internal(self.arena@, id as int) {
                    &&& u32_at(ix, o, false) == (child_begin as u32)
                    &&& u16_at(ix, o + 4, false) == (kids(n).len() as u16)
                    &&& u16_at(ix, o + 6, false) == (syl_val(n) as u16)
                } else {
                    &&& u32_at(ix, o, false) == (old(data)@.len() as u32)
                    &&& u16_at(ix, o + 4, false) == ((3 * n.words@.len()) as u16)
                    &&& u16_at(ix, o + 6, false) == 0
                    &&& forall|t: int|
                        0 <= t < n.words@.len() ==> #[trigger] word_at(
                            final(data)@,
                            old(data)@.len() + 3 * t,
                            3,
                        ) == WordId((n.words@[t].0 % 0x1000000) as u32)
                }
            }),
    {
        let ghost a = self.arena@;
        let node = &self.arena[id as usize];
        if node.syllable.is_some() || id == 0 {
            let syl: u16 = match node.syllable {
                Some(s) => s.to_u16(),
                None => 0,
            };
            proof {
                assert forall|q: int, r: int| 0 <= q < r < kids(a[id as int]).len() implies #[trigger] kids(
                    a[id as int],
                )[q] != #[trigger] kids(a[id as int])[r] by {}
                lemma_distinct_len(kids(a[id as int]), a.len() as int);
                assert(kids(a[id as int]).len() == a[id as int].children@.len() + (if a[
                    id as int].leaf_id is Some {
                    1int
                } else {
                    0int
                }));
            }
            let child_len = node.children.len() + if node.leaf_id.is_some() {
                1
            } else {
                0
            };
            let ghost i0 = index@;
            push_u32_le(index, child_begin as u32);
            let ghost i1 = index@;
            push_u16_le(index, #[verifier::truncate] (child_len as u16));
            let ghost i2 = index@;
            push_u16_le(index, syl);
            proof {
                assert(u32_at(index@, i0.len() as int, false) == u32_at(i1, i0.len() as int, false));
                assert(u16_at(index@, i0.len() as int + 4, false) == u16_at(i2, i0.len() as int + 4, false));
            }
        } else {
            let ghost d0 = data@;
            let data_begin = data.len();
            let mut t: usize = 0;
            while t < node.words.len()
                invariant
                    id < a.len(),
                    *node == a[id as int],
                    0 <= t <= node.words@.len(),
                    data@.len() == d0.len() + 3 * t,
                    forall|i: int| 0 <= i < d0.len() ==> #[trigger] data@[i] == d0[i],
                    forall|u: int|
                        0 <= u < t ==> #[trigger] word_at(data@, d0.len() + 3 * u, 3) == WordId(
                            (node.words@[u].0 % 0x1000000) as u32,
                        ),
                decreases node.words@.len() - t,
            {
                let ghost before = data@;
                push_word(data, node.words[t]);
                proof {
                    assert forall|u: int| 0 <= u < t + 1 implies #[trigger] word_at(
                        data@,
                        d0.len() + 3 * u,
                        3,
                    ) == WordId((node.words@[u].0 % 0x1000000) as u32) by {
                        if u < t {
                            assert(word_at(data@, d0.len() + 3 * u, 3) == word_at(
                                before,
                                d0.len() + 3 * u,
                                3,
                            ));
                        }
                    }
                }
                t = t + 1;
            }
            let data_len = data.len() - data_begin;
            let ghost i0 = index@;
            push_u32_le(index, #[verifier::truncate] (data_begin as u32));
            let ghost i1 = index@;
            push_u16_le(index, #[verifier::truncate] (data_len as u16));
            let ghost i2 = index@;
            push_u16_le(index, 0);
            proof {
                assert(u32_at(index@, i0.len() as int, false) == u32_at(i1, i0.len() as int, false));
                assert(u16_at(index@, i0.len() as int + 4, false) == u16_at(i2, i0.len() as int + 4, false));
            }
        }
    }
}

impl StaticDictBuilder {
    /// Lays the trie out as an index and a word list, nodes in
    /// breadth-first order, the leaf of a node before its sorted children.
    fn lay_out(&self) -> (r: (Vec<u8>, Vec<u8>, Ghost<(Seq<u32>, Seq<int>, Seq<int>)>))
        requires
            shape_ok(self.arena@),
        ensures
            laid_out(self.arena@, r.0@, r.1@, r.2@.0, r.2@.1, r.2@.2),
    {
        let ghost a = self.arena@;
        let mut index: Vec<u8> = Vec::new();
        let mut data: Vec<u8> = Vec::new();
        let mut order: Vec<u32> = Vec::new();
        order.push(0);
        let ghost mut starts: Seq<int> = Seq::empty();
        let ghost mut dbegin: Seq<int> = Seq::empty();
        let ghost mut parent: Seq<int> = seq![0int];
        let ghost mut pslot: Seq<int> = seq![0int];
        proof {
            assert(order@.take(0) =~= Seq::<u32>::empty());
        }
        let mut k: usize = 0;
        while k < order.len()
            invariant
                a == self.arena@,
                shape_ok(a),
                1 <= order@.len() <= a.len(),
                order@[0] == 0,
                0 <= k <= order@.len(),
                index@.len() == 8 * k,
                starts.len() == k,
                dbegin.len() == k,
                parent.len() == order@.len(),
                pslot.len() == order@.len(),
                forall|q: int| 0 <= q < order@.len() ==> #[trigger] order@[q] < a.len(),
                forall|q: int, r: int| 0 <= q < r < order@.len() ==> #[trigger] order@[q] != #[trigger] order@[r],
                forall|q: int|
                    0 < q < order@.len() ==> 0 <= #[trigger] parent[q] < k && 0 <= pslot[q] < kids(
                        a[order@[parent[q]] as int],
                    ).len() && kids(a[order@[parent[q]] as int])[pslot[q]] == order@[q],
                forall|q: int| 0 <= q < k ==> #[trigger] kids_placed(a, order@, starts, q),
                forall|q: int| 0 <= q < k ==> #[trigger] record_ok(a, index@, order@, starts, dbegin, q),
                forall|q: int| 0 <= q < k ==> #[trigger] leaf_data_ok(a, data@, order@, dbegin, q),
                data@.len() == 3 * words_sum(a, order@.take(k as int)),
            decreases a.len() - k,
        {
            let id = order[k];
            let cb = order.len();
            let ghost i0 = index@;
            let ghost d0 = data@;
            let ghost o0 = order@;
            self.write_record(id, cb, &mut index, &mut data);
            let node = &self.arena[id as usize];
            let has_leaf = node.leaf_id.is_some();
            proof {
                assert forall|q: int, r: int| 0 <= q < r < kids(a[id as int]).len() implies #[trigger] kids(
                    a[id as int],
                )[q] != #[trigger] kids(a[id as int])[r] by {}
                lemma_distinct_len(kids(a[id as int]), a.len() as int);
                assert(kids(a[id as int]).len() == a[id as int].children@.len() + (if has_leaf {
                    1int
                } else {
                    0int
                }));
            }
            let kc = node.children.len() + if has_leaf {
                1
            } else {
                0
            };
            let mut x: usize = 0;
            while x < kc
                invariant
                    a == self.arena@,
                    shape_ok(a),
                    k < o0.len(),
                    id == o0[k as int],
                    id < a.len(),
                    *node == a[id as int],
                    has_leaf == node.leaf_id is Some,
                    kc == kids(a[id as int]).len(),
                    0 <= x <= kc,
                    cb == o0.len(),
                    order@.len() == cb + x,
                    order@.len() <= a.len(),
                    forall|q: int| 0 <= q < cb ==> #[trigger] order@[q] == o0[q],
                    forall|y: int| 0 <= y < x ==> #[trigger] order@[cb + y] == kids(a[id as int])[y],
                    forall|q: int| 0 <= q < order@.len() ==> #[trigger] order@[q] < a.len(),
                    forall|q: int, r: int|
                        0 <= q < r < order@.len() ==> #[trigger] order@[q] != #[trigger] order@[r],
                    o0[0] == 0,
                    parent.len() == order@.len(),
                    pslot.len() == order@.len(),
                    forall|q: int|
                        0 < q < order@.len() ==> 0 <= #[trigger] parent[q] <= k && (q < cb ==> parent[q]
                            < k) && 0 <= pslot[q] < kids(a[order@[parent[q]] as int]).len() && kids(
                            a[order@[parent[q]] as int],
                        )[pslot[q]] == order@[q],
                decreases kc - x,
            {
                let c = if has_leaf {
                    if x == 0 {
                        node.leaf_id.unwrap()
                    } else {
                        node.children[x - 1]
                    }
                } else {
                    node.children[x]
                };
                let ghost ks = kids(a[id as int]);
                proof {
                    assert(c == ks[x as int]);
                    assert(0 < c < a.len());
                    assert forall|q: int| 0 <= q < order@.len() implies #[trigger] order@[q] != c by {
                        if order@[q] == c {
                            if q == 0 {
                            } else if q < cb {
                                let j = parent[q];
                                assert(kids(a[order@[j] as int])[pslot[q]] == ks[x as int]);
                                assert(order@[j] == id);
                                assert(order@[k as int] == id);
                                assert(j < k);
                            } else {
                                assert(order@[cb + (q - cb)] == ks[q - cb]);
                            }
                        }
                    }
                }
                let ghost ob = order@;
                order.push(c);
                proof {
                    let op = parent;
                    let os = pslot;
                    parent = parent.push(k as int);
                    pslot = pslot.push(x as int);
                    lemma_distinct_len(order@, a.len() as int);
                    assert(order@[k as int] == id);
                    assert forall|q: int| 0 < q < order@.len() implies 0 <= #[trigger] parent[q] <= k && (q
                        < cb ==> parent[q] < k) && 0 <= pslot[q] < kids(a[order@[parent[q]] as int]).len()
                        && kids(a[order@[parent[q]] as int])[pslot[q]] == order@[q] by {
                        if q < ob.len() {
                            assert(parent[q] == op[q] && pslot[q] == os[q]);
                            assert(order@[q] == ob[q]);
                            assert(order@[op[q]] == ob[op[q]]);
                        } else {
                            assert(q == ob.len());
                            assert(parent[q] == k && pslot[q] == x);
                            assert(order@[q] == c);
                        }
                    }
                }
                x = x + 1;
            }
            proof {
                let o1 = order@;
                let s1 = starts.push(cb as int);
                let b1 = dbegin.push(d0.len() as int);
                assert(kids_placed(a, o1, s1, k as int));
                assert forall|q: int| 0 <= q < k implies #[trigger] kids_placed(a, o1, s1, q) by {
                    assert(kids_placed(a, o0, starts, q));
                    let ks = kids(a[o0[q] as int]);
                    assert forall|y: int| 0 <= y < ks.len() implies #[trigger] o1[s1[q] + y] == ks[y] by {
                        assert(o0[starts[q] + y] == ks[y]);
                    }
                }
                assert forall|q: int| 0 <= q <= k implies #[trigger] record_ok(a, index@, o1, s1, b1, q) by {
                    if q < k {
                        assert(record_ok(a, i0, o0, starts, dbegin, q));
                        assert(index@[8 * q] == i0[8 * q]);
                        assert(index@[8 * q + 1] == i0[8 * q + 1]);
                        assert(index@[8 * q + 2] == i0[8 * q + 2]);
                        assert(index@[8 * q + 3] == i0[8 * q + 3]);
                        assert(index@[8 * q + 4] == i0[8 * q + 4]);
                        assert(index@[8 * q + 5] == i0[8 * q + 5]);
                        assert(index@[8 * q + 6] == i0[8 * q + 6]);
                        assert(index@[8 * q + 7] == i0[8 * q + 7]);
                    }
                }
                assert forall|q: int| 0 <= q <= k implies #[trigger] leaf_data_ok(a, data@, o1, b1, q) by {
                    if q < k {
                        assert(leaf_data_ok(a, d0, o0, dbegin, q));
                        let n = a[o0[q] as int];
                        if !is_internal(a, o0[q] as int) {
                            assert forall|t: int| 0 <= t < n.words@.len() implies #[trigger] word_at(
                                data@,
                                b1[q] + 3 * t,
                                3,
                            ) == WordId((n.words@[t].0 % 0x1000000) as u32) by {
                                assert(word_at(d0, dbegin[q] + 3 * t, 3) == WordId(
                                    (n.words@[t].0 % 0x1000000) as u32,
                                ));
                                assert(data@[dbegin[q] + 3 * t] == d0[dbegin[q] + 3 * t]);
                                assert(data@[dbegin[q] + 3 * t + 1] == d0[dbegin[q] + 3 * t + 1]);
                                assert(data@[dbegin[q] + 3 * t + 2] == d0[dbegin[q] + 3 * t + 2]);
                            }
                        }
                    }
                }
                assert(o1.take(k + 1) =~= o0.take(k as int).push(id));
                assert(o1.take(k + 1).drop_last() =~= o0.take(k as int));
                starts = s1;
                dbegin = b1;
            }
            k = k + 1;
        }
        proof {
            assert(order@.take(k as int) =~= order@);
        }
        (index, data, Ghost((order@, starts, dbegin)))
    }
}


/// Every syllable of `syls` has a component.
pub open spec fn syllables_nonempty(syls: Seq<Syllable>) -> bool {
    forall|i: int| 0 <= i < syls.len() ==> (#[trigger] syls[i]).spec_value() != 0
}

/// The arena fits the file format: fewer than 65536 kids per node, at most
/// 21845 words per phrase, word ids below 2^24, a word list under 4 GiB, and
/// no empty syllable in a phrase.
spec fn fits(a: Seq<TrieBuilderNode>) -> bool {
    &&& forall|i: int| 0 <= i < a.len() ==> (#[trigger] kids(a[i])).len() <= 0xffff
    &&& forall|i: int| 0 <= i < a.len() ==> 3 * (#[trigger] a[i].words@).len() <= 0xffff
    &&& forall|i: int, t: int|
        0 <= i < a.len() && 0 <= t < a[i].words@.len() ==> (#[trigger] a[i].words@[t]).0 < 0x1000000
    &&& 3 * words_total(a, a.len() as int) <= u32::MAX
    &&& forall|i: int| 0 < i < a.len() && (#[trigger] a[i].syllable) is Some ==> syl_val(a[i]) != 0
}

proof fn lemma_words_sum_remove(a: Seq<TrieBuilderNode>, s: Seq<u32>, i: int)
    requires
        0 <= i < s.len(),
    ensures
        words_sum(a, s) == words_sum(a, s.remove(i)) + a[s[i] as int].words@.len(),
    decreases s.len(),
{
    if i == s.len() - 1 {
        assert(s.remove(i) =~= s.drop_last());
    } else {
        lemma_words_sum_remove(a, s.drop_last(), i);
        assert(s.remove(i).drop_last() =~= s.drop_last().remove(i));
        assert(s.remove(i).last() == s.last());
    }
}

/// The words of distinct nodes below `n` are at most those of all of them.
proof fn lemma_words_sum_bound(a: Seq<TrieBuilderNode>, s: Seq<u32>, n: int)
    requires
        0 <= n,
        forall|q: int| 0 <= q < s.len() ==> #[trigger] s[q] < n,
        forall|q: int, r: int| 0 <= q < r < s.len() ==> #[trigger] s[q] != #[trigger] s[r],
    ensures
        words_sum(a, s) <= words_total(a, n),
    decreases n,
{
    if n == 0 {
        if s.len() > 0 {
            assert(s[0] < 0);
        }
    } else if exists|i: int| 0 <= i < s.len() && s[i] == n - 1 {
        let i = choose|i: int| 0 <= i < s.len() && s[i] == n - 1;
        lemma_words_sum_remove(a, s, i);
        let t = s.remove(i);
        assert forall|q: int| 0 <= q < t.len() implies #[trigger] t[q] < n - 1 by {
            if q < i {
                assert(t[q] == s[q] && s[q] != s[i]);
            } else {
                assert(t[q] == s[q + 1] && s[q + 1] != s[i]);
            }
        }
        assert forall|q: int, r: int| 0 <= q < r < t.len() implies #[trigger] t[q] != #[trigger] t[r] by {
            let q1 = if q < i { q } else { q + 1 };
            let r1 = if r < i { r } else { r + 1 };
            assert(t[q] == s[q1] && t[r] == s[r1]);
        }
        lemma_words_sum_bound(a, t, n - 1);
    } else {
        assert forall|q: int| 0 <= q < s.len() implies #[trigger] s[q] < n - 1 by {
            assert(s[q] != n - 1);
        }
        lemma_words_sum_bound(a, s, n - 1);
    }
}

/// The words of a leaf read back from the word list.
proof fn lemma_words_read(
    a: Seq<TrieBuilderNode>,
    data: Seq<u8>,
    order: Seq<u32>,
    dbegin: Seq<int>,
    q: int,
    t: int,
)
    requires
        fits(a),
        0 <= q < order.len(),
        0 <= order[q] < a.len(),
        leaf_data_ok(a, data, order, dbegin, q),
        !is_internal(a, order[q] as int),
        0 <= t <= a[order[q] as int].words@.len(),
    ensures
        words_from(data, dbegin[q], 3, t) == a[order[q] as int].words@.take(t),
    decreases t,
{
    let n = a[order[q] as int];
    if t > 0 {
        lemma_words_read(a, data, order, dbegin, q, t - 1);
        assert(word_at(data, dbegin[q] + 3 * (t - 1), 3) == WordId((n.words@[t - 1].0 % 0x1000000) as u32));
        assert(n.words@[t - 1].0 < 0x1000000);
        assert(n.words@.take(t) =~= n.words@.take(t - 1).push(n.words@[t - 1]));
    } else {
        assert(n.words@.take(0) =~= Seq::<WordId>::empty());
    }
}

/// The kids of internal node `p`, placed from position `cb`, that match
/// syllable `syl`: only the child with that syllable.
proof fn lemma_matching(
    a: Seq<TrieBuilderNode>,
    index: Seq<u8>,
    order: Seq<u32>,
    starts: Seq<int>,
    dbegin: Seq<int>,
    q: int,
    syl: Syllable,
    c: int,
)
    requires
        shape_ok(a),
        fits(a),
        1 <= order.len() <= a.len(),
        index.len() == 8 * order.len(),
        starts.len() == order.len(),
        dbegin.len() == order.len(),
        forall|r: int| 0 <= r < order.len() ==> #[trigger] order[r] < a.len(),
        forall|r: int| 0 <= r < order.len() ==> #[trigger] kids_placed(a, order, starts, r),
        forall|r: int| 0 <= r < order.len() ==> #[trigger] record_ok(a, index, order, starts, dbegin, r),
        0 <= q < order.len(),
        is_internal(a, order[q] as int),
        syl.spec_value() != 0,
        0 <= c <= kids(a[order[q] as int]).len(),
    ensures
        ({
            let p = order[q] as int;
            let off: int = if a[p].leaf_id is Some { 1 } else { 0 };
            let mc = matching_children(index, 8 * q, false, syl, LookupStrategy::Standard, c);
            match child_with(a, p, syl) {
                Some(ch) => {
                    let y = choose|x: int| child_matches(a, p, x, syl);
                    &&& 0 <= y < a[p].children@.len()
                    &&& order[starts[q] + (off + y)] == ch
                    &&& mc == (if off + y < c { seq![8 * (starts[q] + (off + y))] } else { Seq::<int>::empty() })
                },
                None => mc == Seq::<int>::empty(),
            }
        }),
    decreases c,
{
    let p = order[q] as int;
    let n = a[p];
    let off: int = if n.leaf_id is Some { 1 } else { 0 };
    let cb = starts[q];
    assert(kids_placed(a, order, starts, q));
    assert(record_ok(a, index, order, starts, dbegin, q));
    assert(cb + kids(n).len() <= order.len() <= a.len() <= u32::MAX);
    assert(child_begin(index, 8 * q, false) == 8 * cb);
    if c > 0 {
        lemma_matching(a, index, order, starts, dbegin, q, syl, c - 1);
        let x = c - 1;
        let r = cb + x;
        assert(order[r] == kids(n)[x]);
        assert(record_ok(a, index, order, starts, dbegin, r));
        let kid = order[r] as int;
        assert(0 < kid < a.len());
        // the record's syllable is the kid's syllable, 0 for a leaf
        if off == 1 && x == 0 {
            assert(kids(n)[0] == n.leaf_id->0);
            assert(!is_internal(a, kid));
            assert(u16_at(index, 8 * r + 6, false) == 0);
            assert(!syllable_matches(u16_at(index, 8 * r + 6, false), syl, LookupStrategy::Standard));
        } else {
            let y = x - off;
            lemma_child_is_kid(n, y);
            assert(n.children@[y] == kid);
            assert(a[kid].syllable is Some);
            assert(is_internal(a, kid));
            assert(syl_val(a[kid]) == a[kid].syllable->0.spec_value());
            assert(u16_at(index, 8 * r + 6, false) == syl_val(a[kid]));
            if syl_val(a[kid]) == syl.spec_value() {
                lemma_value_injective(a[kid].syllable->0, syl);
                assert(child_matches(a, p, y, syl));
                lemma_child_unique(a, p, y, syl);
                let y0 = choose|x: int| child_matches(a, p, x, syl);
                if y0 != y {
                    if y0 < y {
                        assert(syl_val(a[n.children@[y0] as int]) < syl_val(a[n.children@[y] as int]));
                    } else {
                        assert(syl_val(a[n.children@[y] as int]) < syl_val(a[n.children@[y0] as int]));
                    }
                }
            } else {
                if child_with(a, p, syl) is Some {
                    let y0 = choose|x: int| child_matches(a, p, x, syl);
                    if y0 == y {
                        lemma_value_injective(a[kid].syllable->0, syl);
                    }
                }
            }
        }
    } else {
        if child_with(a, p, syl) is Some {
            let y0 = choose|x: int| child_matches(a, p, x, syl);
            lemma_child_is_kid(n, y0);
            assert(order[cb + (off + y0)] == kids(n)[off + y0]);
        }
    }
}


/// Following `k` in the file reaches the position of the node that `k`
/// reaches in the arena.
proof fn lemma_descend(
    a: Seq<TrieBuilderNode>,
    index: Seq<u8>,
    data: Seq<u8>,
    order: Seq<u32>,
    starts: Seq<int>,
    dbegin: Seq<int>,
    k: Seq<Syllable>,
) -> (q: int)
    requires
        shape_ok(a),
        fits(a),
        laid_out(a, index, data, order, starts, dbegin),
        syllables_nonempty(k),
    ensures
        find_path(a, k) matches Some(m) ==> 0 <= q < order.len() && order[q] == m && descend(
            index,
            k,
            false,
            LookupStrategy::Standard,
        ) == Some(seq![8 * q]),
        find_path(a, k) is None ==> descend(index, k, false, LookupStrategy::Standard) is None,
    decreases k.len(),
{
    if k.len() == 0 {
        0
    } else {
        let k0 = k.drop_last();
        let s = k.last();
        assert(syllables_nonempty(k0)) by {
            assert forall|i: int| 0 <= i < k0.len() implies (#[trigger] k0[i]).spec_value() != 0 by {
                assert(k0[i] == k[i]);
            }
        }
        assert(s.spec_value() != 0) by {
            assert(k[k.len() - 1] == s);
        }
        let q0 = lemma_descend(a, index, data, order, starts, dbegin, k0);
        if let Some(p) = find_path(a, k0) {
            lemma_path_internal(a, k0);
            let n = a[p];
            assert(kids_placed(a, order, starts, q0));
            assert(record_ok(a, index, order, starts, dbegin, q0));
            let cnt = kids(n).len();
            assert(cnt <= 0xffff);
            assert(starts[q0] + cnt <= order.len() <= a.len() <= u32::MAX);
            assert(child_begin(index, 8 * q0, false) == 8 * starts[q0]);
            assert(child_count(index, 8 * q0, false) == cnt);
            assert(seq![8 * q0].drop_last() =~= Seq::<int>::empty());
            assert(seq![8 * q0].last() == 8 * q0);
            if cnt == 0 {
                assert(!node_ok(index, 8 * q0, false));
                assert(expand(index, Seq::<int>::empty(), false, s, LookupStrategy::Standard) == Some(
                    Seq::<int>::empty(),
                ));
                assert(expand(index, seq![8 * q0], false, s, LookupStrategy::Standard) is None);
                assert(n.children@.len() == 0);
                assert(child_with(a, p, s) is None);
                0
            } else {
                assert(node_ok(index, 8 * q0, false));
                lemma_matching(a, index, order, starts, dbegin, q0, s, cnt as int);
                let mc = matching_children(index, 8 * q0, false, s, LookupStrategy::Standard, cnt as int);
                assert(expand(index, Seq::<int>::empty(), false, s, LookupStrategy::Standard) == Some(
                    Seq::<int>::empty(),
                ));
                assert(node_children(index, 8 * q0, false, s, LookupStrategy::Standard) == Some(mc));
                assert(expand(index, seq![8 * q0], false, s, LookupStrategy::Standard) == Some(
                    Seq::<int>::empty() + mc,
                ));
                assert(Seq::<int>::empty() + mc =~= mc);
                match child_with(a, p, s) {
                    Some(ch) => {
                        let y = choose|x: int| child_matches(a, p, x, s);
                        let off: int = if n.leaf_id is Some { 1 } else { 0 };
                        lemma_child_is_kid(n, y);
                        starts[q0] + (off + y)
                    },
                    None => { 0 },
                }
            }
        } else {
            0
        }
    }
}

/// With no kid under the root, no phrase but the empty one reaches a node.
proof fn lemma_root_alone(a: Seq<TrieBuilderNode>, k: Seq<Syllable>)
    requires
        a.len() >= 1,
        a[0].children@.len() == 0,
        k.len() > 0,
    ensures
        find_path(a, k) is None,
    decreases k.len(),
{
    if k.len() > 1 {
        lemma_root_alone(a, k.drop_last());
    } else {
        assert(k.drop_last() =~= Seq::<Syllable>::empty());
        assert(find_path(a, k.drop_last()) == Some(0int));
        assert(!exists|x: int| child_matches(a, 0, x, k.last()));
    }
}

/// Reading the leaf under the node at position `q` gives its words.
proof fn lemma_collect(
    a: Seq<TrieBuilderNode>,
    index: Seq<u8>,
    data: Seq<u8>,
    order: Seq<u32>,
    starts: Seq<int>,
    dbegin: Seq<int>,
    q: int,
)
    requires
        shape_ok(a),
        leaves_filled(a),
        fits(a),
        laid_out(a, index, data, order, starts, dbegin),
        0 <= q < order.len(),
        is_internal(a, order[q] as int),
    ensures
        ({
            let n = a[order[q] as int];
            collect(index, data, seq![8 * q], TrieLayout { big_endian: false, word_width: 3 }) == (if kids(
                n,
            ).len() == 0 {
                None
            } else {
                Some(
                    match n.leaf_id {
                        Some(l) => a[l as int].words@,
                        None => Seq::<WordId>::empty(),
                    },
                )
            })
        }),
{
    let layout = TrieLayout { big_endian: false, word_width: 3 };
    let n = a[order[q] as int];
    let cnt = kids(n).len();
    assert(kids_placed(a, order, starts, q));
    assert(record_ok(a, index, order, starts, dbegin, q));
    assert(cnt <= 0xffff);
    assert(starts[q] + cnt <= order.len() <= a.len() <= u32::MAX);
    assert(child_begin(index, 8 * q, false) == 8 * starts[q]);
    assert(seq![8 * q].drop_last() =~= Seq::<int>::empty());
    assert(seq![8 * q].last() == 8 * q);
    assert(collect(index, data, Seq::<int>::empty(), layout) == Some(Seq::<WordId>::empty()));
    if cnt == 0 {
        assert(!node_ok(index, 8 * q, false));
        assert(leaf_words(index, data, 8 * q, layout) is None);
    } else {
        assert(node_ok(index, 8 * q, false));
        let r = starts[q];
        assert(order[r + 0] == kids(n)[0]);
        assert(record_ok(a, index, order, starts, dbegin, r));
        let kid = order[r] as int;
        assert(0 < kid < a.len());
        match n.leaf_id {
            Some(l) => {
                assert(kids(n)[0] == l);
                assert(!is_internal(a, kid));
                assert(leaf_data_ok(a, data, order, dbegin, r));
                let m = a[kid].words@.len();
                assert(m > 0);
                assert(3 * m <= 0xffff);
                // the word list is short enough for its offsets
                assert forall|u: int, v: int| 0 <= u < v < order.len() implies #[trigger] order[u]
                    != #[trigger] order[v] by {}
                lemma_words_sum_bound(a, order, a.len() as int);
                assert(dbegin[r] + 3 * m <= u32::MAX);
                assert(u32_at(index, 8 * r, false) == dbegin[r]);
                assert(u16_at(index, 8 * r + 4, false) == 3 * m);
                assert((3 * m) / 3 == m);
                lemma_words_read(a, data, order, dbegin, r, m as int);
                assert(a[kid].words@.take(m as int) =~= a[kid].words@);
                assert(leaf_words(index, data, 8 * q, layout) == Some(a[kid].words@));
                assert(Seq::<WordId>::empty() + a[kid].words@ =~= a[kid].words@);
            },
            None => {
                lemma_child_is_kid(n, 0);
                assert(a[kid].syllable is Some);
                assert(is_internal(a, kid));
                assert(syl_val(a[kid]) != 0);
                assert(leaf_words(index, data, 8 * q, layout) == Some(Seq::<WordId>::empty()));
                assert(Seq::<WordId>::empty() + Seq::<WordId>::empty() =~= Seq::<WordId>::empty());
            },
        }
    }
}

/// Looking a phrase up in the laid out file gives the words the arena holds
/// for it.
proof fn lemma_lookup_laid_out(
    a: Seq<TrieBuilderNode>,
    index: Seq<u8>,
    data: Seq<u8>,
    order: Seq<u32>,
    starts: Seq<int>,
    dbegin: Seq<int>,
    k: Seq<Syllable>,
)
    requires
        shape_ok(a),
        leaves_filled(a),
        fits(a),
        laid_out(a, index, data, order, starts, dbegin),
        syllables_nonempty(k),
    ensures
        spec_trie_lookup(index, data, k, LookupStrategy::Standard, TrieLayout { big_endian: false, word_width: 3 })
            == words_of(a, k),
{
    let root = a[0];
    assert(record_ok(a, index, order, starts, dbegin, 0));
    assert(kids_placed(a, order, starts, 0));
    let cnt = kids(root).len();
    assert(cnt <= 0xffff);
    assert(starts[0] + cnt <= order.len() <= a.len() <= u32::MAX);
    assert(child_begin(index, 0, false) == 8 * starts[0]);
    assert(child_end(index, 0, false) == 8 * (starts[0] + cnt));
    lemma_path_internal(a, k);
    if cnt == 0 {
        assert(root.children@.len() == 0 && root.leaf_id is None);
        if k.len() > 0 {
            lemma_root_alone(a, k);
        }
    } else {
        let q = lemma_descend(a, index, data, order, starts, dbegin, k);
        if let Some(m) = find_path(a, k) {
            lemma_collect(a, index, data, order, starts, dbegin, q);
        }
    }
}


/// The dictionary file holding `index` and `words`.
pub open spec fn spec_dict_file(index: Seq<u8>, words: Seq<u8>) -> Seq<u8> {
    seq![0x43u8, 0x48u8, 0x53u8, 0x44u8] + spec_encode_uint(0) + spec_u32_to_le_bytes(0)
        + spec_encode_data(index) + spec_encode_data(words)
}

/// A dictionary file reads back as the index and word list it was made of.
#[verifier::spinoff_prover]
pub proof fn lemma_dict_file_roundtrip(index: Seq<u8>, words: Seq<u8>)
    requires
        index.len() <= u64::MAX,
        words.len() <= u64::MAX,
    ensures
        spec_parse_dict_file(spec_dict_file(index, words)) == Ok::<
            (Seq<u8>, Seq<u8>),
            StaticDictError,
        >((index, words)),
{
    let magic = seq![0x43u8, 0x48u8, 0x53u8, 0x44u8];
    let e0 = spec_encode_uint(0);
    let z = spec_u32_to_le_bytes(0);
    let di = spec_encode_data(index);
    let dw = spec_encode_data(words);
    let b = spec_dict_file(index, words);
    lemma_auto_spec_u32_to_from_le_bytes();
    assert(e0 =~= seq![0u8]);
    assert(b =~= magic + (e0 + (z + (di + dw))));
    assert(b.take(4) =~= magic);
    assert(b.subrange(4, b.len() as int) =~= e0 + (z + (di + dw)));
    lemma_uint_roundtrip(0, z + (di + dw));
    assert(p_uint(b, 4) == Ok::<(u64, int), crate::bare::BareError>((0u64, 5int)));
    assert(b.subrange(5, 9) =~= z);
    assert(p_u32(b, 5) == Ok::<(u32, int), crate::bare::BareError>((0u32, 9int)));
    assert(b.subrange(9, b.len() as int) =~= di + dw);
    lemma_data_roundtrip(index, dw);
    let n1 = spec_encode_uint(index.len()).len() as int;
    assert(p_uint(b, 9) == Ok::<(u64, int), crate::bare::BareError>((index.len() as u64, 9 + n1)));
    assert(b.subrange(9 + n1, 9 + n1 + index.len()) =~= (di + dw).subrange(n1, n1 + index.len()));
    let p3 = 9 + n1 + index.len();
    assert(p_data(b, 9) == Ok::<(Seq<u8>, int), crate::bare::BareError>((index, p3)));
    assert(b.subrange(p3, b.len() as int) =~= dw + Seq::<u8>::empty());
    lemma_data_roundtrip(words, Seq::<u8>::empty());
    let n2 = spec_encode_uint(words.len()).len() as int;
    assert(b.subrange(p3 + n2, p3 + n2 + words.len()) =~= (dw + Seq::<u8>::empty()).subrange(
        n2,
        n2 + words.len(),
    ));
}

impl StaticDictBuilder {
    /// Every node has fewer than 65536 kids, every phrase at most 21845
    /// words, every word id is below 2^24, the word list is under 4 GiB and
    /// no phrase holds an empty syllable: the file can hold the trie as is.
    pub closed spec fn spec_fits(&self) -> bool {
        fits(self.arena@)
    }

    /// Whether the file can hold the trie as is (see `spec_fits`): the check
    /// that tells a caller when the lookups of the built dictionary are the
    /// words inserted.
    pub fn fits(&self) -> (r: bool)
        ensures
            r == self.spec_fits(),
    {
        let ghost a = self.arena@;
        let mut total: u64 = 0;
        let mut i: usize = 0;
        while i < self.arena.len()
            invariant
                a == self.arena@,
                i <= a.len(),
                total == words_total(a, i as int),
                3 * total <= u32::MAX,
                forall|j: int| 0 <= j < i ==> (#[trigger] kids(a[j])).len() <= 0xffff,
                forall|j: int| 0 <= j < i ==> 3 * (#[trigger] a[j].words@).len() <= 0xffff,
                forall|j: int, t: int|
                    0 <= j < i && 0 <= t < a[j].words@.len() ==> (#[trigger] a[j].words@[t]).0 < 0x1000000,
                forall|j: int| 0 < j < i && (#[trigger] a[j].syllable) is Some ==> syl_val(a[j]) != 0,
            decreases a.len() - i,
        {
            let node = &self.arena[i];
            let nc = node.children.len();
            if nc > 0xffff {
                proof {
                    assert(kids(a[i as int]).len() >= nc);
                }
                return false;
            }
            let nk = nc + if node.leaf_id.is_some() {
                1
            } else {
                0
            };
            if nk > 0xffff {
                proof {
                    assert(kids(a[i as int]).len() == nk);
                }
                return false;
            }
            let nw = node.words.len();
            if nw > 21845 {
                return false;
            }
            let mut t: usize = 0;
            while t < nw
                invariant
                    a == self.arena@,
                    i < a.len(),
                    node == &a[i as int],
                    nw == node.words@.len(),
                    t <= nw,
                    forall|u: int| 0 <= u < t ==> (#[trigger] node.words@[u]).0 < 0x1000000,
                decreases nw - t,
            {
                if node.words[t].0 >= 0x1000000 {
                    proof {
                        assert(a[i as int].words@[t as int].0 >= 0x1000000);
                    }
                    return false;
                }
                t += 1;
            }
            if i > 0 {
                if let Some(syl) = node.syllable {
                    if syl.to_u16() == 0 {
                        return false;
                    }
                }
            }
            if 3 * (total + nw as u64) > u32::MAX as u64 {
                proof {
                    lemma_words_total_grows(a, i as int + 1, a.len() as int);
                }
                return false;
            }
            total = total + nw as u64;
            i += 1;
        }
        true
    }

    /// The bytes of the dictionary file: the index lists the nodes in
    /// breadth-first order, the leaf of a node before its internal children
    /// sorted by syllable.
    pub fn to_bytes(&self) -> (r: Vec<u8>)
        requires
            self.wf(),
        ensures
            spec_parse_dict_file(r@) is Ok,
            self.spec_fits() ==> forall|k: Seq<Syllable>|
                syllables_nonempty(k) ==> #[trigger] spec_trie_lookup(
                    spec_parse_dict_file(r@)->Ok_0.0,
                    spec_parse_dict_file(r@)->Ok_0.1,
                    k,
                    LookupStrategy::Standard,
                    lm_layout(),
                ) == self.spec_words_of(k),
    {
        let (index, data, Ghost(g)) = self.lay_out();
        let mut enc = BareEncoder::new(Vec::new());
        enc.write_u8(0x43);
        enc.write_u8(0x48);
        enc.write_u8(0x53);
        enc.write_u8(0x44);
        enc.write_uint(0);
        enc.write_u32(0);
        enc.write_data(index.as_slice());
        enc.write_data(data.as_slice());
        let out = enc.into_inner();
        proof {
            assert(out@ =~= spec_dict_file(index@, data@));
            assert(index@.len() == index.len() && data@.len() == data.len());
            lemma_dict_file_roundtrip(index@, data@);
            if fits(self.arena@) {
                assert forall|k: Seq<Syllable>| syllables_nonempty(k) implies #[trigger] spec_trie_lookup(
                    index@,
                    data@,
                    k,
                    LookupStrategy::Standard,
                    lm_layout(),
                ) == self.spec_words_of(k) by {
                    lemma_lookup_laid_out(self.arena@, index@, data@, g.0, g.1, g.2, k);
                }
            }
        }
        out
    }

    /// Builds the dictionary: writes its file and reads it back.
    pub fn build(self) -> (d: StaticDict)
        requires
            self.wf(),
        ensures
            self.spec_fits() ==> forall|k: Seq<Syllable>|
                syllables_nonempty(k) ==> #[trigger] d.spec_lookup(k, LookupStrategy::Standard)
                    == self.spec_words_of(k),
    {
        let bytes = self.to_bytes();
        match StaticDict::from_bytes(bytes.as_slice()) {
            Ok(d) => d,
            Err(_) => {
                proof {
                    assert(false);
                }
                StaticDict::new()
            },
        }
    }
}

} // verus!
