//! CHD minimal perfect hash table, without compression.
//!
//! <https://cmph.sourceforge.net/chd.html>
//! <https://cmph.sourceforge.net/papers/esa09.pdf>

use vstd::prelude::*;
use vstd::utf8::encode_utf8;

verus! {

pub const FNV_OFFSET: u64 = 0xcbf29ce484222325;

pub const FNV_PRIME: u64 = 0x100000001b3;

/// The FNV-1a state after hashing `bytes` from state `h`.
pub open spec fn fnv_fold(bytes: Seq<u8>, h: u64) -> u64
    decreases bytes.len(),
{
    if bytes.len() == 0 {
        h
    } else {
        fnv_fold(bytes.drop_first(), (h ^ (bytes[0] as u64)).wrapping_mul(FNV_PRIME))
    }
}

/// 64-bit FNV-1a hash of `bytes` seeded with `seed`, as its high and low
/// halves.
pub open spec fn spec_fnv1a_64(bytes: Seq<u8>, seed: u64) -> (u32, u32) {
    let h = fnv_fold(bytes, FNV_OFFSET ^ seed);
    ((h / 0x100000000) as u32, (h % 0x100000000) as u32)
}

/// The two hashes of a key; the step `h2` is made odd.
pub open spec fn spec_key_hash(bytes: Seq<u8>, seed: u32) -> (u32, u32) {
    let (h1, h2) = spec_fnv1a_64(bytes, seed as u64);
    if h2 == 0 || h2 % 2 == 0 {
        (h1, h2.wrapping_add(1))
    } else {
        (h1, h2)
    }
}

/// The slot of a key with hashes `(h1, h2)` under displacement `d`.
pub open spec fn spec_slot(h: (u32, u32), d: u16, num_keys: nat) -> nat {
    (h.0.wrapping_add((d as u32).wrapping_mul(h.1)) as nat) % num_keys
}

/// 64-bit FNV1a hash, returns the hash in two halfs
pub fn fnv1a_64(bytes: &[u8], seed: u64) -> (r: (u32, u32))
    ensures
        r == spec_fnv1a_64(bytes@, seed),
{
    let mut hash: u64 = FNV_OFFSET ^ seed;
    let mut i: usize = 0;
    proof {
        assert(bytes@.skip(0) =~= bytes@);
    }
    while i < bytes.len()
        invariant
            0 <= i <= bytes@.len(),
            fnv_fold(bytes@.skip(i as int), hash) == fnv_fold(bytes@, FNV_OFFSET ^ seed),
        decreases bytes@.len() - i,
    {
        let b = bytes[i];
        proof {
            assert(bytes@.skip(i as int).drop_first() =~= bytes@.skip(i + 1));
            assert(bytes@.skip(i as int)[0] == b);
        }
        hash = (hash ^ (b as u64)).wrapping_mul(FNV_PRIME);
        i = i + 1;
    }
    proof {
        assert(bytes@.skip(i as int) =~= Seq::<u8>::empty());
    }
    ((hash / 0x100000000) as u32, (hash % 0x100000000) as u32)
}

fn key_hash(bytes: &[u8], seed: u32) -> (r: (u32, u32))
    ensures
        r == spec_key_hash(bytes@, seed),
{
    let (h1, mut h2) = fnv1a_64(bytes, seed as u64);
    if h2 == 0 || h2 % 2 == 0 {
        h2 = h2.wrapping_add(1);
    }
    (h1, h2)
}

fn slot(h: (u32, u32), d: u16, num_keys: usize) -> (r: usize)
    requires
        num_keys > 0,
    ensures
        r == spec_slot(h, d, num_keys as nat),
        r < num_keys,
{
    (h.0.wrapping_add((d as u32).wrapping_mul(h.1)) as usize) % num_keys
}

/// The slot of `h` under `d` is taken in `occupied`.
pub open spec fn placed(occupied: Seq<bool>, h: (u32, u32), d: u16, num_keys: nat) -> bool {
    num_keys > 0 && occupied[spec_slot(h, d, num_keys) as int]
}

/// Key `j` is listed in bucket `y`.
pub open spec fn listed_in(owner: Seq<Seq<int>>, y: int, j: int) -> bool {
    exists|p: int| 0 <= p < owner[y].len() && #[trigger] owner[y][p] == j
}

/// The bytes of each key.
pub open spec fn key_bytes(keys: Seq<String>) -> Seq<Seq<u8>> {
    keys.map_values(|k: String| encode_utf8(k@))
}

/// The hashes of the keys, under `seed`.
pub open spec fn key_hashes(keys: Seq<Seq<u8>>, seed: u32) -> Seq<(u32, u32)> {
    keys.map_values(|k: Seq<u8>| spec_key_hash(k, seed))
}

/// The hashes that fall in bucket `x` of `nb`, in key order.
pub open spec fn bucket_hashes(hs: Seq<(u32, u32)>, nb: nat, x: int) -> Seq<(u32, u32)>
    decreases hs.len(),
{
    if hs.len() == 0 {
        Seq::empty()
    } else {
        let r = bucket_hashes(hs.drop_last(), nb, x);
        if (hs.last().0 as int) % (nb as int) == x {
            r.push(hs.last())
        } else {
            r
        }
    }
}

/// Every bucket, in bucket order.
pub open spec fn all_buckets(hs: Seq<(u32, u32)>, nb: nat) -> Seq<Seq<(u32, u32)>> {
    Seq::new(nb, |x: int| bucket_hashes(hs, nb, x))
}

/// Whether displacement `d` sends every key of the bucket to a free slot of
/// its own among `n` slots.
pub open spec fn fits(bucket: Seq<(u32, u32)>, occ: Seq<bool>, d: int, n: nat) -> bool {
    &&& n > 0
    &&& forall|p: int| 0 <= p < bucket.len() ==> !occ[spec_slot(#[trigger] bucket[p], d as u16, n) as int]
    &&& forall|p: int, q: int|
        0 <= p < bucket.len() && 0 <= q < bucket.len() && p != q ==> spec_slot(
            #[trigger] bucket[p],
            d as u16,
            n,
        ) != spec_slot(#[trigger] bucket[q], d as u16, n)
}

/// The smallest displacement from `d` up to the 16-bit limit that fits.
pub open spec fn first_fit(bucket: Seq<(u32, u32)>, occ: Seq<bool>, n: nat, d: int) -> Option<u16>
    decreases 0x10000 - d,
{
    if d > 0xffff {
        None
    } else if fits(bucket, occ, d, n) {
        Some(d as u16)
    } else {
        first_fit(bucket, occ, n, d + 1)
    }
}

/// The slots after the bucket is placed with displacement `d`.
pub open spec fn mark_slots(occ: Seq<bool>, bucket: Seq<(u32, u32)>, d: u16, n: nat) -> Seq<bool> {
    Seq::new(
        occ.len(),
        |y: int| occ[y] || exists|p: int| 0 <= p < bucket.len() && spec_slot(bucket[p], d, n) == y,
    )
}

/// Taken slots and displacements while placing, or `None` once a bucket
/// found no displacement.
pub type PlaceState = Option<(Seq<bool>, Seq<u16>)>;

/// Places bucket `x` when its size is `s`.
pub open spec fn place_step(bl: Seq<Seq<(u32, u32)>>, s: int, x: int, st: PlaceState, n: nat) -> PlaceState {
    match st {
        None => None,
        Some((occ, disp)) => if bl[x].len() == s {
            match first_fit(bl[x], occ, n, 0) {
                None => None,
                Some(d) => Some((mark_slots(occ, bl[x], d, n), disp.update(x, d))),
            }
        } else {
            st
        },
    }
}

/// Places the buckets of size `s`, from bucket `x` on, in bucket order.
pub open spec fn place_row(bl: Seq<Seq<(u32, u32)>>, s: int, x: int, st: PlaceState, n: nat) -> PlaceState
    decreases bl.len() - x,
{
    if x >= bl.len() {
        st
    } else {
        place_row(bl, s, x + 1, place_step(bl, s, x, st, n), n)
    }
}

/// Places the buckets of size `s`, then those of size `s - 1`, down to 1.
pub open spec fn place_sizes(bl: Seq<Seq<(u32, u32)>>, s: int, st: PlaceState, n: nat) -> PlaceState
    decreases s,
{
    if s <= 0 {
        st
    } else {
        place_sizes(bl, s - 1, place_row(bl, s, 0, st, n), n)
    }
}

/// The displacements that placing gives for a seed: largest buckets first,
/// equal sizes in bucket order, each bucket at its smallest displacement
/// that fits; `None` when some bucket finds none below 2^16.
pub open spec fn spec_try_build(keys: Seq<Seq<u8>>, nb: nat, seed: u32) -> Option<Seq<u16>> {
    let n = keys.len();
    let init: PlaceState = Some((Seq::new(n, |y: int| false), Seq::new(nb, |x: int| 0u16)));
    match place_sizes(all_buckets(key_hashes(keys, seed), nb), n as int, init, n) {
        Some((occ, d)) => Some(d),
        None => None,
    }
}

proof fn lemma_first_fit_none(bucket: Seq<(u32, u32)>, occ: Seq<bool>, d: int)
    ensures
        first_fit(bucket, occ, 0, d) is None,
    decreases 0x10000 - d,
{
    if d <= 0xffff {
        lemma_first_fit_none(bucket, occ, d + 1);
    }
}

proof fn lemma_bucket_len(hs: Seq<(u32, u32)>, nb: nat, x: int)
    ensures
        bucket_hashes(hs, nb, x).len() <= hs.len(),
    decreases hs.len(),
{
    if hs.len() > 0 {
        lemma_bucket_len(hs.drop_last(), nb, x);
    }
}

proof fn lemma_row_none(bl: Seq<Seq<(u32, u32)>>, s: int, x: int, n: nat)
    ensures
        place_row(bl, s, x, None, n) is None,
    decreases bl.len() - x,
{
    if x < bl.len() {
        lemma_row_none(bl, s, x + 1, n);
    }
}

proof fn lemma_sizes_none(bl: Seq<Seq<(u32, u32)>>, s: int, n: nat)
    ensures
        place_sizes(bl, s, None, n) is None,
    decreases s,
{
    if s > 0 {
        lemma_row_none(bl, s, 0, n);
        lemma_sizes_none(bl, s - 1, n);
    }
}

proof fn lemma_row_idle(bl: Seq<Seq<(u32, u32)>>, s: int, x: int, st: PlaceState, n: nat)
    requires
        0 <= x,
        forall|y: int| 0 <= y < bl.len() ==> (#[trigger] bl[y]).len() != s,
    ensures
        place_row(bl, s, x, st, n) == st,
    decreases bl.len() - x,
{
    if x < bl.len() {
        assert(bl[x].len() != s);
        lemma_row_idle(bl, s, x + 1, st, n);
    }
}

/// Sizes above every bucket's size place nothing.
proof fn lemma_sizes_skip(bl: Seq<Seq<(u32, u32)>>, s: int, m: int, st: PlaceState, n: nat)
    requires
        0 <= m <= s,
        forall|y: int| 0 <= y < bl.len() ==> (#[trigger] bl[y]).len() <= m,
    ensures
        place_sizes(bl, s, st, n) == place_sizes(bl, m, st, n),
    decreases s,
{
    if s > m {
        lemma_row_idle(bl, s, 0, st, n);
        lemma_sizes_skip(bl, s - 1, m, st, n);
    }
}

/// The number of buckets for `num_keys` keys at `avg` keys per bucket, at
/// least one.
pub open spec fn build_buckets(num_keys: nat, avg: nat) -> nat {
    if (num_keys + avg - 1) / (avg as int) > 1 {
        ((num_keys + avg - 1) / (avg as int)) as nat
    } else {
        1
    }
}

// CHD perfect hash table, but without compression
#[derive(Debug)]
pub struct Chd {
    pub num_keys: usize,
    pub num_buckets: usize,
    pub displacements: Vec<u16>,
    pub seed: u32,
}

impl Chd {
    /// A lookup cannot fail: there are no keys, or every bucket has its
    /// displacement.
    pub open spec fn usable(&self) -> bool {
        self.num_keys == 0 || (self.num_buckets > 0 && self.displacements@.len()
            >= self.num_buckets)
    }

    /// The index a key hashes to.
    pub open spec fn spec_lookup(&self, key: Seq<u8>) -> nat {
        let h = spec_key_hash(key, self.seed);
        spec_slot(h, self.displacements@[(h.0 as int) % (self.num_buckets as int)], self.num_keys as nat)
    }

    /// Every key has an index of its own below the number of keys.
    pub open spec fn is_perfect_for(&self, keys: Seq<Seq<u8>>) -> bool {
        &&& self.num_keys == keys.len()
        &&& self.usable()
        &&& forall|i: int, j: int|
            0 <= i < keys.len() && 0 <= j < keys.len() && i != j ==> #[trigger] self.spec_lookup(
                keys[i],
            ) != #[trigger] self.spec_lookup(keys[j])
        &&& forall|i: int| 0 <= i < keys.len() ==> #[trigger] self.spec_lookup(keys[i]) < keys.len()
    }

    pub fn new() -> (c: Chd)
        ensures
            c.num_keys == 0,
            c.num_buckets == 0,
            c.displacements@.len() == 0,
            c.seed == 0,
    {
        Chd { num_keys: 0, num_buckets: 0, displacements: Vec::new(), seed: 0 }
    }

    /// Looks up a key and returns its unique index in `0..num_keys`.
    pub fn lookup(&self, key: &str) -> (r: usize)
        requires
            self.usable(),
            self.num_keys > 0,
        ensures
            r == self.spec_lookup(encode_utf8(key@)),
            r < self.num_keys,
    {
        let h = key_hash(key.as_bytes(), self.seed);
        let b_idx = (h.0 as usize) % self.num_buckets;
        let d = self.displacements[b_idx];
        slot(h, d, self.num_keys)
    }

    pub fn is_empty(&self) -> (b: bool)
        ensures
            b == (self.num_keys == 0),
    {
        self.num_keys == 0
    }

    /// Builds a CHD minimal perfect hash table: the first seed from zero
    /// upwards for which every bucket finds a displacement, or `None` when no
    /// seed does.
    /// `avg_bucket_size` of 4 or 5 typically yields very small displacements.
    pub fn build(keys: &[String], avg_bucket_size: usize) -> (r: Option<Chd>)
        requires
            avg_bucket_size > 0,
            keys@.len() + avg_bucket_size <= usize::MAX,
        ensures
            r is None ==> forall|seed: u32| #[trigger] spec_try_build(
                key_bytes(keys@),
                build_buckets(keys@.len(), avg_bucket_size as nat),
                seed,
            ) is None,
            r matches Some(c) ==> {
                &&& c.num_keys == keys@.len()
                &&& c.num_buckets == build_buckets(keys@.len(), avg_bucket_size as nat)
                &&& spec_try_build(key_bytes(keys@), c.num_buckets as nat, c.seed) == Some(
                    c.displacements@,
                )
                &&& forall|seed: u32| #![trigger spec_try_build(key_bytes(keys@), c.num_buckets as nat, seed)]
                    seed < c.seed ==> spec_try_build(key_bytes(keys@), c.num_buckets as nat, seed) is None
            },
            r matches Some(c) ==> c.is_perfect_for(key_bytes(keys@)) && c.num_buckets == (if (
            keys@.len() + avg_bucket_size - 1) / (avg_bucket_size as int) > 1 {
                (keys@.len() + avg_bucket_size - 1) / (avg_bucket_size as int)
            } else {
                1
            }),
    {
        let num_keys = keys.len();
        let nb = (num_keys + avg_bucket_size - 1) / avg_bucket_size;
        let num_buckets = if nb > 1 {
            nb
        } else {
            1
        };
        let mut seed: u32 = 0;
        loop
            invariant
                num_buckets > 0,
                num_keys == keys@.len(),
                nb == (keys@.len() + avg_bucket_size - 1) / (avg_bucket_size as int),
                num_buckets == (if nb > 1 {
                    nb
                } else {
                    1
                }),
                num_buckets == build_buckets(keys@.len(), avg_bucket_size as nat),
                forall|s1: u32| #![trigger spec_try_build(key_bytes(keys@), num_buckets as nat, s1)]
                    s1 < seed ==> spec_try_build(key_bytes(keys@), num_buckets as nat, s1) is None,
            decreases u32::MAX - seed,
        {
            if let Some(displacements) = Self::try_build(keys, num_buckets, seed) {
                return Some(Chd { num_keys, num_buckets, displacements, seed });
            }
            if seed == u32::MAX {
                proof {
                    assert forall|s1: u32| #[trigger] spec_try_build(
                        key_bytes(keys@),
                        num_buckets as nat,
                        s1,
                    ) is None by {
                        if s1 < seed {
                        }
                    }
                }
                return None;
            }
            seed = seed + 1;
        }
    }

    /// Finds a displacement for every bucket, largest buckets first, or
    /// `None` when some bucket needs a displacement beyond 16 bits.
    pub fn try_build(keys: &[String], num_buckets: usize, seed: u32) -> (r: Option<Vec<u16>>)
        requires
            num_buckets > 0,
        ensures
            r is None <==> spec_try_build(key_bytes(keys@), num_buckets as nat, seed) is None,
            r matches Some(d) ==> spec_try_build(key_bytes(keys@), num_buckets as nat, seed) == Some(
                d@,
            ),
            r matches Some(d) ==> (Chd {
                num_keys: keys@.len() as usize,
                num_buckets,
                displacements: d,
                seed,
            }).is_perfect_for(key_bytes(keys@)),
    {
        let num_keys = keys.len();
        let ghost kb = key_bytes(keys@);
        let ghost hs = kb.map_values(|k: Seq<u8>| spec_key_hash(k, seed));
        // Phase 1: Partition keys into buckets using h1
        let mut buckets: Vec<Vec<(u32, u32)>> = Vec::new();
        let mut b: usize = 0;
        while b < num_buckets
            invariant
                0 <= b <= num_buckets,
                buckets@.len() == b,
                forall|x: int| 0 <= x < b ==> #[trigger] buckets@[x]@ == Seq::<(u32, u32)>::empty(),
            decreases num_buckets - b,
        {
            buckets.push(Vec::new());
            b = b + 1;
        }
        proof {
            assert(hs.take(0) =~= Seq::<(u32, u32)>::empty());
        }
        // owner[x][p] is the index of the key at position p of bucket x
        let ghost mut owner: Seq<Seq<int>> = Seq::new(num_buckets as nat, |x: int| Seq::empty());
        let mut k: usize = 0;
        while k < num_keys
            invariant
                num_buckets > 0,
                0 <= k <= num_keys == keys@.len(),
                kb == key_bytes(keys@),
                hs == kb.map_values(|kk: Seq<u8>| spec_key_hash(kk, seed)),
                buckets@.len() == num_buckets,
                forall|x: int|
                    0 <= x < num_buckets ==> #[trigger] buckets@[x]@ == bucket_hashes(
                        hs.take(k as int),
                        num_buckets as nat,
                        x,
                    ),
                owner.len() == num_buckets,
                forall|x: int|
                    0 <= x < num_buckets ==> #[trigger] owner[x].len() == buckets@[x]@.len(),
                forall|x: int, p: int|
                    0 <= x < num_buckets && 0 <= p < owner[x].len() ==> {
                        &&& 0 <= #[trigger] owner[x][p] < k
                        &&& buckets@[x]@[p] == hs[owner[x][p]]
                    },
                forall|j: int|
                    0 <= j < k ==> listed_in(
                        owner,
                        (#[trigger] hs[j].0 as int) % (num_buckets as int),
                        j,
                    ),
            decreases num_keys - k,
        {
            let h = key_hash(keys[k].as_str().as_bytes(), seed);
            proof {
                assert(hs[k as int] == h);
            }
            let x = (h.0 as usize) % num_buckets;
            let ghost old_buckets = buckets@;
            buckets[x].push(h);
            proof {
                assert(hs.take(k + 1).drop_last() =~= hs.take(k as int));
                assert(hs.take(k + 1).last() == h);
                assert forall|y: int| 0 <= y < num_buckets implies #[trigger] buckets@[y]@
                    == bucket_hashes(hs.take(k + 1), num_buckets as nat, y) by {
                    if y != x {
                        assert(buckets@[y] == old_buckets[y]);
                    }
                }
                let old_owner = owner;
                owner = owner.update(x as int, owner[x as int].push(k as int));
                assert forall|j: int| 0 <= j < k + 1 implies listed_in(
                    owner,
                    (#[trigger] hs[j].0 as int) % (num_buckets as int),
                    j,
                ) by {
                    let y = (hs[j].0 as int) % (num_buckets as int);
                    if j == k {
                        assert(owner[y][old_owner[y].len() as int] == j);
                    } else {
                        assert(listed_in(old_owner, y, j));
                        let p = choose|p: int|
                            0 <= p < old_owner[y].len() && #[trigger] old_owner[y][p] == j;
                        if y == x {
                            assert(owner[y] == old_owner[y].push(k as int));
                        }
                        assert(owner[y][p] == j);
                    }
                }
            }
            k = k + 1;
        }
        // The largest bucket size
        proof {
            assert(hs.take(num_keys as int) =~= hs);
            assert forall|x: int| 0 <= x < num_buckets implies #[trigger] buckets@[x]@.len()
                <= num_keys by {
                lemma_bucket_len(hs, num_buckets as nat, x);
            }
        }
        let mut max_len: usize = 0;
        b = 0;
        while b < num_buckets
            invariant
                0 <= b <= num_buckets,
                buckets@.len() == num_buckets,
                max_len <= num_keys,
                forall|x: int| 0 <= x < num_buckets ==> #[trigger] buckets@[x]@.len() <= num_keys,
                forall|x: int| 0 <= x < b ==> #[trigger] buckets@[x]@.len() <= max_len,
            decreases num_buckets - b,
        {
            if buckets[b].len() > max_len {
                max_len = buckets[b].len();
            }
            b = b + 1;
        }
        // Phase 2: Displace each bucket into empty slots, largest buckets
        // first and equal sizes in bucket order.
        let mut displacements: Vec<u16> = Vec::new();
        b = 0;
        while b < num_buckets
            invariant
                0 <= b <= num_buckets,
                displacements@.len() == b,
                forall|y: int| 0 <= y < b ==> #[trigger] displacements@[y] == 0u16,
            decreases num_buckets - b,
        {
            displacements.push(0);
            b = b + 1;
        }
        let mut occupied: Vec<bool> = Vec::new();
        let mut t: usize = 0;
        while t < num_keys
            invariant
                0 <= t <= num_keys,
                occupied@.len() == t,
                forall|y: int| 0 <= y < t ==> !#[trigger] occupied@[y],
            decreases num_keys - t,
        {
            occupied.push(false);
            t = t + 1;
        }
        let ghost bl = buckets@.map_values(|v: Vec<(u32, u32)>| v@);
        let ghost n = num_keys as nat;
        let ghost init: PlaceState = Some((occupied@, displacements@));
        let ghost goal = place_sizes(bl, max_len as int, init, n);
        proof {
            assert(hs.take(num_keys as int) =~= hs);
            assert(hs =~= key_hashes(kb, seed));
            assert(bl =~= all_buckets(key_hashes(kb, seed), num_buckets as nat)) by {
                assert forall|x: int| 0 <= x < num_buckets implies #[trigger] bl[x]
                    == all_buckets(key_hashes(kb, seed), num_buckets as nat)[x] by {
                    assert(bl[x] == buckets@[x]@);
                }
            }
            assert(occupied@ =~= Seq::new(n, |y: int| false));
            assert(displacements@ =~= Seq::new(num_buckets as nat, |x: int| 0u16));
            assert forall|x: int| 0 <= x < bl.len() implies (#[trigger] bl[x]).len() <= max_len by {
                assert(bl[x] == buckets@[x]@);
            }
            lemma_sizes_skip(bl, n as int, max_len as int, init, n);
        }
        let mut s = max_len;
        while s > 0
            invariant
                goal == place_sizes(bl, s as int, Some((occupied@, displacements@)), n),
                kb == key_bytes(keys@),
                spec_try_build(kb, num_buckets as nat, seed) == (match goal {
                    Some((o, d)) => Some(d),
                    None => None::<Seq<u16>>,
                }),
                n == num_keys,
                bl == buckets@.map_values(|v: Vec<(u32, u32)>| v@),
                bl.len() == num_buckets,
                displacements@.len() == num_buckets,
                occupied@.len() == num_keys,
                forall|x: int| 0 <= x < num_buckets ==> #[trigger] bl[x].len() <= max_len,
                s <= max_len,
                forall|x: int, p: int|
                    0 <= x < num_buckets && 0 <= p < bl[x].len() && bl[x].len() > s ==> placed(occupied@, #[trigger] bl[x][p], displacements@[x], num_keys as nat),
                forall|x1: int, p1: int, x2: int, p2: int|
                    0 <= x1 < num_buckets && 0 <= p1 < bl[x1].len() && bl[x1].len() > s && 0
                        <= x2 < num_buckets && 0 <= p2 < bl[x2].len() && bl[x2].len() > s && (x1
                        != x2 || p1 != p2) ==> #[trigger] spec_slot(
                        bl[x1][p1],
                        displacements@[x1],
                        num_keys as nat,
                    ) != #[trigger] spec_slot(bl[x2][p2], displacements@[x2], num_keys as nat),
            decreases s,
        {
            let mut x: usize = 0;
            while x < num_buckets
                invariant
                    goal == place_sizes(
                        bl,
                        s - 1,
                        place_row(bl, s as int, x as int, Some((occupied@, displacements@)), n),
                        n,
                    ),
                    kb == key_bytes(keys@),
                spec_try_build(kb, num_buckets as nat, seed) == (match goal {
                        Some((o, d)) => Some(d),
                        None => None::<Seq<u16>>,
                    }),
                    n == num_keys,
                    bl == buckets@.map_values(|v: Vec<(u32, u32)>| v@),
                    bl.len() == num_buckets,
                    displacements@.len() == num_buckets,
                    occupied@.len() == num_keys,
                    0 < s <= max_len,
                    0 <= x <= num_buckets,
                    forall|y: int, p: int|
                        0 <= y < num_buckets && 0 <= p < bl[y].len() && (bl[y].len() > s || (
                        bl[y].len() == s && y < x)) ==> placed(occupied@, #[trigger] bl[y][p], displacements@[y], num_keys as nat),
                    forall|x1: int, p1: int, x2: int, p2: int|
                        0 <= x1 < num_buckets && 0 <= p1 < bl[x1].len() && (bl[x1].len() > s || (
                        bl[x1].len() == s && x1 < x)) && 0 <= x2 < num_buckets && 0 <= p2
                            < bl[x2].len() && (bl[x2].len() > s || (bl[x2].len() == s && x2 < x))
                            && (x1 != x2 || p1 != p2) ==> #[trigger] spec_slot(
                            bl[x1][p1],
                            displacements@[x1],
                            num_keys as nat,
                        ) != #[trigger] spec_slot(bl[x2][p2], displacements@[x2], num_keys as nat),
                decreases num_buckets - x,
            {
                if buckets[x].len() == s {
                    let found = Self::place_bucket(buckets[x].as_slice(), &occupied, num_keys);
                    match found {
                        None => {
                            proof {
                                assert(bl[x as int] == buckets@[x as int]@);
                                let cur: PlaceState = Some((occupied@, displacements@));
                                assert(place_step(bl, s as int, x as int, cur, n) is None);
                                lemma_row_none(bl, s as int, x + 1, n);
                                lemma_sizes_none(bl, s - 1, n);
                            }
                            return None;
                        },
                        Some((d, slots)) => {
                            let ghost before_occ = occupied@;
                            let ghost before_disp = displacements@;
                            displacements.set(x, d);
                            Self::mark(&mut occupied, &slots);
                            proof {
                                assert(bl[x as int] == buckets@[x as int]@);
                                let bx = bl[x as int];
                                assert forall|y: int| 0 <= y < occupied@.len() implies #[trigger] occupied@[y]
                                    == mark_slots(before_occ, bx, d, n)[y] by {
                                    if occupied@[y] && !before_occ[y] {
                                        let p = choose|p: int| 0 <= p < slots@.len() && slots@[p] == y;
                                        assert(spec_slot(bx[p], d, n) == y);
                                    }
                                    if exists|p: int| 0 <= p < bx.len() && spec_slot(bx[p], d, n) == y {
                                        let p = choose|p: int| 0 <= p < bx.len() && spec_slot(bx[p], d, n) == y;
                                        assert(slots@[p] == y);
                                        assert(occupied@[slots@[p] as int]);
                                    }
                                }
                                assert(occupied@ =~= mark_slots(before_occ, bx, d, n));
                                assert(place_step(bl, s as int, x as int, Some((before_occ, before_disp)), n)
                                    == Some((occupied@, displacements@)));
                                assert(bl[x as int] == buckets@[x as int]@);
                                assert forall|y: int, p: int|
                                    0 <= y < num_buckets && 0 <= p < bl[y].len() && (bl[y].len()
                                        > s || (bl[y].len() == s && y < x + 1)) implies placed(
                                    occupied@,
                                    #[trigger] bl[y][p],
                                    displacements@[y],
                                    num_keys as nat,
                                ) by {
                                    if y == x {
                                        assert(slots@[p] == spec_slot(bl[y][p], d, num_keys as nat));
                                    } else {
                                        assert(displacements@[y] == before_disp[y]);
                                        assert(placed(before_occ, bl[y][p], before_disp[y], num_keys as nat));
                                    }
                                }
                                assert forall|x1: int, p1: int, x2: int, p2: int|
                                    0 <= x1 < num_buckets && 0 <= p1 < bl[x1].len() && (
                                    bl[x1].len() > s || (bl[x1].len() == s && x1 < x + 1)) && 0
                                        <= x2 < num_buckets && 0 <= p2 < bl[x2].len() && (
                                    bl[x2].len() > s || (bl[x2].len() == s && x2 < x + 1)) && (x1
                                        != x2 || p1 != p2) implies #[trigger] spec_slot(
                                    bl[x1][p1],
                                    displacements@[x1],
                                    num_keys as nat,
                                ) != #[trigger] spec_slot(
                                    bl[x2][p2],
                                    displacements@[x2],
                                    num_keys as nat,
                                ) by {
                                    if x1 == x && x2 == x {
                                        assert(slots@[p1] == spec_slot(bl[x1][p1], d, num_keys as nat));
                                        assert(slots@[p2] == spec_slot(bl[x2][p2], d, num_keys as nat));
                                    } else if x1 == x {
                                        assert(displacements@[x2] == before_disp[x2]);
                                        assert(placed(before_occ, bl[x2][p2], before_disp[x2], num_keys as nat));
                                        assert(!before_occ[slots@[p1] as int]);
                                    } else if x2 == x {
                                        assert(displacements@[x1] == before_disp[x1]);
                                        assert(placed(before_occ, bl[x1][p1], before_disp[x1], num_keys as nat));
                                        assert(!before_occ[slots@[p2] as int]);
                                    } else {
                                        assert(displacements@[x1] == before_disp[x1]);
                                        assert(displacements@[x2] == before_disp[x2]);
                                    }
                                }
                            }
                        },
                    }
                }
                x = x + 1;
            }
            proof {
                assert forall|y: int, p: int|
                    0 <= y < num_buckets && 0 <= p < bl[y].len() && bl[y].len() > s - 1 implies placed(occupied@, #[trigger] bl[y][p], displacements@[y], num_keys as nat) by {
                    assert(bl[y].len() > s || (bl[y].len() == s && y < x));
                }
                assert forall|x1: int, p1: int, x2: int, p2: int|
                    0 <= x1 < num_buckets && 0 <= p1 < bl[x1].len() && bl[x1].len() > s - 1 && 0
                        <= x2 < num_buckets && 0 <= p2 < bl[x2].len() && bl[x2].len() > s - 1 && (x1
                        != x2 || p1 != p2) implies #[trigger] spec_slot(
                        bl[x1][p1],
                        displacements@[x1],
                        num_keys as nat,
                    ) != #[trigger] spec_slot(bl[x2][p2], displacements@[x2], num_keys as nat) by {
                    assert(bl[x1].len() > s || (bl[x1].len() == s && x1 < x));
                    assert(bl[x2].len() > s || (bl[x2].len() == s && x2 < x));
                }
            }
            s = s - 1;
        }
        proof {
            let c = Chd { num_keys: keys@.len() as usize, num_buckets, displacements, seed };
            // every key sits in its bucket, and every non-empty bucket is placed
            assert forall|i: int| 0 <= i < kb.len() implies #[trigger] c.spec_lookup(kb[i])
                == spec_slot(
                bl[(hs[i].0 as int) % (num_buckets as int)][choose|p: int|
                    0 <= p < owner[(hs[i].0 as int) % (num_buckets as int)].len()
                        && #[trigger] owner[(hs[i].0 as int) % (num_buckets as int)][p] == i],
                displacements@[(hs[i].0 as int) % (num_buckets as int)],
                num_keys as nat,
            ) by {
                let y = (hs[i].0 as int) % (num_buckets as int);
                let p = choose|p: int| 0 <= p < owner[y].len() && #[trigger] owner[y][p] == i;
                assert(bl[y][p] == hs[i]);
                assert(hs[i] == spec_key_hash(kb[i], seed));
            }
            assert forall|i: int, j: int|
                0 <= i < kb.len() && 0 <= j < kb.len() && i != j implies #[trigger] c.spec_lookup(
                kb[i],
            ) != #[trigger] c.spec_lookup(kb[j]) by {
                let yi = (hs[i].0 as int) % (num_buckets as int);
                let pi = choose|p: int| 0 <= p < owner[yi].len() && #[trigger] owner[yi][p] == i;
                let yj = (hs[j].0 as int) % (num_buckets as int);
                let pj = choose|p: int| 0 <= p < owner[yj].len() && #[trigger] owner[yj][p] == j;
                assert(bl[yi].len() > 0);
                assert(bl[yj].len() > 0);
            }
        }
        Some(displacements)
    }

    /// Finds the smallest displacement below 2^16 that sends every key of a
    /// bucket to a free slot of its own; returns it with the slots, or `None`
    /// when there is none.
    fn place_bucket(bucket: &[(u32, u32)], occupied: &Vec<bool>, num_keys: usize) -> (r: Option<
        (u16, Vec<usize>),
    >)
        requires
            bucket@.len() > 0,
            occupied@.len() == num_keys,
        ensures
            r is None <==> first_fit(bucket@, occupied@, num_keys as nat, 0) is None,
            r matches Some((d, slots)) ==> {
                &&& first_fit(bucket@, occupied@, num_keys as nat, 0) == Some(d)
                &&& num_keys > 0
                &&& slots@.len() == bucket@.len()
                &&& forall|p: int|
                    0 <= p < bucket@.len() ==> #[trigger] slots@[p] == spec_slot(
                        bucket@[p],
                        d,
                        num_keys as nat,
                    )
                &&& forall|p: int| 0 <= p < slots@.len() ==> #[trigger] slots@[p] < num_keys
                &&& forall|p: int| 0 <= p < slots@.len() ==> !occupied@[#[trigger] slots@[p] as int]
                &&& forall|p: int, q: int|
                    0 <= p < slots@.len() && 0 <= q < slots@.len() && p != q ==> #[trigger] slots@[p]
                        != #[trigger] slots@[q]
            },
    {
        if num_keys == 0 {
            // no free slot at all: every displacement fails
            proof {
                lemma_first_fit_none(bucket@, occupied@, 0);
            }
            return None;
        }
        let mut d: u32 = 0;
        while d <= 0xffff
            invariant
                num_keys > 0,
                occupied@.len() == num_keys,
                bucket@.len() > 0,
                d <= 0x10000,
                first_fit(bucket@, occupied@, num_keys as nat, 0) == first_fit(
                    bucket@,
                    occupied@,
                    num_keys as nat,
                    d as int,
                ),
            decreases 0x10000 - d,
        {
            let mut slots: Vec<usize> = Vec::new();
            let mut p: usize = 0;
            let mut ok = true;
            while p < bucket.len() && ok
                invariant
                    ok ==> p <= bucket@.len(),
                    !ok ==> p < bucket@.len(),
                    !ok ==> (occupied@[spec_slot(bucket@[p as int], d as u16, num_keys as nat) as int]
                        || exists|q: int|
                        0 <= q < p && slots@[q] == spec_slot(
                            bucket@[p as int],
                            d as u16,
                            num_keys as nat,
                        )),
                    num_keys > 0,
                    d <= 0xffff,
                    occupied@.len() == num_keys,
                    0 <= p <= bucket@.len(),
                    slots@.len() == p,
                    forall|q: int|
                        0 <= q < p ==> #[trigger] slots@[q] == spec_slot(
                            bucket@[q],
                            d as u16,
                            num_keys as nat,
                        ),
                    forall|q: int| 0 <= q < p ==> #[trigger] slots@[q] < num_keys,
                    forall|q: int| 0 <= q < p ==> !occupied@[#[trigger] slots@[q] as int],
                    forall|q1: int, q2: int|
                        0 <= q1 < p && 0 <= q2 < p && q1 != q2 ==> #[trigger] slots@[q1]
                            != #[trigger] slots@[q2],
                decreases bucket@.len() - p + (if ok {
                    1int
                } else {
                    0int
                }),
            {
                let t = slot(bucket[p], d as u16, num_keys);
                if occupied[t] || contains(&slots, t) {
                    ok = false;
                } else {
                    slots.push(t);
                    p = p + 1;
                }
            }
            if ok {
                proof {
                    assert(fits(bucket@, occupied@, d as int, num_keys as nat)) by {
                        assert forall|p1: int| 0 <= p1 < bucket@.len() implies !occupied@[spec_slot(
                            #[trigger] bucket@[p1],
                            d as u16,
                            num_keys as nat,
                        ) as int] by {
                            assert(slots@[p1] == spec_slot(bucket@[p1], d as u16, num_keys as nat));
                        }
                        assert forall|p1: int, q1: int|
                            0 <= p1 < bucket@.len() && 0 <= q1 < bucket@.len() && p1 != q1 implies spec_slot(
                            #[trigger] bucket@[p1],
                            d as u16,
                            num_keys as nat,
                        ) != spec_slot(#[trigger] bucket@[q1], d as u16, num_keys as nat) by {
                            assert(slots@[p1] == spec_slot(bucket@[p1], d as u16, num_keys as nat));
                            assert(slots@[q1] == spec_slot(bucket@[q1], d as u16, num_keys as nat));
                        }
                    }
                }
                return Some((d as u16, slots));
            }
            proof {
                let pp = p as int;
                if !occupied@[spec_slot(bucket@[pp], d as u16, num_keys as nat) as int] {
                    let q = choose|q: int|
                        0 <= q < pp && slots@[q] == spec_slot(bucket@[pp], d as u16, num_keys as nat);
                    assert(slots@[q] == spec_slot(bucket@[q], d as u16, num_keys as nat));
                    assert(spec_slot(bucket@[pp], d as u16, num_keys as nat) == spec_slot(
                        bucket@[q],
                        d as u16,
                        num_keys as nat,
                    ));
                }
                assert(!fits(bucket@, occupied@, d as int, num_keys as nat));
            }
            d = d + 1;
        }
        None
    }

    fn mark(occupied: &mut Vec<bool>, slots: &Vec<usize>)
        requires
            forall|p: int| 0 <= p < slots@.len() ==> #[trigger] slots@[p] < old(occupied)@.len(),
        ensures
            final(occupied)@.len() == old(occupied)@.len(),
            forall|p: int| 0 <= p < slots@.len() ==> final(occupied)@[#[trigger] slots@[p] as int],
            forall|y: int| 0 <= y < old(occupied)@.len() && #[trigger] old(occupied)@[y] ==> final(occupied)@[y],
            forall|y: int|
                0 <= y < old(occupied)@.len() && #[trigger] final(occupied)@[y] ==> (old(occupied)@[y]
                    || exists|p: int| 0 <= p < slots@.len() && slots@[p] == y),
    {
        let mut i: usize = 0;
        while i < slots.len()
            invariant
                0 <= i <= slots@.len(),
                forall|p: int| 0 <= p < slots@.len() ==> #[trigger] slots@[p] < old(occupied)@.len(),
                occupied@.len() == old(occupied)@.len(),
                forall|p: int| 0 <= p < i ==> occupied@[#[trigger] slots@[p] as int],
                forall|y: int| 0 <= y < old(occupied)@.len() && #[trigger] old(occupied)@[y] ==> occupied@[y],
                forall|y: int|
                    0 <= y < old(occupied)@.len() && #[trigger] occupied@[y] ==> (old(occupied)@[y]
                        || exists|p: int| 0 <= p < i && slots@[p] == y),
            decreases slots@.len() - i,
        {
            occupied.set(slots[i], true);
            i = i + 1;
        }
    }
}

fn contains(v: &Vec<usize>, x: usize) -> (b: bool)
    ensures
        b == (exists|i: int| 0 <= i < v@.len() && v@[i] == x),
{
    let mut i: usize = 0;
    while i < v.len()
        invariant
            0 <= i <= v@.len(),
            forall|j: int| 0 <= j < i ==> v@[j] != x,
        decreases v@.len() - i,
    {
        if v[i] == x {
            return true;
        }
        i = i + 1;
    }
    false
}

} // verus!
