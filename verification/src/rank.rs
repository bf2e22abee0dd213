//! Ranking: the order in which results are reported.
//!
//! Every result carries a key, a fraction with a tie-breaker. Results are
//! reported from the highest key to the lowest; results with equal keys stay
//! in the order in which they were found.

use vstd::prelude::*;

verus! {

/// A key as a mathematical value: the fraction `num / den`, then `tie`.
pub struct Key {
    pub num: int,
    pub den: int,
    pub tie: int,
}

impl Key {
    /// A key is a fraction, so its denominator is positive.
    pub open spec fn wf(self) -> bool {
        self.den > 0
    }
}

/// The key of a plain count.
pub open spec fn count_key(count: int) -> Key {
    Key { num: count, den: 1, tie: 0 }
}

/// What a result is ranked by: the fraction `num / den`, then `tie`.
#[derive(Clone, Copy)]
pub struct RankKey {
    pub num: u64,
    pub den: u64,
    pub tie: u64,
}

impl View for RankKey {
    type V = Key;

    open spec fn view(&self) -> Key {
        Key { num: self.num as int, den: self.den as int, tie: self.tie as int }
    }
}

impl RankKey {
    /// The key of a plain count.
    pub fn of_count(count: u64) -> (key: RankKey)
        ensures
            key@ == count_key(count as int),
    {
        RankKey { num: count, den: 1, tie: 0 }
    }
}

/// The views of a sequence of keys.
pub open spec fn key_views(keys: Seq<RankKey>) -> Seq<Key> {
    Seq::new(keys.len(), |i: int| keys[i]@)
}

/// Whether `a` ranks strictly above `b`: by the larger fraction, then by the
/// larger tie-breaker.
pub open spec fn outranks(a: Key, b: Key) -> bool {
    a.num * b.den > b.num * a.den || (a.num * b.den == b.num * a.den && a.tie > b.tie)
}

/// Every key in the sequence is a fraction.
pub open spec fn all_wf(keys: Seq<Key>) -> bool {
    forall|i: int| 0 <= i < keys.len() ==> (#[trigger] keys[i]).wf()
}

/// Decides whether `a` ranks strictly above `b`.
pub fn ranks_above(a: RankKey, b: RankKey) -> (above: bool)
    ensures
        above == outranks(a@, b@),
{
    let left: u128 = mul_wide(a.num, b.den);
    let right: u128 = mul_wide(b.num, a.den);
    left > right || (left == right && a.tie > b.tie)
}

/// The product of two 64-bit numbers.
fn mul_wide(x: u64, y: u64) -> (product: u128)
    ensures
        product == x * y,
{
    assert(x * y <= 0xffff_ffff_ffff_ffff * 0xffff_ffff_ffff_ffff) by (nonlinear_arith)
        requires
            0 <= x <= 0xffff_ffff_ffff_ffff,
            0 <= y <= 0xffff_ffff_ffff_ffff,
    ;
    (x as u128) * (y as u128)
}

/// Ranking strictly above goes one way only.
pub proof fn lemma_outranks_asymmetric(a: Key, b: Key)
    ensures
        !(outranks(a, b) && outranks(b, a)),
{
}

/// Where `a` does not rank above `b`, nor `b` above `c`, `a` does not rank
/// above `c`.
pub proof fn lemma_not_outranks_transitive(a: Key, b: Key, c: Key)
    requires
        a.wf(),
        b.wf(),
        c.wf(),
        !outranks(a, b),
        !outranks(b, c),
    ensures
        !outranks(a, c),
{
    let (an, ad) = (a.num, a.den);
    let (bn, bd) = (b.num, b.den);
    let (cn, cd) = (c.num, c.den);
    assert(an * bd <= bn * ad);
    assert(bn * cd <= cn * bd);
    assert(an * cd <= cn * ad) by (nonlinear_arith)
        requires
            an * bd <= bn * ad,
            bn * cd <= cn * bd,
            ad > 0,
            bd > 0,
            cd > 0,
    {
        assert((an * bd) * cd <= (bn * ad) * cd);
        assert((bn * cd) * ad <= (cn * bd) * ad);
        assert((an * cd) * bd == (an * bd) * cd);
        assert((bn * ad) * cd == (bn * cd) * ad);
        assert((cn * bd) * ad == (cn * ad) * bd);
        assert((an * cd) * bd <= (cn * ad) * bd);
    }
    if an * cd == cn * ad {
        assert(an * bd == bn * ad && bn * cd == cn * bd) by (nonlinear_arith)
            requires
                an * bd <= bn * ad,
                bn * cd <= cn * bd,
                an * cd == cn * ad,
                ad > 0,
                bd > 0,
                cd > 0,
        {
            assert((an * bd) * cd <= (bn * ad) * cd);
            assert((bn * cd) * ad <= (cn * bd) * ad);
            assert((an * cd) * bd == (an * bd) * cd);
            assert((bn * ad) * cd == (bn * cd) * ad);
            assert((cn * bd) * ad == (cn * ad) * bd);
            assert((an * bd) * cd == (bn * ad) * cd);
            assert((bn * cd) * ad == (cn * bd) * ad);
        }
    }
}

/// Where in `order` the entry `i` belongs: behind every entry that it does
/// not rank above.
pub open spec fn place(keys: Seq<Key>, order: Seq<int>, i: int) -> int
    decreases order.len(),
{
    if order.len() == 0 || outranks(keys[i], keys[order[0]]) {
        0
    } else {
        1 + place(keys, order.drop_first(), i)
    }
}

/// The ranking of the first `k` entries.
pub open spec fn rank_prefix(keys: Seq<Key>, k: nat) -> Seq<int>
    decreases k,
{
    if k == 0 {
        Seq::empty()
    } else {
        let before = rank_prefix(keys, (k - 1) as nat);
        before.insert(place(keys, before, k - 1), k - 1)
    }
}

/// The ranking of all entries: their indices, from the highest key to the
/// lowest, entries with equal keys in their given order.
pub open spec fn rank_order(keys: Seq<Key>) -> Seq<int> {
    rank_prefix(keys, keys.len())
}

/// Whether `order` lists each of the indices below `k` exactly once.
pub open spec fn is_arrangement(order: Seq<int>, k: int) -> bool {
    &&& order.len() == k
    &&& forall|a: int| 0 <= a < order.len() ==> 0 <= #[trigger] order[a] < k
    &&& forall|a: int, b: int| 0 <= a < b < order.len() ==> #[trigger] order[a] != #[trigger] order[b]
}

/// Whether no entry of `order` ranks above one that is listed before it.
pub open spec fn is_descending(keys: Seq<Key>, order: Seq<int>) -> bool {
    forall|a: int, b: int|
        0 <= a < b < order.len() ==> !outranks(keys[#[trigger] order[b]], keys[#[trigger] order[a]])
}

/// Whether entries that do not differ in rank are listed in their given
/// order.
pub open spec fn is_stable(keys: Seq<Key>, order: Seq<int>) -> bool {
    forall|a: int, b: int|
        0 <= a < b < order.len() && !outranks(keys[#[trigger] order[a]], keys[#[trigger] order[b]])
            ==> order[a] < order[b]
}

/// The place of an entry lies within the order; the entry ranks above the
/// one at its place and above none before it.
pub proof fn lemma_place_bounds(keys: Seq<Key>, order: Seq<int>, i: int)
    ensures
        0 <= place(keys, order, i) <= order.len(),
        place(keys, order, i) < order.len() ==> outranks(keys[i], keys[order[place(keys, order, i)]]),
        forall|a: int| 0 <= a < place(keys, order, i) ==> !outranks(keys[i], keys[#[trigger] order[a]]),
    decreases order.len(),
{
    if order.len() == 0 || outranks(keys[i], keys[order[0]]) {
    } else {
        let rest = order.drop_first();
        lemma_place_bounds(keys, rest, i);
        assert forall|a: int| 0 <= a < place(keys, order, i) implies !outranks(
            keys[i],
            keys[#[trigger] order[a]],
        ) by {
            if a > 0 {
                assert(order[a] == rest[a - 1]);
            }
        }
    }
}

/// A position behind which the entry ranks above the next one, and before
/// which it ranks above none, is its place.
pub proof fn lemma_place_is(keys: Seq<Key>, order: Seq<int>, i: int, p: int)
    requires
        0 <= p <= order.len(),
        p < order.len() ==> outranks(keys[i], keys[order[p]]),
        forall|a: int| 0 <= a < p ==> !outranks(keys[i], keys[#[trigger] order[a]]),
    ensures
        place(keys, order, i) == p,
    decreases order.len(),
{
    if order.len() == 0 || outranks(keys[i], keys[order[0]]) {
        if p > 0 {
            assert(!outranks(keys[i], keys[order[0]]));
        }
    } else {
        let rest = order.drop_first();
        assert forall|a: int| 0 <= a < p - 1 implies !outranks(keys[i], keys[#[trigger] rest[a]]) by {
            assert(rest[a] == order[a + 1]);
        }
        lemma_place_is(keys, rest, i, p - 1);
    }
}

/// The ranking of the first `k` entries lists each of them once, from the
/// highest key to the lowest, equal keys in their given order.
#[verifier::rlimit(50)]
pub proof fn lemma_rank_prefix(keys: Seq<Key>, k: nat)
    requires
        all_wf(keys),
        k <= keys.len(),
    ensures
        is_arrangement(rank_prefix(keys, k), k as int),
        is_descending(keys, rank_prefix(keys, k)),
        is_stable(keys, rank_prefix(keys, k)),
    decreases k,
{
    if k > 0 {
        let before = rank_prefix(keys, (k - 1) as nat);
        lemma_rank_prefix(keys, (k - 1) as nat);
        let i = k - 1;
        let p = place(keys, before, i);
        lemma_place_bounds(keys, before, i);
        let after = before.insert(p, i);
        assert(after == rank_prefix(keys, k));
        assert forall|a: int| 0 <= a < after.len() implies 0 <= #[trigger] after[a] < k by {
            if a < p {
                assert(after[a] == before[a]);
            } else if a > p {
                assert(after[a] == before[a - 1]);
            }
        }
        assert forall|a: int, b: int| 0 <= a < b < after.len() implies #[trigger] after[a]
            != #[trigger] after[b] by {
            let x = if a < p { a } else { a - 1 };
            let y = if b < p { b } else { b - 1 };
            if a != p && b != p {
                assert(after[a] == before[x]);
                assert(after[b] == before[y]);
            } else if a == p {
                assert(after[b] == before[y]);
            } else {
                assert(after[a] == before[x]);
            }
        }
        assert forall|a: int, b: int| 0 <= a < b < after.len() implies !outranks(
            keys[#[trigger] after[b]],
            keys[#[trigger] after[a]],
        ) by {
            let x = if a < p { a } else { a - 1 };
            let y = if b < p { b } else { b - 1 };
            if a != p && b != p {
                assert(after[a] == before[x]);
                assert(after[b] == before[y]);
            } else if a == p {
                // the new entry ranks above the one at its place, and so
                // above none that follows
                assert(after[b] == before[y]);
                assert(0 <= before[y] < k);
                assert(0 <= before[p] < k);
                lemma_outranks_asymmetric(keys[i], keys[before[p]]);
                if y > p {
                    assert(!outranks(keys[before[y]], keys[before[p]]));
                    lemma_not_outranks_transitive(keys[before[y]], keys[before[p]], keys[i]);
                }
            } else {
                assert(after[a] == before[x]);
            }
        }
        assert forall|a: int, b: int|
            0 <= a < b < after.len() && !outranks(
                keys[#[trigger] after[a]],
                keys[#[trigger] after[b]],
            ) implies after[a] < after[b] by {
            let x = if a < p { a } else { a - 1 };
            let y = if b < p { b } else { b - 1 };
            if a != p && b != p {
                assert(after[a] == before[x]);
                assert(after[b] == before[y]);
            } else if a == p {
                // the new entry ranks above everything behind its place
                assert(after[b] == before[y]);
                assert(0 <= before[y] < k);
                assert(0 <= before[p] < k);
                if y > p {
                    assert(!outranks(keys[before[y]], keys[before[p]]));
                    if !outranks(keys[i], keys[before[y]]) {
                        lemma_not_outranks_transitive(keys[i], keys[before[y]], keys[before[p]]);
                    }
                }
            } else {
                assert(after[a] == before[x]);
                assert(0 <= before[x] < i);
            }
        }
    }
}

/// The ranking lists every entry once, from the highest key to the lowest,
/// and keeps entries with equal keys in their given order.
pub proof fn lemma_rank_order(keys: Seq<Key>)
    requires
        all_wf(keys),
    ensures
        is_arrangement(rank_order(keys), keys.len() as int),
        is_descending(keys, rank_order(keys)),
        is_stable(keys, rank_order(keys)),
{
    lemma_rank_prefix(keys, keys.len());
}

/// The indices of `keys` as a sequence of mathematical integers.
pub open spec fn indices(order: Seq<usize>) -> Seq<int> {
    Seq::new(order.len(), |i: int| order[i] as int)
}

/// Ranks the entries with the given keys: returns their indices from the
/// highest key to the lowest, equal keys in their given order.
#[verifier::rlimit(50)]
pub fn rank(keys: &Vec<RankKey>) -> (order: Vec<usize>)
    requires
        all_wf(key_views(keys@)),
    ensures
        indices(order@) == rank_order(key_views(keys@)),
        is_arrangement(indices(order@), keys@.len() as int),
        is_descending(key_views(keys@), indices(order@)),
        is_stable(key_views(keys@), indices(order@)),
{
    let n = keys.len();
    let ghost views = key_views(keys@);
    let mut order: Vec<usize> = Vec::new();
    let mut i: usize = 0;
    proof {
        assert(indices(order@) =~= rank_prefix(views, 0));
    }
    while i < n
        invariant
            i <= n == keys@.len(),
            views == key_views(keys@),
            all_wf(views),
            indices(order@) == rank_prefix(views, i as nat),
        decreases n - i,
    {
        proof {
            lemma_rank_prefix(views, i as nat);
            assert forall|a: int| 0 <= a < order@.len() implies #[trigger] order@[a] < i by {
                assert(indices(order@)[a] == order@[a]);
            }
        }
        let mut p: usize = order.len();
        while p > 0 && ranks_above(keys[i], keys[order[p - 1]])
            invariant
                i < n == keys@.len(),
                views == key_views(keys@),
                is_arrangement(indices(order@), i as int),
                forall|a: int| 0 <= a < order@.len() ==> #[trigger] order@[a] < i,
                p <= order@.len(),
                forall|a: int|
                    p <= a < order@.len() ==> outranks(
                        views[i as int],
                        views[#[trigger] indices(order@)[a]],
                    ),
            decreases p,
        {
            proof {
                assert(indices(order@)[p - 1] == order@[p - 1]);
                assert(views[i as int] == keys@[i as int]@);
                assert(views[order@[p - 1] as int] == keys@[order@[p - 1] as int]@);
            }
            p = p - 1;
        }
        proof {
            let o = indices(order@);
            if p > 0 {
                assert(o[p - 1] == order@[p - 1]);
                assert(views[i as int] == keys@[i as int]@);
                assert(views[order@[p - 1] as int] == keys@[order@[p - 1] as int]@);
                // nothing before the place is ranked below the new entry,
                // since the order never rises
                assert forall|a: int| 0 <= a < p implies !outranks(
                    views[i as int],
                    views[#[trigger] o[a]],
                ) by {
                    if a < p - 1 {
                        assert(0 <= o[a] < i);
                        assert(0 <= o[p - 1] < i);
                        assert(!outranks(views[o[p - 1]], views[o[a]]));
                        lemma_not_outranks_transitive(views[i as int], views[o[p - 1]], views[o[a]]);
                    }
                }
            }
            lemma_place_is(views, o, i as int, p as int);
            assert(indices(order@.insert(p as int, i)) =~= indices(order@).insert(p as int, i as int));
        }
        order.insert(p, i);
        i = i + 1;
    }
    proof {
        lemma_rank_order(views);
    }
    order
}

/// The items in the given order: the item at place `i` is the one whose
/// index `order` holds at `i`.
pub open spec fn arranged<T>(items: Seq<T>, order: Seq<int>) -> Seq<T> {
    Seq::new(order.len(), |i: int| items[order[i]])
}

/// The items from the highest key to the lowest, items with equal keys in
/// their given order.
pub open spec fn ranked<T>(items: Seq<T>, keys: Seq<Key>) -> Seq<T> {
    arranged(items, rank_order(keys))
}

/// Ranked items come with keys that never rise, every item of the input is
/// among them, and they are as many as the input.
pub proof fn lemma_ranked<T>(items: Seq<T>, keys: Seq<Key>)
    requires
        all_wf(keys),
        items.len() == keys.len(),
    ensures
        ranked(items, keys).len() == items.len(),
        forall|a: int, b: int|
            0 <= a < b < items.len() ==> !outranks(
                #[trigger] ranked(keys, keys)[b],
                #[trigger] ranked(keys, keys)[a],
            ),
        forall|a: int| 0 <= a < items.len() ==> items.contains(#[trigger] ranked(items, keys)[a]),
        forall|i: int| 0 <= i < items.len() ==> ranked(items, keys).contains(#[trigger] items[i]),
{
    lemma_rank_order(keys);
    let order = rank_order(keys);
    assert forall|a: int, b: int| 0 <= a < b < items.len() implies !outranks(
        #[trigger] ranked(keys, keys)[b],
        #[trigger] ranked(keys, keys)[a],
    ) by {
        assert(ranked(keys, keys)[b] == keys[order[b]]);
        assert(ranked(keys, keys)[a] == keys[order[a]]);
    }
    assert forall|a: int| 0 <= a < items.len() implies items.contains(
        #[trigger] ranked(items, keys)[a],
    ) by {
        assert(0 <= order[a] < items.len());
        assert(ranked(items, keys)[a] == items[order[a]]);
    }
    assert forall|i: int| 0 <= i < items.len() implies ranked(items, keys).contains(
        #[trigger] items[i],
    ) by {
        lemma_arrangement_covers(order, items.len() as int, i);
        let a = choose|a: int| 0 <= a < order.len() && order[a] == i;
        assert(ranked(items, keys)[a] == items[i]);
    }
}

/// An arrangement of the indices below `k` holds each of them.
pub proof fn lemma_arrangement_covers(order: Seq<int>, k: int, i: int)
    requires
        is_arrangement(order, k),
        0 <= i < k,
    ensures
        exists|a: int| 0 <= a < order.len() && order[a] == i,
{
    let values = order.to_set();
    let all = Set::new(|x: int| 0 <= x < k);
    vstd::set_lib::lemma_int_range(0, k);
    assert(all =~= vstd::set_lib::set_int_range(0, k));
    order.unique_seq_to_set();
    assert(values.len() == k);
    assert(values.subset_of(all)) by {
        assert forall|x: int| values.contains(x) implies all.contains(x) by {
            let a = choose|a: int| 0 <= a < order.len() && order[a] == x;
            assert(0 <= order[a] < k);
        }
    }
    vstd::set_lib::lemma_subset_equality(values, all);
    assert(values.contains(i));
}

} // verus!
