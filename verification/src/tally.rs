//! Counts per name, kept in the order in which the names first came.

use vstd::prelude::*;

verus! {

/// A tally as a mathematical value: names with their counts, in order of
/// first appearance.
pub type TallyView = Seq<(Seq<char>, nat)>;

/// Position of `name` in the tally, or its length where the name is absent.
pub open spec fn position_of(t: TallyView, name: Seq<char>) -> int
    decreases t.len(),
{
    if t.len() == 0 || t[0].0 == name {
        0
    } else {
        1 + position_of(t.drop_first(), name)
    }
}

/// The count held for `name`; zero where the name is absent.
pub open spec fn count_of(t: TallyView, name: Seq<char>) -> nat {
    let i = position_of(t, name);
    if 0 <= i < t.len() {
        t[i].1
    } else {
        0
    }
}

/// The tally after one more occurrence of `name`: its count goes up by one,
/// or it joins at the end with a count of one.
pub open spec fn bump(t: TallyView, name: Seq<char>) -> TallyView {
    let i = position_of(t, name);
    if 0 <= i < t.len() {
        t.update(i, (name, t[i].1 + 1))
    } else {
        t.push((name, 1))
    }
}

/// The tally of a sequence of names.
pub open spec fn tally_of(names: Seq<Seq<char>>) -> TallyView
    decreases names.len(),
{
    if names.len() == 0 {
        Seq::empty()
    } else {
        bump(tally_of(names.drop_last()), names.last())
    }
}

/// The sum of all counts.
pub open spec fn total(t: TallyView) -> nat
    decreases t.len(),
{
    if t.len() == 0 {
        0
    } else {
        total(t.drop_last()) + t.last().1
    }
}

/// No name occurs twice.
pub open spec fn distinct_names(t: TallyView) -> bool {
    forall|i: int, j: int| 0 <= i < j < t.len() ==> (#[trigger] t[i]).0 != (#[trigger] t[j]).0
}

/// Every count is at least one.
pub open spec fn positive_counts(t: TallyView) -> bool {
    forall|i: int| 0 <= i < t.len() ==> (#[trigger] t[i]).1 >= 1
}

/// How often `name` occurs in `names`.
pub open spec fn occurrences(names: Seq<Seq<char>>, name: Seq<char>) -> nat
    decreases names.len(),
{
    if names.len() == 0 {
        0
    } else {
        occurrences(names.drop_last(), name) + if names.last() == name {
            1nat
        } else {
            0nat
        }
    }
}

/// `position_of` lies within the tally, points at `name` where it is inside,
/// and passes over no entry of that name.
pub proof fn lemma_position_bounds(t: TallyView, name: Seq<char>)
    ensures
        0 <= position_of(t, name) <= t.len(),
        position_of(t, name) < t.len() ==> t[position_of(t, name)].0 == name,
        forall|k: int| 0 <= k < position_of(t, name) ==> (#[trigger] t[k]).0 != name,
    decreases t.len(),
{
    if t.len() == 0 || t[0].0 == name {
    } else {
        let r = t.drop_first();
        lemma_position_bounds(r, name);
        assert forall|k: int| 0 <= k < position_of(t, name) implies (#[trigger] t[k]).0 != name by {
            if k > 0 {
                assert(t[k] == r[k - 1]);
            }
        }
    }
}

/// An index with no entry of that name before it, which holds the name or is
/// the end, is the name's position.
pub proof fn lemma_position_is(t: TallyView, name: Seq<char>, j: int)
    requires
        0 <= j <= t.len(),
        forall|k: int| 0 <= k < j ==> (#[trigger] t[k]).0 != name,
        j < t.len() ==> t[j].0 == name,
    ensures
        position_of(t, name) == j,
    decreases t.len(),
{
    if t.len() == 0 || t[0].0 == name {
        if j > 0 {
            assert(t[0].0 != name);
        }
    } else {
        let r = t.drop_first();
        assert forall|k: int| 0 <= k < j - 1 implies (#[trigger] r[k]).0 != name by {
            assert(r[k] == t[k + 1]);
        }
        lemma_position_is(r, name, j - 1);
    }
}

/// Replacing one count changes the total by the difference.
pub proof fn lemma_total_update(t: TallyView, i: int, entry: (Seq<char>, nat))
    requires
        0 <= i < t.len(),
    ensures
        total(t.update(i, entry)) == total(t) - t[i].1 + entry.1,
        t[i].1 <= total(t),
    decreases t.len(),
{
    let u = t.update(i, entry);
    if i == t.len() - 1 {
        assert(u.drop_last() =~= t.drop_last());
    } else {
        lemma_total_update(t.drop_last(), i, entry);
        assert(u.drop_last() =~= t.drop_last().update(i, entry));
    }
}

/// One more occurrence raises the total by one, keeps names distinct and
/// counts positive, and changes the count of that name alone.
#[verifier::rlimit(50)]
pub proof fn lemma_bump(t: TallyView, name: Seq<char>)
    requires
        distinct_names(t),
        positive_counts(t),
    ensures
        total(bump(t, name)) == total(t) + 1,
        distinct_names(bump(t, name)),
        positive_counts(bump(t, name)),
        count_of(bump(t, name), name) == count_of(t, name) + 1,
        forall|other: Seq<char>| other != name ==> count_of(bump(t, name), other) == count_of(t, other),
        bump(t, name).len() == t.len() + if count_of(t, name) == 0 { 1int } else { 0int },
{
    let i = position_of(t, name);
    let b = bump(t, name);
    lemma_position_bounds(t, name);
    if i < t.len() {
        lemma_total_update(t, i, (name, t[i].1 + 1));
        assert(t[i].1 >= 1);
        assert forall|k: int| 0 <= k < i implies (#[trigger] b[k]).0 != name by {
            assert(b[k] == t[k]);
        }
        lemma_position_is(b, name, i);
        assert forall|other: Seq<char>| other != name implies count_of(b, other) == count_of(
            t,
            other,
        ) by {
            let j = position_of(t, other);
            lemma_position_bounds(t, other);
            assert forall|k: int| 0 <= k < j implies (#[trigger] b[k]).0 != other by {
                assert(t[k].0 != other);
            }
            lemma_position_is(b, other, j);
        }
        assert forall|x: int, y: int| 0 <= x < y < b.len() implies (#[trigger] b[x]).0 != (
        #[trigger] b[y]).0 by {
            assert(b[x].0 == t[x].0);
            assert(b[y].0 == t[y].0);
        }
    } else {
        assert(b.drop_last() =~= t);
        assert forall|k: int| 0 <= k < t.len() implies (#[trigger] b[k]).0 != name by {
            assert(b[k] == t[k]);
        }
        lemma_position_is(b, name, t.len() as int);
        assert forall|other: Seq<char>| other != name implies count_of(b, other) == count_of(
            t,
            other,
        ) by {
            let j = position_of(t, other);
            lemma_position_bounds(t, other);
            if j < t.len() {
                assert forall|k: int| 0 <= k < j implies (#[trigger] b[k]).0 != other by {
                    assert(b[k] == t[k]);
                }
                lemma_position_is(b, other, j);
            } else {
                assert forall|k: int| 0 <= k < b.len() implies (#[trigger] b[k]).0 != other by {
                    if k < t.len() {
                        assert(b[k] == t[k]);
                    }
                }
                lemma_position_is(b, other, b.len() as int);
            }
        }
        assert forall|x: int, y: int| 0 <= x < y < b.len() implies (#[trigger] b[x]).0 != (
        #[trigger] b[y]).0 by {
            assert(b[x] == t[x]);
            if y < t.len() {
                assert(b[y] == t[y]);
            }
        }
    }
}

/// The tally of any sequence of names has distinct names and positive
/// counts; its total is the number of names, and each count is the number of
/// occurrences of its name.
pub proof fn lemma_tally_of(names: Seq<Seq<char>>)
    ensures
        distinct_names(tally_of(names)),
        positive_counts(tally_of(names)),
        total(tally_of(names)) == names.len(),
        forall|name: Seq<char>| count_of(tally_of(names), name) == occurrences(names, name),
    decreases names.len(),
{
    if names.len() > 0 {
        let before = tally_of(names.drop_last());
        lemma_tally_of(names.drop_last());
        lemma_bump(before, names.last());
        assert forall|name: Seq<char>|
            count_of(tally_of(names), name) == occurrences(names, name) by {
            assert(count_of(before, name) == occurrences(names.drop_last(), name));
            if name != names.last() {
                assert(count_of(bump(before, names.last()), name) == count_of(before, name));
            }
        }
    }
}

/// Whether `i` is the place of the leading entry: none has a higher count,
/// and none before it has the same.
pub open spec fn is_leader(t: TallyView, i: int) -> bool {
    &&& 0 <= i < t.len()
    &&& forall|j: int| 0 <= j < t.len() ==> (#[trigger] t[j]).1 <= t[i].1
    &&& forall|j: int| 0 <= j < i ==> (#[trigger] t[j]).1 < t[i].1
}

/// The place of the leading entry of a tally that is not empty.
pub open spec fn leader_index(t: TallyView) -> int
    decreases t.len(),
{
    if t.len() <= 1 {
        0
    } else {
        let before = leader_index(t.drop_last());
        if t.last().1 > t[before].1 {
            t.len() - 1
        } else {
            before
        }
    }
}

/// `leader_index` is the place of the leading entry.
pub proof fn lemma_leader_index(t: TallyView)
    requires
        t.len() > 0,
    ensures
        is_leader(t, leader_index(t)),
    decreases t.len(),
{
    if t.len() > 1 {
        let r = t.drop_last();
        lemma_leader_index(r);
        let b = leader_index(r);
        assert(r[b] == t[b]);
        let i = leader_index(t);
        assert forall|j: int| 0 <= j < t.len() implies (#[trigger] t[j]).1 <= t[i].1 by {
            if j < t.len() - 1 {
                assert(r[j] == t[j]);
            }
        }
        assert forall|j: int| 0 <= j < i implies (#[trigger] t[j]).1 < t[i].1 by {
            assert(r[j] == t[j]);
        }
    }
}

/// A tally has at most one leading entry.
pub proof fn lemma_leader_unique(t: TallyView, i: int, j: int)
    requires
        is_leader(t, i),
        is_leader(t, j),
    ensures
        i == j,
{
    if i < j {
        assert(t[i].1 < t[j].1);
        assert(t[j].1 <= t[i].1);
    } else if j < i {
        assert(t[j].1 < t[i].1);
        assert(t[i].1 <= t[j].1);
    }
}

/// Counts per name, in the order in which the names first came.
#[derive(Debug)]
pub struct Tally {
    names: Vec<Vec<char>>,
    counts: Vec<usize>,
}

impl Tally {
    /// The names and counts as a mathematical sequence.
    pub closed spec fn view(&self) -> TallyView {
        Seq::new(self.names@.len(), |i: int| (self.names@[i]@, self.counts@[i] as nat))
    }

    /// Names and counts go in pairs, no name occurs twice, and no count is zero.
    pub closed spec fn wf(&self) -> bool {
        &&& self.names@.len() == self.counts@.len()
        &&& distinct_names(self@)
        &&& positive_counts(self@)
    }

    /// The names of a sound tally are distinct and its counts positive.
    pub proof fn lemma_wf(&self)
        requires
            self.wf(),
        ensures
            distinct_names(self@),
            positive_counts(self@),
    {
    }

    /// A tally with no names.
    pub fn new() -> (t: Tally)
        ensures
            t.wf(),
            t@ == tally_of(Seq::empty()),
            t@.len() == 0,
    {
        let t = Tally { names: Vec::new(), counts: Vec::new() };
        proof {
            assert(t@ =~= Seq::empty());
        }
        t
    }

    /// How many names there are.
    pub fn len(&self) -> (n: usize)
        requires
            self.wf(),
        ensures
            n == self@.len(),
    {
        self.names.len()
    }

    /// The name at place `i`.
    pub fn name_at(&self, i: usize) -> (name: String)
        requires
            self.wf(),
            i < self@.len(),
        ensures
            name@ == self@[i as int].0,
    {
        crate::text::string_of(&self.names[i])
    }

    /// The count at place `i`.
    pub fn count_at(&self, i: usize) -> (count: usize)
        requires
            self.wf(),
            i < self@.len(),
        ensures
            count == self@[i as int].1,
    {
        self.counts[i]
    }

    /// The count held for `name`, zero where the name is absent.
    pub fn get(&self, name: &str) -> (count: usize)
        requires
            self.wf(),
        ensures
            count == count_of(self@, name@),
    {
        let key = crate::text::chars_of(name);
        let mut i: usize = 0;
        while i < self.names.len()
            invariant
                self.wf(),
                key@ == name@,
                i <= self.names@.len(),
                forall|k: int| 0 <= k < i ==> (#[trigger] self@[k]).0 != name@,
            decreases self.names@.len() - i,
        {
            if crate::text::same_chars(&self.names[i], &key) {
                proof {
                    lemma_position_is(self@, name@, i as int);
                }
                return self.counts[i];
            }
            i = i + 1;
        }
        proof {
            lemma_position_is(self@, name@, self@.len() as int);
        }
        0
    }

    /// Counts one more occurrence of `name`.
    pub fn add(&mut self, name: &str)
        requires
            old(self).wf(),
            total(old(self)@) < usize::MAX,
        ensures
            final(self).wf(),
            final(self)@ == bump(old(self)@, name@),
            total(final(self)@) == total(old(self)@) + 1,
    {
        self.add_chars(crate::text::chars_of(name));
    }

    /// Counts one more occurrence of the name with the given characters.
    pub fn add_chars(&mut self, key: Vec<char>)
        requires
            old(self).wf(),
            total(old(self)@) < usize::MAX,
        ensures
            final(self).wf(),
            final(self)@ == bump(old(self)@, key@),
            total(final(self)@) == total(old(self)@) + 1,
    {
        proof {
            lemma_bump(self@, key@);
        }
        let mut i: usize = 0;
        while i < self.names.len()
            invariant
                *self == *old(self),
                self.wf(),
                total(self@) < usize::MAX,
                i <= self.names@.len(),
                forall|k: int| 0 <= k < i ==> (#[trigger] self@[k]).0 != key@,
            decreases self.names@.len() - i,
        {
            if crate::text::same_chars(&self.names[i], &key) {
                proof {
                    lemma_position_is(self@, key@, i as int);
                    lemma_total_update(self@, i as int, (key@, self@[i as int].1 + 1));
                }
                let count = self.counts[i];
                self.counts.set(i, count + 1);
                proof {
                    assert(self@ =~= bump(old(self)@, key@));
                }
                return ;
            }
            i = i + 1;
        }
        proof {
            lemma_position_is(self@, key@, self@.len() as int);
        }
        self.names.push(key);
        self.counts.push(1);
        proof {
            assert(self@ =~= bump(old(self)@, key@));
        }
    }

    /// The place of the leading entry: the first among those with the highest
    /// count. `None` for an empty tally.
    pub fn leader(&self) -> (place: Option<usize>)
        requires
            self.wf(),
        ensures
            self@.len() == 0 <==> place is None,
            place is Some ==> is_leader(self@, place->0 as int),
            place is Some ==> place->0 == leader_index(self@),
    {
        if self.counts.len() == 0 {
            return None;
        }
        let mut best: usize = 0;
        let mut i: usize = 1;
        while i < self.counts.len()
            invariant
                self.wf(),
                0 <= best < i <= self.counts@.len(),
                forall|j: int| 0 <= j < i ==> (#[trigger] self@[j]).1 <= self@[best as int].1,
                forall|j: int| 0 <= j < best ==> (#[trigger] self@[j]).1 < self@[best as int].1,
            decreases self.counts@.len() - i,
        {
            if self.counts[i] > self.counts[best] {
                best = i;
            }
            i = i + 1;
        }
        proof {
            lemma_leader_index(self@);
            lemma_leader_unique(self@, best as int, leader_index(self@));
        }
        Some(best)
    }
    /// A copy of this tally.
    pub fn duplicate(&self) -> (copy: Tally)
        requires
            self.wf(),
        ensures
            copy.wf(),
            copy@ == self@,
    {
        let mut names: Vec<Vec<char>> = Vec::new();
        let mut counts: Vec<usize> = Vec::new();
        let mut i: usize = 0;
        while i < self.names.len()
            invariant
                self.wf(),
                i <= self.names@.len(),
                names@.len() == i,
                counts@.len() == i,
                forall|k: int| 0 <= k < i ==> (#[trigger] names@[k])@ == self.names@[k]@,
                forall|k: int| 0 <= k < i ==> #[trigger] counts@[k] == self.counts@[k],
            decreases self.names@.len() - i,
        {
            let name = crate::text::copy_range(&self.names[i], 0, self.names[i].len());
            proof {
                assert(name@ =~= self.names@[i as int]@);
            }
            names.push(name);
            counts.push(self.counts[i]);
            i = i + 1;
        }
        let copy = Tally { names, counts };
        proof {
            assert(copy@ =~= self@);
        }
        copy
    }
}

} // verus!
