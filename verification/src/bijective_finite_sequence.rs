//! A set whose members can be drawn at random in constant time.
//!
//! The members stand in a dense sequence, and a hash map gives each member's
//! position in it. A member leaves by swap-removal: the last member takes its
//! place. So the order of the sequence means nothing to a caller, and the
//! positions never leave this module.

use vstd::prelude::*;
use vstd::std_specs::hash::*;
use std::collections::HashMap;
use std::hash::Hash;
use crate::my_rng::{draw_below, draw_bound, lemma_draw_below_in_range, low_u32, Rng};

verus! {

#[verifier::external_type_specification]
#[verifier::external_body]
pub struct ExRandomState(ahash::RandomState);

/// The map from each member to its position. It hashes with ahash.
///
/// What a hash map does is proved nowhere: it is stated, for the hashers that
/// the standard library builds, by the verifier's library, and for this map
/// by the five functions below, each of which makes one call and is believed
/// of it. They hold of keys that are compared and hashed as
/// `obeys_key_model` asks.
pub type Positions<T> = HashMap<T, usize, ahash::RandomState>;

/// `HashMap::contains_key` on a map that hashes with ahash. Hashers that one
/// `RandomState` of ahash builds give the same hash for the same data, so a
/// key that compares and hashes as the model asks is found exactly when the
/// map holds it.
#[verifier::external_body]
fn has_position<T: Eq + Copy + Hash>(positions: &Positions<T>, v: &T) -> (found: bool)
    ensures
        obeys_key_model::<T>() ==> found == positions@.contains_key(*v),
{
    positions.contains_key(v)
}

/// `HashMap::get` on a map that hashes with ahash: the value recorded for a
/// key that the map holds, and nothing for any other key.
#[verifier::external_body]
fn position_of<'a, T: Eq + Copy + Hash>(positions: &'a Positions<T>, v: &T) -> (position: Option<
    &'a usize,
>)
    ensures
        obeys_key_model::<T>() ==> match position {
            Some(p) => positions@.contains_key(*v) && *p == positions@[*v],
            None => !positions@.contains_key(*v),
        },
{
    positions.get(v)
}

/// `HashMap::insert` on a map that hashes with ahash: afterwards the map
/// records `position` for `v` and is otherwise as before.
#[verifier::external_body]
fn record_position<T: Eq + Copy + Hash>(positions: &mut Positions<T>, v: T, position: usize)
    ensures
        obeys_key_model::<T>() ==> final(positions)@ == old(positions)@.insert(v, position),
{
    positions.insert(v, position);
}

/// `HashMap::remove` on a map that hashes with ahash: afterwards the map
/// records nothing for `v` and is otherwise as before, and what it recorded
/// for `v` comes back.
#[verifier::external_body]
fn forget_position<T: Eq + Copy + Hash>(positions: &mut Positions<T>, v: &T) -> (position: Option<
    usize,
>)
    ensures
        obeys_key_model::<T>() ==> final(positions)@ == old(positions)@.remove(*v),
        obeys_key_model::<T>() ==> position == if old(positions)@.contains_key(*v) {
            Some(old(positions)@[*v])
        } else {
            None
        },
{
    positions.remove(v)
}

/// `HashMap::len` on a map that hashes with ahash: the number of keys that
/// the map holds. That is, the keys of the map can be listed without
/// repetition in a sequence of that length.
#[verifier::external_body]
fn count_positions<T: Eq + Copy + Hash>(positions: &Positions<T>) -> (n: usize)
    ensures
        obeys_key_model::<T>() ==> exists|keys: Seq<T>| #[trigger] counts_keys(keys, positions@, n),
{
    positions.len()
}

/// Whether `keys` holds each key of `m` once and nothing else, and has the
/// length `n`.
pub open spec fn counts_keys<T>(keys: Seq<T>, m: Map<T, usize>, n: usize) -> bool {
    keys.no_duplicates() && keys.to_set() == m.dom() && keys.len() == n
}

/// The sequence after `v` has joined: unchanged where `v` is a member, and
/// else with `v` at its end.
pub open spec fn inserted<T>(s: Seq<T>, v: T) -> Seq<T> {
    if s.contains(v) {
        s
    } else {
        s.push(v)
    }
}

/// The sequence after `v` has left: unchanged where `v` is no member, and
/// else with the last member in the place of `v` and one member fewer.
pub open spec fn removed<T>(s: Seq<T>, v: T) -> Seq<T> {
    if s.contains(v) {
        s.update(s.index_of(v), s.last()).drop_last()
    } else {
        s
    }
}

/// After `v` has joined a sequence, its members are `v` and those from
/// before, and none stands twice if none did.
pub proof fn lemma_inserted_members<T>(s: Seq<T>, v: T)
    ensures
        forall|x: T| #[trigger] inserted(s, v).contains(x) <==> (s.contains(x) || x == v),
        s.no_duplicates() ==> inserted(s, v).no_duplicates(),
        inserted(s, v).len() == if s.contains(v) {
            s.len()
        } else {
            s.len() + 1
        },
{
    let t = inserted(s, v);
    if !s.contains(v) {
        assert forall|x: T| #[trigger] t.contains(x) <==> (s.contains(x) || x == v) by {
            if s.contains(x) {
                let i = s.index_of(x);
                assert(t[i] == x);
            }
            if x == v {
                assert(t[s.len() as int] == v);
            }
        }
    }
}

/// After `v` has left a sequence in which no member stands twice, its
/// members are those from before but `v`, and still none stands twice.
pub proof fn lemma_removed_members<T>(s: Seq<T>, v: T)
    requires
        s.no_duplicates(),
    ensures
        forall|x: T| #[trigger] removed(s, v).contains(x) <==> (s.contains(x) && x != v),
        removed(s, v).no_duplicates(),
        removed(s, v).len() == if s.contains(v) {
            s.len() - 1
        } else {
            s.len() as int
        },
{
    let t = removed(s, v);
    if s.contains(v) {
        let i = s.index_of(v);
        let n = s.len() as int;
        assert forall|x: T| #[trigger] t.contains(x) <==> (s.contains(x) && x != v) by {
            if t.contains(x) {
                let j = t.index_of(x);
                if j == i {
                    assert(s[n - 1] == x);
                } else {
                    assert(s[j] == x);
                }
            }
            if s.contains(x) && x != v {
                let j = s.index_of(x);
                if j == n - 1 {
                    assert(t[i] == x);
                } else {
                    assert(t[j] == x);
                }
            }
        }
    }
}

/// A change of the set: a value joins or leaves.
pub enum Change<T> {
    Insert(T),
    Remove(T),
}

/// Whether the change is one of `v`.
pub open spec fn touches<T>(change: Change<T>, v: T) -> bool {
    match change {
        Change::Insert(w) => w == v,
        Change::Remove(w) => w == v,
    }
}

/// The sequence after one change.
pub open spec fn changed<T>(s: Seq<T>, change: Change<T>) -> Seq<T> {
    match change {
        Change::Insert(v) => inserted(s, v),
        Change::Remove(v) => removed(s, v),
    }
}

/// The sequence after the changes, made in their order.
pub open spec fn changed_by<T>(s: Seq<T>, changes: Seq<Change<T>>) -> Seq<T>
    decreases changes.len(),
{
    if changes.len() == 0 {
        s
    } else {
        changed(changed_by(s, changes.drop_last()), changes.last())
    }
}

/// Whatever joins and leaves, in whatever order, no member stands twice.
pub proof fn lemma_changes_keep_distinct<T>(s: Seq<T>, changes: Seq<Change<T>>)
    requires
        s.no_duplicates(),
    ensures
        changed_by(s, changes).no_duplicates(),
    decreases changes.len(),
{
    if changes.len() > 0 {
        let before = changed_by(s, changes.drop_last());
        lemma_changes_keep_distinct(s, changes.drop_last());
        match changes.last() {
            Change::Insert(v) => lemma_inserted_members(before, v),
            Change::Remove(v) => lemma_removed_members(before, v),
        }
    }
}

/// Changes of other values pass a member by: after them the sequence that
/// `v` had joined holds `v` and what the sequence without `v` holds.
proof fn lemma_changes_pass_by<T>(s: Seq<T>, v: T, changes: Seq<Change<T>>)
    requires
        s.no_duplicates(),
        !s.contains(v),
        forall|i: int| 0 <= i < changes.len() ==> !touches(#[trigger] changes[i], v),
    ensures
        !changed_by(s, changes).contains(v),
        forall|x: T| #[trigger]
            changed_by(inserted(s, v), changes).contains(x) <==> (changed_by(s, changes).contains(
                x,
            ) || x == v),
    decreases changes.len(),
{
    lemma_inserted_members(s, v);
    if changes.len() > 0 {
        let rest = changes.drop_last();
        assert forall|i: int| 0 <= i < rest.len() implies !touches(#[trigger] rest[i], v) by {
            assert(rest[i] == changes[i]);
        }
        lemma_changes_pass_by(s, v, rest);
        lemma_changes_keep_distinct(s, rest);
        lemma_changes_keep_distinct(inserted(s, v), rest);
        let with = changed_by(inserted(s, v), rest);
        let without = changed_by(s, rest);
        match changes.last() {
            Change::Insert(w) => {
                lemma_inserted_members(with, w);
                lemma_inserted_members(without, w);
            },
            Change::Remove(w) => {
                lemma_removed_members(with, w);
                lemma_removed_members(without, w);
            },
        }
    }
}

/// A value that joins a set without it and later leaves it leaves no trace:
/// whatever other values joined and left in between, the set is then without
/// the value and has the members, and so the length, that it would have had
/// if the value had never joined.
pub proof fn lemma_insert_then_remove<T>(s: Seq<T>, v: T, changes: Seq<Change<T>>)
    requires
        s.no_duplicates(),
        !s.contains(v),
        forall|i: int| 0 <= i < changes.len() ==> !touches(#[trigger] changes[i], v),
    ensures
        !removed(changed_by(inserted(s, v), changes), v).contains(v),
        removed(changed_by(inserted(s, v), changes), v).to_set() == changed_by(s, changes).to_set(),
        removed(changed_by(inserted(s, v), changes), v).len() == changed_by(s, changes).len(),
        changes.len() == 0 ==> removed(changed_by(inserted(s, v), changes), v).len() == s.len(),
{
    let with = changed_by(inserted(s, v), changes);
    let without = changed_by(s, changes);
    let back = removed(with, v);
    lemma_inserted_members(s, v);
    lemma_changes_pass_by(s, v, changes);
    lemma_changes_keep_distinct(s, changes);
    lemma_changes_keep_distinct(inserted(s, v), changes);
    lemma_removed_members(with, v);
    assert(back.to_set() =~= without.to_set());
    back.unique_seq_to_set();
    without.unique_seq_to_set();
}

/// A set of values of `T` that stand in a sequence, each at a position that
/// a map records.
///
/// Its view is the sequence. Positions change as members leave, so they are
/// kept to the set itself.
#[derive(Clone, Debug)]
pub struct BijectiveFiniteSequence<T: Eq + Copy + Hash> {
    values: Vec<T>,
    value_to_index: Positions<T>,
}

impl<T: Eq + Copy + Hash> View for BijectiveFiniteSequence<T> {
    type V = Seq<T>;

    /// The members, in the order in which they stand.
    closed spec fn view(&self) -> Seq<T> {
        self.values@
    }
}

impl<T: Eq + Copy + Hash> BijectiveFiniteSequence<T> {
    /// The position that the map records for each member.
    pub closed spec fn positions(&self) -> Map<T, usize> {
        self.value_to_index@
    }

    /// Members are compared and hashed as the model of a hash map asks, and
    /// the sequence and the map agree in both directions: each member's
    /// recorded position is where it stands, and each recorded position holds
    /// the member it is recorded for. So no member stands twice.
    pub open spec fn wf(&self) -> bool {
        &&& obeys_key_model::<T>()
        &&& self@.no_duplicates()
        &&& forall|i: int|
            0 <= i < self@.len() ==> self.positions().contains_key(#[trigger] self@[i])
                && self.positions()[self@[i]] == i
        &&& forall|v: T| #[trigger]
            self.positions().contains_key(v) ==> 0 <= self.positions()[v] < self@.len()
                && self@[self.positions()[v] as int] == v
    }

    /// The empty set.
    pub fn new() -> (s: Self)
        requires
            obeys_key_model::<T>(),
        ensures
            s.wf(),
            s@ == Seq::<T>::empty(),
    {
        Self { values: Vec::new(), value_to_index: HashMap::default() }
    }

    /// Whether `val` is a member.
    pub fn contains(&self, val: &T) -> (found: bool)
        requires
            self.wf(),
        ensures
            found == self@.contains(*val),
    {
        proof {
            if self.positions().contains_key(*val) {
                assert(self@[self.positions()[*val] as int] == *val);
            }
        }
        has_position(&self.value_to_index, val)
    }

    /// The number of members.
    pub fn len(&self) -> (n: usize)
        ensures
            n == self@.len(),
    {
        self.values.len()
    }

    /// Whether there is no member.
    pub fn is_empty(&self) -> (empty: bool)
        ensures
            empty == (self@.len() == 0),
    {
        self.values.len() == 0
    }

    /// Makes `val` a member. Where it is one already nothing changes;
    /// otherwise it goes to the end of the sequence.
    pub fn insert(&mut self, val: T)
        requires
            old(self).wf(),
        ensures
            final(self).wf(),
            final(self)@ == inserted(old(self)@, val),
    {
        proof {
            if self.positions().contains_key(val) {
                assert(self@[self.positions()[val] as int] == val);
            }
        }
        if !has_position(&self.value_to_index, &val) {
            let position: usize = self.values.len();
            record_position(&mut self.value_to_index, val, position);
            self.values.push(val);
        }
    }

    /// A member drawn at random, each with the same chance: none where the
    /// set is empty, and else the member at a position drawn from `rng`.
    pub fn get_random(&self, rng: &mut Rng) -> (drawn: Option<&T>)
        ensures
            self@.len() == 0 ==> drawn.is_none() && final(rng)@ == old(rng)@,
            self@.len() > 0 ==> {
                let (next, position) = draw_below(old(rng)@, draw_bound(self@.len()));
                &&& position < self@.len()
                &&& drawn == Some(&self@[position as int])
                &&& final(rng)@ == next
            },
    {
        if self.is_empty() {
            None
        } else {
            let bound: u32 = low_u32(self.values.len());
            proof {
                lemma_draw_below_in_range(rng@, bound);
            }
            let position: u32 = rng.next_u32_n(bound);
            Some(&self.values[position as usize])
        }
    }

    /// Takes `value` out of the set and returns it; returns nothing where it
    /// is no member. The last member of the sequence takes its place.
    pub fn remove(&mut self, value: &T) -> (taken: Option<T>)
        requires
            old(self).wf(),
        ensures
            final(self).wf(),
            final(self)@ == removed(old(self)@, *value),
            taken == if old(self)@.contains(*value) {
                Some(*value)
            } else {
                None
            },
    {
        proof {
            if self.positions().contains_key(*value) {
                assert(self@[self.positions()[*value] as int] == *value);
            }
        }
        match forget_position(&mut self.value_to_index, value) {
            None => None,
            Some(index) => {
                assert(old(self)@[index as int] == *value);
                assert(old(self)@.index_of(*value) == index);
                let last_value = self.values.pop().unwrap();
                if index != self.values.len() {
                    self.values.set(index, last_value);
                    record_position(&mut self.value_to_index, last_value, index);
                }
                assert(self@ =~= removed(old(self)@, *value));
                Some(*value)
            },
        }
    }

    /// Whether the sequence and the map agree: the run-time test of
    /// [`Self::wf`].
    pub fn validate(&self) -> (ok: bool)
        requires
            obeys_key_model::<T>(),
        ensures
            ok == self.wf(),
    {
        let recorded: usize = count_positions(&self.value_to_index);
        let ghost keys: Seq<T> = choose|keys: Seq<T>|
            counts_keys(keys, self.positions(), recorded);
        proof {
            keys.unique_seq_to_set();
            if self.wf() {
                assert(self@.to_set() =~= self.positions().dom());
                self@.unique_seq_to_set();
            }
        }
        if recorded != self.values.len() {
            return false;
        }
        let mut i: usize = 0;
        while i < self.values.len()
            invariant
                obeys_key_model::<T>(),
                i <= self@.len(),
                forall|j: int|
                    0 <= j < i ==> self.positions().contains_key(#[trigger] self@[j])
                        && self.positions()[self@[j]] == j,
            decreases self@.len() - i,
        {
            match position_of(&self.value_to_index, &self.values[i]) {
                None => {
                    return false;
                },
                Some(position) => {
                    if *position != i {
                        return false;
                    }
                },
            }
            i = i + 1;
        }
        proof {
            assert(self@.no_duplicates());
            self@.unique_seq_to_set();
            assert(self@.to_set().subset_of(self.positions().dom()));
            vstd::set_lib::lemma_subset_equality(self@.to_set(), self.positions().dom());
            assert forall|v: T| #[trigger] self.positions().contains_key(v) implies 0
                <= self.positions()[v] < self@.len() && self@[self.positions()[v] as int]
                == v by {
                assert(self@.to_set().contains(v));
                let j = choose|j: int| 0 <= j < self@.len() && self@[j] == v;
                assert(self.positions()[self@[j]] == j);
            }
        }
        true
    }

    /// The members as a slice, in the order in which they stand.
    pub fn as_slice(&self) -> (members: &[T])
        ensures
            members@ == self@,
    {
        self.values.as_slice()
    }
}

} // verus!
