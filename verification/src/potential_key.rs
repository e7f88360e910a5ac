//! The per-position candidate lists of a key that is being recovered.

use vstd::prelude::*;

verus! {

/// What is known of one key position.
#[verifier::ext_equal]
pub struct KeySlot {
    /// The byte values still considered possible, in the order they are shown.
    pub candidates: Seq<u8>,
    /// The index in `candidates` of the value that the current key uses.
    pub selected: nat,
    /// Whether the position was committed, by a placed word or by the user.
    pub certain: bool,
}

/// The slot of a position that was committed to one value.
pub open spec fn committed(value: u8) -> KeySlot {
    KeySlot { candidates: seq![value], selected: 0, certain: true }
}

/// The slot of a position that was narrowed to the given candidates and not
/// yet touched by anyone.
pub open spec fn untouched(candidates: Seq<u8>) -> KeySlot {
    KeySlot { candidates, selected: 0, certain: false }
}

/// The byte that a slot contributes to the current key: the selected
/// candidate, or zero where no candidate is left.
pub open spec fn slot_value(slot: KeySlot) -> u8 {
    if slot.selected < slot.candidates.len() {
        slot.candidates[slot.selected as int]
    } else {
        0
    }
}

/// The concrete key that the slots stand for at the moment.
pub open spec fn current_key(slots: Seq<KeySlot>) -> Seq<u8> {
    Seq::new(slots.len(), |p: int| slot_value(slots[p]))
}

/// The selection points into the candidates (or at zero where none is left),
/// and a certain position has exactly one candidate.
pub open spec fn slot_wf(slot: KeySlot) -> bool {
    &&& slot.selected < slot.candidates.len() || (slot.candidates.len() == 0 && slot.selected == 0)
    &&& slot.certain ==> slot.candidates.len() == 1
}

/// Every slot is well formed.
pub open spec fn slots_wf(slots: Seq<KeySlot>) -> bool {
    forall|p: int| 0 <= p < slots.len() ==> slot_wf(#[trigger] slots[p])
}

/// The index at which a value first occurs in a list that holds it.
pub open spec fn first_index_of(list: Seq<u8>, value: u8) -> nat {
    choose|i: nat| is_first_index_of(list, value, i)
}

/// Whether `index` is where `value` first occurs in `list`.
pub open spec fn is_first_index_of(list: Seq<u8>, value: u8, index: nat) -> bool {
    &&& index < list.len()
    &&& list[index as int] == value
    &&& forall|j: int| 0 <= j < index ==> list[j] != value
}

/// A value has at most one first index.
pub proof fn lemma_first_index_unique(list: Seq<u8>, value: u8, index: nat)
    requires
        is_first_index_of(list, value, index),
    ensures
        first_index_of(list, value) == index,
{
    let chosen = first_index_of(list, value);
    assert(is_first_index_of(list, value, chosen));
    if chosen < index {
        assert(list[chosen as int] != value);
    } else if index < chosen {
        assert(list[index as int] != value);
    }
}

/// Potential key for the cipher.
pub struct PotentialKey {
    key: Vec<Vec<u8>>,
    positions: Vec<usize>,
    uncertain: Vec<bool>,
}

impl View for PotentialKey {
    type V = Seq<KeySlot>;

    /// One slot per key position.
    closed spec fn view(&self) -> Seq<KeySlot> {
        Seq::new(
            self.key@.len(),
            |p: int|
                KeySlot {
                    candidates: self.key@[p]@,
                    selected: self.positions@[p] as nat,
                    certain: !self.uncertain@[p],
                },
        )
    }
}

impl PotentialKey {
    /// The invariant of the type: the three columns have one entry per
    /// position, and every slot is well formed.
    pub closed spec fn wf(&self) -> bool {
        &&& self.positions@.len() == self.key@.len()
        &&& self.uncertain@.len() == self.key@.len()
        &&& slots_wf(self@)
    }

    /// Well-formedness of the key is that of its slots.
    pub proof fn lemma_wf_slots(&self)
        requires
            self.wf(),
        ensures
            slots_wf(self@),
    {
    }

    /// Create a new key: every position starts with its first candidate
    /// selected and uncommitted.
    pub fn new(key: Vec<Vec<u8>>) -> (potential: Self)
        ensures
            potential.wf(),
            potential@.len() == key@.len(),
            forall|p: int| 0 <= p < key@.len() ==> #[trigger] potential@[p] == untouched(key@[p]@),
    {
        let mut positions: Vec<usize> = Vec::with_capacity(key.len());
        let mut uncertain: Vec<bool> = Vec::with_capacity(key.len());
        let mut index: usize = 0;
        while index < key.len()
            invariant
                index <= key@.len(),
                positions@.len() == index,
                uncertain@.len() == index,
                forall|p: int| 0 <= p < index ==> positions@[p] == 0 && uncertain@[p],
            decreases key@.len() - index,
        {
            positions.push(0);
            uncertain.push(true);
            index += 1;
        }
        Self { positions, uncertain, key }
    }

    /// Get the key: one concrete byte per position.
    pub fn get_current_key(&self) -> (key: Vec<u8>)
        requires
            self.wf(),
        ensures
            key@ == current_key(self@),
    {
        let mut key: Vec<u8> = Vec::with_capacity(self.key.len());
        let mut index: usize = 0;
        while index < self.key.len()
            invariant
                self.wf(),
                index <= self.key@.len(),
                key@.len() == index,
                forall|p: int| 0 <= p < index ==> key@[p] == slot_value(#[trigger] self@[p]),
            decreases self.key@.len() - index,
        {
            let position = self.positions[index];
            let byte = if position < self.key[index].len() {
                self.key[index][position]
            } else {
                0
            };
            key.push(byte);
            index += 1;
        }
        assert(key@ =~= current_key(self@));
        key
    }

    /// Is this key position only one possible option.
    pub fn is_decoded(&self, index: usize) -> (decoded: bool)
        requires
            self.wf(),
            index < self@.len(),
        ensures
            decoded == (self@[index as int].candidates.len() == 1),
    {
        self.key[index].len() == 1
    }

    /// Is value uncertain: has the position never been committed.
    pub fn is_uncertain(&self, index: usize) -> (uncertain: bool)
        requires
            self.wf(),
            index < self@.len(),
        ensures
            uncertain == !self@[index as int].certain,
    {
        self.uncertain[index]
    }

    /// Set value for this key position: select one of its candidates without
    /// committing to it.
    pub fn set_value(&mut self, index: usize, value: u8)
        requires
            old(self).wf(),
            index < old(self)@.len(),
            old(self)@[index as int].candidates.contains(value),
        ensures
            final(self).wf(),
            final(self)@ == old(self)@.update(
                index as int,
                (KeySlot {
                    selected: first_index_of(old(self)@[index as int].candidates, value),
                    ..old(self)@[index as int]
                }),
            ),
    {
        let ghost list = self.key@[index as int]@;
        let length = self.key[index].len();
        let mut position: usize = 0;
        while self.key[index][position] != value
            invariant
                self == old(self),
                index < self.key@.len(),
                list == self.key@[index as int]@,
                list.len() == length,
                list.contains(value),
                position < list.len(),
                forall|j: int| 0 <= j < position ==> list[j] != value,
            decreases list.len() - position,
        {
            proof {
                let witness = choose|i: int| 0 <= i < list.len() && list[i] == value;
                assert(witness > position);
            }
            position += 1;
        }
        proof {
            lemma_first_index_unique(list, value, position as nat);
        }
        self.positions[index] = position;
        assert(self@ =~= old(self)@.update(
            index as int,
            (KeySlot {
                selected: first_index_of(old(self)@[index as int].candidates, value),
                ..old(self)@[index as int]
            }),
        ));
    }

    /// Is value possible for this key position.
    pub fn is_possible(&self, index: usize, value: u8) -> (possible: bool)
        requires
            self.wf(),
            index < self@.len(),
        ensures
            possible == self@[index as int].candidates.contains(value),
    {
        let list = &self.key[index];
        let mut position: usize = 0;
        while position < list.len()
            invariant
                index < self@.len(),
                list@ == self@[index as int].candidates,
                position <= list@.len(),
                forall|j: int| 0 <= j < position ==> list@[j] != value,
            decreases list@.len() - position,
        {
            if list[position] == value {
                return true;
            }
            position += 1;
        }
        false
    }

    /// Is value not possible to decode: no candidate is left.
    pub fn is_error(&self, index: usize) -> (error: bool)
        requires
            self.wf(),
            index < self@.len(),
        ensures
            error == (self@[index as int].candidates.len() == 0),
    {
        self.key[index].len() == 0
    }

    /// Get all possible values for this key position.
    pub fn get_possibilities(&self, index: usize) -> (possibilities: &Vec<u8>)
        requires
            self.wf(),
            index < self@.len(),
        ensures
            possibilities@ == self@[index as int].candidates,
    {
        &self.key[index]
    }

    /// Sets value for key index: commits the position to its selected
    /// candidate, which becomes the only one.
    pub fn accept_value(&mut self, index: usize)
        requires
            old(self).wf(),
            index < old(self)@.len(),
            old(self)@[index as int].candidates.len() > 0,
        ensures
            final(self).wf(),
            final(self)@ == old(self)@.update(
                index as int,
                committed(slot_value(old(self)@[index as int])),
            ),
    {
        let value = self.key[index][self.positions[index]];
        self.commit_value(index, value);
    }

    /// Commits the position to the given value, whether it was a candidate
    /// or not: it becomes the only candidate, selected and certain.
    pub fn commit_value(&mut self, index: usize, value: u8)
        requires
            old(self).wf(),
            index < old(self)@.len(),
        ensures
            final(self).wf(),
            final(self)@ == old(self)@.update(index as int, committed(value)),
    {
        let mut single: Vec<u8> = Vec::with_capacity(1);
        single.push(value);
        assert(single@ =~= seq![value]);
        self.key[index] = single;
        self.positions[index] = 0;
        self.uncertain[index] = false;
        assert(self@ =~= old(self)@.update(index as int, committed(value)));
    }

    /// The number of key positions.
    pub fn len(&self) -> (len: usize)
        requires
            self.wf(),
        ensures
            len == self@.len(),
    {
        self.key.len()
    }
}

} // verus!
