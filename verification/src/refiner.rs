//! Crib dragging: likely words are slid across the ciphertext, and where a
//! word is consistent with the candidates of every key position it touches,
//! those positions are committed to the key bytes that the word implies.

use crate::cipher::xor_with_key;
use crate::key_length::KeyLength;
use crate::potential_key::{committed, current_key, slot_value, KeySlot, PotentialKey};
use crate::words::word_views;
use vstd::prelude::*;

verus! {

/// The key byte under which byte `j` of the word, laid at `offset`, is what
/// the ciphertext decrypts to.
pub open spec fn placement_byte(contents: Seq<u8>, word: Seq<u8>, offset: int, j: int) -> u8 {
    contents[offset + j] ^ word[j]
}

/// The key position that encrypts the ciphertext byte at `offset + j`.
pub open spec fn placement_position(key_length: int, offset: int, j: int) -> int {
    (offset + j) % key_length
}

/// Whether the word laid at `offset` is consistent with the slots: every
/// key byte it implies is a candidate of its position.
pub open spec fn placement_fits(
    slots: Seq<KeySlot>,
    contents: Seq<u8>,
    key_length: int,
    word: Seq<u8>,
    offset: int,
) -> bool {
    forall|j: int|
        #![trigger placement_byte(contents, word, offset, j)]
        0 <= j < word.len() ==> slots[placement_position(
            key_length,
            offset,
            j,
        )].candidates.contains(placement_byte(contents, word, offset, j))
}

/// The slots after the first `count` bytes of the word laid at `offset` were
/// committed, one after the other.
pub open spec fn commit_placement(
    slots: Seq<KeySlot>,
    contents: Seq<u8>,
    key_length: int,
    word: Seq<u8>,
    offset: int,
    count: nat,
) -> Seq<KeySlot>
    decreases count,
{
    if count == 0 {
        slots
    } else {
        commit_placement(slots, contents, key_length, word, offset, (count - 1) as nat).update(
            placement_position(key_length, offset, count - 1),
            committed(placement_byte(contents, word, offset, count - 1)),
        )
    }
}

/// The slots after the word was tried at `offset`: committed in full where
/// it fits, left as they are where it does not.
pub open spec fn try_placement(
    slots: Seq<KeySlot>,
    contents: Seq<u8>,
    key_length: int,
    word: Seq<u8>,
    offset: int,
) -> Seq<KeySlot> {
    if placement_fits(slots, contents, key_length, word, offset) {
        commit_placement(slots, contents, key_length, word, offset, word.len())
    } else {
        slots
    }
}

/// The slots after the word was tried at the offsets below `offsets`, in
/// increasing order.
pub open spec fn drag_word(
    slots: Seq<KeySlot>,
    contents: Seq<u8>,
    key_length: int,
    word: Seq<u8>,
    offsets: nat,
) -> Seq<KeySlot>
    decreases offsets,
{
    if offsets == 0 {
        slots
    } else {
        try_placement(
            drag_word(slots, contents, key_length, word, (offsets - 1) as nat),
            contents,
            key_length,
            word,
            offsets - 1,
        )
    }
}

/// The number of offsets at which a word is tried: the length of the
/// ciphertext less that of the word, and none where the word is not shorter.
pub open spec fn offset_count(contents: Seq<u8>, word: Seq<u8>) -> nat {
    if word.len() < contents.len() {
        (contents.len() - word.len()) as nat
    } else {
        0
    }
}

/// The slots after the first `count` words of the list were dragged across
/// the ciphertext, in the order of the list.
pub open spec fn refined(
    slots: Seq<KeySlot>,
    contents: Seq<u8>,
    key_length: int,
    words: Seq<Seq<u8>>,
    count: nat,
) -> Seq<KeySlot>
    decreases count,
{
    if count == 0 {
        slots
    } else {
        let word = words[count - 1];
        drag_word(
            refined(slots, contents, key_length, words, (count - 1) as nat),
            contents,
            key_length,
            word,
            offset_count(contents, word),
        )
    }
}

/// A slot either stayed as it was or was committed to one of its former
/// candidates.
pub open spec fn slot_settled(before: KeySlot, after: KeySlot) -> bool {
    ||| after == before
    ||| after == committed(slot_value(after)) && before.candidates.contains(slot_value(after))
}

/// Every slot either stayed as it was or was committed to one of its former
/// candidates.
pub open spec fn settled(before: Seq<KeySlot>, after: Seq<KeySlot>) -> bool {
    &&& after.len() == before.len()
    &&& forall|p: int| 0 <= p < before.len() ==> slot_settled(before[p], #[trigger] after[p])
}

/// No position has gained a candidate, and no list of candidates has grown.
pub open spec fn narrowed_from(before: Seq<KeySlot>, after: Seq<KeySlot>) -> bool {
    &&& after.len() == before.len()
    &&& forall|p: int|
        0 <= p < before.len() ==> (#[trigger] after[p]).candidates.len()
            <= before[p].candidates.len()
    &&& forall|p: int, byte: u8|
        0 <= p < before.len() && #[trigger] after[p].candidates.contains(byte)
            ==> before[p].candidates.contains(byte)
}

/// The last byte below `count` of a word laid at `offset` that falls on key
/// position `p`, or -1 where none does.
pub open spec fn last_touch(key_length: int, offset: int, count: nat, p: int) -> int
    decreases count,
{
    if count == 0 {
        -1
    } else if placement_position(key_length, offset, count - 1) == p {
        count - 1
    } else {
        last_touch(key_length, offset, (count - 1) as nat, p)
    }
}

/// Whether the key bytes that a placement implies agree wherever two of them
/// fall on the same key position. A word no longer than the key is always
/// coherent.
pub open spec fn placement_coherent(
    contents: Seq<u8>,
    key_length: int,
    word: Seq<u8>,
    offset: int,
) -> bool {
    forall|i: int, j: int|
        #![trigger placement_byte(contents, word, offset, i), placement_byte(contents, word, offset, j)]
        0 <= i < word.len() && 0 <= j < word.len() && placement_position(key_length, offset, i)
            == placement_position(key_length, offset, j) ==> placement_byte(
            contents,
            word,
            offset,
            i,
        ) == placement_byte(contents, word, offset, j)
}

/// The slots in which word `word` of the list is tried at `offset`: those
/// that the words before it and its own earlier offsets have left.
pub open spec fn slots_before(
    slots: Seq<KeySlot>,
    contents: Seq<u8>,
    key_length: int,
    words: Seq<Seq<u8>>,
    word: int,
    offset: int,
) -> Seq<KeySlot> {
    drag_word(
        refined(slots, contents, key_length, words, word as nat),
        contents,
        key_length,
        words[word],
        offset as nat,
    )
}

/// A key position lies within the key.
proof fn lemma_position_in_key(key_length: int, offset: int, j: int)
    requires
        key_length > 0,
        0 <= offset,
        0 <= j,
    ensures
        0 <= placement_position(key_length, offset, j) < key_length,
{
}

/// `last_touch` names a byte that falls on the position, and no later byte
/// does.
proof fn lemma_last_touch(key_length: int, offset: int, count: nat, p: int)
    ensures
        -1 <= last_touch(key_length, offset, count, p) < count,
        last_touch(key_length, offset, count, p) >= 0 ==> placement_position(
            key_length,
            offset,
            last_touch(key_length, offset, count, p),
        ) == p,
        forall|j: int|
            0 <= j < count && placement_position(key_length, offset, j) == p ==> j <= last_touch(
                key_length,
                offset,
                count,
                p,
            ),
    decreases count,
{
    if count > 0 {
        lemma_last_touch(key_length, offset, (count - 1) as nat, p);
    }
}

/// What committing the first `count` bytes of a placement leaves at a
/// position: the slot committed to the last byte that falls on it, or the
/// slot as it was where none does.
proof fn lemma_commit_placement(
    slots: Seq<KeySlot>,
    contents: Seq<u8>,
    key_length: int,
    word: Seq<u8>,
    offset: int,
    count: nat,
    p: int,
)
    requires
        key_length > 0,
        slots.len() == key_length,
        0 <= offset,
        0 <= p < key_length,
    ensures
        commit_placement(slots, contents, key_length, word, offset, count).len() == slots.len(),
        commit_placement(slots, contents, key_length, word, offset, count)[p] == if last_touch(
            key_length,
            offset,
            count,
            p,
        ) >= 0 {
            committed(
                placement_byte(contents, word, offset, last_touch(key_length, offset, count, p)),
            )
        } else {
            slots[p]
        },
    decreases count,
{
    if count > 0 {
        lemma_commit_placement(slots, contents, key_length, word, offset, (count - 1) as nat, p);
        lemma_position_in_key(key_length, offset, count - 1);
    }
}

/// The only member of a one-element list is its element.
proof fn lemma_single_candidate(value: u8, byte: u8)
    ensures
        committed(value).candidates.contains(byte) <==> byte == value,
        slot_value(committed(value)) == value,
{
    let list = seq![value];
    assert(list[0] == value);
    if byte == value {
        assert(list.contains(byte));
    }
}

/// Every slot counts as settled from itself.
pub proof fn lemma_settled_reflexive(slots: Seq<KeySlot>)
    ensures
        settled(slots, slots),
{
}

/// Settling in two steps is settling.
pub proof fn lemma_settled_transitive(
    first: Seq<KeySlot>,
    second: Seq<KeySlot>,
    third: Seq<KeySlot>,
)
    requires
        settled(first, second),
        settled(second, third),
    ensures
        settled(first, third),
{
    assert forall|p: int| 0 <= p < first.len() implies slot_settled(
        first[p],
        #[trigger] third[p],
    ) by {
        assert(slot_settled(first[p], second[p]));
        assert(slot_settled(second[p], third[p]));
        if third[p] != second[p] && second[p] != first[p] {
            lemma_single_candidate(slot_value(second[p]), slot_value(third[p]));
        }
    }
}

/// Settled slots hold no candidate that was not there before, and no longer
/// list of them.
pub proof fn lemma_settled_narrows(before: Seq<KeySlot>, after: Seq<KeySlot>)
    requires
        settled(before, after),
    ensures
        narrowed_from(before, after),
{
    assert forall|p: int| 0 <= p < before.len() implies (#[trigger] after[p]).candidates.len()
        <= before[p].candidates.len() by {
        assert(slot_settled(before[p], after[p]));
    }
    assert forall|p: int, byte: u8|
        0 <= p < before.len() && #[trigger] after[p].candidates.contains(
            byte,
        ) implies before[p].candidates.contains(byte) by {
        assert(slot_settled(before[p], after[p]));
        if after[p] != before[p] {
            lemma_single_candidate(slot_value(after[p]), byte);
        }
    }
}

/// Trying a word at one offset settles the slots.
pub proof fn lemma_try_placement_settles(
    slots: Seq<KeySlot>,
    contents: Seq<u8>,
    key_length: int,
    word: Seq<u8>,
    offset: int,
)
    requires
        key_length > 0,
        slots.len() == key_length,
        0 <= offset,
    ensures
        settled(slots, try_placement(slots, contents, key_length, word, offset)),
{
    let after = try_placement(slots, contents, key_length, word, offset);
    if placement_fits(slots, contents, key_length, word, offset) {
        assert forall|p: int| 0 <= p < slots.len() implies slot_settled(
            slots[p],
            #[trigger] after[p],
        ) by {
            lemma_commit_placement(slots, contents, key_length, word, offset, word.len(), p);
            lemma_last_touch(key_length, offset, word.len(), p);
            let j = last_touch(key_length, offset, word.len(), p);
            if j >= 0 {
                let byte = placement_byte(contents, word, offset, j);
                lemma_single_candidate(byte, byte);
                assert(slots[placement_position(key_length, offset, j)].candidates.contains(byte));
            }
        }
        lemma_commit_placement(slots, contents, key_length, word, offset, word.len(), 0);
    }
}

/// Dragging a word further settles the slots that the earlier offsets left.
pub proof fn lemma_drag_word_settles(
    slots: Seq<KeySlot>,
    contents: Seq<u8>,
    key_length: int,
    word: Seq<u8>,
    earlier: nat,
    later: nat,
)
    requires
        key_length > 0,
        slots.len() == key_length,
        earlier <= later,
    ensures
        settled(
            drag_word(slots, contents, key_length, word, earlier),
            drag_word(slots, contents, key_length, word, later),
        ),
    decreases later,
{
    if earlier < later {
        let before = drag_word(slots, contents, key_length, word, earlier);
        let middle = drag_word(slots, contents, key_length, word, (later - 1) as nat);
        let after = drag_word(slots, contents, key_length, word, later);
        lemma_drag_word_settles(slots, contents, key_length, word, earlier, (later - 1) as nat);
        lemma_drag_word_settles(slots, contents, key_length, word, 0, (later - 1) as nat);
        lemma_try_placement_settles(middle, contents, key_length, word, later - 1);
        lemma_settled_transitive(before, middle, after);
    }
}

/// Dragging further words settles the slots that the earlier words left.
pub proof fn lemma_refined_settles(
    slots: Seq<KeySlot>,
    contents: Seq<u8>,
    key_length: int,
    words: Seq<Seq<u8>>,
    earlier: nat,
    later: nat,
)
    requires
        key_length > 0,
        slots.len() == key_length,
        earlier <= later,
    ensures
        settled(
            refined(slots, contents, key_length, words, earlier),
            refined(slots, contents, key_length, words, later),
        ),
    decreases later,
{
    if earlier < later {
        let before = refined(slots, contents, key_length, words, earlier);
        let middle = refined(slots, contents, key_length, words, (later - 1) as nat);
        let after = refined(slots, contents, key_length, words, later);
        let word = words[later - 1];
        lemma_refined_settles(slots, contents, key_length, words, earlier, (later - 1) as nat);
        lemma_refined_settles(slots, contents, key_length, words, 0, (later - 1) as nat);
        lemma_drag_word_settles(middle, contents, key_length, word, 0, offset_count(contents, word));
        lemma_settled_transitive(before, middle, after);
    }
}

/// Refining never enlarges the candidates of a position: no value is added
/// and no list grows, whatever the ciphertext, the key length and the words.
pub proof fn lemma_refine_narrows(
    slots: Seq<KeySlot>,
    contents: Seq<u8>,
    key_length: int,
    words: Seq<Seq<u8>>,
)
    requires
        key_length > 0,
        slots.len() == key_length,
    ensures
        narrowed_from(slots, refined(slots, contents, key_length, words, words.len())),
{
    lemma_refined_settles(slots, contents, key_length, words, 0, words.len());
    lemma_settled_narrows(slots, refined(slots, contents, key_length, words, words.len()));
}

/// Where a placement fits slots that were settled from those it was
/// committed to, the settled slots already hold its commitment: at every
/// position it touches stands the one value that it implies there.
proof fn lemma_fitting_placement_is_committed(
    committed_to: Seq<KeySlot>,
    settled_slots: Seq<KeySlot>,
    contents: Seq<u8>,
    key_length: int,
    word: Seq<u8>,
    offset: int,
    j: int,
)
    requires
        key_length > 0,
        committed_to.len() == key_length,
        0 <= offset,
        0 <= j < word.len(),
        settled(
            commit_placement(committed_to, contents, key_length, word, offset, word.len()),
            settled_slots,
        ),
        settled_slots[placement_position(key_length, offset, j)].candidates.contains(
            placement_byte(contents, word, offset, j),
        ),
    ensures
        settled_slots[placement_position(key_length, offset, j)] == committed(
            placement_byte(contents, word, offset, j),
        ),
{
    let p = placement_position(key_length, offset, j);
    let placed = commit_placement(committed_to, contents, key_length, word, offset, word.len());
    lemma_position_in_key(key_length, offset, j);
    lemma_commit_placement(committed_to, contents, key_length, word, offset, word.len(), p);
    lemma_last_touch(key_length, offset, word.len(), p);
    let last = last_touch(key_length, offset, word.len(), p);
    assert(last >= j);
    let value = placement_byte(contents, word, offset, last);
    assert(placed[p] == committed(value));
    assert(slot_settled(placed[p], settled_slots[p]));
    lemma_single_candidate(value, slot_value(settled_slots[p]));
    assert(settled_slots[p] == committed(value));
    lemma_single_candidate(value, placement_byte(contents, word, offset, j));
}

/// Committing a placement to slots that already hold its commitment changes
/// nothing.
proof fn lemma_commit_again(
    slots: Seq<KeySlot>,
    contents: Seq<u8>,
    key_length: int,
    word: Seq<u8>,
    offset: int,
    count: nat,
)
    requires
        key_length > 0,
        slots.len() == key_length,
        0 <= offset,
        count <= word.len(),
        forall|j: int|
            #![trigger placement_byte(contents, word, offset, j)]
            0 <= j < word.len() ==> slots[placement_position(key_length, offset, j)] == committed(
                placement_byte(contents, word, offset, j),
            ),
    ensures
        commit_placement(slots, contents, key_length, word, offset, count) == slots,
    decreases count,
{
    if count > 0 {
        lemma_commit_again(slots, contents, key_length, word, offset, (count - 1) as nat);
        lemma_position_in_key(key_length, offset, count - 1);
        let position = placement_position(key_length, offset, count - 1);
        let byte = placement_byte(contents, word, offset, count - 1);
        assert(slots[position] == committed(byte));
        assert(slots.update(position, committed(byte)) =~= slots);
    }
}

/// Slots that were settled from what a word left at its first `offsets`
/// offsets are not changed when the word is dragged across them again.
proof fn lemma_drag_word_fixed(
    slots: Seq<KeySlot>,
    settled_slots: Seq<KeySlot>,
    contents: Seq<u8>,
    key_length: int,
    word: Seq<u8>,
    offsets: nat,
)
    requires
        key_length > 0,
        slots.len() == key_length,
        settled(drag_word(slots, contents, key_length, word, offsets), settled_slots),
    ensures
        drag_word(settled_slots, contents, key_length, word, offsets) == settled_slots,
    decreases offsets,
{
    if offsets > 0 {
        let offset = offsets - 1;
        let before = drag_word(slots, contents, key_length, word, (offsets - 1) as nat);
        let after = drag_word(slots, contents, key_length, word, offsets);
        lemma_drag_word_settles(slots, contents, key_length, word, 0, (offsets - 1) as nat);
        lemma_try_placement_settles(before, contents, key_length, word, offset);
        lemma_settled_transitive(before, after, settled_slots);
        lemma_drag_word_fixed(
            slots,
            settled_slots,
            contents,
            key_length,
            word,
            (offsets - 1) as nat,
        );
        if placement_fits(settled_slots, contents, key_length, word, offset) {
            lemma_settled_narrows(before, settled_slots);
            assert forall|j: int|
                #![trigger placement_byte(contents, word, offset, j)]
                0 <= j < word.len() implies before[placement_position(
                key_length,
                offset,
                j,
            )].candidates.contains(placement_byte(contents, word, offset, j)) by {
                lemma_position_in_key(key_length, offset, j);
                let p = placement_position(key_length, offset, j);
                assert(settled_slots[p].candidates.contains(
                    placement_byte(contents, word, offset, j),
                ));
            }
            assert(placement_fits(before, contents, key_length, word, offset));
            assert forall|j: int|
                #![trigger placement_byte(contents, word, offset, j)]
                0 <= j < word.len() implies settled_slots[placement_position(
                key_length,
                offset,
                j,
            )] == committed(placement_byte(contents, word, offset, j)) by {
                lemma_fitting_placement_is_committed(
                    before,
                    settled_slots,
                    contents,
                    key_length,
                    word,
                    offset,
                    j,
                );
            }
            lemma_commit_again(settled_slots, contents, key_length, word, offset, word.len());
        }
    }
}

/// Slots that were settled from what the first `count` words left are not
/// changed when those words are dragged across them again.
proof fn lemma_refined_fixed(
    slots: Seq<KeySlot>,
    settled_slots: Seq<KeySlot>,
    contents: Seq<u8>,
    key_length: int,
    words: Seq<Seq<u8>>,
    count: nat,
)
    requires
        key_length > 0,
        slots.len() == key_length,
        settled(refined(slots, contents, key_length, words, count), settled_slots),
    ensures
        refined(settled_slots, contents, key_length, words, count) == settled_slots,
    decreases count,
{
    if count > 0 {
        let word = words[count - 1];
        let before = refined(slots, contents, key_length, words, (count - 1) as nat);
        let after = refined(slots, contents, key_length, words, count);
        lemma_refined_settles(slots, contents, key_length, words, 0, (count - 1) as nat);
        lemma_refined_settles(slots, contents, key_length, words, (count - 1) as nat, count);
        lemma_settled_transitive(before, after, settled_slots);
        lemma_refined_fixed(
            slots,
            settled_slots,
            contents,
            key_length,
            words,
            (count - 1) as nat,
        );
        lemma_drag_word_fixed(
            before,
            settled_slots,
            contents,
            key_length,
            word,
            offset_count(contents, word),
        );
    }
}

/// Refining twice with the same words gives what refining once gives.
pub proof fn lemma_refine_idempotent(
    slots: Seq<KeySlot>,
    contents: Seq<u8>,
    key_length: int,
    words: Seq<Seq<u8>>,
)
    requires
        key_length > 0,
        slots.len() == key_length,
    ensures
        refined(
            refined(slots, contents, key_length, words, words.len()),
            contents,
            key_length,
            words,
            words.len(),
        ) == refined(slots, contents, key_length, words, words.len()),
{
    let once = refined(slots, contents, key_length, words, words.len());
    lemma_settled_reflexive(once);
    lemma_refined_fixed(slots, once, contents, key_length, words, words.len());
}

/// A word that was placed is what the refined key decrypts the ciphertext to
/// at the offset of the placement, and the positions under it are certain.
///
/// The placement has to be coherent: a word longer than the key that asks
/// two different values of one key position is placed all the same, and the
/// position keeps the later value.
pub proof fn lemma_placed_word_decrypts(
    slots: Seq<KeySlot>,
    contents: Seq<u8>,
    key_length: int,
    words: Seq<Seq<u8>>,
    word: int,
    offset: int,
    j: int,
)
    requires
        key_length > 0,
        slots.len() == key_length,
        0 <= word < words.len(),
        0 <= offset < offset_count(contents, words[word]),
        placement_fits(
            slots_before(slots, contents, key_length, words, word, offset),
            contents,
            key_length,
            words[word],
            offset,
        ),
        placement_coherent(contents, key_length, words[word], offset),
        0 <= j < words[word].len(),
    ensures
        refined(slots, contents, key_length, words, words.len())[placement_position(
            key_length,
            offset,
            j,
        )].certain,
        xor_with_key(
            current_key(refined(slots, contents, key_length, words, words.len())),
            contents,
        )[offset + j] == words[word][j],
{
    let the_word = words[word];
    let last = refined(slots, contents, key_length, words, words.len());
    let start = refined(slots, contents, key_length, words, word as nat);
    let before = slots_before(slots, contents, key_length, words, word, offset);
    let placed = drag_word(start, contents, key_length, the_word, (offset + 1) as nat);
    let dragged = refined(slots, contents, key_length, words, (word + 1) as nat);
    lemma_refined_settles(slots, contents, key_length, words, 0, word as nat);
    lemma_drag_word_settles(start, contents, key_length, the_word, 0, offset as nat);
    lemma_drag_word_settles(
        start,
        contents,
        key_length,
        the_word,
        (offset + 1) as nat,
        offset_count(contents, the_word),
    );
    lemma_refined_settles(slots, contents, key_length, words, (word + 1) as nat, words.len());
    lemma_settled_transitive(placed, dragged, last);
    let p = placement_position(key_length, offset, j);
    lemma_position_in_key(key_length, offset, j);
    lemma_commit_placement(before, contents, key_length, the_word, offset, the_word.len(), p);
    lemma_last_touch(key_length, offset, the_word.len(), p);
    let touch = last_touch(key_length, offset, the_word.len(), p);
    assert(touch >= j);
    let value = placement_byte(contents, the_word, offset, touch);
    let byte = placement_byte(contents, the_word, offset, j);
    assert(value == byte);
    assert(placed[p] == committed(byte));
    assert(slot_settled(placed[p], last[p]));
    lemma_single_candidate(byte, slot_value(last[p]));
    assert(last[p] == committed(byte));
    lemma_single_candidate(byte, byte);
    assert(current_key(last)[p] == byte);
    assert(contents[offset + j] ^ byte == the_word[j]) by {
        let c = contents[offset + j];
        let w = the_word[j];
        assert(c ^ (c ^ w) == w) by (bit_vector);
    }
}

/// A word no longer than the key never falls twice on one key position, so
/// each of its placements is coherent.
pub proof fn lemma_short_word_coherent(
    contents: Seq<u8>,
    key_length: int,
    word: Seq<u8>,
    offset: int,
)
    requires
        key_length > 0,
        0 <= offset,
        word.len() <= key_length,
    ensures
        placement_coherent(contents, key_length, word, offset),
{
    assert forall|i: int, j: int|
        #![trigger placement_byte(contents, word, offset, i), placement_byte(contents, word, offset, j)]
        0 <= i < word.len() && 0 <= j < word.len() && placement_position(key_length, offset, i)
            == placement_position(key_length, offset, j) implies placement_byte(
        contents,
        word,
        offset,
        i,
    ) == placement_byte(contents, word, offset, j) by {
        assert(i == j) by (nonlinear_arith)
            requires
                key_length > 0,
                0 <= offset,
                0 <= i < key_length,
                0 <= j < key_length,
                (offset + i) % key_length == (offset + j) % key_length,
        ;
    }
}

/// Drags every word of the list across the ciphertext and commits the key
/// positions under each placement that fits.
///
/// Words are tried in the order of the list, each at the offsets from zero up
/// to, and not including, the length of the ciphertext less that of the word.
/// A placement fits when every key byte it implies is a candidate of its
/// position; it is then committed in full, and otherwise not at all.
pub fn refine(
    contents: &[u8],
    key_length: KeyLength,
    words: &Vec<Vec<u8>>,
    key: &mut PotentialKey,
)
    requires
        old(key).wf(),
        old(key)@.len() == key_length@,
    ensures
        final(key).wf(),
        final(key)@ == refined(old(key)@, contents@, key_length@, word_views(words@), words@.len()),
        settled(old(key)@, final(key)@),
        narrowed_from(old(key)@, final(key)@),
{
    let key_length = key_length.get();
    let ghost start = key@;
    let ghost list = word_views(words@);
    let mut index: usize = 0;
    while index < words.len()
        invariant
            key_length > 0,
            index <= words@.len(),
            list == word_views(words@),
            start.len() == key_length,
            key.wf(),
            key@.len() == key_length,
            key@ == refined(start, contents@, key_length as int, list, index as nat),
        decreases words@.len() - index,
    {
        let word = &words[index];
        let ghost before_word = key@;
        assert(list[index as int] == word@);
        if word.len() < contents.len() {
            let offsets = contents.len() - word.len();
            let mut offset: usize = 0;
            while offset < offsets
                invariant
                    key_length > 0,
                    word@.len() < contents@.len() <= usize::MAX,
                    offsets == contents@.len() - word@.len(),
                    offset <= offsets,
                    before_word.len() == key_length,
                    key.wf(),
                    key@.len() == key_length,
                    key@ == drag_word(
                        before_word,
                        contents@,
                        key_length as int,
                        word@,
                        offset as nat,
                    ),
                decreases offsets - offset,
            {
                let ghost before = key@;
                let mut possible = true;
                let mut j: usize = 0;
                while j < word.len() && possible
                    invariant
                        key_length > 0,
                        offset + word@.len() < contents@.len() <= usize::MAX,
                        j <= word@.len(),
                        key.wf(),
                        key@ == before,
                        before.len() == key_length,
                        possible ==> forall|i: int|
                            #![trigger placement_byte(contents@, word@, offset as int, i)]
                            0 <= i < j ==> before[placement_position(
                                key_length as int,
                                offset as int,
                                i,
                            )].candidates.contains(
                                placement_byte(contents@, word@, offset as int, i),
                            ),
                        !possible ==> !placement_fits(
                            before,
                            contents@,
                            key_length as int,
                            word@,
                            offset as int,
                        ),
                    decreases word@.len() - j + if possible { 1int } else { 0int },
                {
                    let position = (offset + j) % key_length;
                    let byte = contents[offset + j] ^ word[j];
                    if !key.is_possible(position, byte) {
                        possible = false;
                        assert(!before[placement_position(
                            key_length as int,
                            offset as int,
                            j as int,
                        )].candidates.contains(
                            placement_byte(contents@, word@, offset as int, j as int),
                        ));
                    } else {
                        j += 1;
                    }
                }
                if possible {
                    assert(placement_fits(
                        before,
                        contents@,
                        key_length as int,
                        word@,
                        offset as int,
                    ));
                    j = 0;
                    while j < word.len()
                        invariant
                            key_length > 0,
                            offset + word@.len() < contents@.len() <= usize::MAX,
                            j <= word@.len(),
                            key.wf(),
                            key@.len() == key_length,
                            before.len() == key_length,
                            key@ == commit_placement(
                                before,
                                contents@,
                                key_length as int,
                                word@,
                                offset as int,
                                j as nat,
                            ),
                        decreases word@.len() - j,
                    {
                        let position = (offset + j) % key_length;
                        let byte = contents[offset + j] ^ word[j];
                        key.commit_value(position, byte);
                        j += 1;
                    }
                }
                offset += 1;
            }
        }
        index += 1;
    }
    proof {
        lemma_refined_settles(start, contents@, key_length as int, list, 0, list.len());
        lemma_refine_narrows(start, contents@, key_length as int, list);
    }
}

} // verus!
