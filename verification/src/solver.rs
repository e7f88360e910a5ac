//! The XOR attack: narrowing the candidates of every key position from the
//! requirement that all plaintext bytes belong to the alphabet.

use crate::byte_set::{
    byte_set_contains, byte_set_insert, byte_set_items, byte_set_len, byte_set_new, entry_of,
    table_get, ByteSet, ByteTable,
};
use crate::cipher::xor_with_key;
use crate::key_length::KeyLength;
use crate::potential_key::{untouched, KeySlot, PotentialKey};
use crate::table::is_combination_table;
use vstd::prelude::*;

verus! {

/// The number of whole blocks of `key_length` bytes in the ciphertext.
pub open spec fn block_count(contents: Seq<u8>, key_length: int) -> nat {
    (contents.len() as int / key_length) as nat
}

/// The key bytes at `position` that the comparison of block `block` with the
/// reference block allows.
///
/// XORing the two ciphertext bytes cancels the key and leaves the difference
/// of the two plaintext bytes. A key byte is allowed when it decrypts the
/// reference byte to a byte that the table records under that difference.
pub open spec fn block_candidates(
    contents: Seq<u8>,
    key_length: int,
    table: Map<u8, ByteSet>,
    position: int,
    block: int,
) -> Set<u8> {
    let reference = contents[position];
    let difference = contents[block * key_length + position] ^ reference;
    Set::new(|key: u8| entry_of(table, difference).contains(reference ^ key))
}

/// The candidates of `position` after the first `blocks` blocks were read.
///
/// The first block is the reference and rules nothing out. Each further
/// block is intersected in, unless at most one candidate was left before it.
pub open spec fn narrowed(
    contents: Seq<u8>,
    key_length: int,
    table: Map<u8, ByteSet>,
    position: int,
    blocks: nat,
) -> Set<u8>
    decreases blocks,
{
    if blocks <= 1 {
        Set::full()
    } else {
        let before = narrowed(contents, key_length, table, position, (blocks - 1) as nat);
        if before.len() <= 1 {
            before
        } else {
            before.intersect(
                block_candidates(contents, key_length, table, position, blocks - 1),
            )
        }
    }
}

/// The members of a set of bytes below a bound, in increasing order.
pub open spec fn members_below(set: Set<u8>, bound: nat) -> Seq<u8>
    decreases bound,
{
    if bound == 0 {
        Seq::empty()
    } else {
        let rest = members_below(set, (bound - 1) as nat);
        if set.contains((bound - 1) as u8) {
            rest.push((bound - 1) as u8)
        } else {
            rest
        }
    }
}

/// The members of a set of bytes in increasing order.
pub open spec fn ascending(set: Set<u8>) -> Seq<u8> {
    members_below(set, 256)
}

/// The slots that the attack leaves: at every position the narrowed
/// candidates in increasing order, the first one selected, none committed.
pub open spec fn solved_slots(contents: Seq<u8>, key_length: int, table: Map<u8, ByteSet>) -> Seq<
    KeySlot,
> {
    Seq::new(
        key_length as nat,
        |p: int|
            untouched(
                ascending(
                    narrowed(contents, key_length, table, p, block_count(contents, key_length)),
                ),
            ),
    )
}

/// The list of the members below a bound holds exactly those members, each
/// once, in increasing order.
pub proof fn lemma_members_below(set: Set<u8>, bound: nat)
    requires
        bound <= 256,
    ensures
        members_below(set, bound).len() <= bound,
        forall|i: int|
            0 <= i < members_below(set, bound).len() ==> set.contains(
                #[trigger] members_below(set, bound)[i],
            ) && members_below(set, bound)[i] < bound,
        forall|i: int, j: int|
            0 <= i < j < members_below(set, bound).len() ==> members_below(set, bound)[i]
                < members_below(set, bound)[j],
        forall|byte: u8|
            set.contains(byte) && byte < bound ==> #[trigger] members_below(set, bound).contains(
                byte,
            ),
    decreases bound,
{
    if bound > 0 {
        let rest = members_below(set, (bound - 1) as nat);
        lemma_members_below(set, (bound - 1) as nat);
        let list = members_below(set, bound);
        let last = (bound - 1) as u8;
        assert forall|byte: u8| set.contains(byte) && byte < bound implies #[trigger] list.contains(
            byte,
        ) by {
            if byte == last {
                assert(list[list.len() - 1] == byte);
            } else {
                assert(rest.contains(byte));
                let i = choose|i: int| 0 <= i < rest.len() && rest[i] == byte;
                assert(list[i] == byte);
            }
        }
    }
}

/// The increasing list of a set holds exactly the members of the set, each
/// once.
pub proof fn lemma_ascending(set: Set<u8>)
    ensures
        forall|byte: u8| #[trigger] ascending(set).contains(byte) <==> set.contains(byte),
        forall|i: int, j: int|
            0 <= i < j < ascending(set).len() ==> ascending(set)[i] < ascending(set)[j],
        ascending(set).no_duplicates(),
{
    lemma_members_below(set, 256);
}

/// Once at most one candidate is left at a position, further blocks change
/// nothing there.
pub proof fn lemma_narrowed_settles(
    contents: Seq<u8>,
    key_length: int,
    table: Map<u8, ByteSet>,
    position: int,
    blocks: nat,
    later: nat,
)
    requires
        blocks <= later,
        narrowed(contents, key_length, table, position, blocks).len() <= 1,
    ensures
        narrowed(contents, key_length, table, position, later) == narrowed(
            contents,
            key_length,
            table,
            position,
            blocks,
        ),
    decreases later,
{
    if blocks < later {
        lemma_narrowed_settles(contents, key_length, table, position, blocks, (later - 1) as nat);
        if later <= 1 {
            assert(narrowed(contents, key_length, table, position, blocks) == Set::<u8>::full());
        }
    }
}

/// Whether the key decrypts the whole ciphertext into the alphabet.
pub open spec fn decrypts_into(contents: Seq<u8>, key: Seq<u8>, alphabet: Set<u8>) -> bool {
    forall|i: int|
        0 <= i < contents.len() ==> alphabet.contains(#[trigger] xor_with_key(key, contents)[i])
}

/// The attack never rules out the true key: where a key decrypts the whole
/// ciphertext into the alphabet, each of its bytes stays a candidate of its
/// position, however many blocks are read.
pub proof fn lemma_true_key_survives(
    contents: Seq<u8>,
    key_length: int,
    table: Map<u8, ByteSet>,
    alphabet: Set<u8>,
    key: Seq<u8>,
    position: int,
    blocks: nat,
)
    requires
        key_length > 0,
        key.len() == key_length,
        is_combination_table(table, alphabet),
        decrypts_into(contents, key, alphabet),
        0 <= position < key_length,
        blocks <= block_count(contents, key_length),
    ensures
        narrowed(contents, key_length, table, position, blocks).contains(key[position]),
    decreases blocks,
{
    if blocks > 1 {
        lemma_true_key_survives(
            contents,
            key_length,
            table,
            alphabet,
            key,
            position,
            (blocks - 1) as nat,
        );
        let block = blocks - 1;
        let length = contents.len() as int;
        lemma_block_in_bounds(length, key_length, block, position);
        lemma_block_in_bounds(length, key_length, 0, position);
        let index = block * key_length + position;
        assert(index % key_length == position) by (nonlinear_arith)
            requires
                key_length > 0,
                0 <= position < key_length,
                0 <= block,
                index == block * key_length + position,
        ;
        assert(position % key_length == position) by (nonlinear_arith)
            requires
                0 <= position < key_length,
        ;
        let reference = contents[position];
        let other = contents[index];
        let byte = key[position];
        let plain = xor_with_key(key, contents);
        assert(plain[position] == reference ^ byte);
        assert(plain[index] == other ^ byte);
        assert((reference ^ byte) ^ (other ^ reference) == other ^ byte) by (bit_vector);
        assert(entry_of(table, other ^ reference).contains(reference ^ byte));
        assert(block_candidates(contents, key_length, table, position, block).contains(byte));
    }
}

/// The slots that the attack leaves hold the true key: each of its bytes is
/// among the candidates of its position.
pub proof fn lemma_solved_slots_hold_true_key(
    contents: Seq<u8>,
    key_length: int,
    table: Map<u8, ByteSet>,
    alphabet: Set<u8>,
    key: Seq<u8>,
    position: int,
)
    requires
        key_length > 0,
        key.len() == key_length,
        is_combination_table(table, alphabet),
        decrypts_into(contents, key, alphabet),
        0 <= position < key_length,
    ensures
        solved_slots(contents, key_length, table)[position].candidates.contains(key[position]),
{
    let blocks = block_count(contents, key_length);
    lemma_true_key_survives(contents, key_length, table, alphabet, key, position, blocks);
    lemma_ascending(narrowed(contents, key_length, table, position, blocks));
}

/// Block `block` lies within the ciphertext when it is one of its whole
/// blocks.
proof fn lemma_block_in_bounds(length: int, key_length: int, block: int, position: int)
    requires
        0 < key_length,
        0 <= block < length / key_length,
        0 <= position < key_length,
    ensures
        0 <= block * key_length + position < length,
{
    assert((block + 1) * key_length <= length) by (nonlinear_arith)
        requires
            0 < key_length,
            0 <= block,
            block + 1 <= length / key_length,
    ;
    assert((block + 1) * key_length == block * key_length + key_length) by (nonlinear_arith);
    assert(0 <= block * key_length) by (nonlinear_arith)
        requires
            0 < key_length,
            0 <= block,
    ;
}

/// XOR with a fixed byte pairs the bytes off: one is the image of the other
/// exactly when the other is the image of the one.
proof fn lemma_xor_swaps(reference: u8, key: u8, byte: u8)
    ensures
        (key == reference ^ byte) <==> (byte == reference ^ key),
{
    assert((key == reference ^ byte) <==> (byte == reference ^ key)) by (bit_vector);
}

/// The set of all 256 byte values.
fn full_byte_set() -> (set: ByteSet)
    ensures
        set@ == Set::<u8>::full(),
{
    let mut set = byte_set_new();
    let mut byte: u8 = 0;
    while byte < 255
        invariant
            forall|b: u8| set@.contains(b) <==> b < byte,
        decreases 255 - byte,
    {
        byte_set_insert(&mut set, byte);
        byte += 1;
    }
    byte_set_insert(&mut set, byte);
    assert(set@ =~= Set::<u8>::full());
    set
}

/// The key bytes that decrypt `reference` to a byte recorded under
/// `difference`: each recorded byte XORed with `reference`.
fn mapped_candidates(table: &ByteTable, difference: u8, reference: u8) -> (set: ByteSet)
    ensures
        set@ == Set::new(|key: u8| entry_of(table@, difference).contains(reference ^ key)),
{
    let mut set = byte_set_new();
    match table_get(table, difference) {
        Some(entry) => {
            let items = byte_set_items(entry);
            let mut index: usize = 0;
            while index < items.len()
                invariant
                    index <= items@.len(),
                    forall|key: u8|
                        set@.contains(key) <==> exists|i: int|
                            0 <= i < index && #[trigger] items@[i] == reference ^ key,
                decreases items@.len() - index,
            {
                let ghost before = set@;
                let item = items[index];
                byte_set_insert(&mut set, reference ^ item);
                proof {
                    assert forall|key: u8|
                        set@.contains(key) <==> exists|i: int|
                            0 <= i < index + 1 && #[trigger] items@[i] == reference ^ key by {
                        lemma_xor_swaps(reference, key, item);
                        if set@.contains(key) {
                            if before.contains(key) {
                                let i = choose|i: int|
                                    0 <= i < index && #[trigger] items@[i] == reference ^ key;
                                assert(0 <= i < index + 1 && items@[i] == reference ^ key);
                            } else {
                                assert(items@[index as int] == reference ^ key);
                            }
                        }
                        if exists|i: int|
                            0 <= i < index + 1 && #[trigger] items@[i] == reference ^ key {
                            let i = choose|i: int|
                                0 <= i < index + 1 && #[trigger] items@[i] == reference ^ key;
                            if i < index {
                                assert(before.contains(key));
                            }
                        }
                    }
                }
                index += 1;
            }
            proof {
                assert forall|key: u8|
                    set@.contains(key) <==> entry_of(table@, difference).contains(
                        reference ^ key,
                    ) by {
                    if set@.contains(key) {
                        let i = choose|i: int|
                            0 <= i < items@.len() && #[trigger] items@[i] == reference ^ key;
                        assert(items@.contains(reference ^ key));
                    }
                    if entry@.contains(reference ^ key) {
                        assert(items@.contains(reference ^ key));
                    }
                }
            }
        },
        None => {},
    }
    assert(set@ =~= Set::new(
        |key: u8| entry_of(table@, difference).contains(reference ^ key),
    ));
    set
}

/// The bytes that both sets hold.
fn intersection(left: &ByteSet, right: &ByteSet) -> (set: ByteSet)
    ensures
        set@ == left@.intersect(right@),
{
    let items = byte_set_items(left);
    let mut set = byte_set_new();
    let mut index: usize = 0;
    while index < items.len()
        invariant
            index <= items@.len(),
            forall|byte: u8| items@.contains(byte) <==> left@.contains(byte),
            forall|byte: u8|
                set@.contains(byte) <==> right@.contains(byte) && exists|i: int|
                    0 <= i < index && #[trigger] items@[i] == byte,
        decreases items@.len() - index,
    {
        let item = items[index];
        let ghost before = set@;
        if byte_set_contains(right, item) {
            byte_set_insert(&mut set, item);
        }
        proof {
            assert forall|byte: u8|
                set@.contains(byte) <==> right@.contains(byte) && exists|i: int|
                    0 <= i < index + 1 && #[trigger] items@[i] == byte by {
                if set@.contains(byte) {
                    if before.contains(byte) {
                        let i = choose|i: int| 0 <= i < index && #[trigger] items@[i] == byte;
                        assert(0 <= i < index + 1 && items@[i] == byte);
                    } else {
                        assert(items@[index as int] == byte);
                    }
                }
                if right@.contains(byte) && exists|i: int|
                    0 <= i < index + 1 && #[trigger] items@[i] == byte {
                    let i = choose|i: int| 0 <= i < index + 1 && #[trigger] items@[i] == byte;
                    if i < index {
                        assert(before.contains(byte));
                    }
                }
            }
        }
        index += 1;
    }
    proof {
        assert forall|byte: u8| set@.contains(byte) <==> left@.contains(byte) && right@.contains(
            byte,
        ) by {
            if set@.contains(byte) {
                let i = choose|i: int| 0 <= i < items@.len() && #[trigger] items@[i] == byte;
                assert(items@.contains(byte));
            }
            if left@.contains(byte) {
                assert(items@.contains(byte));
            }
        }
    }
    assert(set@ =~= left@.intersect(right@));
    set
}

/// Narrows the candidates of every key position by the whole blocks of the
/// ciphertext, the first block being the reference.
///
/// A position is left alone as soon as at most one candidate remains there,
/// and the scan ends once that holds of every position. A position where no
/// candidate remains is reported as it is, with an empty set.
pub fn xor_attack(contents: &[u8], key_length: KeyLength, table: &ByteTable) -> (key: Vec<ByteSet>)
    ensures
        key@.len() == key_length@,
        forall|p: int|
            0 <= p < key_length@ ==> (#[trigger] key@[p])@ == narrowed(
                contents@,
                key_length@,
                table@,
                p,
                block_count(contents@, key_length@),
            ),
{
    let key_length = key_length.get();
    let blocks = contents.len() / key_length;
    let mut key: Vec<ByteSet> = Vec::new();
    let mut position: usize = 0;
    while position < key_length
        invariant
            position <= key_length,
            key@.len() == position,
            forall|p: int| 0 <= p < position ==> (#[trigger] key@[p])@ == Set::<u8>::full(),
        decreases key_length - position,
    {
        key.push(full_byte_set());
        position += 1;
    }
    let mut block: usize = 1;
    let mut open = true;
    while block < blocks && open
        invariant
            key_length > 0,
            blocks == contents@.len() as int / key_length as int,
            1 <= block,
            block <= blocks || block == 1,
            key@.len() == key_length,
            forall|p: int|
                0 <= p < key_length ==> (#[trigger] key@[p])@ == narrowed(
                    contents@,
                    key_length as int,
                    table@,
                    p,
                    block as nat,
                ),
            !open ==> forall|p: int| 0 <= p < key_length ==> (#[trigger] key@[p])@.len() <= 1,
        decreases blocks - block,
    {
        open = false;
        position = 0;
        while position < key_length
            invariant
                key_length > 0,
                blocks == contents@.len() as int / key_length as int,
                1 <= block < blocks,
                position <= key_length,
                key@.len() == key_length,
                forall|p: int|
                    0 <= p < position ==> (#[trigger] key@[p])@ == narrowed(
                        contents@,
                        key_length as int,
                        table@,
                        p,
                        (block + 1) as nat,
                    ),
                forall|p: int|
                    position <= p < key_length ==> (#[trigger] key@[p])@ == narrowed(
                        contents@,
                        key_length as int,
                        table@,
                        p,
                        block as nat,
                    ),
                !open ==> forall|p: int| 0 <= p < position ==> (#[trigger] key@[p])@.len() <= 1,
            decreases key_length - position,
        {
            if byte_set_len(&key[position]) > 1 {
                proof {
                    lemma_block_in_bounds(
                        contents@.len() as int,
                        key_length as int,
                        block as int,
                        position as int,
                    );
                    lemma_block_in_bounds(
                        contents@.len() as int,
                        key_length as int,
                        0,
                        position as int,
                    );
                }
                let reference = contents[position];
                let value = contents[block * key_length + position] ^ reference;
                let possibilities = mapped_candidates(table, value, reference);
                let remaining = intersection(&key[position], &possibilities);
                if byte_set_len(&remaining) > 1 {
                    open = true;
                }
                key[position] = remaining;
            }
            position += 1;
        }
        block += 1;
    }
    proof {
        assert forall|p: int| 0 <= p < key_length implies (#[trigger] key@[p])@ == narrowed(
            contents@,
            key_length as int,
            table@,
            p,
            block_count(contents@, key_length as int),
        ) by {
            let set = key@[p]@;
            assert(set == narrowed(contents@, key_length as int, table@, p, block as nat));
            if block < blocks {
                assert(set.len() <= 1);
                lemma_narrowed_settles(
                    contents@,
                    key_length as int,
                    table@,
                    p,
                    block as nat,
                    blocks as nat,
                );
            }
        }
    }
    key
}

/// The members of the set in increasing order.
fn ascending_items(set: &ByteSet) -> (items: Vec<u8>)
    ensures
        items@ == ascending(set@),
{
    let mut items: Vec<u8> = Vec::new();
    let mut byte: u8 = 0;
    while byte < 255
        invariant
            items@ == members_below(set@, byte as nat),
        decreases 255 - byte,
    {
        if byte_set_contains(set, byte) {
            items.push(byte);
        }
        byte += 1;
    }
    if byte_set_contains(set, byte) {
        items.push(byte);
    }
    items
}

/// Runs the XOR attack and wraps what it leaves as a potential key, every
/// position uncommitted and set to its smallest candidate.
pub fn solve(contents: &[u8], key_length: KeyLength, table: &ByteTable) -> (key: PotentialKey)
    ensures
        key.wf(),
        key@.len() == key_length@,
        key@ == solved_slots(contents@, key_length@, table@),
{
    let sets = xor_attack(contents, key_length, table);
    let key_length = key_length.get();
    let mut lists: Vec<Vec<u8>> = Vec::with_capacity(key_length);
    let mut position: usize = 0;
    while position < key_length
        invariant
            position <= key_length,
            sets@.len() == key_length,
            lists@.len() == position,
            forall|p: int| 0 <= p < position ==> (#[trigger] lists@[p])@ == ascending(sets@[p]@),
        decreases key_length - position,
    {
        lists.push(ascending_items(&sets[position]));
        position += 1;
    }
    let key = PotentialKey::new(lists);
    assert(key@ =~= solved_slots(contents@, key_length as int, table@));
    key
}

} // verus!
