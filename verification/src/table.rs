//! The combination table: for every XOR difference, the alphabet bytes that
//! can stand on either side of a pair with that difference.

use crate::byte_set::{
    byte_set_insert, byte_set_items, byte_set_new, entry_of, table_insert, table_new,
    table_remove, ByteSet, ByteTable,
};
use vstd::prelude::*;

verus! {

/// The alphabet bytes that give `difference` when XORed with some alphabet
/// byte.
pub open spec fn combination_entry(alphabet: Set<u8>, difference: u8) -> Set<u8> {
    Set::new(|byte: u8| alphabet.contains(byte) && alphabet.contains(byte ^ difference))
}

/// Whether some pair of alphabet bytes gives `difference`.
pub open spec fn has_pair(alphabet: Set<u8>, difference: u8) -> bool {
    exists|byte: u8| combination_entry(alphabet, difference).contains(byte)
}

/// Whether the table is the combination table of the alphabet: each
/// difference that some pair of alphabet bytes gives has an entry, which
/// holds the bytes of all such pairs, and no other difference has one.
pub open spec fn is_combination_table(table: Map<u8, ByteSet>, alphabet: Set<u8>) -> bool {
    forall|difference: u8|
        #![trigger entry_of(table, difference)]
        #![trigger table.contains_key(difference)]
        {
            &&& entry_of(table, difference) == combination_entry(alphabet, difference)
            &&& table.contains_key(difference) <==> has_pair(alphabet, difference)
        }
}

/// Both bytes of a pair drawn from the alphabet stand in the entry of their
/// difference.
pub proof fn lemma_combination_sound(alphabet: Set<u8>, first: u8, second: u8)
    requires
        alphabet.contains(first),
        alphabet.contains(second),
    ensures
        combination_entry(alphabet, first ^ second).contains(first),
        combination_entry(alphabet, first ^ second).contains(second),
{
    assert(first ^ (first ^ second) == second) by (bit_vector);
    assert(second ^ (first ^ second) == first) by (bit_vector);
}

/// Every byte of an entry belongs to the alphabet, and so does its partner.
pub proof fn lemma_combination_complete(alphabet: Set<u8>, difference: u8, byte: u8)
    requires
        combination_entry(alphabet, difference).contains(byte),
    ensures
        alphabet.contains(byte),
        alphabet.contains(byte ^ difference),
        byte ^ (byte ^ difference) == difference,
{
    assert(byte ^ (byte ^ difference) == difference) by (bit_vector);
}

/// Whether the pair of indices `(a, b)` comes before the pair `(i, j)` when
/// all pairs over `n` items are walked row by row.
spec fn pair_before(a: int, b: int, i: int, j: int, n: int) -> bool {
    &&& 0 <= a
    &&& 0 <= b < n
    &&& a < i || (a == i && b < j)
}

/// Whether some pair before `(i, j)` has the given difference and holds the
/// byte.
spec fn recorded(items: Seq<u8>, i: int, j: int, difference: u8, byte: u8) -> bool {
    exists|a: int, b: int|
        #![trigger pair_before(a, b, i, j, items.len() as int)]
        pair_before(a, b, i, j, items.len() as int) && a < items.len() && items[a] ^ items[b]
            == difference && (byte == items[a] || byte == items[b])
}

/// Walking one pair further records its two bytes under its difference, and
/// nothing else.
proof fn lemma_record_step(items: Seq<u8>, i: int, j: int, difference: u8, byte: u8)
    requires
        0 <= i < items.len(),
        0 <= j < items.len(),
    ensures
        recorded(items, i, j + 1, difference, byte) <==> recorded(items, i, j, difference, byte)
            || (difference == items[i] ^ items[j] && (byte == items[i] || byte == items[j])),
{
    let n = items.len() as int;
    if recorded(items, i, j, difference, byte) {
        let (a, b) = choose|a: int, b: int|
            #![trigger pair_before(a, b, i, j, n)]
            pair_before(a, b, i, j, n) && a < n && items[a] ^ items[b] == difference && (byte
                == items[a] || byte == items[b]);
        assert(pair_before(a, b, i, j + 1, n));
    }
    if difference == items[i] ^ items[j] && (byte == items[i] || byte == items[j]) {
        assert(pair_before(i, j, i, j + 1, n));
    }
    if recorded(items, i, j + 1, difference, byte) {
        let (a, b) = choose|a: int, b: int|
            #![trigger pair_before(a, b, i, j + 1, n)]
            pair_before(a, b, i, j + 1, n) && a < n && items[a] ^ items[b] == difference && (byte
                == items[a] || byte == items[b]);
        if !(a == i && b == j) {
            assert(pair_before(a, b, i, j, n));
        }
    }
}

/// The end of one row is the start of the next.
proof fn lemma_record_row(items: Seq<u8>, i: int, difference: u8, byte: u8)
    requires
        0 <= i < items.len(),
    ensures
        recorded(items, i + 1, 0, difference, byte) <==> recorded(
            items,
            i,
            items.len() as int,
            difference,
            byte,
        ),
{
    let n = items.len() as int;
    if recorded(items, i + 1, 0, difference, byte) {
        let (a, b) = choose|a: int, b: int|
            #![trigger pair_before(a, b, i + 1, 0, n)]
            pair_before(a, b, i + 1, 0, n) && a < n && items[a] ^ items[b] == difference && (byte
                == items[a] || byte == items[b]);
        assert(pair_before(a, b, i, n, n));
    }
    if recorded(items, i, n, difference, byte) {
        let (a, b) = choose|a: int, b: int|
            #![trigger pair_before(a, b, i, n, n)]
            pair_before(a, b, i, n, n) && a < n && items[a] ^ items[b] == difference && (byte
                == items[a] || byte == items[b]);
        assert(pair_before(a, b, i + 1, 0, n));
    }
}

/// Once all pairs are walked, what is recorded under a difference is the
/// entry of the combination table.
proof fn lemma_record_all(items: Seq<u8>, alphabet: Set<u8>, difference: u8, byte: u8)
    requires
        forall|b: u8| items.contains(b) <==> alphabet.contains(b),
    ensures
        recorded(items, items.len() as int, 0, difference, byte) <==> combination_entry(
            alphabet,
            difference,
        ).contains(byte),
{
    let n = items.len() as int;
    if recorded(items, n, 0, difference, byte) {
        let (a, b) = choose|a: int, b: int|
            #![trigger pair_before(a, b, n, 0, n)]
            pair_before(a, b, n, 0, n) && a < n && items[a] ^ items[b] == difference && (byte
                == items[a] || byte == items[b]);
        let first = items[a];
        let second = items[b];
        assert(items.contains(first));
        assert(items.contains(second));
        lemma_combination_sound(alphabet, first, second);
    }
    if combination_entry(alphabet, difference).contains(byte) {
        lemma_combination_complete(alphabet, difference, byte);
        let partner = byte ^ difference;
        assert(items.contains(byte));
        assert(items.contains(partner));
        let a = choose|a: int| 0 <= a < n && items[a] == byte;
        let b = choose|b: int| 0 <= b < n && items[b] == partner;
        assert(pair_before(a, b, n, 0, n));
    }
}

/// Records one byte under a difference: the entry of the difference gains
/// the byte, and is made where there was none.
fn record(table: &mut ByteTable, difference: u8, byte: u8)
    ensures
        forall|d: u8|
            #![trigger entry_of(final(table)@, d)]
            entry_of(final(table)@, d) == if d == difference {
                entry_of(old(table)@, d).insert(byte)
            } else {
                entry_of(old(table)@, d)
            },
        forall|d: u8|
            #![trigger final(table)@.contains_key(d)]
            final(table)@.contains_key(d) <==> d == difference || old(table)@.contains_key(d),
{
    let mut set = match table_remove(table, difference) {
        Some(set) => set,
        None => byte_set_new(),
    };
    byte_set_insert(&mut set, byte);
    table_insert(table, difference, set);
}

/// Builds the combination table of an alphabet: for every pair of its bytes,
/// both are recorded under their XOR.
pub fn combination_table(alphabet: &ByteSet) -> (table: ByteTable)
    ensures
        is_combination_table(table@, alphabet@),
{
    let items = byte_set_items(alphabet);
    let mut table = table_new();
    let mut i: usize = 0;
    while i < items.len()
        invariant
            i <= items@.len(),
            forall|d: u8, x: u8|
                #![trigger entry_of(table@, d).contains(x)]
                entry_of(table@, d).contains(x) <==> recorded(items@, i as int, 0, d, x),
            forall|d: u8|
                #![trigger table@.contains_key(d)]
                table@.contains_key(d) ==> exists|x: u8| entry_of(table@, d).contains(x),
        decreases items@.len() - i,
    {
        let mut j: usize = 0;
        while j < items.len()
            invariant
                i < items@.len(),
                j <= items@.len(),
                forall|d: u8, x: u8|
                    #![trigger entry_of(table@, d).contains(x)]
                    entry_of(table@, d).contains(x) <==> recorded(items@, i as int, j as int, d, x),
                forall|d: u8|
                    #![trigger table@.contains_key(d)]
                    table@.contains_key(d) ==> exists|x: u8| entry_of(table@, d).contains(x),
            decreases items@.len() - j,
        {
            let first = items[i];
            let second = items[j];
            let value = first ^ second;
            let ghost before = table@;
            record(&mut table, value, first);
            let ghost between = table@;
            record(&mut table, value, second);
            proof {
                assert forall|d: u8, x: u8|
                    #![trigger entry_of(table@, d).contains(x)]
                    entry_of(table@, d).contains(x) <==> recorded(
                        items@,
                        i as int,
                        j + 1,
                        d,
                        x,
                    ) by {
                    lemma_record_step(items@, i as int, j as int, d, x);
                    assert(entry_of(between, d).contains(x) <==> entry_of(before, d).contains(x)
                        || (d == value && x == first));
                    assert(entry_of(table@, d).contains(x) <==> entry_of(between, d).contains(x)
                        || (d == value && x == second));
                }
                assert forall|d: u8|
                    #![trigger table@.contains_key(d)]
                    table@.contains_key(d) implies exists|x: u8|
                    entry_of(table@, d).contains(x) by {
                    if d == value {
                        assert(entry_of(table@, d).contains(second));
                    } else {
                        assert(before.contains_key(d));
                        let x = choose|x: u8| entry_of(before, d).contains(x);
                        assert(entry_of(table@, d).contains(x));
                    }
                }
            }
            j += 1;
        }
        proof {
            assert forall|d: u8, x: u8|
                #![trigger entry_of(table@, d).contains(x)]
                entry_of(table@, d).contains(x) <==> recorded(items@, i + 1, 0, d, x) by {
                lemma_record_row(items@, i as int, d, x);
            }
        }
        i += 1;
    }
    proof {
        assert forall|d: u8|
            #![trigger entry_of(table@, d)]
            #![trigger table@.contains_key(d)]
            {
                &&& entry_of(table@, d) == combination_entry(alphabet@, d)
                &&& table@.contains_key(d) <==> has_pair(alphabet@, d)
            } by {
            assert forall|x: u8|
                entry_of(table@, d).contains(x) <==> combination_entry(alphabet@, d).contains(
                    x,
                ) by {
                lemma_record_all(items@, alphabet@, d, x);
            }
            assert(entry_of(table@, d) =~= combination_entry(alphabet@, d));
            if table@.contains_key(d) {
                let x = choose|x: u8| entry_of(table@, d).contains(x);
                assert(combination_entry(alphabet@, d).contains(x));
            }
        }
    }
    table
}

} // verus!
