use many_time_pad::solver::xor_attack;
use many_time_pad::{alphabet_of, combination_table, solve, ByteSet, Cipher, KeyLength};

const LETTERS: &[u8] = b"abcdefghijklmnopqrstuvwxyz ";

const KEY: [u8; 13] = [
    0x13, 0x37, 0xc0, 0xff, 0xee, 0x42, 0x99, 0x01, 0x7a, 0xb5, 0x5c, 0xd2, 0x68,
];

fn two_blocks() -> Vec<u8> {
    let cipher = Cipher::new(KEY.to_vec());
    let mut contents = cipher.encrypt(b"thecakeisalie");
    contents.extend(cipher.encrypt(b"thequickbrown"));
    contents
}

fn length(bytes: usize) -> KeyLength {
    KeyLength::new(bytes).expect("a key has at least one byte")
}

fn sorted(set: &ByteSet) -> Vec<u8> {
    let mut items: Vec<u8> = set.iter().copied().collect();
    items.sort();
    items
}

/// The key bytes under which both bytes decrypt into the alphabet.
fn allowed_by_pair(reference: u8, other: u8, alphabet: &[u8]) -> Vec<u8> {
    (0..=255u8)
        .filter(|key| alphabet.contains(&(reference ^ key)) && alphabet.contains(&(other ^ key)))
        .collect()
}

#[test]
fn round_trip_example_solve() {
    let contents = two_blocks();
    assert_eq!(
        contents,
        vec![
            103, 95, 165, 156, 143, 41, 252, 104, 9, 212, 48, 187, 13, 103, 95, 165, 142, 155,
            43, 250, 106, 24, 199, 51, 165, 6
        ]
    );
    let table = combination_table(&alphabet_of(LETTERS));
    let sets = xor_attack(&contents, length(13), &table);
    assert_eq!(sets.len(), 13);
    let sizes: Vec<usize> = sets.iter().map(|set| set.len()).collect();
    assert_eq!(sizes, vec![27, 27, 27, 20, 20, 24, 22, 24, 20, 20, 24, 22, 20]);
    for position in 0..13 {
        let reference = contents[position];
        let other = contents[13 + position];
        assert_eq!(
            sorted(&sets[position]),
            allowed_by_pair(reference, other, LETTERS)
        );
        // The true key byte survives, and so does the key byte that swaps
        // the two letters observed at the position.
        assert!(sets[position].contains(&KEY[position]));
        assert!(sets[position].contains(&(reference ^ b"thequickbrown"[position])));
        assert!(sets[position].contains(&(reference ^ b"thecakeisalie"[position])));
    }
}

#[test]
fn solve_lists_candidates_in_increasing_order() {
    let contents = two_blocks();
    let table = combination_table(&alphabet_of(LETTERS));
    let key = solve(&contents, length(13), &table);
    assert_eq!(key.len(), 13);
    for position in 0..13 {
        let expected = allowed_by_pair(contents[position], contents[13 + position], LETTERS);
        assert_eq!(key.get_possibilities(position), &expected);
        assert!(key.is_uncertain(position));
        assert!(!key.is_decoded(position));
        assert!(!key.is_error(position));
    }
    assert_eq!(
        key.get_current_key(),
        vec![0, 37, 133, 228, 225, 64, 136, 0, 96, 160, 64, 193, 96]
    );
}

#[test]
fn contradiction_example() {
    // The second block holds an upper-case letter, which the alphabet lacks:
    // no pair of alphabet bytes differs by 0x20.
    let cipher = Cipher::new(vec![1, 2, 3]);
    let mut contents = cipher.encrypt(b"abc");
    contents.extend(cipher.encrypt(b"aBc"));
    let table = combination_table(&alphabet_of(LETTERS));
    assert!(!table.contains_key(&0x20));
    let sets = xor_attack(&contents, length(3), &table);
    assert_eq!(sets[0].len(), 27);
    assert!(sets[1].is_empty());
    assert_eq!(sets[2].len(), 27);
    let key = solve(&contents, length(3), &table);
    assert!(!key.is_error(0));
    assert!(key.is_error(1));
    assert!(!key.is_decoded(1));
    assert!(key.is_uncertain(1));
    assert_eq!(key.get_possibilities(1), &Vec::<u8>::new());
    assert_eq!(key.get_current_key()[1], 0);
    assert!(!key.is_error(2));
}

#[test]
fn reference_byte_outside_alphabet_is_a_contradiction_too() {
    let cipher = Cipher::new(vec![9]);
    let contents = cipher.encrypt(b"Qab");
    let table = combination_table(&alphabet_of(LETTERS));
    let sets = xor_attack(&contents, length(1), &table);
    assert!(sets[0].is_empty());
}

#[test]
fn key_longer_than_ciphertext_leaves_everything_open() {
    let table = combination_table(&alphabet_of(LETTERS));
    let sets = xor_attack(&[1, 2, 3], length(5), &table);
    assert_eq!(sets.len(), 5);
    for set in &sets {
        assert_eq!(set.len(), 256);
    }
    let key = solve(&[1, 2, 3], length(5), &table);
    assert_eq!(key.get_current_key(), vec![0, 0, 0, 0, 0]);
    let all: Vec<u8> = (0..=255).collect();
    assert_eq!(key.get_possibilities(4), &all);
}

#[test]
fn empty_ciphertext_leaves_everything_open() {
    let table = combination_table(&alphabet_of(LETTERS));
    let sets = xor_attack(&[], length(2), &table);
    assert_eq!(sets.len(), 2);
    assert_eq!(sets[0].len(), 256);
    assert_eq!(sets[1].len(), 256);
}

#[test]
fn single_block_rules_nothing_out() {
    let table = combination_table(&alphabet_of(LETTERS));
    let sets = xor_attack(b"\x00\x01\x02\x03", length(4), &table);
    for set in &sets {
        assert_eq!(set.len(), 256);
    }
    // One whole block and a partial one: still only the reference.
    let sets = xor_attack(b"\x00\x01\x02\x03\x04\x05", length(4), &table);
    for set in &sets {
        assert_eq!(set.len(), 256);
    }
}

#[test]
fn partial_last_block_is_ignored() {
    let cipher = Cipher::new(vec![0x55, 0xaa]);
    let whole = cipher.encrypt(b"abcd");
    let mut longer = whole.clone();
    // A byte that would contradict position 0 if it were read.
    longer.push(b'A' ^ 0x55);
    let table = combination_table(&alphabet_of(LETTERS));
    let from_whole = xor_attack(&whole, length(2), &table);
    let from_longer = xor_attack(&longer, length(2), &table);
    for position in 0..2 {
        assert_eq!(sorted(&from_whole[position]), sorted(&from_longer[position]));
        assert!(!from_longer[position].is_empty());
    }
}

#[test]
fn position_is_left_alone_once_one_candidate_remains() {
    // Alphabet {a, b, d}: the blocks a, b, d pin the key byte down, and the
    // fourth block, which lies outside the alphabet, is not read any more.
    let table = combination_table(&alphabet_of(b"abd"));
    let key = 0x5a;
    let pinned = [b'a' ^ key, b'b' ^ key, b'd' ^ key];
    let sets = xor_attack(&pinned, length(1), &table);
    assert_eq!(sorted(&sets[0]), vec![key]);
    let with_stray = [b'a' ^ key, b'b' ^ key, b'd' ^ key, b'z' ^ key];
    let sets = xor_attack(&with_stray, length(1), &table);
    assert_eq!(sorted(&sets[0]), vec![key]);
    // Read before the position is pinned down, the stray block empties it.
    let stray_first = [b'a' ^ key, b'z' ^ key, b'b' ^ key, b'd' ^ key];
    let sets = xor_attack(&stray_first, length(1), &table);
    assert!(sets[0].is_empty());
}

#[test]
fn two_candidates_after_two_blocks_of_two_letter_alphabet() {
    let table = combination_table(&alphabet_of(b"ab"));
    let key = 0x11;
    let contents = [b'a' ^ key, b'b' ^ key];
    let sets = xor_attack(&contents, length(1), &table);
    assert_eq!(sorted(&sets[0]), vec![key, key ^ 3]);
}

#[test]
fn true_key_survives_when_plaintext_is_in_alphabet() {
    let plaintext = b"it was the best of times it was the worst of times it was the age of wisdom";
    for key_length in 1..=7usize {
        let key: Vec<u8> = (0..key_length).map(|i| (i as u8).wrapping_mul(37) ^ 0xa5).collect();
        let contents = Cipher::new(key.clone()).encrypt(plaintext);
        let table = combination_table(&alphabet_of(LETTERS));
        let sets = xor_attack(&contents, length(key_length), &table);
        assert_eq!(sets.len(), key_length);
        for position in 0..key_length {
            assert!(sets[position].contains(&key[position]));
        }
    }
}
