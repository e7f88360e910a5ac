use many_time_pad::{
    alphabet_of, combination_table, refine, solve, Cipher, KeyLength, PotentialKey,
};

const LETTERS: &[u8] = b"abcdefghijklmnopqrstuvwxyz ";

const KEY: [u8; 13] = [
    0x13, 0x37, 0xc0, 0xff, 0xee, 0x42, 0x99, 0x01, 0x7a, 0xb5, 0x5c, 0xd2, 0x68,
];

fn two_blocks() -> Vec<u8> {
    let cipher = Cipher::new(KEY.to_vec());
    let mut contents = cipher.encrypt(b"thecakeisalie");
    contents.extend(cipher.encrypt(b"thequickbrown"));
    contents
}

fn length(bytes: usize) -> KeyLength {
    KeyLength::new(bytes).expect("a key has at least one byte")
}

fn open_key(length: usize) -> PotentialKey {
    let all: Vec<u8> = (0..=255).collect();
    PotentialKey::new(vec![all; length])
}

/// Everything that can be observed of a key.
fn state(key: &PotentialKey) -> Vec<(Vec<u8>, u8, bool)> {
    let current = key.get_current_key();
    (0..key.len())
        .map(|index| {
            (
                key.get_possibilities(index).clone(),
                current[index],
                key.is_uncertain(index),
            )
        })
        .collect()
}

#[test]
fn round_trip_example_refine() {
    let contents = two_blocks();
    let table = combination_table(&alphabet_of(LETTERS));
    let mut key = solve(&contents, length(13), &table);
    refine(&contents, length(13), &vec![b"the".to_vec()], &mut key);
    for position in 0..3 {
        assert_eq!(key.get_possibilities(position), &vec![KEY[position]]);
        assert!(key.is_decoded(position));
        assert!(!key.is_uncertain(position));
    }
    let current = key.get_current_key();
    assert_eq!(&current[0..3], &KEY[0..3]);
    // With two blocks only, the word also fits at the offsets 5 and 10.
    let committed: Vec<bool> = (0..13).map(|position| !key.is_uncertain(position)).collect();
    assert_eq!(
        committed,
        vec![true, true, true, false, false, true, true, true, false, false, true, true, true]
    );
    assert_eq!(
        current,
        vec![19, 55, 192, 228, 225, 93, 148, 13, 96, 160, 68, 211, 104]
    );
    let sizes: Vec<usize> = (0..13).map(|p| key.get_possibilities(p).len()).collect();
    assert_eq!(sizes, vec![1, 1, 1, 20, 20, 1, 1, 1, 20, 20, 1, 1, 1]);
}

#[test]
fn refine_never_enlarges_candidates() {
    let contents = two_blocks();
    let table = combination_table(&alphabet_of(LETTERS));
    let words: Vec<Vec<u8>> = vec![
        b"the".to_vec(),
        b"cake".to_vec(),
        b"brown".to_vec(),
        b"zz".to_vec(),
        Vec::new(),
    ];
    for key_length in 1..=14usize {
        let solved = solve(&contents, length(key_length), &table);
        let mut refined = solve(&contents, length(key_length), &table);
        refine(&contents, length(key_length), &words, &mut refined);
        assert_eq!(refined.len(), solved.len());
        for position in 0..key_length {
            let before = solved.get_possibilities(position);
            let after = refined.get_possibilities(position);
            assert!(after.len() <= before.len());
            for byte in after {
                assert!(before.contains(byte));
            }
            if solved.is_error(position) {
                assert!(refined.is_error(position));
            }
        }
    }
}

#[test]
fn refine_twice_is_refine_once() {
    let contents = two_blocks();
    let table = combination_table(&alphabet_of(LETTERS));
    let words: Vec<Vec<u8>> = vec![
        b"quick".to_vec(),
        b"the".to_vec(),
        b"is".to_vec(),
        b"a".to_vec(),
        b"thequickbrownthequick".to_vec(),
    ];
    for key_length in [1usize, 2, 5, 13, 26, 30] {
        let mut key = solve(&contents, length(key_length), &table);
        refine(&contents, length(key_length), &words, &mut key);
        let once = state(&key);
        refine(&contents, length(key_length), &words, &mut key);
        assert_eq!(state(&key), once);
    }
}

#[test]
fn placed_words_are_what_the_key_decrypts() {
    let contents = two_blocks();
    let table = combination_table(&alphabet_of(LETTERS));
    let word = b"the".to_vec();
    let mut key = solve(&contents, length(13), &table);
    refine(&contents, length(13), &vec![word.clone()], &mut key);
    let plain = Cipher::new(key.get_current_key()).decrypt(&contents);
    for offset in [0usize, 5, 10, 13] {
        assert_eq!(&plain[offset..offset + 3], &word[..]);
    }
}

#[test]
fn empty_word_list_changes_nothing() {
    let contents = two_blocks();
    let table = combination_table(&alphabet_of(LETTERS));
    let mut key = solve(&contents, length(13), &table);
    let before = state(&key);
    refine(&contents, length(13), &Vec::new(), &mut key);
    assert_eq!(state(&key), before);
}

#[test]
fn empty_word_changes_nothing() {
    let mut key = open_key(2);
    let before = state(&key);
    refine(b"abcd", length(2), &vec![Vec::new()], &mut key);
    assert_eq!(state(&key), before);
}

#[test]
fn word_is_committed_where_it_fits() {
    let mut key = open_key(4);
    refine(&[0x10, 0x20, 0x30, 0x40, 0x50], length(4), &vec![vec![0x01, 0x02, 0x03, 0x04]], &mut key);
    assert_eq!(key.get_current_key(), vec![0x11, 0x22, 0x33, 0x44]);
    for position in 0..4 {
        assert!(key.is_decoded(position));
        assert!(!key.is_uncertain(position));
    }
}

#[test]
fn last_offset_is_not_tried() {
    // The word is tried at offset 0 only: the offsets end one before the
    // placement that would reach the last byte.
    let mut key = open_key(3);
    refine(&[0x10, 0x20, 0x30], length(3), &vec![vec![0x01, 0x02]], &mut key);
    assert_eq!(key.get_possibilities(0), &vec![0x11]);
    assert_eq!(key.get_possibilities(1), &vec![0x22]);
    assert_eq!(key.get_possibilities(2).len(), 256);
    assert!(key.is_uncertain(2));
}

#[test]
fn word_as_long_as_the_ciphertext_is_not_tried() {
    let mut key = open_key(3);
    let before = state(&key);
    refine(&[0x10, 0x20, 0x30], length(3), &vec![vec![1, 2, 3]], &mut key);
    assert_eq!(state(&key), before);
}

#[test]
fn word_longer_than_the_ciphertext_is_not_tried() {
    let mut key = open_key(3);
    let before = state(&key);
    refine(&[0x10, 0x20], length(3), &vec![vec![1, 2, 3, 4, 5]], &mut key);
    assert_eq!(state(&key), before);
    refine(&[], length(3), &vec![vec![1]], &mut key);
    assert_eq!(state(&key), before);
}

#[test]
fn placement_that_fails_at_one_byte_commits_nothing() {
    // The first byte of the word fits position 0, the second does not fit
    // position 1.
    let mut key = PotentialKey::new(vec![vec![0x11, 0x12], vec![0x99], vec![0x33]]);
    let before = state(&key);
    refine(&[0x10, 0x20, 0x30], length(3), &vec![vec![0x01, 0x02]], &mut key);
    assert_eq!(state(&key), before);
}

#[test]
fn later_placement_that_conflicts_is_rejected() {
    // Key length 2 over four bytes: the word fits at offset 0 and commits
    // both positions; at offset 2 it asks other values and is rejected.
    let mut key = open_key(2);
    refine(&[0x10, 0x20, 0x77, 0x78, 0x00], length(2), &vec![vec![0x01, 0x02]], &mut key);
    assert_eq!(key.get_current_key(), vec![0x11, 0x22]);
    assert_eq!(key.get_possibilities(0), &vec![0x11]);
    assert_eq!(key.get_possibilities(1), &vec![0x22]);
}

#[test]
fn words_are_tried_in_list_order() {
    let contents = [0x10, 0x20, 0x00];
    let mut key = open_key(2);
    refine(&contents, length(2), &vec![vec![0x01, 0x02], vec![0x0f, 0x0f]], &mut key);
    assert_eq!(key.get_current_key(), vec![0x11, 0x22]);
    let mut key = open_key(2);
    refine(&contents, length(2), &vec![vec![0x0f, 0x0f], vec![0x01, 0x02]], &mut key);
    assert_eq!(key.get_current_key(), vec![0x1f, 0x2f]);
}

#[test]
fn contradicted_position_stays_contradicted() {
    let mut key = PotentialKey::new(vec![Vec::new(), (0..=255).collect()]);
    refine(&[0x10, 0x20, 0x30, 0x40], length(2), &vec![vec![0x01], vec![0x01, 0x02]], &mut key);
    assert!(key.is_error(0));
    assert!(key.is_uncertain(0));
    // A one-byte word fits position 1 at offset 1.
    assert_eq!(key.get_possibilities(1), &vec![0x21]);
}

#[test]
fn word_longer_than_key_keeps_the_later_value() {
    // With a key of one byte both bytes of the word fall on position 0 and
    // ask different values of it; both are candidates, so the word is
    // placed, and the position keeps the value committed last.
    let mut key = open_key(1);
    refine(&[0x00, 0x01, 0x00], length(1), &vec![b"ab".to_vec()], &mut key);
    assert_eq!(key.get_possibilities(0), &vec![0x01 ^ b'b']);
    assert!(!key.is_uncertain(0));
}

#[test]
fn word_longer_than_key_that_agrees_with_itself_is_placed() {
    let cipher = Cipher::new(vec![0x42, 0x24]);
    let contents = cipher.encrypt(b"banana!");
    let mut key = open_key(2);
    refine(&contents, length(2), &vec![b"banana".to_vec()], &mut key);
    assert_eq!(key.get_current_key(), vec![0x42, 0x24]);
    let plain = cipher.decrypt(&contents);
    assert_eq!(&plain[0..6], b"banana");
}
