use many_time_pad::{
    alphabet_of, combination_table, refine, solve, Cipher, Cracker, KeyLength, TextEncoding,
};

const LETTERS: &[u8] = b"abcdefghijklmnopqrstuvwxyz ";

const KEY: [u8; 13] = [
    0x13, 0x37, 0xc0, 0xff, 0xee, 0x42, 0x99, 0x01, 0x7a, 0xb5, 0x5c, 0xd2, 0x68,
];

fn length(bytes: usize) -> KeyLength {
    KeyLength::new(bytes).expect("a key has at least one byte")
}

fn two_blocks() -> Vec<u8> {
    let cipher = Cipher::new(KEY.to_vec());
    let mut contents = cipher.encrypt(b"thecakeisalie");
    contents.extend(cipher.encrypt(b"thequickbrown"));
    contents
}

#[test]
fn crack_is_solve_then_refine() {
    let contents = two_blocks();
    let alphabet = alphabet_of(LETTERS);
    let words = vec![b"the".to_vec(), b"lie".to_vec()];
    let cracker = Cracker::with_alphabet(&alphabet, words.clone());
    let cracked = cracker.crack(&contents, length(13));
    let table = combination_table(&alphabet);
    let mut by_hand = solve(&contents, length(13), &table);
    refine(&contents, length(13), &words, &mut by_hand);
    assert_eq!(cracked.len(), 13);
    assert_eq!(cracked.get_current_key(), by_hand.get_current_key());
    for position in 0..13 {
        assert_eq!(
            cracked.get_possibilities(position),
            by_hand.get_possibilities(position)
        );
        assert_eq!(cracked.is_uncertain(position), by_hand.is_uncertain(position));
    }
}

#[test]
fn round_trip_example_crack() {
    let contents = two_blocks();
    let cracker = Cracker::with_alphabet(&alphabet_of(LETTERS), vec![b"the".to_vec()]);
    let key = cracker.crack(&contents, length(13));
    for position in 0..3 {
        assert_eq!(key.get_possibilities(position), &vec![KEY[position]]);
        assert!(!key.is_uncertain(position));
    }
    let plain = Cipher::new(key.get_current_key()).decrypt(&contents);
    assert_eq!(&plain[0..3], b"the");
    assert_eq!(&plain[13..16], b"the");
}

#[test]
fn crack_never_enlarges_what_the_attack_left() {
    let contents = two_blocks();
    let cracker = Cracker::with_alphabet(
        &alphabet_of(LETTERS),
        vec![b"the".to_vec(), b"quick".to_vec(), b"xyz".to_vec()],
    );
    for key_length in [1usize, 3, 13, 26, 40] {
        let attacked = cracker.xor_attack(&contents, length(key_length));
        let key = cracker.crack(&contents, length(key_length));
        assert_eq!(attacked.len(), key_length);
        assert_eq!(key.len(), key_length);
        for position in 0..key_length {
            let after = key.get_possibilities(position);
            assert!(after.len() <= attacked[position].len());
            for byte in after {
                assert!(attacked[position].contains(byte));
            }
        }
    }
}

#[test]
fn many_blocks_pin_the_key_down() {
    let plaintext = b"it was the best of times it was the worst of times it was the age of \
wisdom it was the age of foolishness it was the epoch of belief it was the epoch of \
incredulity it was the season of light it was the season of darkness it was the spring \
of hope it was the winter of despair we had everything before us we had nothing before us";
    let key = vec![0xde, 0xad, 0xbe, 0xef, 0x42];
    let contents = Cipher::new(key.clone()).encrypt(plaintext);
    let cracker = Cracker::with_alphabet(&alphabet_of(LETTERS), vec![b"the".to_vec()]);
    let attacked = cracker.xor_attack(&contents, length(5));
    for position in 0..5 {
        assert!(attacked[position].contains(&key[position]));
    }
    let cracked = cracker.crack(&contents, length(5));
    assert_eq!(cracked.get_current_key(), key);
    assert_eq!(
        Cipher::new(cracked.get_current_key()).decrypt(&contents),
        plaintext.to_vec()
    );
}

#[test]
fn cracker_for_utf8() {
    let cracker = Cracker::new(&TextEncoding::UTF8, "kot\npies").expect("UTF-8 takes any text");
    let plaintext = "Ala ma kota, a kot ma Alę. Pies też ma kota!".as_bytes();
    let key = vec![0x10, 0x20, 0x30];
    let contents = Cipher::new(key.clone()).encrypt(plaintext);
    let attacked = cracker.xor_attack(&contents, length(3));
    for position in 0..3 {
        assert!(attacked[position].contains(&key[position]));
    }
    let cracked = cracker.crack(&contents, length(3));
    for position in 0..3 {
        assert!(cracked.get_possibilities(position).len() <= attacked[position].len());
    }
}

#[test]
fn cracker_for_windows_1250() {
    let cracker = Cracker::new(&TextEncoding::WINDOWS1250, "żółw\nkot").expect("the words have codes");
    // "żółw kot żółw" in Windows-1250.
    let plaintext = [191, 243, 179, 119, 32, 107, 111, 116, 32, 191, 243, 179, 119];
    let key = vec![0x5a];
    let contents = Cipher::new(key.clone()).encrypt(&plaintext);
    let attacked = cracker.xor_attack(&contents, length(1));
    assert!(attacked[0].contains(&0x5a));
    let cracked = cracker.crack(&contents, length(1));
    assert!(cracked.get_possibilities(0).len() <= attacked[0].len());
    assert_eq!(
        TextEncoding::WINDOWS1250.decode(&Cipher::new(key).decrypt(&contents)),
        Some("żółw kot żółw".to_string())
    );
}

#[test]
fn cracker_needs_words_that_the_encoding_can_write() {
    assert!(Cracker::new(&TextEncoding::WINDOWS1250, "日本").is_none());
    assert!(Cracker::new(&TextEncoding::UTF8, "日本").is_some());
    assert!(Cracker::new(&TextEncoding::WINDOWS1250, "").is_some());
}
