use cipher_engine::error::CipherError;
use cipher_engine::text::generate_keyword_string;
use cipher_engine::vigenere::{decrypt, generate_cipher};

fn stream(keyword: &str, n: usize) -> String {
    let mut k = String::from(keyword);
    generate_keyword_string(&mut k, n)
}

#[test]
fn vigenere_hello_key() {
    let c = generate_cipher(String::from("HELLO"), stream("KEY", 5));
    assert_eq!(Ok(String::from(" RI9VS")), c);
}

#[test]
fn vigenere_round_trip_attack_at_dawn() {
    let c = generate_cipher(String::from("ATTACK AT DAWN"), stream("LEMON", 12)).unwrap();
    assert_eq!(" LX5OP VE5RN 7R", c);
    assert_eq!(Ok(String::from("ATTACKATDAWN")), decrypt(c, String::from("LEMON")));
}

#[test]
fn vigenere_groups_of_five() {
    let c = generate_cipher(String::from("ABCDEF"), String::from("AAAAAA"));
    assert_eq!(Ok(String::from(" ABCDE F")), c);
}

#[test]
fn vigenere_empty_plaintext() {
    assert_eq!(Ok(String::new()), generate_cipher(String::new(), String::new()));
    assert_eq!(Ok(String::new()), generate_cipher(String::from(" ,!"), String::new()));
    assert_eq!(Ok(String::new()), decrypt(String::new(), String::from("KEY")));
}

#[test]
fn vigenere_keyword_of_one_character() {
    let c = generate_cipher(String::from("hello world 42"), stream("A", 12));
    assert_eq!(Ok(String::from(" HELLO WORLD 42")), c);
    assert_eq!(Ok(String::from("ZY")), decrypt(String::from(" 0Z"), String::from("B")));
}

#[test]
fn vigenere_wraps_modulo_thirty_six() {
    assert_eq!(Ok(String::from(" Q8")), generate_cipher(String::from("Z9"), String::from("19")));
    assert_eq!(Ok(String::from("Z9")), decrypt(String::from(" Q8"), String::from("19")));
}

#[test]
fn vigenere_skips_characters_outside_the_alphabet() {
    let c = generate_cipher(String::from("h-e l!l?o"), stream("KEY", 5));
    assert_eq!(Ok(String::from(" RI9VS")), c);
}

#[test]
fn vigenere_decrypt_counts_key_positions_over_all_characters() {
    assert_eq!(Ok(String::from("HELLO")), decrypt(String::from("RI 9V S"), String::from("KEY")));
    assert_eq!(Ok(String::from("HEZR4")), decrypt(String::from("RI-9V S"), String::from("KEY")));
}

#[test]
fn vigenere_lower_case_key() {
    let c = generate_cipher(String::from("HELLO"), String::from("keyke"));
    assert_eq!(Ok(String::from(" RI9VS")), c);
    assert_eq!(Ok(String::from("HELLO")), decrypt(String::from(" ri9vs"), String::from(" k e y ")));
}

#[test]
fn vigenere_length_mismatch() {
    assert_eq!(
        Err(CipherError::LengthMismatch),
        generate_cipher(String::from("HELLO"), String::from("KEY"))
    );
    assert_eq!(
        Err(CipherError::LengthMismatch),
        generate_cipher(String::from("HE LLO"), String::from("KEYKEY"))
    );
}

#[test]
fn vigenere_invalid_key() {
    assert_eq!(
        Err(CipherError::InvalidKey),
        generate_cipher(String::from("HELLO"), String::from("KE-KE"))
    );
    assert_eq!(Err(CipherError::InvalidKey), decrypt(String::from("RI9VS"), String::from("  ")));
    assert_eq!(Err(CipherError::InvalidKey), decrypt(String::from("RI9VS"), String::new()));
    assert_eq!(Err(CipherError::InvalidKey), decrypt(String::from("RI9VS"), String::from("K!Y")));
}

#[test]
fn vigenere_round_trip_on_mixed_text() {
    let plain = "The 39 Steps, by J. Buchan!";
    let c = generate_cipher(String::from(plain), stream("X7", 19)).unwrap();
    assert_eq!(Ok(String::from("THE39STEPSBYJBUCHAN")), decrypt(c, String::from("X7")));
}
