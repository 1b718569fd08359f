use cipher_engine::error::CipherError;
use cipher_engine::morse::{decrypt_morse_code, encrypt_morse_code, morse_code_map};

#[test]
fn morse_sos_help() {
    assert_eq!(
        Ok(String::from("... --- ... / .... . .-.. .--. ")),
        encrypt_morse_code(String::from("SOS HELP"))
    );
}

#[test]
fn morse_decrypt_sos_help() {
    let (text, unknown) = decrypt_morse_code(String::from("... --- ... / .... . .-.. .--. "));
    assert_eq!("SOS HELP ", text);
    assert!(unknown.is_empty());
}

#[test]
fn morse_empty_plaintext() {
    assert_eq!(Ok(String::new()), encrypt_morse_code(String::new()));
    assert_eq!(Ok(String::new()), encrypt_morse_code(String::from("  \n ")));
}

#[test]
fn morse_decrypt_of_empty_text_is_one_space() {
    let (text, unknown) = decrypt_morse_code(String::new());
    assert_eq!(" ", text);
    assert!(unknown.is_empty());
}

#[test]
fn morse_single_word_and_case() {
    assert_eq!(Ok(String::from(".- -... ")), encrypt_morse_code(String::from("aB")));
    assert_eq!(Ok(String::from(".- / -... ")), encrypt_morse_code(String::from("  a \t b  ")));
}

#[test]
fn morse_digits_and_punctuation() {
    assert_eq!(
        Ok(String::from(".---- ----- / -..-. .--.-. ...-..- ")),
        encrypt_morse_code(String::from("10 /@$"))
    );
    let (text, unknown) = decrypt_morse_code(String::from(".---- ----- / -..-. .--.-. ...-..- "));
    assert_eq!("10 /@$ ", text);
    assert!(unknown.is_empty());
}

#[test]
fn morse_invalid_character() {
    assert_eq!(Err(CipherError::InvalidCharacter), encrypt_morse_code(String::from("a#b")));
    assert_eq!(Err(CipherError::InvalidCharacter), encrypt_morse_code(String::from("SOS %")));
}

#[test]
fn morse_unknown_patterns_are_skipped_and_returned() {
    let (text, unknown) = decrypt_morse_code(String::from("... ........ --- x / ...---..."));
    assert_eq!("SO  ", text);
    assert_eq!(vec![String::from("........"), String::from("x"), String::from("...---...")], unknown);
}

#[test]
fn morse_round_trip_keeps_word_boundaries() {
    let c = encrypt_morse_code(String::from("Meet me at 9, ok?")).unwrap();
    let (text, unknown) = decrypt_morse_code(c);
    assert_eq!("MEET ME AT 9, OK? ", text);
    assert!(unknown.is_empty());
}

#[test]
fn morse_separator_needs_both_spaces() {
    let (text, _) = decrypt_morse_code(String::from(".-/-..."));
    assert_eq!(" ", text);
    let (text, unknown) = decrypt_morse_code(String::from(".- / / -..."));
    assert_eq!("A B ", text);
    assert_eq!(vec![String::from("/")], unknown);
}

#[test]
fn morse_table_has_fifty_four_entries() {
    let table = morse_code_map();
    assert_eq!(54, table.len());
    assert_eq!(('A', ".-"), table[0]);
    assert_eq!(('@', ".--.-."), table[53]);
}
