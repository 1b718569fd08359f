use cipher_engine::adfgvx::parse_column_key;
use cipher_engine::error::CipherError;
use cipher_engine::session::{
    clean_text, encryption_method_list, mode_list, position_of_input, transform, CurrentScreen,
    EncryptionMethods, Inputs, SelectedMode, Session,
};
use cipher_engine::vigenere::{encrypt, vigenere_table};

#[test]
fn session_starts_on_the_list_of_ciphers() {
    let s = Session::new();
    assert_eq!(CurrentScreen::ChoosingEncryption, s.current_screen);
    assert_eq!(EncryptionMethods::VigenereCipher, s.encryption);
    assert_eq!(SelectedMode::Encrypt, s.selected_mode);
    assert_eq!(vec![Inputs::InputText], s.inputs);
    assert_eq!(Inputs::Keyword, s.currently_editing);
}

#[test]
fn session_lists() {
    let methods = encryption_method_list();
    assert_eq!(3, methods.len());
    assert_eq!("Vigenere Cipher", methods[0].name);
    assert_eq!("ADFGVX Cipher", methods[1].name);
    assert_eq!("Morse Code", methods[2].name);
    let modes = mode_list();
    assert_eq!(2, modes.len());
    assert_eq!("Encryption Mode", modes[0].name);
    assert_eq!("Decryption Mode", modes[1].name);
}

#[test]
fn selecting_nothing_changes_nothing() {
    let mut s = Session::new();
    s.select_current(None);
    assert_eq!(CurrentScreen::ChoosingEncryption, s.current_screen);
    assert_eq!(vec![Inputs::InputText], s.inputs);
}

#[test]
fn selecting_adfgvx_then_decryption() {
    let mut s = Session::new();
    s.select_current(Some(1));
    assert_eq!(CurrentScreen::ChoosingMode, s.current_screen);
    assert_eq!(EncryptionMethods::ADFGVX, s.encryption);
    assert_eq!(vec![Inputs::Keyword, Inputs::InputText, Inputs::ColumnKey], s.inputs);
    assert_eq!(Inputs::Keyword, s.currently_editing);
    s.select_current(Some(1));
    assert_eq!(CurrentScreen::InputtingValues, s.current_screen);
    assert_eq!(SelectedMode::Decrypt, s.selected_mode);
    s.select_current(Some(0));
    assert_eq!(CurrentScreen::InputtingValues, s.current_screen);
    assert_eq!(SelectedMode::Decrypt, s.selected_mode);
    s.submit();
    assert_eq!(CurrentScreen::SeeingResult, s.current_screen);
}

#[test]
fn selecting_morse_code_edits_the_text() {
    let mut s = Session::new();
    s.select_current(Some(2));
    assert_eq!(EncryptionMethods::MorseCode, s.encryption);
    assert_eq!(vec![Inputs::InputText], s.inputs);
    assert_eq!(Inputs::InputText, s.currently_editing);
    assert_eq!(Inputs::InputText, s.next_input());
}

#[test]
fn selecting_an_unlisted_number_falls_back_to_vigenere() {
    let mut s = Session::new();
    s.select_current(Some(7));
    assert_eq!(EncryptionMethods::VigenereCipher, s.encryption);
    assert_eq!(vec![Inputs::InputText], s.inputs);
    assert_eq!(CurrentScreen::ChoosingMode, s.current_screen);
    s.select_current(Some(7));
    assert_eq!(SelectedMode::Encrypt, s.selected_mode);
}

#[test]
fn submit_only_leaves_the_input_screen() {
    let mut s = Session::new();
    s.submit();
    assert_eq!(CurrentScreen::ChoosingEncryption, s.current_screen);
}

#[test]
fn tabulator_cycles_through_the_fields() {
    let mut s = Session::new();
    s.select_current(Some(1));
    assert_eq!(Inputs::InputText, s.next_input());
    s.currently_editing = Inputs::InputText;
    assert_eq!(Inputs::ColumnKey, s.next_input());
    s.currently_editing = Inputs::ColumnKey;
    assert_eq!(Inputs::Keyword, s.next_input());
    let mut v = Session::new();
    v.select_current(Some(0));
    v.currently_editing = Inputs::InputText;
    assert_eq!(Inputs::Keyword, v.next_input());
}

#[test]
fn position_of_input_is_the_first() {
    let fields = vec![Inputs::InputText, Inputs::Keyword, Inputs::InputText, Inputs::Keyword];
    assert_eq!(0, position_of_input(&fields, Inputs::InputText));
    assert_eq!(1, position_of_input(&fields, Inputs::Keyword));
}

#[test]
fn clean_text_strips_and_raises() {
    assert_eq!("HELLOWORLD", clean_text(String::from(" Hello, World. ")));
    assert_eq!("KEY", clean_text(String::from("k.e y")));
    assert_eq!("A-B!", clean_text(String::from("a - b !")));
}

#[test]
fn transform_vigenere() {
    let key = vec![1, 2, 3, 4, 5, 6];
    let r = transform(
        EncryptionMethods::VigenereCipher,
        SelectedMode::Encrypt,
        String::from("Hello, World."),
        String::from("k.e y"),
        key.clone(),
    );
    assert_eq!(Ok((String::from(" RI9VS KYV9N"), Vec::new())), r);
    let back = transform(
        EncryptionMethods::VigenereCipher,
        SelectedMode::Decrypt,
        String::from(" RI9VS KYV9N"),
        String::from("k.e y"),
        key.clone(),
    );
    assert_eq!(Ok((String::from("HELLOWORLD"), Vec::new())), back);
    let bad = transform(
        EncryptionMethods::VigenereCipher,
        SelectedMode::Encrypt,
        String::from("Hello"),
        String::from(" ., "),
        key,
    );
    assert_eq!(Err(CipherError::InvalidKey), bad);
}

#[test]
fn transform_adfgvx() {
    let key = vec![2, 5, 1, 3, 6, 4];
    let r = transform(
        EncryptionMethods::ADFGVX,
        SelectedMode::Encrypt,
        String::from("Attack at dawn."),
        String::from("priv acy"),
        key.clone(),
    );
    assert_eq!(Ok((String::from("GAGGAAAAGXGXGFFXVVVVGFDF"), Vec::new())), r);
    let back = transform(
        EncryptionMethods::ADFGVX,
        SelectedMode::Decrypt,
        String::from("GAGGAA AAGXGX GFFXVV VVGFDF"),
        String::from("privacy"),
        key.clone(),
    );
    assert_eq!(Ok((String::from("ATTACKATDAWN"), Vec::new())), back);
    let bad_text = transform(
        EncryptionMethods::ADFGVX,
        SelectedMode::Encrypt,
        String::from("a+b"),
        String::from("privacy"),
        key.clone(),
    );
    assert_eq!(Err(CipherError::InvalidCharacter), bad_text);
    let bad_code = transform(
        EncryptionMethods::ADFGVX,
        SelectedMode::Decrypt,
        String::from("GAGGA"),
        String::from("privacy"),
        key,
    );
    assert_eq!(Err(CipherError::MalformedCiphertext), bad_code);
    let bad_key = transform(
        EncryptionMethods::ADFGVX,
        SelectedMode::Encrypt,
        String::from("ab"),
        String::from("privacy"),
        vec![1, 1, 2, 3, 4, 5],
    );
    assert_eq!(Err(CipherError::InvalidKey), bad_key);
}

#[test]
fn transform_morse_code() {
    let r = transform(
        EncryptionMethods::MorseCode,
        SelectedMode::Encrypt,
        String::from("SOS HELP"),
        String::new(),
        Vec::new(),
    );
    assert_eq!(Ok((String::from("... --- ... / .... . .-.. .--. "), Vec::new())), r);
    let back = transform(
        EncryptionMethods::MorseCode,
        SelectedMode::Decrypt,
        String::from("... --- ... / .... . ?? .-.. .--. "),
        String::new(),
        Vec::new(),
    );
    assert_eq!(Ok((String::from("SOS HELP "), vec![String::from("??")])), back);
    let bad = transform(
        EncryptionMethods::MorseCode,
        SelectedMode::Encrypt,
        String::from("a^b"),
        String::new(),
        Vec::new(),
    );
    assert_eq!(Err(CipherError::InvalidCharacter), bad);
}

#[test]
fn column_key_on_the_wire() {
    assert_eq!(Ok(vec![2, 5, 1, 3, 6, 4]), parse_column_key("2 5 1 3 6 4"));
    assert_eq!(Ok(vec![6, 5, 4, 3, 2, 1]), parse_column_key("  6\t5\n4   3 2 1 "));
    assert_eq!(Err(CipherError::InvalidKey), parse_column_key(""));
    assert_eq!(Err(CipherError::InvalidKey), parse_column_key("1 2 3 4 5"));
    assert_eq!(Err(CipherError::InvalidKey), parse_column_key("1 2 3 4 5 6 1"));
    assert_eq!(Err(CipherError::InvalidKey), parse_column_key("1 2 3 4 5 5"));
    assert_eq!(Err(CipherError::InvalidKey), parse_column_key("1 2 3 4 5 7"));
    assert_eq!(Err(CipherError::InvalidKey), parse_column_key("0 1 2 3 4 5"));
    assert_eq!(Err(CipherError::InvalidKey), parse_column_key("1 2 3 4 5 x"));
    assert_eq!(Err(CipherError::InvalidKey), parse_column_key("12 3 4 5 6 1"));
    assert_eq!(Err(CipherError::InvalidKey), parse_column_key("123456"));
}

#[test]
fn vigenere_encrypt_with_keyword() {
    assert_eq!(Ok(String::from(" RI9VS")), encrypt(String::from("HELLO"), String::from("KEY")));
    assert_eq!(
        Ok(String::from(" GE10W PGBCP")),
        encrypt(String::from("The 39 Steps"), String::from(" x 7 "))
    );
    assert_eq!(Ok(String::new()), encrypt(String::new(), String::from("KEY")));
    assert_eq!(Err(CipherError::InvalidKey), encrypt(String::from("HELLO"), String::new()));
    assert_eq!(Err(CipherError::InvalidKey), encrypt(String::from("HELLO"), String::from("K-Y")));
}

#[test]
fn vigenere_table_entries() {
    let table = vigenere_table();
    assert_eq!(36, table.len());
    assert!(table.iter().all(|row| row.len() == 36));
    assert_eq!("ABCDEFGHIJKLMNOPQRSTUVWXYZ0123456789", table[0].iter().collect::<String>());
    assert_eq!('R', table[10][7]);
    assert_eq!('8', table[35][35]);
    assert_eq!('P', table[26][25]);
}

#[test]
fn focus_moves_with_the_tabulator() {
    let mut s = Session::new();
    s.select_current(Some(0));
    s.select_current(Some(0));
    assert_eq!(Inputs::Keyword, s.currently_editing);
    s.focus_next();
    assert_eq!(Inputs::InputText, s.currently_editing);
    s.focus_next();
    assert_eq!(Inputs::Keyword, s.currently_editing);
    assert_eq!(CurrentScreen::InputtingValues, s.current_screen);
    let mut m = Session::new();
    m.select_current(Some(2));
    m.focus_next();
    assert_eq!(Inputs::InputText, m.currently_editing);
}
