use cipher_engine::adfgvx::{
    check_column_key, decrypt_adfgvx, encrypt_adfgvx, polybius_square, polybius_to_string,
    position_of,
};
use cipher_engine::error::CipherError;
use cipher_engine::text::remove_whitespace;

#[test]
fn test_polybius_square() {
    let key = remove_whitespace(&mut String::from("lorem ipsum sir"));
    println!("{:?}", polybius_square(key.clone()));
    assert_eq!(
        "loremi".to_ascii_uppercase().chars().collect::<Vec<char>>(),
        polybius_square(key)[0]
    );
}

#[test]
fn test_encryptor() {
    let keyword = String::from("aarav");
    let plaintext = String::from("certified loverboy");
    let column_key: Vec<u8> = vec![5, 1, 3, 4, 2, 6];
    assert_eq!(
        Ok(String::from("VFVDAVADAAAXDDDFAVAVAVDAAGDFDFDDXFGX")),
        encrypt_adfgvx(plaintext, keyword, column_key)
    )
}

#[test]
fn polybius_square_holds_every_symbol_once() {
    let square = polybius_square(String::from("loremipsumsir"));
    assert_eq!(6, square.len());
    let flat: String = square.iter().flatten().collect();
    assert_eq!("LOREMIPSUABCDFGHJKNQTVWXYZ0123456789", flat);
    for symbol in "ABCDEFGHIJKLMNOPQRSTUVWXYZ0123456789".chars() {
        assert_eq!(1, flat.chars().filter(|c| *c == symbol).count());
    }
}

#[test]
fn polybius_square_of_empty_keyword_is_the_alphabet() {
    let flat: String = polybius_square(String::new()).iter().flatten().collect();
    assert_eq!("ABCDEFGHIJKLMNOPQRSTUVWXYZ0123456789", flat);
}

#[test]
fn polybius_square_upper_cases_before_removing_repeats() {
    let flat: String = polybius_square(String::from("aAbB9")).iter().flatten().collect();
    assert_eq!("AB9CDEFGHIJKLMNOPQRSTUVWXYZ012345678", flat);
}

#[test]
fn adfgvx_attack_at_dawn() {
    let key = vec![2, 5, 1, 3, 6, 4];
    let c = encrypt_adfgvx(String::from("ATTACKATDAWN"), String::from("PRIVACY"), key.clone())
        .unwrap();
    assert_eq!("GAGGAAAAGXGXGFFXVVVVGFDF", c);
    assert_eq!(0, c.len() % 6);
    assert!(c.chars().all(|x| "ADFGVX".contains(x)));
    assert_eq!(Ok(String::from("ATTACKATDAWN")), decrypt_adfgvx(c, String::from("PRIVACY"), key));
}

#[test]
fn adfgvx_single_character_is_padded_to_six() {
    let key = vec![1, 2, 3, 4, 5, 6];
    let c = encrypt_adfgvx(String::from("A"), String::from("KEY"), key.clone());
    assert_eq!(Ok(String::from("AGXXXX")), c);
    assert_eq!(
        Ok(String::from("A99")),
        decrypt_adfgvx(String::from("AGXXXX"), String::from("KEY"), key)
    );
}

#[test]
fn adfgvx_empty_plaintext() {
    let key = vec![3, 1, 2, 6, 5, 4];
    assert_eq!(Ok(String::new()), encrypt_adfgvx(String::new(), String::from("KEY"), key.clone()));
    assert_eq!(
        Ok(String::new()),
        encrypt_adfgvx(String::from(" \t\n"), String::from("KEY"), key.clone())
    );
    assert_eq!(Ok(String::new()), decrypt_adfgvx(String::new(), String::from("KEY"), key));
}

#[test]
fn adfgvx_round_trip_with_padding() {
    let key = vec![5, 1, 3, 4, 2, 6];
    let c = encrypt_adfgvx(String::from("certified loverboy"), String::from("aarav"), key.clone())
        .unwrap();
    assert_eq!(Ok(String::from("CERTIFIEDLOVERBOY9")), decrypt_adfgvx(c, String::from("aarav"), key));
}

#[test]
fn adfgvx_round_trip_multiple_of_three() {
    let key = vec![6, 5, 4, 3, 2, 1];
    let c = encrypt_adfgvx(String::from("Meet at 9 pm"), String::from("Zebra9"), key.clone())
        .unwrap();
    assert_eq!(18, c.len());
    assert_eq!(Ok(String::from("MEETAT9PM")), decrypt_adfgvx(c, String::from("Zebra9"), key));
}

#[test]
fn adfgvx_invalid_key() {
    let good = vec![1, 2, 3, 4, 5, 6];
    let text = String::from("ATTACK");
    assert_eq!(
        Err(CipherError::InvalidKey),
        encrypt_adfgvx(text.clone(), String::new(), good.clone())
    );
    assert_eq!(
        Err(CipherError::InvalidKey),
        encrypt_adfgvx(text.clone(), String::from("KE Y"), good.clone())
    );
    assert_eq!(
        Err(CipherError::InvalidKey),
        encrypt_adfgvx(text.clone(), String::from("KEY"), vec![1, 2, 3, 4, 5])
    );
    assert_eq!(
        Err(CipherError::InvalidKey),
        encrypt_adfgvx(text.clone(), String::from("KEY"), vec![1, 2, 3, 4, 5, 5])
    );
    assert_eq!(
        Err(CipherError::InvalidKey),
        encrypt_adfgvx(text.clone(), String::from("KEY"), vec![0, 1, 2, 3, 4, 5])
    );
    assert_eq!(
        Err(CipherError::InvalidKey),
        decrypt_adfgvx(String::from("AGXXXX"), String::from("KEY"), vec![1, 2, 3, 4, 5, 7])
    );
    assert_eq!(
        Err(CipherError::InvalidKey),
        decrypt_adfgvx(String::from("AGXXXX"), String::new(), good)
    );
}

#[test]
fn adfgvx_invalid_character() {
    let key = vec![1, 2, 3, 4, 5, 6];
    assert_eq!(
        Err(CipherError::InvalidCharacter),
        encrypt_adfgvx(String::from("AT-TACK"), String::from("KEY"), key.clone())
    );
    assert_eq!(
        Err(CipherError::InvalidCharacter),
        encrypt_adfgvx(String::from("caf\u{e9}"), String::from("KEY"), key)
    );
}

#[test]
fn adfgvx_malformed_ciphertext() {
    let key = vec![1, 2, 3, 4, 5, 6];
    assert_eq!(
        Err(CipherError::MalformedCiphertext),
        decrypt_adfgvx(String::from("AGXXX"), String::from("KEY"), key.clone())
    );
    assert_eq!(
        Err(CipherError::MalformedCiphertext),
        decrypt_adfgvx(String::from("AGXXXB"), String::from("KEY"), key.clone())
    );
    assert_eq!(
        Err(CipherError::MalformedCiphertext),
        decrypt_adfgvx(String::from("agxxxx"), String::from("KEY"), key)
    );
}

#[test]
fn column_key_positions_form_a_permutation() {
    let key = vec![2, 5, 1, 3, 6, 4];
    assert!(check_column_key(&key));
    let order: Vec<usize> = (1..=6).map(|v| position_of(&key, v)).collect();
    assert_eq!(vec![2, 0, 3, 5, 1, 4], order);
    let mut sorted = order.clone();
    sorted.sort();
    assert_eq!(vec![0, 1, 2, 3, 4, 5], sorted);
}

#[test]
fn column_key_checks() {
    assert!(check_column_key(&vec![6, 5, 4, 3, 2, 1]));
    assert!(!check_column_key(&vec![6, 5, 4, 3, 2, 2]));
    assert!(!check_column_key(&vec![1, 2, 3, 4, 5, 6, 7]));
    assert!(!check_column_key(&Vec::new()));
}

#[test]
fn polybius_square_as_text() {
    let text = polybius_to_string(&polybius_square(String::from("KEY")));
    let expected = "   A D F G V X    \n   ------------\n\
A | K E Y A B C\n\
D | D F G H I J\n\
F | L M N O P Q\n\
G | R S T U V W\n\
V | X Z 0 1 2 3\n\
X | 4 5 6 7 8 9\n";
    assert_eq!(expected, text);
    assert_eq!("   A D F G V X    \n   \n", polybius_to_string(&Vec::new()));
    assert_eq!(
        "   A D F G V X    \n   ----\nA | q\nD | \n",
        polybius_to_string(&vec![vec!['q'], Vec::new()])
    );
}
