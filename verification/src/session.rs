//! The choices of an interactive session, and the dispatch from those
//! choices to the ciphers.
use vstd::prelude::*;
use vstd::string::StringExecFns;
use crate::adfgvx::{
    adfgvx_decrypt, adfgvx_encrypt, decrypt_adfgvx, encodable, encrypt_adfgvx, valid_column_key,
    valid_keyword, well_formed_ciphertext,
};
use crate::error::CipherError;
use crate::morse::{
    decrypt_morse_code, encrypt_morse_code, morse_decrypt, morse_encodable, morse_encrypt,
    morse_unknown, string_views,
};
use crate::text::{remove_punctuation, remove_whitespace, strip_marks, strip_whitespace, trim, upper};
use crate::vigenere::{
    decrypt, encrypt, usable_keyword, vigenere_decrypt, vigenere_encrypt_keyword,
};

verus! {

/// The screen that the session shows.
#[derive(Debug, Clone, Copy, PartialEq, Eq, Structural)]
pub enum CurrentScreen {
    ChoosingEncryption,
    ChoosingMode,
    InputtingValues,
    SeeingResult,
    Exiting,
}

/// The ciphers on offer.
#[derive(Debug, Clone, Copy, PartialEq, Eq, Structural)]
pub enum EncryptionMethods {
    VigenereCipher,
    ADFGVX,
    MorseCode,
}

/// An entry of the list of ciphers.
#[derive(Debug)]
pub struct EncryptionMethod {
    pub name: String,
}

/// An entry of the list of modes.
#[derive(Debug)]
pub struct Mode {
    pub name: String,
}

/// The direction in which a cipher is run.
#[derive(Debug, Clone, Copy, PartialEq, Eq, Structural)]
pub enum SelectedMode {
    Encrypt,
    Decrypt,
}

/// The fields that the user fills in.
#[derive(Debug, Clone, Copy, PartialEq, Eq, Structural)]
pub enum Inputs {
    Keyword,
    InputText,
    ColumnKey,
}

/// The entries of the list of ciphers, in the order of their numbers.
pub fn encryption_method_list() -> (items: Vec<EncryptionMethod>)
    ensures
        items@.len() == 3,
        items@[0].name@ == "Vigenere Cipher"@,
        items@[1].name@ == "ADFGVX Cipher"@,
        items@[2].name@ == "Morse Code"@,
{
    let mut items: Vec<EncryptionMethod> = Vec::new();
    items.push(EncryptionMethod { name: String::from_str("Vigenere Cipher") });
    items.push(EncryptionMethod { name: String::from_str("ADFGVX Cipher") });
    items.push(EncryptionMethod { name: String::from_str("Morse Code") });
    items
}

/// The entries of the list of modes, in the order of their numbers.
pub fn mode_list() -> (items: Vec<Mode>)
    ensures
        items@.len() == 2,
        items@[0].name@ == "Encryption Mode"@,
        items@[1].name@ == "Decryption Mode"@,
{
    let mut items: Vec<Mode> = Vec::new();
    items.push(Mode { name: String::from_str("Encryption Mode") });
    items.push(Mode { name: String::from_str("Decryption Mode") });
    items
}

/// The cipher with the number `selected` in the list: Vigenère for 0 and
/// for every number that the list lacks.
pub open spec fn method_at(selected: usize) -> EncryptionMethods {
    if selected == 1 {
        EncryptionMethods::ADFGVX
    } else if selected == 2 {
        EncryptionMethods::MorseCode
    } else {
        EncryptionMethods::VigenereCipher
    }
}

/// The mode with the number `selected` in the list: decryption for 1,
/// encryption for every other number.
pub open spec fn mode_at(selected: usize) -> SelectedMode {
    if selected == 1 {
        SelectedMode::Decrypt
    } else {
        SelectedMode::Encrypt
    }
}

/// The fields that a cipher asks for, in the order in which the tabulator
/// visits them.
pub open spec fn inputs_of(method: EncryptionMethods) -> Seq<Inputs> {
    match method {
        EncryptionMethods::VigenereCipher => seq![Inputs::Keyword, Inputs::InputText],
        EncryptionMethods::ADFGVX => seq![Inputs::Keyword, Inputs::InputText, Inputs::ColumnKey],
        EncryptionMethods::MorseCode => seq![Inputs::InputText],
    }
}

/// The position of the first occurrence of `field` in `inputs`; the length
/// of `inputs` where it does not occur.
pub open spec fn first_position(inputs: Seq<Inputs>, field: Inputs) -> int
    decreases inputs.len(),
{
    if inputs.len() == 0 || inputs[0] == field {
        0
    } else {
        1 + first_position(inputs.drop_first(), field)
    }
}

/// The field after the first occurrence of `field` in `inputs`, and the
/// first field where that occurrence is the last field.
pub open spec fn field_after(inputs: Seq<Inputs>, field: Inputs) -> Inputs
    recommends
        inputs.contains(field),
{
    let i = first_position(inputs, field);
    if i < inputs.len() - 1 {
        inputs[i + 1]
    } else {
        inputs[0]
    }
}

/// The first position is a position of the field, where the field occurs.
pub proof fn lemma_first_position(inputs: Seq<Inputs>, field: Inputs)
    ensures
        0 <= first_position(inputs, field) <= inputs.len(),
        inputs.contains(field) ==> first_position(inputs, field) < inputs.len()
            && inputs[first_position(inputs, field)] == field,
        forall|j: int| 0 <= j < first_position(inputs, field) ==> inputs[j] != field,
    decreases inputs.len(),
{
    if inputs.len() > 0 && inputs[0] != field {
        let rest = inputs.drop_first();
        lemma_first_position(rest, field);
        if inputs.contains(field) {
            let w = choose|w: int| 0 <= w < inputs.len() && inputs[w] == field;
            assert(rest[w - 1] == field);
        }
        assert forall|j: int| 0 <= j < first_position(inputs, field) implies inputs[j]
            != field by {
            if j > 0 {
                assert(rest[j - 1] == inputs[j]);
            }
        }
    }
}

/// Finds the first occurrence of `field` in `inputs`.
pub fn position_of_input(inputs: &Vec<Inputs>, field: Inputs) -> (index: usize)
    requires
        inputs@.contains(field),
    ensures
        index == first_position(inputs@, field),
        index < inputs@.len(),
{
    proof {
        lemma_first_position(inputs@, field);
        assert(inputs@.skip(0) =~= inputs@);
    }
    let mut index: usize = 0;
    while inputs[index] != field
        invariant
            index < inputs.len(),
            index <= first_position(inputs@, field) < inputs@.len(),
            first_position(inputs@, field) == index + first_position(
                inputs@.skip(index as int),
                field,
            ),
        decreases inputs@.len() - index,
    {
        proof {
            assert(inputs@.skip(index as int).drop_first() =~= inputs@.skip(index + 1));
            assert(inputs@.skip(index as int)[0] == inputs@[index as int]);
            lemma_first_position(inputs@.skip(index + 1), field);
        }
        index += 1;
    }
    proof {
        assert(inputs@.skip(index as int)[0] == inputs@[index as int]);
    }
    index
}

/// What the user has chosen so far.
#[derive(Debug)]
pub struct Session {
    pub current_screen: CurrentScreen,
    pub encryption: EncryptionMethods,
    pub selected_mode: SelectedMode,
    pub inputs: Vec<Inputs>,
    pub currently_editing: Inputs,
}

impl Session {
    /// Tells whether the field being edited is one of the fields of the
    /// session.
    pub open spec fn editing_listed(&self) -> bool {
        self.inputs@.contains(self.currently_editing)
    }

    /// A session is well formed where, before a cipher is chosen, the field
    /// being edited is the keyword, and where, once one is chosen, the
    /// fields are those of the cipher and the field being edited is one of
    /// them.
    pub open spec fn wf(&self) -> bool {
        match self.current_screen {
            CurrentScreen::ChoosingEncryption => self.currently_editing == Inputs::Keyword,
            CurrentScreen::Exiting => true,
            _ => self.inputs@ == inputs_of(self.encryption) && self.editing_listed(),
        }
    }

    /// A session at its start: the list of ciphers is shown, Vigenère and
    /// encryption are preset.
    pub fn new() -> (s: Session)
        ensures
            s.current_screen == CurrentScreen::ChoosingEncryption,
            s.encryption == EncryptionMethods::VigenereCipher,
            s.selected_mode == SelectedMode::Encrypt,
            s.inputs@ == seq![Inputs::InputText],
            s.currently_editing == Inputs::Keyword,
            s.wf(),
    {
        let mut inputs: Vec<Inputs> = Vec::new();
        inputs.push(Inputs::InputText);
        Session {
            current_screen: CurrentScreen::ChoosingEncryption,
            encryption: EncryptionMethods::VigenereCipher,
            selected_mode: SelectedMode::Encrypt,
            inputs,
            currently_editing: Inputs::Keyword,
        }
    }

    /// Confirms the entry `selected` of the list on the screen. With no
    /// entry selected nothing changes. On the list of ciphers the cipher
    /// and its fields are set, Morse code also sets the field being edited
    /// to the text, and the list of modes follows. On the list of modes the
    /// mode is set and the input screen follows. On the other screens
    /// nothing changes.
    pub fn select_current(&mut self, selected: Option<usize>)
        ensures
            match (old(self).current_screen, selected) {
                (CurrentScreen::ChoosingEncryption, Some(n)) => {
                    &&& final(self).current_screen == CurrentScreen::ChoosingMode
                    &&& final(self).encryption == method_at(n)
                    &&& final(self).selected_mode == old(self).selected_mode
                    &&& final(self).inputs@ == if n <= 2 {
                        inputs_of(method_at(n))
                    } else {
                        old(self).inputs@
                    }
                    &&& final(self).currently_editing == if n == 2 {
                        Inputs::InputText
                    } else {
                        old(self).currently_editing
                    }
                },
                (CurrentScreen::ChoosingMode, Some(n)) => {
                    &&& final(self).current_screen == CurrentScreen::InputtingValues
                    &&& final(self).selected_mode == mode_at(n)
                    &&& final(self).encryption == old(self).encryption
                    &&& final(self).inputs@ == old(self).inputs@
                    &&& final(self).currently_editing == old(self).currently_editing
                },
                _ => *final(self) == *old(self),
            },
            old(self).wf() && (old(self).current_screen == CurrentScreen::ChoosingEncryption
                && selected is Some ==> selected->Some_0 <= 2) ==> final(self).wf(),
    {
        match self.current_screen {
            CurrentScreen::ChoosingEncryption => {
                if let Some(n) = selected {
                    if n == 0 {
                        let mut inputs: Vec<Inputs> = Vec::new();
                        inputs.push(Inputs::Keyword);
                        inputs.push(Inputs::InputText);
                        self.inputs = inputs;
                        self.encryption = EncryptionMethods::VigenereCipher;
                    } else if n == 1 {
                        let mut inputs: Vec<Inputs> = Vec::new();
                        inputs.push(Inputs::Keyword);
                        inputs.push(Inputs::InputText);
                        inputs.push(Inputs::ColumnKey);
                        self.inputs = inputs;
                        self.encryption = EncryptionMethods::ADFGVX;
                    } else if n == 2 {
                        let mut inputs: Vec<Inputs> = Vec::new();
                        inputs.push(Inputs::InputText);
                        self.inputs = inputs;
                        self.currently_editing = Inputs::InputText;
                        self.encryption = EncryptionMethods::MorseCode;
                    } else {
                        self.encryption = EncryptionMethods::VigenereCipher;
                    }
                    self.current_screen = CurrentScreen::ChoosingMode;
                    proof {
                        assert(n <= 2 ==> self.inputs@ =~= inputs_of(method_at(n)));
                        if n <= 2 && old(self).currently_editing == Inputs::Keyword {
                            if n == 2 {
                                assert(self.inputs@[0] == Inputs::InputText);
                            } else {
                                assert(self.inputs@[0] == Inputs::Keyword);
                            }
                        }
                    }
                }
            },
            CurrentScreen::ChoosingMode => {
                if let Some(n) = selected {
                    if n == 1 {
                        self.selected_mode = SelectedMode::Decrypt;
                    } else {
                        self.selected_mode = SelectedMode::Encrypt;
                    }
                    self.current_screen = CurrentScreen::InputtingValues;
                }
            },
            _ => {},
        }
    }

    /// The field that the tabulator leads to: with Morse code the field being
    /// edited stays; else it is the field after the first occurrence of the
    /// one being edited, and the first field after the last.
    pub fn next_input(&self) -> (next: Inputs)
        requires
            self.encryption != EncryptionMethods::MorseCode ==> self.editing_listed(),
        ensures
            next == if self.encryption == EncryptionMethods::MorseCode {
                self.currently_editing
            } else {
                field_after(self.inputs@, self.currently_editing)
            },
    {
        match self.encryption {
            EncryptionMethods::MorseCode => self.currently_editing,
            _ => {
                let index = position_of_input(&self.inputs, self.currently_editing);
                if index < self.inputs.len() - 1 {
                    self.inputs[index + 1]
                } else {
                    self.inputs[0]
                }
            },
        }
    }

    /// Moves the editing to the field that the tabulator leads to: see
    /// [`Session::next_input`]. Nothing else changes.
    pub fn focus_next(&mut self)
        requires
            old(self).encryption != EncryptionMethods::MorseCode ==> old(self).editing_listed(),
        ensures
            final(self).currently_editing == if old(self).encryption
                == EncryptionMethods::MorseCode {
                old(self).currently_editing
            } else {
                field_after(old(self).inputs@, old(self).currently_editing)
            },
            final(self).current_screen == old(self).current_screen,
            final(self).encryption == old(self).encryption,
            final(self).selected_mode == old(self).selected_mode,
            final(self).inputs@ == old(self).inputs@,
            old(self).wf() && old(self).current_screen != CurrentScreen::ChoosingEncryption
                ==> final(self).wf(),
    {
        let next = self.next_input();
        proof {
            if self.encryption != EncryptionMethods::MorseCode {
                lemma_first_position(self.inputs@, self.currently_editing);
                let i = first_position(self.inputs@, self.currently_editing);
                if i < self.inputs@.len() - 1 {
                    assert(self.inputs@[i + 1] == next);
                } else {
                    assert(self.inputs@[0] == next);
                }
                assert(self.inputs@.contains(next));
            }
        }
        self.currently_editing = next;
    }

    /// Leaves the input screen for the result screen; on every other screen
    /// nothing changes.
    pub fn submit(&mut self)
        ensures
            final(self).current_screen == if old(self).current_screen
                == CurrentScreen::InputtingValues {
                CurrentScreen::SeeingResult
            } else {
                old(self).current_screen
            },
            final(self).encryption == old(self).encryption,
            final(self).selected_mode == old(self).selected_mode,
            final(self).inputs@ == old(self).inputs@,
            final(self).currently_editing == old(self).currently_editing,
            old(self).wf() ==> final(self).wf(),
    {
        if self.current_screen == CurrentScreen::InputtingValues {
            self.current_screen = CurrentScreen::SeeingResult;
        }
    }
}

/// A text as the Vigenère and ADFGVX ciphers take it from the user: without
/// whitespace, without the stripped punctuation marks, upper-cased.
pub open spec fn clean(s: Seq<char>) -> Seq<char> {
    upper(trim(strip_marks(strip_whitespace(s))))
}

/// Cleans a text that the user typed: see [`clean`].
pub fn clean_text(s: String) -> (r: String)
    ensures
        r@ == clean(s@),
{
    let mut t = s;
    remove_whitespace(&mut t);
    remove_punctuation(t.as_str())
}

/// What running a cipher gives: the text that comes out, beside the Morse
/// patterns that were not recognised, or the error. Vigenère and ADFGVX
/// work on the cleaned text and the cleaned keyword; Morse code takes the
/// text as it is and uses no key.
pub open spec fn transform_outcome(
    method: EncryptionMethods,
    mode: SelectedMode,
    text: Seq<char>,
    keyword: Seq<char>,
    column_key: Seq<u8>,
) -> Result<(Seq<char>, Seq<Seq<char>>), CipherError> {
    let none = Seq::<Seq<char>>::empty();
    match (method, mode) {
        (EncryptionMethods::VigenereCipher, SelectedMode::Encrypt) => if usable_keyword(
            clean(keyword),
        ) {
            Ok((vigenere_encrypt_keyword(clean(text), clean(keyword)), none))
        } else {
            Err(CipherError::InvalidKey)
        },
        (EncryptionMethods::VigenereCipher, SelectedMode::Decrypt) => if usable_keyword(
            clean(keyword),
        ) {
            Ok((vigenere_decrypt(clean(text), clean(keyword)), none))
        } else {
            Err(CipherError::InvalidKey)
        },
        (EncryptionMethods::ADFGVX, SelectedMode::Encrypt) => if !(valid_keyword(clean(keyword))
            && valid_column_key(column_key)) {
            Err(CipherError::InvalidKey)
        } else if !encodable(clean(text)) {
            Err(CipherError::InvalidCharacter)
        } else {
            Ok((adfgvx_encrypt(clean(text), clean(keyword), column_key), none))
        },
        (EncryptionMethods::ADFGVX, SelectedMode::Decrypt) => if !(valid_keyword(clean(keyword))
            && valid_column_key(column_key)) {
            Err(CipherError::InvalidKey)
        } else if !well_formed_ciphertext(clean(text)) {
            Err(CipherError::MalformedCiphertext)
        } else {
            Ok((adfgvx_decrypt(clean(text), clean(keyword), column_key), none))
        },
        (EncryptionMethods::MorseCode, SelectedMode::Encrypt) => if morse_encodable(text) {
            Ok((morse_encrypt(text), none))
        } else {
            Err(CipherError::InvalidCharacter)
        },
        (EncryptionMethods::MorseCode, SelectedMode::Decrypt) => Ok(
            (morse_decrypt(text), morse_unknown(text)),
        ),
    }
}

/// Runs the cipher `method` in the direction `mode` on what the user
/// entered, and returns the text that comes out with the Morse patterns
/// that were not recognised, or the error of the cipher.
pub fn transform(
    method: EncryptionMethods,
    mode: SelectedMode,
    text: String,
    keyword: String,
    column_key: Vec<u8>,
) -> (r: Result<(String, Vec<String>), CipherError>)
    ensures
        match r {
            Ok((out, unknown)) => transform_outcome(method, mode, text@, keyword@, column_key@)
                == Ok::<(Seq<char>, Seq<Seq<char>>), CipherError>((out@, string_views(unknown@))),
            Err(e) => transform_outcome(method, mode, text@, keyword@, column_key@) == Err::<
                (Seq<char>, Seq<Seq<char>>),
                CipherError,
            >(e),
        },
{
    let result = match method {
        EncryptionMethods::VigenereCipher => {
            let body = clean_text(text);
            let key = clean_text(keyword);
            match mode {
                SelectedMode::Encrypt => encrypt(body, key),
                SelectedMode::Decrypt => decrypt(body, key),
            }
        },
        EncryptionMethods::ADFGVX => {
            let body = clean_text(text);
            let key = clean_text(keyword);
            match mode {
                SelectedMode::Encrypt => encrypt_adfgvx(body, key, column_key),
                SelectedMode::Decrypt => decrypt_adfgvx(body, key, column_key),
            }
        },
        EncryptionMethods::MorseCode => {
            match mode {
                SelectedMode::Encrypt => encrypt_morse_code(text),
                SelectedMode::Decrypt => {
                    return Ok(decrypt_morse_code(text));
                },
            }
        },
    };
    match result {
        Ok(out) => {
            let unknown: Vec<String> = Vec::new();
            assert(string_views(unknown@) =~= Seq::<Seq<char>>::empty());
            Ok((out, unknown))
        },
        Err(e) => Err(e),
    }
}

} // verus!
