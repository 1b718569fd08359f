//! International Morse Code.
use vstd::prelude::*;
use crate::error::CipherError;
use crate::text::{
    char_is_whitespace, char_to_upper, from_chars, is_whitespace, lemma_word_chars,
    split_whitespace_chars, split_words, to_chars, to_upper, upper, views,
};

verus! {

/// The Morse table: each character that has a pattern, with its pattern of
/// dots and dashes. No character and no pattern occurs twice.
pub open spec fn morse_table() -> Seq<(char, Seq<char>)> {
    seq![
        ('A', ".-"@),
        ('B', "-..."@),
        ('C', "-.-."@),
        ('D', "-.."@),
        ('E', "."@),
        ('F', "..-."@),
        ('G', "--."@),
        ('H', "...."@),
        ('I', ".."@),
        ('J', ".---"@),
        ('K', "-.-"@),
        ('L', ".-.."@),
        ('M', "--"@),
        ('N', "-."@),
        ('O', "---"@),
        ('P', ".--."@),
        ('Q', "--.-"@),
        ('R', ".-."@),
        ('S', "..."@),
        ('T', "-"@),
        ('U', "..-"@),
        ('V', "...-"@),
        ('W', ".--"@),
        ('X', "-..-"@),
        ('Y', "-.--"@),
        ('Z', "--.."@),
        ('1', ".----"@),
        ('2', "..---"@),
        ('3', "...--"@),
        ('4', "....-"@),
        ('5', "....."@),
        ('6', "-...."@),
        ('7', "--..."@),
        ('8', "---.."@),
        ('9', "----."@),
        ('0', "-----"@),
        ('.', ".-.-.-"@),
        (',', "--..--"@),
        ('?', "..--.."@),
        ('\'', ".----."@),
        ('!', "-.-.--"@),
        ('/', "-..-."@),
        ('(', "-.--."@),
        (')', "-.--.-"@),
        ('&', ".-..."@),
        (':', "---..."@),
        (';', "-.-.-."@),
        ('=', "-...-"@),
        ('+', ".-.-."@),
        ('-', "-....-"@),
        ('_', "..--.-"@),
        ('"', ".-..-."@),
        ('$', "...-..-"@),
        ('@', ".--.-."@),
    ]
}

/// The pattern that the table `t` gives for the character `c`.
pub open spec fn find_pattern(t: Seq<(char, Seq<char>)>, c: char) -> Option<Seq<char>>
    decreases t.len(),
{
    if t.len() == 0 {
        None
    } else if t[0].0 == c {
        Some(t[0].1)
    } else {
        find_pattern(t.drop_first(), c)
    }
}

/// The character for which the table `t` gives the pattern `p`.
pub open spec fn find_symbol(t: Seq<(char, Seq<char>)>, p: Seq<char>) -> Option<char>
    decreases t.len(),
{
    if t.len() == 0 {
        None
    } else if t[0].1 == p {
        Some(t[0].0)
    } else {
        find_symbol(t.drop_first(), p)
    }
}

/// The Morse pattern of `c`, if it has one.
pub open spec fn morse_pattern(c: char) -> Option<Seq<char>> {
    find_pattern(morse_table(), c)
}

/// The character with the Morse pattern `p`, if there is one.
pub open spec fn morse_symbol(p: Seq<char>) -> Option<char> {
    find_symbol(morse_table(), p)
}

/// Tells whether `table` holds the entries of [`morse_table`].
pub open spec fn is_morse_table(table: Seq<(char, &'static str)>) -> bool {
    &&& table.len() == morse_table().len()
    &&& forall|i: int|
        0 <= i < table.len() ==> (#[trigger] table[i]).0 == morse_table()[i].0 && table[i].1@
            == morse_table()[i].1
}

/// Builds the Morse table.
pub fn morse_code_map() -> (table: Vec<(char, &'static str)>)
    ensures
        is_morse_table(table@),
{
    let mut table: Vec<(char, &'static str)> = Vec::new();
    table.push(('A', ".-"));
    table.push(('B', "-..."));
    table.push(('C', "-.-."));
    table.push(('D', "-.."));
    table.push(('E', "."));
    table.push(('F', "..-."));
    table.push(('G', "--."));
    table.push(('H', "...."));
    table.push(('I', ".."));
    table.push(('J', ".---"));
    table.push(('K', "-.-"));
    table.push(('L', ".-.."));
    table.push(('M', "--"));
    table.push(('N', "-."));
    table.push(('O', "---"));
    table.push(('P', ".--."));
    table.push(('Q', "--.-"));
    table.push(('R', ".-."));
    table.push(('S', "..."));
    table.push(('T', "-"));
    table.push(('U', "..-"));
    table.push(('V', "...-"));
    table.push(('W', ".--"));
    table.push(('X', "-..-"));
    table.push(('Y', "-.--"));
    table.push(('Z', "--.."));
    table.push(('1', ".----"));
    table.push(('2', "..---"));
    table.push(('3', "...--"));
    table.push(('4', "....-"));
    table.push(('5', "....."));
    table.push(('6', "-...."));
    table.push(('7', "--..."));
    table.push(('8', "---.."));
    table.push(('9', "----."));
    table.push(('0', "-----"));
    table.push(('.', ".-.-.-"));
    table.push((',', "--..--"));
    table.push(('?', "..--.."));
    table.push(('\'', ".----."));
    table.push(('!', "-.-.--"));
    table.push(('/', "-..-."));
    table.push(('(', "-.--."));
    table.push((')', "-.--.-"));
    table.push(('&', ".-..."));
    table.push((':', "---..."));
    table.push((';', "-.-.-."));
    table.push(('=', "-...-"));
    table.push(('+', ".-.-."));
    table.push(('-', "-....-"));
    table.push(('_', "..--.-"));
    table.push(('"', ".-..-."));
    table.push(('$', "...-..-"));
    table.push(('@', ".--.-."));
    table
}

/// A pattern is made of dots and dashes, one at least.
pub open spec fn is_dot_dash(p: Seq<char>) -> bool {
    &&& p.len() >= 1
    &&& forall|j: int| 0 <= j < p.len() ==> #[trigger] p[j] == '.' || p[j] == '-'
}

/// Every pattern of the table is made of dots and dashes.
pub proof fn lemma_table_patterns()
    ensures
        morse_table().len() == 54,
        forall|i: int| 0 <= i < 54 ==> is_dot_dash(#[trigger] morse_table()[i].1),
{
    reveal_strlit(".-");
    reveal_strlit("-...");
    reveal_strlit("-.-.");
    reveal_strlit("-..");
    reveal_strlit(".");
    reveal_strlit("..-.");
    reveal_strlit("--.");
    reveal_strlit("....");
    reveal_strlit("..");
    reveal_strlit(".---");
    reveal_strlit("-.-");
    reveal_strlit(".-..");
    reveal_strlit("--");
    reveal_strlit("-.");
    reveal_strlit("---");
    reveal_strlit(".--.");
    reveal_strlit("--.-");
    reveal_strlit(".-.");
    reveal_strlit("...");
    reveal_strlit("-");
    reveal_strlit("..-");
    reveal_strlit("...-");
    reveal_strlit(".--");
    reveal_strlit("-..-");
    reveal_strlit("-.--");
    reveal_strlit("--..");
    reveal_strlit(".----");
    reveal_strlit("..---");
    reveal_strlit("...--");
    reveal_strlit("....-");
    reveal_strlit(".....");
    reveal_strlit("-....");
    reveal_strlit("--...");
    reveal_strlit("---..");
    reveal_strlit("----.");
    reveal_strlit("-----");
    reveal_strlit(".-.-.-");
    reveal_strlit("--..--");
    reveal_strlit("..--..");
    reveal_strlit(".----.");
    reveal_strlit("-.-.--");
    reveal_strlit("-..-.");
    reveal_strlit("-.--.");
    reveal_strlit("-.--.-");
    reveal_strlit(".-...");
    reveal_strlit("---...");
    reveal_strlit("-.-.-.");
    reveal_strlit("-...-");
    reveal_strlit(".-.-.");
    reveal_strlit("-....-");
    reveal_strlit("..--.-");
    reveal_strlit(".-..-.");
    reveal_strlit("...-..-");
    reveal_strlit(".--.-.");
}

/// A number that tells patterns of dots and dashes apart: the binary
/// number with a leading one, then a zero for each dot and a one for each
/// dash.
pub open spec fn pattern_code(p: Seq<char>) -> int
    decreases p.len(),
{
    if p.len() == 0 {
        1
    } else {
        2 * pattern_code(p.drop_last()) + if p.last() == '-' {
            1int
        } else {
            0int
        }
    }
}

/// The code of the pattern of entry `i` of the table.
pub open spec fn table_code(i: int) -> int {
    if i == 0 {
        5
    } else if i == 1 {
        24
    } else if i == 2 {
        26
    } else if i == 3 {
        12
    } else if i == 4 {
        2
    } else if i == 5 {
        18
    } else if i == 6 {
        14
    } else if i == 7 {
        16
    } else if i == 8 {
        4
    } else if i == 9 {
        23
    } else if i == 10 {
        13
    } else if i == 11 {
        20
    } else if i == 12 {
        7
    } else if i == 13 {
        6
    } else if i == 14 {
        15
    } else if i == 15 {
        22
    } else if i == 16 {
        29
    } else if i == 17 {
        10
    } else if i == 18 {
        8
    } else if i == 19 {
        3
    } else if i == 20 {
        9
    } else if i == 21 {
        17
    } else if i == 22 {
        11
    } else if i == 23 {
        25
    } else if i == 24 {
        27
    } else if i == 25 {
        28
    } else if i == 26 {
        47
    } else if i == 27 {
        39
    } else if i == 28 {
        35
    } else if i == 29 {
        33
    } else if i == 30 {
        32
    } else if i == 31 {
        48
    } else if i == 32 {
        56
    } else if i == 33 {
        60
    } else if i == 34 {
        62
    } else if i == 35 {
        63
    } else if i == 36 {
        85
    } else if i == 37 {
        115
    } else if i == 38 {
        76
    } else if i == 39 {
        94
    } else if i == 40 {
        107
    } else if i == 41 {
        50
    } else if i == 42 {
        54
    } else if i == 43 {
        109
    } else if i == 44 {
        40
    } else if i == 45 {
        120
    } else if i == 46 {
        106
    } else if i == 47 {
        49
    } else if i == 48 {
        42
    } else if i == 49 {
        97
    } else if i == 50 {
        77
    } else if i == 51 {
        82
    } else if i == 52 {
        137
    } else {
        90
    }
}

/// The code point of the character of entry `i` of the table.
pub open spec fn table_point(i: int) -> int {
    if i == 0 {
        65
    } else if i == 1 {
        66
    } else if i == 2 {
        67
    } else if i == 3 {
        68
    } else if i == 4 {
        69
    } else if i == 5 {
        70
    } else if i == 6 {
        71
    } else if i == 7 {
        72
    } else if i == 8 {
        73
    } else if i == 9 {
        74
    } else if i == 10 {
        75
    } else if i == 11 {
        76
    } else if i == 12 {
        77
    } else if i == 13 {
        78
    } else if i == 14 {
        79
    } else if i == 15 {
        80
    } else if i == 16 {
        81
    } else if i == 17 {
        82
    } else if i == 18 {
        83
    } else if i == 19 {
        84
    } else if i == 20 {
        85
    } else if i == 21 {
        86
    } else if i == 22 {
        87
    } else if i == 23 {
        88
    } else if i == 24 {
        89
    } else if i == 25 {
        90
    } else if i == 26 {
        49
    } else if i == 27 {
        50
    } else if i == 28 {
        51
    } else if i == 29 {
        52
    } else if i == 30 {
        53
    } else if i == 31 {
        54
    } else if i == 32 {
        55
    } else if i == 33 {
        56
    } else if i == 34 {
        57
    } else if i == 35 {
        48
    } else if i == 36 {
        46
    } else if i == 37 {
        44
    } else if i == 38 {
        63
    } else if i == 39 {
        39
    } else if i == 40 {
        33
    } else if i == 41 {
        47
    } else if i == 42 {
        40
    } else if i == 43 {
        41
    } else if i == 44 {
        38
    } else if i == 45 {
        58
    } else if i == 46 {
        59
    } else if i == 47 {
        61
    } else if i == 48 {
        43
    } else if i == 49 {
        45
    } else if i == 50 {
        95
    } else if i == 51 {
        34
    } else if i == 52 {
        36
    } else {
        64
    }
}

/// Entry `i` of the table has the character and the pattern that
/// [`table_point`] and [`table_code`] give.
pub proof fn lemma_table_codes(i: int)
    requires
        0 <= i < 54,
    ensures
        morse_table()[i].0 as int == table_point(i),
        pattern_code(morse_table()[i].1) == table_code(i),
{
    reveal_with_fuel(pattern_code, 9);
    reveal_strlit(".-");
    reveal_strlit("-...");
    reveal_strlit("-.-.");
    reveal_strlit("-..");
    reveal_strlit(".");
    reveal_strlit("..-.");
    reveal_strlit("--.");
    reveal_strlit("....");
    reveal_strlit("..");
    reveal_strlit(".---");
    reveal_strlit("-.-");
    reveal_strlit(".-..");
    reveal_strlit("--");
    reveal_strlit("-.");
    reveal_strlit("---");
    reveal_strlit(".--.");
    reveal_strlit("--.-");
    reveal_strlit(".-.");
    reveal_strlit("...");
    reveal_strlit("-");
    reveal_strlit("..-");
    reveal_strlit("...-");
    reveal_strlit(".--");
    reveal_strlit("-..-");
    reveal_strlit("-.--");
    reveal_strlit("--..");
    reveal_strlit(".----");
    reveal_strlit("..---");
    reveal_strlit("...--");
    reveal_strlit("....-");
    reveal_strlit(".....");
    reveal_strlit("-....");
    reveal_strlit("--...");
    reveal_strlit("---..");
    reveal_strlit("----.");
    reveal_strlit("-----");
    reveal_strlit(".-.-.-");
    reveal_strlit("--..--");
    reveal_strlit("..--..");
    reveal_strlit(".----.");
    reveal_strlit("-.-.--");
    reveal_strlit("-..-.");
    reveal_strlit("-.--.");
    reveal_strlit("-.--.-");
    reveal_strlit(".-...");
    reveal_strlit("---...");
    reveal_strlit("-.-.-.");
    reveal_strlit("-...-");
    reveal_strlit(".-.-.");
    reveal_strlit("-....-");
    reveal_strlit("..--.-");
    reveal_strlit(".-..-.");
    reveal_strlit("...-..-");
    reveal_strlit(".--.-.");
}

/// No two entries of the table have the same character or the same
/// pattern.
pub proof fn lemma_table_distinct()
    ensures
        forall|i: int, j: int|
            0 <= i < j < 54 ==> (#[trigger] morse_table()[i]).0 != (#[trigger] morse_table()[j]).0
                && morse_table()[i].1 != morse_table()[j].1,
{
    assert forall|i: int, j: int| 0 <= i < j < 54 implies (#[trigger] morse_table()[i]).0 != (
    #[trigger] morse_table()[j]).0 && morse_table()[i].1 != morse_table()[j].1 by {
        lemma_table_codes(i);
        lemma_table_codes(j);
        assert(table_point(i) != table_point(j));
        assert(table_code(i) != table_code(j));
    }
}

/// Looks up the pattern of `c` in the table.
pub fn pattern_of(table: &Vec<(char, &'static str)>, c: char) -> (r: Option<&'static str>)
    requires
        is_morse_table(table@),
    ensures
        match r {
            Some(p) => morse_pattern(c) == Some(p@),
            None => morse_pattern(c) is None,
        },
{
    let mut i: usize = 0;
    assert(morse_table().skip(0) =~= morse_table());
    while i < table.len()
        invariant
            i <= table.len(),
            is_morse_table(table@),
            morse_pattern(c) == find_pattern(morse_table().skip(i as int), c),
        decreases table.len() - i,
    {
        proof {
            assert(morse_table().skip(i as int).drop_first() =~= morse_table().skip(i + 1));
        }
        if table[i].0 == c {
            return Some(table[i].1);
        }
        i += 1;
    }
    None
}

/// Tells whether two vectors hold the same characters.
pub fn same_chars(a: &Vec<char>, b: &Vec<char>) -> (r: bool)
    ensures
        r == (a@ == b@),
{
    if a.len() != b.len() {
        return false;
    }
    let mut i: usize = 0;
    while i < a.len()
        invariant
            i <= a.len(),
            a.len() == b.len(),
            forall|j: int| 0 <= j < i ==> a@[j] == b@[j],
        decreases a.len() - i,
    {
        if a[i] != b[i] {
            return false;
        }
        i += 1;
    }
    assert(a@ =~= b@);
    true
}

/// Looks up the character of `pattern` in the table.
pub fn symbol_of(table: &Vec<(char, &'static str)>, pattern: &Vec<char>) -> (r: Option<char>)
    requires
        is_morse_table(table@),
    ensures
        r == morse_symbol(pattern@),
{
    let mut i: usize = 0;
    assert(morse_table().skip(0) =~= morse_table());
    while i < table.len()
        invariant
            i <= table.len(),
            is_morse_table(table@),
            morse_symbol(pattern@) == find_symbol(morse_table().skip(i as int), pattern@),
        decreases table.len() - i,
    {
        proof {
            assert(morse_table().skip(i as int).drop_first() =~= morse_table().skip(i + 1));
        }
        let entry = to_chars(table[i].1);
        if same_chars(&entry, pattern) {
            return Some(table[i].0);
        }
        i += 1;
    }
    None
}

/// The pattern of `c`, upper-cased; nothing where it has none.
pub open spec fn pattern_or_empty(c: char) -> Seq<char> {
    match morse_pattern(to_upper(c)) {
        Some(p) => p,
        None => Seq::empty(),
    }
}

/// The patterns of the characters of `w`, single spaces between them.
pub open spec fn encode_word(w: Seq<char>) -> Seq<char>
    decreases w.len(),
{
    if w.len() == 0 {
        Seq::empty()
    } else if w.len() == 1 {
        pattern_or_empty(w[0])
    } else {
        encode_word(w.drop_last()) + seq![' '] + pattern_or_empty(w.last())
    }
}

/// The encoded words, the separator space, slash, space between them.
pub open spec fn join_words(words: Seq<Seq<char>>) -> Seq<char>
    decreases words.len(),
{
    if words.len() == 0 {
        Seq::empty()
    } else if words.len() == 1 {
        encode_word(words[0])
    } else {
        join_words(words.drop_last()) + seq![' ', '/', ' '] + encode_word(words.last())
    }
}

/// The Morse code of `plaintext`: its encoded words joined, and a space
/// after the last pattern; nothing for a text without words.
pub open spec fn morse_encrypt(plaintext: Seq<char>) -> Seq<char> {
    let words = split_words(plaintext);
    if words.len() == 0 {
        Seq::empty()
    } else {
        join_words(words) + seq![' ']
    }
}

/// A text can be put in Morse code where each of its characters is
/// whitespace or, upper-cased, has a pattern.
pub open spec fn morse_encodable(p: Seq<char>) -> bool {
    forall|i: int|
        0 <= i < p.len() ==> is_whitespace(#[trigger] p[i]) || morse_pattern(to_upper(p[i])) is Some
}

/// Tells whether `text` can be put in Morse code.
pub fn check_encodable(table: &Vec<(char, &'static str)>, text: &Vec<char>) -> (b: bool)
    requires
        is_morse_table(table@),
    ensures
        b == morse_encodable(text@),
{
    let mut i: usize = 0;
    while i < text.len()
        invariant
            i <= text.len(),
            is_morse_table(table@),
            forall|j: int|
                0 <= j < i ==> is_whitespace(#[trigger] text@[j]) || morse_pattern(
                    to_upper(text@[j]),
                ) is Some,
        decreases text.len() - i,
    {
        if !char_is_whitespace(text[i]) && pattern_of(table, char_to_upper(text[i])).is_none() {
            return false;
        }
        i += 1;
    }
    true
}

/// Puts `plaintext` in Morse code: the text is split at whitespace into
/// words; each character gives its pattern, looked up upper-cased; within
/// a word the patterns are separated by single spaces, the words by space,
/// slash, space, and a space follows the last pattern.
///
/// Fails with `InvalidCharacter` where a character that is no whitespace
/// has no pattern.
pub fn encrypt_morse_code(plaintext: String) -> (r: Result<String, CipherError>)
    ensures
        morse_encodable(plaintext@) ==> r is Ok && r->Ok_0@ == morse_encrypt(plaintext@),
        !morse_encodable(plaintext@) ==> r == Err::<String, CipherError>(
            CipherError::InvalidCharacter,
        ),
{
    let text = to_chars(plaintext.as_str());
    let table = morse_code_map();
    if !check_encodable(&table, &text) {
        return Err(CipherError::InvalidCharacter);
    }
    let words = split_whitespace_chars(&text);
    let ghost all = views(words@);
    proof {
        lemma_word_chars(text@);
    }
    let mut out: Vec<char> = Vec::new();
    let mut k: usize = 0;
    while k < words.len()
        invariant
            k <= words.len(),
            is_morse_table(table@),
            all == views(words@),
            all == split_words(text@),
            morse_encodable(text@),
            forall|w: int| 0 <= w < all.len() ==> (#[trigger] all[w]).len() > 0,
            forall|w: int, j: int|
                0 <= w < all.len() && 0 <= j < all[w].len() ==> text@.contains(
                    #[trigger] all[w][j],
                ) && !is_whitespace(all[w][j]),
            k == 0 ==> out@ == Seq::<char>::empty(),
            k > 0 ==> out@ == join_words(all.take(k as int)) + seq![' '],
        decreases words.len() - k,
    {
        if k != 0 {
            out.push('/');
            out.push(' ');
        }
        let ghost prefix = out@;
        let word = &words[k];
        assert(word@ == all[k as int]);
        let mut j: usize = 0;
        while j < word.len()
            invariant
                j <= word.len(),
                k < words.len(),
                is_morse_table(table@),
                word@ == all[k as int],
                all.len() == words.len(),
                morse_encodable(text@),
                forall|w: int, j: int|
                    0 <= w < all.len() && 0 <= j < all[w].len() ==> text@.contains(
                        #[trigger] all[w][j],
                    ) && !is_whitespace(all[w][j]),
                j == 0 ==> out@ == prefix,
                j > 0 ==> out@ == prefix + encode_word(word@.take(j as int)) + seq![' '],
            decreases word.len() - j,
        {
            let c = word[j];
            proof {
                assert(c == all[k as int][j as int]);
                assert(text@.contains(c));
                let m = choose|m: int| 0 <= m < text@.len() && text@[m] == c;
                assert(is_whitespace(text@[m]) || morse_pattern(to_upper(text@[m])) is Some);
                assert(word@.take(j + 1).drop_last() =~= word@.take(j as int));
            }
            match pattern_of(&table, char_to_upper(c)) {
                Some(p) => {
                    let mut pattern = to_chars(p);
                    let ghost before = out@;
                    out.append(&mut pattern);
                    out.push(' ');
                    proof {
                        if j == 0 {
                            assert(out@ =~= prefix + encode_word(word@.take(1)) + seq![' ']);
                        } else {
                            assert(out@ =~= prefix + encode_word(word@.take(j + 1)) + seq![' ']);
                        }
                    }
                },
                None => {
                    return Err(CipherError::InvalidCharacter);
                },
            }
            j += 1;
        }
        proof {
            assert(word@.take(word@.len() as int) =~= word@);
            assert(all.take(k + 1).drop_last() =~= all.take(k as int));
            assert(all.take(k + 1).last() == word@);
            if k == 0 {
                assert(out@ =~= join_words(all.take(1)) + seq![' ']);
            } else {
                assert(out@ =~= join_words(all.take(k + 1)) + seq![' ']);
            }
        }
        k += 1;
    }
    assert(all.take(all.len() as int) =~= all);
    Ok(from_chars(&out))
}

/// Tells whether the word separator, space, slash, space, stands at
/// position `i` of `s`.
pub open spec fn separator_at(s: Seq<char>, i: int) -> bool {
    &&& 0 <= i
    &&& i + 3 <= s.len()
    &&& s[i] == ' '
    &&& s[i + 1] == '/'
    &&& s[i + 2] == ' '
}

/// The position of the first separator of `s` at or after `from`; the
/// length of `s` where there is none.
pub open spec fn separator_position(s: Seq<char>, from: int) -> int
    decreases s.len() - from,
{
    if from < 0 || from + 3 > s.len() {
        s.len() as int
    } else if separator_at(s, from) {
        from
    } else {
        separator_position(s, from + 1)
    }
}

/// The pieces of `s` between its separators, found from left to right,
/// none overlapping another.
pub open spec fn split_at_separators(s: Seq<char>) -> Seq<Seq<char>>
    decreases s.len(),
{
    let i = separator_position(s, 0);
    if 0 <= i && i + 3 <= s.len() {
        seq![s.take(i)] + split_at_separators(s.skip(i + 3))
    } else {
        seq![s]
    }
}

/// The characters that the patterns of `ps` stand for; a pattern that the
/// table lacks gives nothing.
pub open spec fn decode_patterns(ps: Seq<Seq<char>>) -> Seq<char>
    decreases ps.len(),
{
    if ps.len() == 0 {
        Seq::empty()
    } else {
        match morse_symbol(ps.last()) {
            Some(c) => decode_patterns(ps.drop_last()).push(c),
            None => decode_patterns(ps.drop_last()),
        }
    }
}

/// The patterns of `ps` that the table lacks, in order.
pub open spec fn unknown_patterns(ps: Seq<Seq<char>>) -> Seq<Seq<char>>
    decreases ps.len(),
{
    if ps.len() == 0 {
        Seq::empty()
    } else {
        match morse_symbol(ps.last()) {
            Some(c) => unknown_patterns(ps.drop_last()),
            None => unknown_patterns(ps.drop_last()).push(ps.last()),
        }
    }
}

/// The decoded pieces, each followed by a space.
pub open spec fn decode_pieces(pieces: Seq<Seq<char>>) -> Seq<char>
    decreases pieces.len(),
{
    if pieces.len() == 0 {
        Seq::empty()
    } else {
        decode_pieces(pieces.drop_last()) + decode_patterns(split_words(pieces.last())) + seq![' ']
    }
}

/// The patterns in `pieces` that the table lacks, in order.
pub open spec fn unknown_in_pieces(pieces: Seq<Seq<char>>) -> Seq<Seq<char>>
    decreases pieces.len(),
{
    if pieces.len() == 0 {
        Seq::empty()
    } else {
        unknown_in_pieces(pieces.drop_last()) + unknown_patterns(split_words(pieces.last()))
    }
}

/// The text that the Morse code `ciphertext` stands for.
pub open spec fn morse_decrypt(ciphertext: Seq<char>) -> Seq<char> {
    decode_pieces(split_at_separators(ciphertext))
}

/// The patterns of `ciphertext` that the table lacks.
pub open spec fn morse_unknown(ciphertext: Seq<char>) -> Seq<Seq<char>> {
    unknown_in_pieces(split_at_separators(ciphertext))
}

/// The sequences that the strings of `v` hold.
pub open spec fn string_views(v: Seq<String>) -> Seq<Seq<char>> {
    Seq::new(v.len(), |i: int| v[i]@)
}

/// Where no separator stands at `from` or up to `to`, the first separator
/// from `from` on is the first from `to` on.
pub proof fn lemma_separator_skip(s: Seq<char>, from: int, to: int)
    requires
        0 <= from <= to,
        forall|j: int| from <= j < to ==> !separator_at(s, j),
    ensures
        separator_position(s, from) == separator_position(s, to),
    decreases to - from,
{
    if from < to {
        lemma_separator_skip(s, from + 1, to);
    }
}

/// Splits `v` at the word separators.
pub fn split_separator_chars(v: &Vec<char>) -> (pieces: Vec<Vec<char>>)
    ensures
        views(pieces@) == split_at_separators(v@),
{
    let mut pieces: Vec<Vec<char>> = Vec::new();
    let mut current: Vec<char> = Vec::new();
    let mut start: usize = 0;
    let mut i: usize = 0;
    proof {
        assert(v@.skip(0) =~= v@);
        assert(views(pieces@) + split_at_separators(v@) =~= split_at_separators(v@));
    }
    while i < v.len()
        invariant
            start <= i <= v.len(),
            current@ == v@.subrange(start as int, i as int),
            forall|j: int| 0 <= j < i - start ==> !separator_at(v@.skip(start as int), j),
            split_at_separators(v@) == views(pieces@) + split_at_separators(v@.skip(start as int)),
        decreases v.len() - i,
    {
        let ghost rest = v@.skip(start as int);
        if v.len() - i >= 3 && v[i] == ' ' && v[i + 1] == '/' && v[i + 2] == ' ' {
            proof {
                assert(separator_at(rest, i - start));
                lemma_separator_skip(rest, 0, i - start);
                assert(separator_position(rest, 0) == i - start);
                assert(rest.take(i - start) =~= current@);
                assert(rest.skip(i - start + 3) =~= v@.skip(i + 3));
            }
            let ghost old_pieces = pieces@;
            pieces.push(current);
            current = Vec::new();
            i += 3;
            start = i;
            proof {
                assert(views(pieces@) =~= views(old_pieces) + seq![pieces@.last()@]);
                assert(v@.subrange(start as int, i as int) =~= current@);
            }
        } else {
            proof {
                assert(!separator_at(rest, i - start));
                assert(v@.subrange(start as int, i + 1) =~= v@.subrange(
                    start as int,
                    i as int,
                ).push(v@[i as int]));
            }
            current.push(v[i]);
            i += 1;
        }
    }
    proof {
        let rest = v@.skip(start as int);
        lemma_separator_skip(rest, 0, rest.len() as int);
        assert(rest =~= current@);
    }
    let ghost old_pieces = pieces@;
    pieces.push(current);
    proof {
        assert(views(pieces@) =~= views(old_pieces) + seq![pieces@.last()@]);
    }
    pieces
}

/// Reads Morse code back: the text is split at the word separators; each
/// piece is split at whitespace into patterns; each pattern that the table
/// holds gives its character, and a space follows every piece. The
/// patterns that the table lacks give no character; they are returned
/// beside the text, in order.
pub fn decrypt_morse_code(encrypted_string: String) -> (r: (String, Vec<String>))
    ensures
        r.0@ == morse_decrypt(encrypted_string@),
        string_views(r.1@) == morse_unknown(encrypted_string@),
{
    let morse_code = morse_code_map();
    let chars = to_chars(encrypted_string.as_str());
    let words = split_separator_chars(&chars);
    let ghost pieces = views(words@);
    let mut plaintext: Vec<char> = Vec::new();
    let mut unknown: Vec<String> = Vec::new();
    let mut k: usize = 0;
    assert(string_views(unknown@) =~= unknown_in_pieces(pieces.take(0)));
    while k < words.len()
        invariant
            k <= words.len(),
            is_morse_table(morse_code@),
            pieces == views(words@),
            plaintext@ == decode_pieces(pieces.take(k as int)),
            string_views(unknown@) == unknown_in_pieces(pieces.take(k as int)),
        decreases words.len() - k,
    {
        let patterns = split_whitespace_chars(&words[k]);
        let ghost ps = views(patterns@);
        let ghost text_before = plaintext@;
        let ghost unknown_before = string_views(unknown@);
        let mut j: usize = 0;
        assert(string_views(unknown@) =~= unknown_before + unknown_patterns(ps.take(0)));
        while j < patterns.len()
            invariant
                j <= patterns.len(),
                is_morse_table(morse_code@),
                ps == views(patterns@),
                plaintext@ == text_before + decode_patterns(ps.take(j as int)),
                string_views(unknown@) == unknown_before + unknown_patterns(ps.take(j as int)),
            decreases patterns.len() - j,
        {
            proof {
                assert(ps.take(j + 1).drop_last() =~= ps.take(j as int));
                assert(ps.take(j + 1).last() == patterns@[j as int]@);
            }
            match symbol_of(&morse_code, &patterns[j]) {
                Some(c) => {
                    plaintext.push(c);
                    assert(plaintext@ =~= text_before + decode_patterns(ps.take(j + 1)));
                },
                None => {
                    let ghost old_unknown = unknown@;
                    unknown.push(from_chars(&patterns[j]));
                    assert(string_views(unknown@) =~= string_views(old_unknown).push(
                        patterns@[j as int]@,
                    ));
                    assert(string_views(unknown@) =~= unknown_before + unknown_patterns(
                        ps.take(j + 1),
                    ));
                },
            }
            j += 1;
        }
        plaintext.push(' ');
        proof {
            assert(ps.take(ps.len() as int) =~= ps);
            assert(pieces.take(k + 1).drop_last() =~= pieces.take(k as int));
            assert(pieces.take(k + 1).last() == words@[k as int]@);
            assert(plaintext@ =~= decode_pieces(pieces.take(k + 1)));
        }
        k += 1;
    }
    assert(pieces.take(pieces.len() as int) =~= pieces);
    (from_chars(&plaintext), unknown)
}

/// A pattern that the table `t` gives for a character stands in one of its
/// entries, beside that character.
pub proof fn lemma_find_pattern_entry(t: Seq<(char, Seq<char>)>, c: char)
    requires
        find_pattern(t, c) is Some,
    ensures
        exists|i: int|
            0 <= i < t.len() && (#[trigger] t[i]).0 == c && t[i].1 == find_pattern(t, c)->Some_0,
    decreases t.len(),
{
    if t[0].0 == c {
        assert(t[0].1 == find_pattern(t, c)->Some_0);
    } else {
        let rest = t.drop_first();
        lemma_find_pattern_entry(rest, c);
        let i = choose|i: int|
            0 <= i < rest.len() && (#[trigger] rest[i]).0 == c && rest[i].1 == find_pattern(
                rest,
                c,
            )->Some_0;
        assert(t[i + 1] == rest[i]);
    }
}

/// Where no earlier entry of the table `t` has the pattern of entry `i`,
/// the table gives the character of entry `i` for that pattern.
pub proof fn lemma_find_symbol_entry(t: Seq<(char, Seq<char>)>, i: int)
    requires
        0 <= i < t.len(),
        forall|j: int| 0 <= j < i ==> (#[trigger] t[j]).1 != t[i].1,
    ensures
        find_symbol(t, t[i].1) == Some(t[i].0),
    decreases t.len(),
{
    if i > 0 {
        let rest = t.drop_first();
        assert(t[0].1 != t[i].1);
        assert forall|j: int| 0 <= j < i - 1 implies (#[trigger] rest[j]).1 != rest[i - 1].1 by {
            assert(rest[j] == t[j + 1]);
        }
        lemma_find_symbol_entry(rest, i - 1);
    }
}

/// The pattern of a character is made of dots and dashes, and the table
/// gives that character back for it.
pub proof fn lemma_pattern_symbol(c: char)
    requires
        morse_pattern(c) is Some,
    ensures
        is_dot_dash(morse_pattern(c)->Some_0),
        morse_symbol(morse_pattern(c)->Some_0) == Some(c),
{
    let t = morse_table();
    lemma_find_pattern_entry(t, c);
    let i = choose|i: int|
        0 <= i < t.len() && (#[trigger] t[i]).0 == c && t[i].1 == find_pattern(t, c)->Some_0;
    lemma_table_patterns();
    lemma_table_distinct();
    assert forall|j: int| 0 <= j < i implies (#[trigger] t[j]).1 != t[i].1 by {}
    lemma_find_symbol_entry(t, i);
}

/// A word can be encoded where it is not empty and each of its characters,
/// upper-cased, has a pattern.
pub open spec fn encodable_word(w: Seq<char>) -> bool {
    &&& w.len() >= 1
    &&& forall|j: int| 0 <= j < w.len() ==> morse_pattern(to_upper(#[trigger] w[j])) is Some
}

/// The patterns of the characters of `w`.
pub open spec fn patterns_of(w: Seq<char>) -> Seq<Seq<char>> {
    Seq::new(w.len(), |j: int| pattern_or_empty(w[j]))
}

/// Code is made of dots, dashes and spaces.
pub open spec fn is_code(s: Seq<char>) -> bool {
    forall|i: int| 0 <= i < s.len() ==> #[trigger] s[i] == '.' || s[i] == '-' || s[i] == ' '
}

/// An encoded word is code.
pub proof fn lemma_encoded_word_is_code(w: Seq<char>)
    requires
        encodable_word(w),
    ensures
        is_code(encode_word(w)),
    decreases w.len(),
{
    lemma_pattern_symbol(to_upper(w.last()));
    if w.len() > 1 {
        let front = w.drop_last();
        assert forall|j: int| 0 <= j < front.len() implies morse_pattern(
            to_upper(#[trigger] front[j]),
        ) is Some by {
            assert(front[j] == w[j]);
        }
        lemma_encoded_word_is_code(front);
    }
}

/// A pattern behind a text that is empty or ends in whitespace is one more
/// word.
pub proof fn lemma_split_words_pattern(x: Seq<char>, p: Seq<char>)
    requires
        x.len() == 0 || is_whitespace(x.last()),
        is_dot_dash(p),
    ensures
        split_words(x + p) == split_words(x).push(p),
    decreases p.len(),
{
    let s = x + p;
    assert(!is_whitespace(p.last()));
    assert(s.last() == p.last());
    if p.len() == 1 {
        assert(s.drop_last() =~= x);
        assert(seq![p.last()] =~= p);
    } else {
        let q = p.drop_last();
        assert(s.drop_last() =~= x + q);
        assert(is_dot_dash(q)) by {
            assert forall|j: int| 0 <= j < q.len() implies #[trigger] q[j] == '.' || q[j] == '-' by {
                assert(q[j] == p[j]);
            }
        }
        lemma_split_words_pattern(x, q);
        assert((x + q).last() == q.last());
        assert(!is_whitespace(q.last()));
        let words = split_words(x + q);
        assert(words.drop_last() =~= split_words(x));
        assert(words.last().push(p.last()) =~= p);
    }
}

/// The words of an encoded word are the patterns of its characters.
pub proof fn lemma_split_encoded_word(w: Seq<char>)
    requires
        encodable_word(w),
    ensures
        split_words(encode_word(w)) == patterns_of(w),
        split_words(encode_word(w) + seq![' ']) == patterns_of(w),
    decreases w.len(),
{
    let last = pattern_or_empty(w.last());
    lemma_pattern_symbol(to_upper(w.last()));
    if w.len() == 1 {
        lemma_split_words_pattern(Seq::empty(), last);
        assert(Seq::<char>::empty() + last =~= last);
        assert(split_words(Seq::<char>::empty()).push(last) =~= patterns_of(w));
    } else {
        let front = w.drop_last();
        assert forall|j: int| 0 <= j < front.len() implies morse_pattern(
            to_upper(#[trigger] front[j]),
        ) is Some by {
            assert(front[j] == w[j]);
        }
        lemma_split_encoded_word(front);
        let x = encode_word(front) + seq![' '];
        assert(x.last() == ' ');
        lemma_split_words_pattern(x, last);
        assert(patterns_of(front).push(last) =~= patterns_of(w));
    }
    let e = encode_word(w);
    assert((e + seq![' ']).drop_last() =~= e);
    assert((e + seq![' ']).last() == ' ');
}

/// Decoding the patterns of a word gives the word, upper-cased.
pub proof fn lemma_decode_patterns_of(w: Seq<char>)
    requires
        forall|j: int| 0 <= j < w.len() ==> morse_pattern(to_upper(#[trigger] w[j])) is Some,
    ensures
        decode_patterns(patterns_of(w)) == upper(w),
        unknown_patterns(patterns_of(w)) == Seq::<Seq<char>>::empty(),
    decreases w.len(),
{
    if w.len() == 0 {
        assert(upper(w) =~= Seq::<char>::empty());
    } else {
        let front = w.drop_last();
        assert forall|j: int| 0 <= j < front.len() implies morse_pattern(
            to_upper(#[trigger] front[j]),
        ) is Some by {
            assert(front[j] == w[j]);
        }
        lemma_decode_patterns_of(front);
        lemma_pattern_symbol(to_upper(w.last()));
        assert(patterns_of(w).drop_last() =~= patterns_of(front));
        assert(upper(front).push(to_upper(w.last())) =~= upper(w));
    }
}

/// Code holds no separator: it is one piece.
pub proof fn lemma_code_is_one_piece(s: Seq<char>)
    requires
        is_code(s),
    ensures
        split_at_separators(s) == seq![s],
{
    assert forall|j: int| 0 <= j < s.len() implies !separator_at(s, j) by {
        if j + 3 <= s.len() {
            assert(s[j + 1] != '/');
        }
    }
    lemma_separator_skip(s, 0, s.len() as int);
}

/// Code, a separator and a text split into the code and the pieces of the
/// text.
pub proof fn lemma_split_after_code(a: Seq<char>, b: Seq<char>)
    requires
        is_code(a),
    ensures
        split_at_separators(a + seq![' ', '/', ' '] + b) == seq![a] + split_at_separators(b),
{
    let s = a + seq![' ', '/', ' '] + b;
    let n = a.len() as int;
    assert(s[n] == ' ' && s[n + 1] == '/' && s[n + 2] == ' ');
    assert(separator_at(s, n));
    assert forall|j: int| 0 <= j < n implies !separator_at(s, j) by {
        if j + 1 < n {
            assert(s[j + 1] == a[j + 1]);
        }
    }
    lemma_separator_skip(s, 0, n);
    assert(s.take(n) =~= a);
    assert(s.skip(n + 3) =~= b);
}

/// The encoded words joined are the first encoded word, a separator and
/// the other encoded words joined.
pub proof fn lemma_join_words_front(words: Seq<Seq<char>>)
    requires
        words.len() >= 2,
    ensures
        join_words(words) == encode_word(words[0]) + seq![' ', '/', ' '] + join_words(
            words.drop_first(),
        ),
    decreases words.len(),
{
    let sep = seq![' ', '/', ' '];
    let front = words.drop_last();
    let rest = words.drop_first();
    assert(rest.last() == words.last());
    if words.len() == 2 {
        assert(front[0] == words[0]);
        assert(rest[0] == words[1]);
        assert(join_words(front) == encode_word(front[0]));
        assert(join_words(rest) == encode_word(rest[0]));
        assert(words.last() == words[1]);
    } else {
        lemma_join_words_front(front);
        assert(front[0] == words[0]);
        assert(rest.drop_last() =~= front.drop_first());
        assert(join_words(words) =~= encode_word(words[0]) + sep + join_words(rest));
    }
}

/// The pieces of the Morse code of a list of words: the encoded words, the
/// last of them with the closing space.
pub open spec fn encoded_pieces(words: Seq<Seq<char>>) -> Seq<Seq<char>> {
    Seq::new(
        words.len(),
        |i: int|
            if i == words.len() - 1 {
                encode_word(words[i]) + seq![' ']
            } else {
                encode_word(words[i])
            },
    )
}

/// Splitting the joined encoded words at the separators gives the encoded
/// words back.
pub proof fn lemma_split_joined_words(words: Seq<Seq<char>>)
    requires
        words.len() >= 1,
        forall|i: int| 0 <= i < words.len() ==> encodable_word(#[trigger] words[i]),
    ensures
        split_at_separators(join_words(words) + seq![' ']) == encoded_pieces(words),
    decreases words.len(),
{
    let first = encode_word(words[0]);
    lemma_encoded_word_is_code(words[0]);
    if words.len() == 1 {
        assert(is_code(first + seq![' ']));
        lemma_code_is_one_piece(first + seq![' ']);
        assert(seq![first + seq![' ']] =~= encoded_pieces(words));
    } else {
        let rest = words.drop_first();
        assert forall|i: int| 0 <= i < rest.len() implies encodable_word(#[trigger] rest[i]) by {
            assert(rest[i] == words[i + 1]);
        }
        lemma_split_joined_words(rest);
        lemma_join_words_front(words);
        let tail = join_words(rest) + seq![' '];
        assert(join_words(words) + seq![' '] =~= first + seq![' ', '/', ' '] + tail);
        lemma_split_after_code(first, tail);
        assert(seq![first] + encoded_pieces(rest) =~= encoded_pieces(words));
    }
}

/// The words upper-cased, a space after each.
pub open spec fn spaced_words(words: Seq<Seq<char>>) -> Seq<char>
    decreases words.len(),
{
    if words.len() == 0 {
        Seq::empty()
    } else {
        spaced_words(words.drop_last()) + upper(words.last()) + seq![' ']
    }
}

/// Pieces whose words are the patterns of a list of words decode to those
/// words, upper-cased, a space after each, and hold no unknown pattern.
pub proof fn lemma_decode_pieces(pieces: Seq<Seq<char>>, words: Seq<Seq<char>>)
    requires
        pieces.len() == words.len(),
        forall|i: int| 0 <= i < words.len() ==> encodable_word(#[trigger] words[i]),
        forall|i: int|
            0 <= i < words.len() ==> split_words(#[trigger] pieces[i]) == patterns_of(words[i]),
    ensures
        decode_pieces(pieces) == spaced_words(words),
        unknown_in_pieces(pieces) == Seq::<Seq<char>>::empty(),
    decreases pieces.len(),
{
    if pieces.len() > 0 {
        let n = pieces.len() - 1;
        assert(split_words(pieces[n]) == patterns_of(words[n]));
        assert(encodable_word(words[n]));
        lemma_decode_patterns_of(words[n]);
        let front_pieces = pieces.drop_last();
        let front_words = words.drop_last();
        assert forall|i: int| 0 <= i < front_words.len() implies encodable_word(
            #[trigger] front_words[i],
        ) by {
            assert(front_words[i] == words[i]);
        }
        assert forall|i: int| 0 <= i < front_words.len() implies split_words(
            #[trigger] front_pieces[i],
        ) == patterns_of(front_words[i]) by {
            assert(front_pieces[i] == pieces[i]);
            assert(front_words[i] == words[i]);
        }
        lemma_decode_pieces(front_pieces, front_words);
        assert(unknown_in_pieces(pieces) =~= Seq::<Seq<char>>::empty());
    }
}

/// Round trip: for a text that can be put in Morse code and has a word at
/// least, reading its Morse code back gives its words upper-cased, each
/// followed by one space, and no pattern is unknown.
pub proof fn lemma_morse_round_trip(plaintext: Seq<char>)
    requires
        morse_encodable(plaintext),
        split_words(plaintext).len() >= 1,
    ensures
        morse_decrypt(morse_encrypt(plaintext)) == spaced_words(split_words(plaintext)),
        morse_unknown(morse_encrypt(plaintext)) == Seq::<Seq<char>>::empty(),
{
    let words = split_words(plaintext);
    lemma_word_chars(plaintext);
    assert forall|i: int| 0 <= i < words.len() implies encodable_word(#[trigger] words[i]) by {
        let w = words[i];
        assert forall|j: int| 0 <= j < w.len() implies morse_pattern(to_upper(#[trigger] w[j])) is Some by {
            assert(plaintext.contains(words[i][j]));
            let m = choose|m: int| 0 <= m < plaintext.len() && plaintext[m] == w[j];
            assert(is_whitespace(plaintext[m]) || morse_pattern(to_upper(plaintext[m])) is Some);
        }
    }
    lemma_split_joined_words(words);
    let pieces = encoded_pieces(words);
    assert forall|i: int| 0 <= i < words.len() implies split_words(#[trigger] pieces[i])
        == patterns_of(words[i]) by {
        lemma_split_encoded_word(words[i]);
    }
    lemma_decode_pieces(pieces, words);
}

} // verus!
