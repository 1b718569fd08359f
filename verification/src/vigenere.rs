//! The Vigenère cipher over the 36 symbols `A`..`Z`, `0`..`9`.
use vstd::prelude::*;
use crate::error::CipherError;
use crate::text::{
    char_to_upper, from_chars, is_whitespace, keyword_stream,
    keyword_stream_chars, remove_whitespace, strip_whitespace, to_chars, to_upper, upper,
};

verus! {

/// Tells whether `c` is one of the 36 symbols of the alphabet.
pub open spec fn in_alphabet(c: char) -> bool {
    ('A' <= c <= 'Z') || ('0' <= c <= '9')
}

/// The index of a symbol: `A` is 0, `Z` is 25, `0` is 26, `9` is 35.
pub open spec fn symbol_index(c: char) -> int
    recommends
        in_alphabet(c),
{
    if 'A' <= c <= 'Z' {
        (c as int) - 65
    } else {
        (c as int) - 22
    }
}

/// The symbol with index `i`.
pub open spec fn symbol_at(i: int) -> char
    recommends
        0 <= i < 36,
{
    if i < 26 {
        ((i + 65) as u8) as char
    } else {
        ((i + 22) as u8) as char
    }
}

/// The symbol that `p` becomes under the key symbol `k`.
pub open spec fn shift_forward(p: char, k: char) -> char {
    symbol_at((symbol_index(p) + symbol_index(k)) % 36)
}

/// The symbol that becomes `c` under the key symbol `k`.
pub open spec fn shift_back(c: char, k: char) -> char {
    symbol_at((symbol_index(c) + 36 - symbol_index(k)) % 36)
}

/// The characters of `s`, upper-cased, that are symbols of the alphabet.
pub open spec fn alphabet_part(s: Seq<char>) -> Seq<char> {
    upper(s).filter(|c: char| in_alphabet(c))
}

/// Tells whether every character of `k`, upper-cased, is a symbol of the
/// alphabet.
pub open spec fn key_in_alphabet(k: Seq<char>) -> bool {
    forall|i: int| 0 <= i < k.len() ==> in_alphabet(to_upper(#[trigger] k[i]))
}

/// Symbol by symbol, `p` shifted forward by the key stream `s`.
pub open spec fn encipher(p: Seq<char>, s: Seq<char>) -> Seq<char>
    recommends
        p.len() == s.len(),
{
    Seq::new(p.len(), |i: int| shift_forward(p[i], to_upper(s[i])))
}

/// `c` with a space put before every symbol whose index is a multiple of
/// five.
pub open spec fn group_by_five(c: Seq<char>) -> Seq<char>
    decreases c.len(),
{
    if c.len() == 0 {
        c
    } else if (c.len() - 1) % 5 == 0 {
        group_by_five(c.drop_last()).push(' ').push(c.last())
    } else {
        group_by_five(c.drop_last()).push(c.last())
    }
}

/// The Vigenère ciphertext of `plaintext` under the key stream `stream`.
pub open spec fn vigenere_encrypt(plaintext: Seq<char>, stream: Seq<char>) -> Seq<char> {
    group_by_five(encipher(alphabet_part(plaintext), stream))
}

/// The symbols of `c`, upper-cased, each shifted back by the key symbol at
/// its own position in `s`; characters outside the alphabet give nothing.
pub open spec fn decipher(c: Seq<char>, s: Seq<char>) -> Seq<char>
    recommends
        c.len() <= s.len(),
    decreases c.len(),
{
    if c.len() == 0 {
        c
    } else if in_alphabet(to_upper(c.last())) {
        decipher(c.drop_last(), s).push(
            shift_back(to_upper(c.last()), to_upper(s[c.len() - 1])),
        )
    } else {
        decipher(c.drop_last(), s)
    }
}

/// The Vigenère plaintext of `ciphertext` under `keyword`.
pub open spec fn vigenere_decrypt(ciphertext: Seq<char>, keyword: Seq<char>) -> Seq<char>
    recommends
        strip_whitespace(keyword).len() >= 1,
{
    let c = strip_whitespace(ciphertext);
    decipher(c, keyword_stream(strip_whitespace(keyword), c.len()))
}

/// Tells whether `c` is a symbol of the alphabet.
pub fn char_in_alphabet(c: char) -> (b: bool)
    ensures
        b == in_alphabet(c),
{
    ('A' <= c && c <= 'Z') || ('0' <= c && c <= '9')
}

/// The index of the symbol `c`.
pub fn index_of_symbol(c: char) -> (i: u8)
    requires
        in_alphabet(c),
    ensures
        i == symbol_index(c),
        i < 36,
{
    if 'A' <= c && c <= 'Z' {
        (c as u8) - 65
    } else {
        (c as u8) - 22
    }
}

/// The symbol with index `i`.
pub fn symbol_of_index(i: u8) -> (c: char)
    requires
        i < 36,
    ensures
        c == symbol_at(i as int),
        in_alphabet(c),
{
    if i < 26 {
        (i + 65) as char
    } else {
        (i + 22) as char
    }
}

/// Tells whether every character of `k`, upper-cased, is in the alphabet.
pub fn check_key(k: &Vec<char>) -> (b: bool)
    ensures
        b == key_in_alphabet(k@),
{
    let mut i: usize = 0;
    while i < k.len()
        invariant
            i <= k.len(),
            forall|j: int| 0 <= j < i ==> in_alphabet(to_upper(#[trigger] k@[j])),
        decreases k.len() - i,
    {
        if !char_in_alphabet(char_to_upper(k[i])) {
            return false;
        }
        i += 1;
    }
    true
}

/// The alphabet symbols of `v`, upper-cased.
pub fn alphabet_chars(v: &Vec<char>) -> (r: Vec<char>)
    ensures
        r@ == alphabet_part(v@),
{
    let mut r: Vec<char> = Vec::new();
    let mut i: usize = 0;
    while i < v.len()
        invariant
            i <= v.len(),
            r@ == alphabet_part(v@.take(i as int)),
        decreases v.len() - i,
    {
        let u = char_to_upper(v[i]);
        proof {
            let before = v@.take(i as int);
            assert(upper(v@.take(i + 1)) =~= upper(before).push(u));
            upper(before).lemma_filter_push(u, |c: char| in_alphabet(c));
        }
        if char_in_alphabet(u) {
            r.push(u);
        }
        i += 1;
    }
    assert(v@.take(v@.len() as int) =~= v@);
    r
}

/// Every element of the alphabet part is a symbol of the alphabet.
pub proof fn lemma_alphabet_part_symbols(s: Seq<char>)
    ensures
        forall|i: int| 0 <= i < alphabet_part(s).len() ==> in_alphabet(#[trigger] alphabet_part(s)[i]),
{
    let p = |c: char| in_alphabet(c);
    assert forall|i: int| 0 <= i < alphabet_part(s).len() implies in_alphabet(
        #[trigger] alphabet_part(s)[i],
    ) by {
        upper(s).lemma_filter_pred(p, i);
    }
}

/// [`group_by_five`] on a vector of characters.
pub fn group_chars(c: &Vec<char>) -> (r: Vec<char>)
    ensures
        r@ == group_by_five(c@),
{
    let mut r: Vec<char> = Vec::new();
    let mut i: usize = 0;
    while i < c.len()
        invariant
            i <= c.len(),
            r@ == group_by_five(c@.take(i as int)),
        decreases c.len() - i,
    {
        proof {
            assert(c@.take(i + 1).drop_last() =~= c@.take(i as int));
        }
        if i % 5 == 0 {
            r.push(' ');
        }
        r.push(c[i]);
        i += 1;
    }
    assert(c@.take(c@.len() as int) =~= c@);
    r
}

/// Encrypts `plaintext` under the key stream `keyword_string`: every
/// character of the plaintext that is, upper-cased, a symbol of the alphabet
/// is shifted forward by the key symbol of the same rank; the others give
/// nothing. The result is set in groups of five, a space before each.
///
/// Fails with `LengthMismatch` where the key stream is not as long as the
/// alphabet part of the plaintext, and with `InvalidKey` where it is but
/// holds a character outside the alphabet.
pub fn generate_cipher(plaintext: String, keyword_string: String) -> (r: Result<
    String,
    CipherError,
>)
    ensures
        alphabet_part(plaintext@).len() != keyword_string@.len() ==> r == Err::<
            String,
            CipherError,
        >(CipherError::LengthMismatch),
        alphabet_part(plaintext@).len() == keyword_string@.len() && !key_in_alphabet(
            keyword_string@,
        ) ==> r == Err::<String, CipherError>(CipherError::InvalidKey),
        alphabet_part(plaintext@).len() == keyword_string@.len() && key_in_alphabet(
            keyword_string@,
        ) ==> r is Ok && r->Ok_0@ == vigenere_encrypt(plaintext@, keyword_string@),
{
    let text = to_chars(plaintext.as_str());
    let stream = to_chars(keyword_string.as_str());
    let symbols = alphabet_chars(&text);
    if symbols.len() != stream.len() {
        return Err(CipherError::LengthMismatch);
    }
    if !check_key(&stream) {
        return Err(CipherError::InvalidKey);
    }
    proof {
        lemma_alphabet_part_symbols(text@);
    }
    let mut shifted: Vec<char> = Vec::new();
    let mut i: usize = 0;
    while i < symbols.len()
        invariant
            i <= symbols.len(),
            symbols.len() == stream.len(),
            key_in_alphabet(stream@),
            forall|j: int| 0 <= j < symbols@.len() ==> in_alphabet(#[trigger] symbols@[j]),
            shifted@.len() == i,
            forall|j: int|
                0 <= j < i ==> shifted@[j] == shift_forward(symbols@[j], to_upper(stream@[j])),
        decreases symbols.len() - i,
    {
        let ip = index_of_symbol(symbols[i]);
        let ik = index_of_symbol(char_to_upper(stream[i]));
        shifted.push(symbol_of_index((ip + ik) % 36));
        i += 1;
    }
    assert(shifted@ =~= encipher(symbols@, stream@));
    let grouped = group_chars(&shifted);
    Ok(from_chars(&grouped))
}

/// [`decipher`] on vectors of characters.
pub fn decipher_chars(c: &Vec<char>, s: &Vec<char>) -> (r: Vec<char>)
    requires
        c@.len() <= s@.len(),
        key_in_alphabet(s@),
    ensures
        r@ == decipher(c@, s@),
{
    let mut r: Vec<char> = Vec::new();
    let mut i: usize = 0;
    while i < c.len()
        invariant
            i <= c.len(),
            c@.len() <= s@.len(),
            key_in_alphabet(s@),
            r@ == decipher(c@.take(i as int), s@),
        decreases c.len() - i,
    {
        proof {
            assert(c@.take(i + 1).drop_last() =~= c@.take(i as int));
        }
        let u = char_to_upper(c[i]);
        if char_in_alphabet(u) {
            let ic = index_of_symbol(u);
            let ik = index_of_symbol(char_to_upper(s[i]));
            r.push(symbol_of_index((ic + 36 - ik) % 36));
        }
        i += 1;
    }
    assert(c@.take(c@.len() as int) =~= c@);
    r
}

/// Decrypts `encrypted_string` under `keyword`. Whitespace is taken out of
/// both; the keyword is repeated to the length of what is left of the text;
/// every character that is, upper-cased, a symbol of the alphabet is shifted
/// back by the key symbol at its position, and the others give nothing.
///
/// Fails with `InvalidKey` where the keyword without its whitespace is empty
/// or holds a character outside the alphabet.
pub fn decrypt(encrypted_string: String, keyword: String) -> (r: Result<String, CipherError>)
    ensures
        ({
            let k = strip_whitespace(keyword@);
            if k.len() >= 1 && key_in_alphabet(k) {
                r is Ok && r->Ok_0@ == vigenere_decrypt(encrypted_string@, keyword@)
            } else {
                r == Err::<String, CipherError>(CipherError::InvalidKey)
            }
        }),
{
    let mut text = encrypted_string;
    let mut key = keyword;
    remove_whitespace(&mut text);
    remove_whitespace(&mut key);
    let k = to_chars(key.as_str());
    if k.len() == 0 || !check_key(&k) {
        return Err(CipherError::InvalidKey);
    }
    let c = to_chars(text.as_str());
    let stream = keyword_stream_chars(&k, c.len());
    proof {
        assert forall|i: int| 0 <= i < stream@.len() implies in_alphabet(
            to_upper(#[trigger] stream@[i]),
        ) by {
            assert(stream@[i] == k@[i % (k@.len() as int)]);
        }
    }
    let plain = decipher_chars(&c, &stream);
    Ok(from_chars(&plain))
}

/// Tells whether `k` can serve as a keyword: without its whitespace it is
/// not empty and holds, upper-cased, symbols of the alphabet only.
pub open spec fn usable_keyword(k: Seq<char>) -> bool {
    strip_whitespace(k).len() >= 1 && key_in_alphabet(strip_whitespace(k))
}

/// The Vigenère ciphertext of `plaintext` under `keyword`: the keyword
/// without its whitespace is repeated to the length of the alphabet part of
/// the plaintext.
pub open spec fn vigenere_encrypt_keyword(plaintext: Seq<char>, keyword: Seq<char>) -> Seq<char> {
    vigenere_encrypt(
        plaintext,
        keyword_stream(strip_whitespace(keyword), alphabet_part(plaintext).len()),
    )
}

/// Encrypts `plaintext` under `keyword`: whitespace is taken out of the
/// keyword, which is repeated to the number of alphabet symbols in the
/// plaintext and handed to [`generate_cipher`].
///
/// Fails with `InvalidKey` where the keyword without its whitespace is empty
/// or holds a character outside the alphabet.
pub fn encrypt(plaintext: String, keyword: String) -> (r: Result<String, CipherError>)
    ensures
        usable_keyword(keyword@) ==> r is Ok && r->Ok_0@ == vigenere_encrypt_keyword(
            plaintext@,
            keyword@,
        ),
        !usable_keyword(keyword@) ==> r == Err::<String, CipherError>(CipherError::InvalidKey),
{
    let mut key = keyword;
    remove_whitespace(&mut key);
    let k = to_chars(key.as_str());
    if k.len() == 0 || !check_key(&k) {
        return Err(CipherError::InvalidKey);
    }
    let text = to_chars(plaintext.as_str());
    let symbols = alphabet_chars(&text);
    let stream = keyword_stream_chars(&k, symbols.len());
    proof {
        assert forall|i: int| 0 <= i < stream@.len() implies in_alphabet(
            to_upper(#[trigger] stream@[i]),
        ) by {
            assert(stream@[i] == k@[i % (k@.len() as int)]);
        }
    }
    generate_cipher(plaintext, from_chars(&stream))
}

/// The Vigenère table: row `i`, column `j` holds the symbol that the
/// plaintext symbol `j` becomes under the key symbol `i`.
pub fn vigenere_table() -> (table: Vec<Vec<char>>)
    ensures
        table@.len() == 36,
        forall|i: int| 0 <= i < 36 ==> (#[trigger] table@[i])@.len() == 36,
        forall|i: int, j: int|
            0 <= i < 36 && 0 <= j < 36 ==> table@[i]@[j] == shift_forward(
                symbol_at(j),
                symbol_at(i),
            ),
{
    let mut table: Vec<Vec<char>> = Vec::new();
    let mut i: u8 = 0;
    while i < 36
        invariant
            i <= 36,
            table@.len() == i,
            forall|a: int| 0 <= a < i ==> (#[trigger] table@[a])@.len() == 36,
            forall|a: int, b: int|
                0 <= a < i && 0 <= b < 36 ==> table@[a]@[b] == shift_forward(
                    symbol_at(b),
                    symbol_at(a),
                ),
        decreases 36 - i,
    {
        let mut row: Vec<char> = Vec::new();
        let mut j: u8 = 0;
        while j < 36
            invariant
                i < 36,
                j <= 36,
                row@.len() == j,
                forall|b: int|
                    0 <= b < j ==> row@[b] == shift_forward(symbol_at(b), symbol_at(i as int)),
            decreases 36 - j,
        {
            proof {
                assert(symbol_index(symbol_at(j as int)) == j);
                assert(symbol_index(symbol_at(i as int)) == i);
            }
            row.push(symbol_of_index((i + j) % 36));
            j += 1;
        }
        table.push(row);
        i += 1;
    }
    table
}

/// Filtering by a condition that every element meets changes nothing.
pub proof fn lemma_filter_keeps_all(s: Seq<char>, pred: spec_fn(char) -> bool)
    requires
        forall|i: int| 0 <= i < s.len() ==> pred(#[trigger] s[i]),
    ensures
        s.filter(pred) == s,
    decreases s.len(),
{
    reveal(Seq::filter);
    if s.len() > 0 {
        lemma_filter_keeps_all(s.drop_last(), pred);
        assert(s.drop_last().push(s.last()) =~= s);
    }
}

/// Filtering by a weaker condition first does not change what a filter
/// keeps.
pub proof fn lemma_filter_after_weaker(
    s: Seq<char>,
    weak: spec_fn(char) -> bool,
    strong: spec_fn(char) -> bool,
)
    requires
        forall|c: char| #[trigger] strong(c) ==> weak(c),
    ensures
        s.filter(weak).filter(strong) == s.filter(strong),
    decreases s.len(),
{
    reveal(Seq::filter);
    if s.len() > 0 {
        lemma_filter_after_weaker(s.drop_last(), weak, strong);
        if weak(s.last()) {
            s.drop_last().filter(weak).lemma_filter_push(s.last(), strong);
        }
    }
}

/// Grouping by five only adds spaces: without its whitespace the grouped
/// text is the text itself, where that holds no whitespace.
pub proof fn lemma_strip_grouped(c: Seq<char>)
    requires
        forall|i: int| 0 <= i < c.len() ==> !is_whitespace(#[trigger] c[i]),
    ensures
        strip_whitespace(group_by_five(c)) == c,
    decreases c.len(),
{
    let keep = |x: char| !is_whitespace(x);
    if c.len() == 0 {
        reveal(Seq::filter);
    } else {
        let front = c.drop_last();
        lemma_strip_grouped(front);
        let g = group_by_five(front);
        assert(front.push(c.last()) =~= c);
        if (c.len() - 1) % 5 == 0 {
            g.lemma_filter_push(' ', keep);
            g.push(' ').lemma_filter_push(c.last(), keep);
        } else {
            g.lemma_filter_push(c.last(), keep);
        }
    }
}

/// The layout of a grouped text: each run of five symbols takes six places,
/// a space and the symbols; symbol `i` stands at place `i + i / 5 + 1`.
pub proof fn lemma_group_layout(c: Seq<char>)
    ensures
        group_by_five(c).len() == c.len() + (c.len() + 4) / 5,
        forall|i: int| 0 <= i < c.len() ==> group_by_five(c)[i + i / 5 + 1] == #[trigger] c[i],
        forall|g: int| 0 <= g < (c.len() + 4) / 5 ==> #[trigger] group_by_five(c)[6 * g] == ' ',
    decreases c.len(),
{
    if c.len() > 0 {
        let front = c.drop_last();
        let n = front.len() as int;
        lemma_group_layout(front);
        let grouped = group_by_five(c);
        let before = group_by_five(front);
        assert forall|i: int| 0 <= i < c.len() implies grouped[i + i / 5 + 1] == #[trigger] c[i] by {
            if i < n {
                assert(front[i] == c[i]);
                assert(grouped[i + i / 5 + 1] == before[i + i / 5 + 1]);
            }
        }
        assert forall|g: int| 0 <= g < (c.len() + 4) / 5 implies #[trigger] grouped[6 * g]
            == ' ' by {
            if g < (n + 4) / 5 {
                assert(grouped[6 * g] == before[6 * g]);
            }
        }
    }
}

/// Shifting back undoes shifting forward by the same key symbol.
pub proof fn lemma_shift_inverse(p: char, k: char)
    requires
        in_alphabet(p),
        in_alphabet(k),
    ensures
        in_alphabet(shift_forward(p, k)),
        shift_back(shift_forward(p, k), k) == p,
{
    let x = (symbol_index(p) + symbol_index(k)) % 36;
    assert(0 <= x < 36);
    assert(symbol_index(symbol_at(x)) == x);
    assert((x + 36 - symbol_index(k)) % 36 == symbol_index(p));
    assert(symbol_at(symbol_index(p)) == p);
}

/// Deciphering the first `n` enciphered symbols gives the first `n` symbols
/// back.
pub proof fn lemma_decipher_enciphered(p: Seq<char>, s: Seq<char>, n: int)
    requires
        p.len() == s.len(),
        0 <= n <= p.len(),
        forall|i: int| 0 <= i < p.len() ==> in_alphabet(#[trigger] p[i]),
        key_in_alphabet(s),
    ensures
        decipher(encipher(p, s).take(n), s) == p.take(n),
    decreases n,
{
    let e = encipher(p, s);
    if n == 0 {
        assert(e.take(0) =~= p.take(0));
    } else {
        lemma_decipher_enciphered(p, s, n - 1);
        assert(e.take(n).drop_last() =~= e.take(n - 1));
        let k = to_upper(s[n - 1]);
        lemma_shift_inverse(p[n - 1], k);
        assert(e.take(n).last() == shift_forward(p[n - 1], k));
        assert(p.take(n) =~= p.take(n - 1).push(p[n - 1]));
    }
}

/// Round trip: for a keyword that is not empty and whose characters,
/// upper-cased, are all symbols of the alphabet, decrypting the encryption
/// of a plaintext gives the plaintext upper-cased and restricted to the
/// symbols of the alphabet, which is also what is left of the upper-cased
/// plaintext when whitespace is taken out before the restriction.
pub proof fn lemma_vigenere_round_trip(plaintext: Seq<char>, keyword: Seq<char>)
    requires
        keyword.len() >= 1,
        key_in_alphabet(keyword),
    ensures
        vigenere_decrypt(
            vigenere_encrypt(
                plaintext,
                keyword_stream(keyword, alphabet_part(plaintext).len()),
            ),
            keyword,
        ) == alphabet_part(plaintext),
        alphabet_part(plaintext) == strip_whitespace(upper(plaintext)).filter(
            |c: char| in_alphabet(c),
        ),
{
    let p = alphabet_part(plaintext);
    let s = keyword_stream(keyword, p.len());
    let e = encipher(p, s);
    lemma_alphabet_part_symbols(plaintext);
    assert forall|i: int| 0 <= i < s.len() implies in_alphabet(to_upper(#[trigger] s[i])) by {
        assert(s[i] == keyword[i % (keyword.len() as int)]);
    }
    assert forall|i: int| 0 <= i < e.len() implies !is_whitespace(#[trigger] e[i]) by {
        lemma_shift_inverse(p[i], to_upper(s[i]));
    }
    lemma_strip_grouped(e);
    lemma_filter_keeps_all(keyword, |c: char| !is_whitespace(c));
    lemma_decipher_enciphered(p, s, p.len() as int);
    assert(e.take(p.len() as int) =~= e);
    assert(p.take(p.len() as int) =~= p);
    lemma_filter_after_weaker(
        upper(plaintext),
        |c: char| !is_whitespace(c),
        |c: char| in_alphabet(c),
    );
}

} // verus!
