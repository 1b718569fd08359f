//! The ADFGVX cipher: substitution through a 6×6 polybius square, then a
//! keyed transposition of six columns.
use vstd::prelude::*;
use vstd::string::StringExecFns;
use vstd::seq_lib::lemma_no_dup_in_concat;
use crate::error::CipherError;
use crate::text::{
    char_is_whitespace, char_to_upper, dedup, dedup_chars, find_char, from_chars, is_whitespace,
    split_whitespace_chars, split_words, strip_whitespace, subtract,
    subtract_chars, to_chars, to_upper, transpose, upper, upper_chars, views,
};
use crate::vigenere::{
    check_key, in_alphabet, key_in_alphabet, symbol_at, symbol_index, symbol_of_index,
};

verus! {

/// The 36 symbols `A`..`Z`, `0`..`9`, in this order.
pub open spec fn alphabet() -> Seq<char> {
    Seq::new(36, |i: int| symbol_at(i))
}

/// The symbols of the polybius square of `keyword`, row after row: the
/// upper-cased keyword without repeated characters, then the symbols of the
/// alphabet that it lacks, in the alphabet's order.
pub open spec fn square_symbols(keyword: Seq<char>) -> Seq<char> {
    let d = dedup(upper(keyword));
    d + subtract(alphabet(), d)
}

/// How many times `a` occurs in `s`.
pub open spec fn occurrences(s: Seq<char>, a: char) -> nat {
    s.filter(is_char(a)).len()
}

/// The condition of being the character `a`.
pub open spec fn is_char(a: char) -> spec_fn(char) -> bool {
    |c: char| c == a
}

/// Tells whether `rows` is `flat` cut into rows of `width` characters from
/// left to right, only the last of which may be shorter.
pub open spec fn is_rows_of(rows: Seq<Vec<char>>, flat: Seq<char>, width: int) -> bool {
    &&& (rows.len() - 1) * width < flat.len() <= rows.len() * width
    &&& forall|r: int|
        0 <= r < rows.len() ==> (#[trigger] rows[r])@ == flat.subrange(
            r * width,
            if (r + 1) * width <= flat.len() {
                (r + 1) * width
            } else {
                flat.len() as int
            },
        )
}

/// A column key is the numbers 1 to 6 in some order.
pub open spec fn valid_column_key(k: Seq<u8>) -> bool {
    &&& k.len() == 6
    &&& forall|i: int| 0 <= i < 6 ==> 1 <= #[trigger] k[i] <= 6
    &&& forall|i: int, j: int| 0 <= i < j < 6 ==> k[i] != k[j]
}

/// The order in which the columns are read: entry `v` is the position in
/// `k` of the number `v + 1`.
pub open spec fn read_order(k: Seq<u8>) -> Seq<int> {
    Seq::new(6, |v: int| k.index_of((v + 1) as u8))
}

/// The alphabet as a vector.
pub fn alphabet_symbols() -> (v: Vec<char>)
    ensures
        v@ == alphabet(),
{
    let mut v: Vec<char> = Vec::new();
    let mut i: u8 = 0;
    while i < 36
        invariant
            i <= 36,
            v@.len() == i,
            forall|j: int| 0 <= j < i ==> v@[j] == symbol_at(j),
        decreases 36 - i,
    {
        v.push(symbol_of_index(i));
        i += 1;
    }
    assert(v@ =~= alphabet());
    v
}

/// Cuts `v` into rows of `width` characters; the last row holds what is
/// left.
pub fn chunk_chars(v: &Vec<char>, width: usize) -> (rows: Vec<Vec<char>>)
    requires
        width > 0,
    ensures
        is_rows_of(rows@, v@, width as int),
{
    let mut rows: Vec<Vec<char>> = Vec::new();
    let mut start: usize = 0;
    proof {
        assert(0 * (width as int) == 0) by (nonlinear_arith);
        assert((0 - 1) * (width as int) == -(width as int)) by (nonlinear_arith);
    }
    while start < v.len()
        invariant
            width > 0,
            start <= v.len(),
            start < v.len() ==> start == rows@.len() * width,
            start == v.len() ==> (rows@.len() - 1) * width < v@.len() <= rows@.len() * width,
            forall|r: int|
                0 <= r < rows@.len() ==> (#[trigger] rows@[r])@ == v@.subrange(
                    r * width,
                    if (r + 1) * width <= v@.len() {
                        (r + 1) * width
                    } else {
                        v@.len() as int
                    },
                ),
        decreases v.len() - start,
    {
        let end: usize = if v.len() - start < width {
            v.len()
        } else {
            start + width
        };
        let mut row: Vec<char> = Vec::new();
        let mut i: usize = start;
        while i < end
            invariant
                start <= i <= end <= v.len(),
                row@ == v@.subrange(start as int, i as int),
            decreases end - i,
        {
            row.push(v[i]);
            proof {
                assert(v@.subrange(start as int, i + 1) =~= v@.subrange(
                    start as int,
                    i as int,
                ).push(v@[i as int]));
            }
            i += 1;
        }
        proof {
            let n = rows@.len() as int;
            let w = width as int;
            assert((n + 1) * w == n * w + w) by (nonlinear_arith);
            assert((n + 1 - 1) * w == n * w);
        }
        rows.push(row);
        start = end;
    }
    rows
}

/// A sequence with one more element holds what it held before, and that
/// element.
pub proof fn lemma_contains_push(s: Seq<char>, last: char, a: char)
    ensures
        s.push(last).contains(a) <==> (s.contains(a) || last == a),
{
    let t = s.push(last);
    if s.contains(a) {
        let j = choose|j: int| 0 <= j < s.len() && s[j] == a;
        assert(t[j] == a);
    }
    if last == a {
        assert(t[s.len() as int] == a);
    }
    if t.contains(a) {
        let j = choose|j: int| 0 <= j < t.len() && t[j] == a;
        if j < s.len() {
            assert(s[j] == a);
        }
    }
}

/// A sequence holds what its front holds, and its last element.
pub proof fn lemma_contains_last(s: Seq<char>, a: char)
    requires
        s.len() > 0,
    ensures
        s.contains(a) <==> (s.drop_last().contains(a) || s.last() == a),
{
    assert(s.drop_last().push(s.last()) =~= s);
    lemma_contains_push(s.drop_last(), s.last(), a);
}

/// Removing repeated characters removes no character altogether, and adds
/// none.
pub proof fn lemma_dedup_contains(s: Seq<char>, a: char)
    ensures
        dedup(s).contains(a) <==> s.contains(a),
    decreases s.len(),
{
    if s.len() > 0 {
        let front = s.drop_last();
        lemma_dedup_contains(front, a);
        lemma_dedup_contains(front, s.last());
        lemma_contains_last(s, a);
        lemma_contains_push(dedup(front), s.last(), a);
    }
}

/// A character that is no whitespace occurs once in the deduplicated
/// sequence where it occurs in the sequence, and not at all where it does
/// not.
pub proof fn lemma_dedup_occurrences(s: Seq<char>, a: char)
    requires
        !is_whitespace(a),
    ensures
        occurrences(dedup(s), a) == if s.contains(a) {
            1nat
        } else {
            0nat
        },
    decreases s.len(),
{
    let same = is_char(a);
    if s.len() == 0 {
        reveal(Seq::filter);
    } else {
        let front = s.drop_last();
        lemma_dedup_occurrences(front, a);
        lemma_contains_last(s, a);
        dedup(front).lemma_filter_push(s.last(), same);
    }
}

/// What is left after a subtraction holds a character as often as before,
/// or not at all where the character was subtracted.
pub proof fn lemma_subtract_occurrences(s: Seq<char>, removed: Seq<char>, a: char)
    ensures
        occurrences(subtract(s, removed), a) == if removed.contains(a) {
            0nat
        } else {
            occurrences(s, a)
        },
    decreases s.len(),
{
    let same = is_char(a);
    let keep = |c: char| !removed.contains(c);
    if s.len() == 0 {
        reveal(Seq::filter);
    } else {
        let front = s.drop_last();
        lemma_subtract_occurrences(front, removed, a);
        assert(front.push(s.last()) =~= s);
        front.lemma_filter_push(s.last(), keep);
        front.lemma_filter_push(s.last(), same);
        front.filter(keep).lemma_filter_push(s.last(), same);
    }
}

/// Among the first `n` symbols of the alphabet a symbol occurs once where
/// its index is below `n`, and not at all otherwise.
pub proof fn lemma_alphabet_occurrences(a: char, n: int)
    requires
        in_alphabet(a),
        0 <= n <= 36,
    ensures
        occurrences(alphabet().take(n), a) == if symbol_index(a) < n {
            1nat
        } else {
            0nat
        },
    decreases n,
{
    let same = is_char(a);
    if n == 0 {
        reveal(Seq::filter);
    } else {
        lemma_alphabet_occurrences(a, n - 1);
        assert(alphabet().take(n) =~= alphabet().take(n - 1).push(symbol_at(n - 1)));
        alphabet().take(n - 1).lemma_filter_push(symbol_at(n - 1), same);
    }
}

/// The polybius square of any keyword holds each symbol of the alphabet
/// exactly once.
pub proof fn lemma_square_holds_each_symbol_once(keyword: Seq<char>, a: char)
    requires
        in_alphabet(a),
    ensures
        occurrences(square_symbols(keyword), a) == 1,
{
    let d = dedup(upper(keyword));
    let rest = subtract(alphabet(), d);
    Seq::filter_distributes_over_add(d, rest, is_char(a));
    lemma_dedup_occurrences(upper(keyword), a);
    lemma_dedup_contains(upper(keyword), a);
    lemma_subtract_occurrences(alphabet(), d, a);
    lemma_alphabet_occurrences(a, 36);
    assert(alphabet().take(36) =~= alphabet());
}

/// Where the sequence holds no whitespace, its deduplication holds no
/// character twice.
pub proof fn lemma_dedup_no_duplicates(s: Seq<char>)
    requires
        forall|i: int| 0 <= i < s.len() ==> !is_whitespace(#[trigger] s[i]),
    ensures
        dedup(s).no_duplicates(),
    decreases s.len(),
{
    if s.len() > 0 {
        let front = s.drop_last();
        lemma_dedup_no_duplicates(front);
        lemma_dedup_contains(front, s.last());
    }
}

/// A filter keeps a sequence free of duplicates.
pub proof fn lemma_filter_no_duplicates(s: Seq<char>, pred: spec_fn(char) -> bool)
    requires
        s.no_duplicates(),
    ensures
        s.filter(pred).no_duplicates(),
    decreases s.len(),
{
    reveal(Seq::filter);
    if s.len() > 0 {
        let front = s.drop_last();
        lemma_filter_no_duplicates(front, pred);
        if front.filter(pred).contains(s.last()) {
            front.lemma_filter_contains_rev(pred, s.last());
        }
    }
}

/// The polybius square of a keyword over the alphabet holds 36 symbols, all
/// of the alphabet and none twice.
pub proof fn lemma_square_of_valid_keyword(keyword: Seq<char>)
    requires
        key_in_alphabet(keyword),
    ensures
        square_symbols(keyword).len() == 36,
        square_symbols(keyword).no_duplicates(),
        forall|c: char| #[trigger] square_symbols(keyword).contains(c) <==> in_alphabet(c),
{
    let u = upper(keyword);
    let d = dedup(u);
    let keep = |c: char| !d.contains(c);
    let rest = subtract(alphabet(), d);
    let sq = square_symbols(keyword);
    lemma_dedup_no_duplicates(u);
    assert(alphabet().no_duplicates());
    lemma_filter_no_duplicates(alphabet(), keep);
    assert forall|i: int, j: int| 0 <= i < d.len() && 0 <= j < rest.len() implies d[i]
        != rest[j] by {
        alphabet().lemma_filter_pred(keep, j);
    }
    lemma_no_dup_in_concat(d, rest);
    assert forall|c: char| #[trigger] sq.contains(c) <==> in_alphabet(c) by {
        if sq.contains(c) {
            let j = choose|j: int| 0 <= j < sq.len() && sq[j] == c;
            if j < d.len() {
                assert(d.contains(c));
                lemma_dedup_contains(u, c);
                let m = choose|m: int| 0 <= m < u.len() && u[m] == c;
                assert(u[m] == to_upper(keyword[m]));
            } else {
                assert(rest[j - d.len()] == c);
                alphabet().lemma_filter_contains_rev(keep, c);
                let m = choose|m: int| 0 <= m < 36 && alphabet()[m] == c;
            }
        }
        if in_alphabet(c) {
            let m = symbol_index(c);
            assert(alphabet()[m] == c);
            if d.contains(c) {
                let j = choose|j: int| 0 <= j < d.len() && d[j] == c;
                assert(sq[j] == c);
            } else {
                alphabet().lemma_filter_contains(keep, m);
                let j = choose|j: int| 0 <= j < rest.len() && rest[j] == c;
                assert(sq[d.len() + j] == c);
            }
        }
    }
    assert forall|c: char| #[trigger] alphabet().contains(c) <==> in_alphabet(c) by {
        if in_alphabet(c) {
            assert(alphabet()[symbol_index(c)] == c);
        }
    }
    assert(sq.to_set() =~= alphabet().to_set());
    sq.unique_seq_to_set();
    alphabet().unique_seq_to_set();
}

/// The read order of a valid column key is a permutation of 0 to 5: it
/// sends each number to the one position of the key that holds it, so that
/// every position is the image of exactly one number.
pub proof fn lemma_read_order_permutation(k: Seq<u8>)
    requires
        valid_column_key(k),
    ensures
        read_order(k).len() == 6,
        forall|v: int|
            0 <= v < 6 ==> 0 <= #[trigger] read_order(k)[v] < 6 && k[read_order(k)[v]] == v + 1,
        forall|i: int| 0 <= i < 6 ==> read_order(k)[#[trigger] k[i] - 1] == i,
        read_order(k).no_duplicates(),
        forall|i: int| 0 <= i < 6 ==> read_order(k).contains(i),
{
    assert forall|v: int| 0 <= v < 6 implies 0 <= #[trigger] read_order(k)[v] < 6 && k[read_order(
        k,
    )[v]] == v + 1 by {
        let w = (v + 1) as u8;
        assert(k[0] == w || k[1] == w || k[2] == w || k[3] == w || k[4] == w || k[5] == w);
        assert(k.contains(w));
    }
    assert forall|i: int| 0 <= i < 6 implies read_order(k)[#[trigger] k[i] - 1] == i by {
        let v = k[i] - 1;
        assert(k[read_order(k)[v]] == v + 1);
    }
    assert forall|i: int| 0 <= i < 6 implies read_order(k).contains(i) by {
        assert(read_order(k)[k[i] - 1] == i);
    }
}

/// The six letters that name the rows and the columns of the square.
pub open spec fn header() -> Seq<char> {
    seq!['A', 'D', 'F', 'G', 'V', 'X']
}

/// Tells whether `c` is one of the six header letters.
pub open spec fn is_header_letter(c: char) -> bool {
    c == 'A' || c == 'D' || c == 'F' || c == 'G' || c == 'V' || c == 'X'
}

/// The rank of a header letter: `A` is 0, `D` 1, `F` 2, `G` 3, `V` 4 and
/// `X` 5.
pub open spec fn header_index(c: char) -> int
    recommends
        is_header_letter(c),
{
    if c == 'A' {
        0
    } else if c == 'D' {
        1
    } else if c == 'F' {
        2
    } else if c == 'G' {
        3
    } else if c == 'V' {
        4
    } else {
        5
    }
}

/// A keyword is valid where it is not empty and each of its characters,
/// upper-cased, is a symbol of the alphabet.
pub open spec fn valid_keyword(w: Seq<char>) -> bool {
    w.len() >= 1 && key_in_alphabet(w)
}

/// A plaintext can be encoded where each of its characters is whitespace
/// or, upper-cased, a symbol of the alphabet.
pub open spec fn encodable(p: Seq<char>) -> bool {
    forall|i: int|
        0 <= i < p.len() ==> is_whitespace(#[trigger] p[i]) || in_alphabet(to_upper(p[i]))
}

/// The digraph stream of `text` through the square `sq`: for each symbol
/// the letter of its row, then the letter of its column.
pub open spec fn digraphs(text: Seq<char>, sq: Seq<char>) -> Seq<char> {
    Seq::new(
        2 * text.len(),
        |j: int|
            {
                let cell = sq.index_of(text[j / 2]);
                if j % 2 == 0 {
                    header()[cell / 6]
                } else {
                    header()[cell % 6]
                }
            },
    )
}

/// `s` followed by as many `X` as bring its length to the next multiple of
/// six.
pub open spec fn pad_to_rows(s: Seq<char>) -> Seq<char> {
    s + Seq::new(((6 - s.len() % 6) % 6) as nat, |i: int| 'X')
}

/// Column `c` of `s` laid out in rows of six.
pub open spec fn column(s: Seq<char>, c: int) -> Seq<char> {
    Seq::new((s.len() / 6) as nat, |r: int| s[6 * r + c])
}

/// The first `count` columns of `s` in the order `order`, one after the
/// other.
pub open spec fn columns_read(s: Seq<char>, order: Seq<int>, count: nat) -> Seq<char>
    decreases count,
{
    if count == 0 {
        Seq::empty()
    } else {
        columns_read(s, order, (count - 1) as nat) + column(s, order[count - 1])
    }
}

/// The six columns of `s` in the read order of the column key `k`.
pub open spec fn transposition(s: Seq<char>, k: Seq<u8>) -> Seq<char> {
    columns_read(s, read_order(k), 6)
}

/// The ADFGVX ciphertext of `plaintext` under `keyword` and `column_key`.
pub open spec fn adfgvx_encrypt(
    plaintext: Seq<char>,
    keyword: Seq<char>,
    column_key: Seq<u8>,
) -> Seq<char> {
    transposition(
        pad_to_rows(digraphs(upper(strip_whitespace(plaintext)), square_symbols(keyword))),
        column_key,
    )
}

/// A ciphertext is well formed where its length is a multiple of six and
/// it is made of header letters.
pub open spec fn well_formed_ciphertext(c: Seq<char>) -> bool {
    &&& c.len() % 6 == 0
    &&& forall|i: int| 0 <= i < c.len() ==> is_header_letter(#[trigger] c[i])
}

/// The rows that the ciphertext `c` came from: its six equal parts are set
/// side by side, part `k[i] - 1` as column `i`, and read row by row.
pub open spec fn inverse_transposition(c: Seq<char>, k: Seq<u8>) -> Seq<char> {
    let n = c.len() as int / 6;
    Seq::new((6 * n) as nat, |j: int| c[(k[j % 6] - 1) * n + j / 6])
}

/// The symbols that the digraphs of `i` name in the square `sq`.
pub open spec fn decode_digraphs(i: Seq<char>, sq: Seq<char>) -> Seq<char> {
    Seq::new(
        (i.len() / 2) as nat,
        |t: int| sq[6 * header_index(i[2 * t]) + header_index(i[2 * t + 1])],
    )
}

/// The ADFGVX plaintext of `ciphertext` under `keyword` and `column_key`.
pub open spec fn adfgvx_decrypt(
    ciphertext: Seq<char>,
    keyword: Seq<char>,
    column_key: Seq<u8>,
) -> Seq<char> {
    decode_digraphs(inverse_transposition(ciphertext, column_key), square_symbols(keyword))
}

/// Builds the polybius square of `keyword`: the rows of six of
/// [`square_symbols`]. For a keyword over the alphabet it has six rows of
/// six.
pub fn polybius_square(keyword: String) -> (square: Vec<Vec<char>>)
    ensures
        is_rows_of(square@, square_symbols(keyword@), 6),
        key_in_alphabet(keyword@) ==> square@.len() == 6 && forall|r: int|
            0 <= r < 6 ==> (#[trigger] square@[r])@.len() == 6,
{
    let chars = to_chars(keyword.as_str());
    let raised = upper_chars(&chars);
    let non_repeating = dedup_chars(&raised);
    let all = alphabet_symbols();
    let mut rest = subtract_chars(&all, &non_repeating);
    let mut combined = non_repeating;
    combined.append(&mut rest);
    let square = chunk_chars(&combined, 6);
    proof {
        if key_in_alphabet(keyword@) {
            lemma_square_of_valid_keyword(keyword@);
        }
    }
    square
}

/// Tells whether `k` is a valid column key.
pub fn check_column_key(k: &Vec<u8>) -> (b: bool)
    ensures
        b == valid_column_key(k@),
{
    if k.len() != 6 {
        return false;
    }
    let mut i: usize = 0;
    while i < 6
        invariant
            i <= 6,
            k@.len() == 6,
            forall|a: int| 0 <= a < i ==> 1 <= #[trigger] k@[a] <= 6,
            forall|a: int, b: int| 0 <= a < b < 6 && a < i ==> k@[a] != k@[b],
        decreases 6 - i,
    {
        if k[i] < 1 || k[i] > 6 {
            return false;
        }
        let mut j: usize = i + 1;
        while j < 6
            invariant
                i < j <= 6,
                k@.len() == 6,
                forall|b: int| i < b < j ==> k@[i as int] != k@[b],
            decreases 6 - j,
        {
            if k[i] == k[j] {
                return false;
            }
            j += 1;
        }
        i += 1;
    }
    true
}

/// The position in `k` of the number `v`.
pub fn position_of(k: &Vec<u8>, v: u8) -> (p: usize)
    requires
        valid_column_key(k@),
        1 <= v <= 6,
    ensures
        p < 6,
        p == read_order(k@)[v - 1],
        k@[p as int] == v,
{
    proof {
        lemma_read_order_permutation(k@);
        assert(k@[read_order(k@)[v - 1]] == v);
    }
    let mut i: usize = 0;
    while i < 5 && k[i] != v
        invariant
            i <= 5,
            k@.len() == 6,
            forall|j: int| 0 <= j < i ==> k@[j] != v,
        decreases 5 - i,
    {
        i += 1;
    }
    i
}

/// The rank of the header letter `c`, if it is one.
pub fn header_position(c: char) -> (r: Option<usize>)
    ensures
        match r {
            Some(i) => is_header_letter(c) && i == header_index(c),
            None => !is_header_letter(c),
        },
{
    if c == 'A' {
        Some(0)
    } else if c == 'D' {
        Some(1)
    } else if c == 'F' {
        Some(2)
    } else if c == 'G' {
        Some(3)
    } else if c == 'V' {
        Some(4)
    } else if c == 'X' {
        Some(5)
    } else {
        None
    }
}

/// The header letter of rank `i`.
pub fn header_letter(i: usize) -> (c: char)
    requires
        i < 6,
    ensures
        c == header()[i as int],
        is_header_letter(c),
        header_index(c) == i,
{
    if i == 0 {
        'A'
    } else if i == 1 {
        'D'
    } else if i == 2 {
        'F'
    } else if i == 3 {
        'G'
    } else if i == 4 {
        'V'
    } else {
        'X'
    }
}

/// In a square of six rows of six, cell (`row`, `col`) holds symbol
/// `6 * row + col` of the flat square.
pub proof fn lemma_square_cell(square: Seq<Vec<char>>, sq: Seq<char>, row: int, col: int)
    requires
        is_rows_of(square, sq, 6),
        sq.len() == 36,
        0 <= row < 6,
        0 <= col < 6,
    ensures
        square.len() == 6,
        square[row]@.len() == 6,
        square[row]@[col] == sq[6 * row + col],
{
    assert(square[row]@ == sq.subrange(row * 6, (row + 1) * 6));
}

/// One more symbol of the text adds its two header letters to the digraph
/// stream.
pub proof fn lemma_digraphs_push(text: Seq<char>, sq: Seq<char>, u: char)
    ensures
        digraphs(text.push(u), sq) == digraphs(text, sq).push(
            header()[sq.index_of(u) / 6],
        ).push(header()[sq.index_of(u) % 6]),
{
    let a = digraphs(text.push(u), sq);
    let b = digraphs(text, sq).push(header()[sq.index_of(u) / 6]).push(
        header()[sq.index_of(u) % 6],
    );
    assert(a.len() == b.len());
    assert forall|j: int| 0 <= j < a.len() implies a[j] == b[j] by {
        if j < 2 * text.len() {
            assert(text.push(u)[j / 2] == text[j / 2]);
        } else {
            assert(j / 2 == text.len());
            assert(text.push(u)[j / 2] == u);
        }
    }
    assert(a =~= b);
}

/// Encrypts `plaintext`: each character that is no whitespace is looked up,
/// upper-cased, in the polybius square of `keyword` and replaced by the
/// header letters of its row and its column; the stream is padded with `X`
/// to full rows of six, and the six columns are read in the order that
/// `column_key` gives.
///
/// Fails with `InvalidKey` where the keyword is empty or holds a character
/// outside the alphabet, or the column key is no permutation of 1 to 6; and
/// with `InvalidCharacter` where the keys are valid and the plaintext holds
/// a character that is neither whitespace nor in the square.
pub fn encrypt_adfgvx(plaintext: String, keyword: String, column_key: Vec<u8>) -> (r: Result<
    String,
    CipherError,
>)
    ensures
        !(valid_keyword(keyword@) && valid_column_key(column_key@)) ==> r == Err::<
            String,
            CipherError,
        >(CipherError::InvalidKey),
        valid_keyword(keyword@) && valid_column_key(column_key@) && !encodable(plaintext@) ==> r
            == Err::<String, CipherError>(CipherError::InvalidCharacter),
        valid_keyword(keyword@) && valid_column_key(column_key@) && encodable(plaintext@) ==> r is Ok
            && r->Ok_0@ == adfgvx_encrypt(plaintext@, keyword@, column_key@),
{
    let text = to_chars(plaintext.as_str());
    let key = to_chars(keyword.as_str());
    if key.len() == 0 || !check_key(&key) || !check_column_key(&column_key) {
        return Err(CipherError::InvalidKey);
    }
    let ghost sq = square_symbols(keyword@);
    let square = polybius_square(keyword);
    proof {
        lemma_square_of_valid_keyword(key@);
    }
    let mut intermediate: Vec<char> = Vec::new();
    let mut i: usize = 0;
    assert(digraphs(upper(strip_whitespace(text@.take(0))), sq) =~= Seq::<char>::empty()) by {
        reveal(Seq::filter);
    }
    while i < text.len()
        invariant
            i <= text.len(),
            text@ == plaintext@,
            valid_keyword(keyword@),
            valid_column_key(column_key@),
            sq == square_symbols(key@),
            sq.len() == 36,
            sq.no_duplicates(),
            forall|c: char| #[trigger] sq.contains(c) <==> in_alphabet(c),
            is_rows_of(square@, sq, 6),
            encodable(text@.take(i as int)),
            intermediate@ == digraphs(upper(strip_whitespace(text@.take(i as int))), sq),
        decreases text.len() - i,
    {
        let letter = text[i];
        let ghost before = text@.take(i as int);
        let ghost after = text@.take(i + 1);
        proof {
            assert(after =~= before.push(letter));
            before.lemma_filter_push(letter, |c: char| !is_whitespace(c));
            assert forall|j: int| 0 <= j < 6 implies (#[trigger] square@[j])@.len() == 6 by {
                lemma_square_cell(square@, sq, j, 0);
            }
        }
        if !char_is_whitespace(letter) {
            let u = char_to_upper(letter);
            match find_char(&square, u) {
                None => {
                    proof {
                        if in_alphabet(u) {
                            assert(sq.contains(u));
                            let m = choose|m: int| 0 <= m < sq.len() && sq[m] == u;
                            lemma_square_cell(square@, sq, m / 6, m % 6);
                            assert(false);
                        }
                        assert(text@[i as int] == letter);
                        assert(!encodable(text@));
                    }
                    return Err(CipherError::InvalidCharacter);
                },
                Some((col, row)) => {
                    proof {
                        lemma_square_cell(square@, sq, row as int, col as int);
                        assert(sq[6 * row + col] == u);
                        assert(sq.contains(u));
                        assert(sq.index_of(u) == 6 * row + col);
                        assert(upper(strip_whitespace(after)) =~= upper(
                            strip_whitespace(before),
                        ).push(u));
                        lemma_digraphs_push(upper(strip_whitespace(before)), sq, u);
                    }
                    intermediate.push(header_letter(row));
                    intermediate.push(header_letter(col));
                },
            }
        } else {
            assert(encodable(after));
        }
        i += 1;
    }
    assert(text@.take(text@.len() as int) =~= text@);
    let ghost stream = intermediate@;
    let mut padded = intermediate;
    while padded.len() % 6 != 0
        invariant
            stream.len() % 2 == 0,
            padded@.len() % 2 == 0,
            stream.len() <= padded@.len(),
            padded@.len() - stream.len() <= (6 - stream.len() % 6) % 6,
            padded@ == stream + Seq::new((padded@.len() - stream.len()) as nat, |i: int| 'X'),
        decreases (6 - stream.len() % 6) % 6 - (padded@.len() - stream.len()),
    {
        padded.push('X');
        padded.push('X');
        assert(padded@ =~= stream + Seq::new(
            (padded@.len() - stream.len()) as nat,
            |i: int| 'X',
        ));
    }
    assert(padded@ == pad_to_rows(stream));
    if padded.len() == 0 {
        proof {
            reveal_with_fuel(columns_read, 7);
            assert(adfgvx_encrypt(plaintext@, keyword@, column_key@) =~= Seq::<char>::empty());
        }
        return Ok(String::new());
    }
    let rows = chunk_chars(&padded, 6);
    let ghost n = padded@.len() as int / 6;
    proof {
        assert(rows@.len() == n);
        assert forall|r: int| 0 <= r < n implies (#[trigger] rows@[r])@ == padded@.subrange(
            r * 6,
            r * 6 + 6,
        ) by {}
    }
    let ghost grid = rows@;
    let transposed = transpose(rows);
    let mut out: Vec<char> = Vec::new();
    let mut v: usize = 0;
    while v < 6
        invariant
            v <= 6,
            valid_column_key(column_key@),
            n == padded@.len() as int / 6,
            padded@.len() == 6 * n,
            grid.len() == n,
            forall|r: int| 0 <= r < n ==> (#[trigger] grid[r])@ == padded@.subrange(r * 6, r * 6 + 6),
            transposed@.len() == 6,
            forall|c: int| 0 <= c < 6 ==> (#[trigger] transposed@[c])@.len() == n,
            forall|r: int, c: int|
                0 <= r < n && 0 <= c < 6 ==> cloned(grid[r]@[c], transposed@[c]@[r]),
            out@ == columns_read(padded@, read_order(column_key@), v as nat),
        decreases 6 - v,
    {
        let idx = position_of(&column_key, (v + 1) as u8);
        let ghost before = out@;
        let mut r: usize = 0;
        assert(transposed@[idx as int]@.len() == n);
        while r < transposed[idx].len()
            invariant
                r <= n,
                idx < 6,
                padded@.len() == 6 * n,
                grid.len() == n,
                forall|r: int|
                    0 <= r < n ==> (#[trigger] grid[r])@ == padded@.subrange(r * 6, r * 6 + 6),
                transposed@.len() == 6,
                transposed@[idx as int]@.len() == n,
                forall|r: int, c: int|
                    0 <= r < n && 0 <= c < 6 ==> cloned(grid[r]@[c], transposed@[c]@[r]),
                out@ == before + column(padded@, idx as int).take(r as int),
            decreases n - r,
        {
            let x = transposed[idx][r];
            proof {
                assert(cloned(grid[r as int]@[idx as int], transposed@[idx as int]@[r as int]));
                assert(grid[r as int]@[idx as int] == padded@[6 * r + idx]);
                assert(x == padded@[6 * r + idx]);
                assert(column(padded@, idx as int).take(r + 1) =~= column(
                    padded@,
                    idx as int,
                ).take(r as int).push(x));
            }
            out.push(x);
            r += 1;
            assert(out@ =~= before + column(padded@, idx as int).take(r as int));
        }
        assert(column(padded@, idx as int).take(n) =~= column(padded@, idx as int));
        v += 1;
    }
    Ok(from_chars(&out))
}

/// A text of `6 * n` characters cut into rows of `n` gives six rows, row
/// `q` holding the characters from `q * n` on.
pub proof fn lemma_six_parts(rows: Seq<Vec<char>>, flat: Seq<char>, n: int)
    requires
        n > 0,
        flat.len() == 6 * n,
        is_rows_of(rows, flat, n),
    ensures
        rows.len() == 6,
        forall|q: int| 0 <= q < 6 ==> 0 <= #[trigger] (q * n) && q * n + n <= flat.len(),
        forall|q: int| 0 <= q < 6 ==> (#[trigger] rows[q])@ == flat.subrange(q * n, q * n + n),
{
    let m = rows.len() as int;
    assert(m == 6) by (nonlinear_arith)
        requires
            (m - 1) * n < 6 * n,
            6 * n <= m * n,
            n > 0,
    ;
    assert forall|q: int| 0 <= q < 6 implies (#[trigger] rows[q])@ == flat.subrange(
        q * n,
        q * n + n,
    ) by {
        assert((q + 1) * n == q * n + n) by (nonlinear_arith);
        assert((q + 1) * n <= 6 * n) by (nonlinear_arith)
            requires
                q + 1 <= 6,
                n > 0,
        ;
    }
    assert forall|q: int| 0 <= q < 6 implies 0 <= #[trigger] (q * n) && q * n + n
        <= flat.len() by {
        assert(0 <= q * n && q * n + n <= 6 * n) by (nonlinear_arith)
            requires
                0 <= q < 6,
                n > 0,
        ;
    }
}

/// A copy of `v`.
pub fn copy_chars(v: &Vec<char>) -> (r: Vec<char>)
    ensures
        r@ == v@,
{
    let mut r: Vec<char> = Vec::new();
    let mut i: usize = 0;
    while i < v.len()
        invariant
            i <= v.len(),
            r@ == v@.take(i as int),
        decreases v.len() - i,
    {
        r.push(v[i]);
        proof {
            assert(v@.take(i + 1) =~= v@.take(i as int).push(v@[i as int]));
        }
        i += 1;
    }
    assert(v@.take(v@.len() as int) =~= v@);
    r
}

/// Puts the six equal parts of `chars` back as the columns that
/// `column_key` names and reads the rows one after the other.
pub fn undo_transposition(chars: &Vec<char>, column_key: &Vec<u8>) -> (intermediate: Vec<char>)
    requires
        chars@.len() % 6 == 0,
        valid_column_key(column_key@),
    ensures
        intermediate@ == inverse_transposition(chars@, column_key@),
{
    let width: usize = chars.len() / 6;
    let ghost n = width as int;
    let mut intermediate: Vec<char> = Vec::new();
    if width > 0 {
        let chunked = chunk_chars(chars, width);
        proof {
            lemma_six_parts(chunked@, chars@, n);
        }
        let mut intermediate_vector: Vec<Vec<char>> = Vec::new();
        let mut i: usize = 0;
        while i < 6
            invariant
                i <= 6,
                valid_column_key(column_key@),
                chunked@.len() == 6,
                intermediate_vector@.len() == i,
                forall|j: int|
                    0 <= j < i ==> (#[trigger] intermediate_vector@[j])@ == chunked@[column_key@[j]
                        - 1]@,
            decreases 6 - i,
        {
            let part: usize = (column_key[i] - 1) as usize;
            intermediate_vector.push(copy_chars(&chunked[part]));
            i += 1;
        }
        let ghost columns = intermediate_vector@;
        proof {
            assert forall|j: int| 0 <= j < 6 implies (#[trigger] columns[j])@.len() == n && (
            forall|r: int|
                0 <= r < n ==> #[trigger] columns[j]@[r] == chars@[(column_key@[j] - 1) * n + r]) by {
                let q = column_key@[j] - 1;
                assert(columns[j]@ == chunked@[q]@);
                assert(0 <= q * n && q * n + n <= chars@.len());
                assert(chunked@[q]@ == chars@.subrange(q * n, q * n + n));
            }
        }
        let transposed = transpose(intermediate_vector);
        let mut r: usize = 0;
        while r < width
            invariant
                r <= width,
                n == width,
                chars@.len() == 6 * n,
                columns.len() == 6,
                forall|j: int, r: int|
                    0 <= j < 6 && 0 <= r < n ==> #[trigger] columns[j]@[r] == chars@[(
                    column_key@[j] - 1) * n + r],
                transposed@.len() == n,
                forall|c: int| 0 <= c < n ==> (#[trigger] transposed@[c])@.len() == 6,
                forall|a: int, c: int|
                    0 <= a < 6 && 0 <= c < n ==> cloned(columns[a]@[c], transposed@[c]@[a]),
                intermediate@.len() == 6 * r,
                forall|j: int|
                    0 <= j < 6 * r ==> intermediate@[j] == chars@[(column_key@[j % 6] - 1) * n + j
                        / 6],
            decreases width - r,
        {
            let mut c: usize = 0;
            while c < 6
                invariant
                    c <= 6,
                    r < width,
                    n == width,
                    chars@.len() == 6 * n,
                    columns.len() == 6,
                    forall|j: int, r: int|
                        0 <= j < 6 && 0 <= r < n ==> #[trigger] columns[j]@[r] == chars@[(
                        column_key@[j] - 1) * n + r],
                    transposed@.len() == n,
                    forall|c: int| 0 <= c < n ==> (#[trigger] transposed@[c])@.len() == 6,
                    forall|a: int, c: int|
                        0 <= a < 6 && 0 <= c < n ==> cloned(columns[a]@[c], transposed@[c]@[a]),
                    intermediate@.len() == 6 * r + c,
                    forall|j: int|
                        0 <= j < 6 * r + c ==> intermediate@[j] == chars@[(column_key@[j % 6] - 1)
                            * n + j / 6],
                decreases 6 - c,
            {
                assert(transposed@[r as int]@.len() == 6);
                let x = transposed[r][c];
                proof {
                    assert(cloned(columns[c as int]@[r as int], transposed@[r as int]@[c as int]));
                    assert(x == columns[c as int]@[r as int]);
                }
                intermediate.push(x);
                c += 1;
            }
            r += 1;
        }
    }
    proof {
        assert(intermediate@ =~= inverse_transposition(chars@, column_key@));
    }
    intermediate
}

/// The 36 cells of a square of six rows of six, row after row.
pub open spec fn square_cells(square: Seq<Vec<char>>) -> Seq<char> {
    Seq::new(36, |m: int| square[m / 6]@[m % 6])
}

/// Replaces each digraph of `intermediate` by the symbol that it names in
/// `square`; gives nothing where a character is no header letter.
pub fn decode_pairs(intermediate: &Vec<char>, square: &Vec<Vec<char>>) -> (r: Option<Vec<char>>)
    requires
        square@.len() == 6,
        forall|r: int| 0 <= r < 6 ==> (#[trigger] square@[r])@.len() == 6,
        intermediate@.len() % 2 == 0,
    ensures
        match r {
            Some(plain) => plain@ == decode_digraphs(intermediate@, square_cells(square@))
                && forall|j: int|
                0 <= j < intermediate@.len() ==> is_header_letter(#[trigger] intermediate@[j]),
            None => exists|j: int|
                0 <= j < intermediate@.len() && !is_header_letter(#[trigger] intermediate@[j]),
        },
{
    let ghost sq = square_cells(square@);
    let mut plain: Vec<char> = Vec::new();
    let mut t: usize = 0;
    let pairs: usize = intermediate.len() / 2;
    while t < pairs
        invariant
            t <= pairs,
            pairs == intermediate@.len() / 2,
            intermediate@.len() % 2 == 0,
            intermediate@.len() <= usize::MAX,
            sq == square_cells(square@),
            square@.len() == 6,
            forall|r: int| 0 <= r < 6 ==> (#[trigger] square@[r])@.len() == 6,
            forall|j: int| 0 <= j < 2 * t ==> is_header_letter(#[trigger] intermediate@[j]),
            plain@.len() == t,
            forall|j: int|
                0 <= j < t ==> plain@[j] == sq[6 * header_index(intermediate@[2 * j])
                    + header_index(intermediate@[2 * j + 1])],
        decreases pairs - t,
    {
        let first = header_position(intermediate[2 * t]);
        let second = header_position(intermediate[2 * t + 1]);
        match (first, second) {
            (Some(row), Some(col)) => {
                assert(square@[row as int]@.len() == 6);
                proof {
                    let m = 6 * row + col;
                    assert(m / 6 == row && m % 6 == col);
                }
                plain.push(square[row][col]);
            },
            _ => {
                proof {
                    let j: int = if first is None {
                        2 * t
                    } else {
                        2 * t + 1
                    };
                    assert(!is_header_letter(intermediate@[j]));
                }
                return None;
            },
        }
        t += 1;
    }
    proof {
        assert(plain@ =~= decode_digraphs(intermediate@, sq));
    }
    Some(plain)
}

/// Decrypts `encrypted_text`: its six equal parts are put back as the
/// columns that `column_key` names, the rows are read as digraphs, and each
/// digraph is replaced by the symbol it names in the polybius square of
/// `key`. Padding that the encryption added is not taken off.
///
/// Fails with `InvalidKey` where the keyword is empty or holds a character
/// outside the alphabet, or the column key is no permutation of 1 to 6; and
/// with `MalformedCiphertext` where the keys are valid and the length of
/// the text is no multiple of six or the text holds a character that is no
/// header letter.
pub fn decrypt_adfgvx(encrypted_text: String, key: String, column_key: Vec<u8>) -> (r: Result<
    String,
    CipherError,
>)
    ensures
        !(valid_keyword(key@) && valid_column_key(column_key@)) ==> r == Err::<String, CipherError>(
            CipherError::InvalidKey,
        ),
        valid_keyword(key@) && valid_column_key(column_key@) && !well_formed_ciphertext(
            encrypted_text@,
        ) ==> r == Err::<String, CipherError>(CipherError::MalformedCiphertext),
        valid_keyword(key@) && valid_column_key(column_key@) && well_formed_ciphertext(
            encrypted_text@,
        ) ==> r is Ok && r->Ok_0@ == adfgvx_decrypt(encrypted_text@, key@, column_key@),
{
    let chars = to_chars(encrypted_text.as_str());
    let keyword = to_chars(key.as_str());
    if keyword.len() == 0 || !check_key(&keyword) || !check_column_key(&column_key) {
        return Err(CipherError::InvalidKey);
    }
    if chars.len() % 6 != 0 {
        return Err(CipherError::MalformedCiphertext);
    }
    let ghost sq = square_symbols(key@);
    let square = polybius_square(key);
    proof {
        lemma_square_of_valid_keyword(keyword@);
    }
    let intermediate = undo_transposition(&chars, &column_key);
    proof {
        assert forall|m: int| 0 <= m < 36 implies square_cells(square@)[m] == sq[m] by {
            lemma_square_cell(square@, sq, m / 6, m % 6);
        }
        assert(square_cells(square@) =~= sq);
        assert forall|r: int| 0 <= r < 6 implies (#[trigger] square@[r])@.len() == 6 by {
            lemma_square_cell(square@, sq, r, 0);
        }
    }
    match decode_pairs(&intermediate, &square) {
        Some(plain) => {
            proof {
                assert forall|j: int| 0 <= j < chars@.len() implies is_header_letter(
                    #[trigger] chars@[j],
                ) by {
                    lemma_inverse_transposition_covers(chars@, column_key@, j);
                }
            }
            Ok(from_chars(&plain))
        },
        None => {
            proof {
                let j = choose|j: int|
                    0 <= j < intermediate@.len() && !is_header_letter(#[trigger] intermediate@[j]);
                let n = chars@.len() as int / 6;
                let q = column_key@[j % 6] - 1;
                assert(0 <= q * n + j / 6 < 6 * n) by (nonlinear_arith)
                    requires
                        0 <= q < 6,
                        0 <= j / 6 < n,
                ;
                assert(intermediate@[j] == chars@[q * n + j / 6]);
            }
            Err(CipherError::MalformedCiphertext)
        },
    }
}

/// Every character of a text of full columns turns up in its inverse
/// transposition.
pub proof fn lemma_inverse_transposition_covers(c: Seq<char>, k: Seq<u8>, j: int)
    requires
        c.len() % 6 == 0,
        valid_column_key(k),
        0 <= j < c.len(),
    ensures
        exists|m: int|
            0 <= m < c.len() && #[trigger] inverse_transposition(c, k)[m] == c[j],
{
    let n = c.len() as int / 6;
    let q = j / n;
    let r = j % n;
    assert(j == q * n + r && 0 <= r < n && 0 <= q < 6) by (nonlinear_arith)
        requires
            n > 0,
            0 <= j < 6 * n,
            q == j / n,
            r == j % n,
    ;
    lemma_read_order_permutation(k);
    let i = read_order(k)[q];
    assert(k[i] == q + 1);
    let m = 6 * r + i;
    assert(m % 6 == i && m / 6 == r);
    assert(inverse_transposition(c, k)[m] == c[(k[m % 6] - 1) * n + m / 6]);
}

/// The first `count` columns read hold `count` times the number of rows,
/// and the character at place `r` of the column read as number `q` is the
/// one of row `r` in column `order[q]`.
pub proof fn lemma_columns_read(s: Seq<char>, order: Seq<int>, count: nat)
    requires
        s.len() % 6 == 0,
        count <= 6,
    ensures
        columns_read(s, order, count).len() == count * (s.len() as int / 6),
        forall|q: int, r: int|
            0 <= q < count && 0 <= r < s.len() as int / 6 ==> columns_read(s, order, count)[q * (
            s.len() as int / 6) + r] == #[trigger] s[6 * r + order[q]],
    decreases count,
{
    let n = s.len() as int / 6;
    if count == 0 {
        assert(0 * n == 0) by (nonlinear_arith);
    } else {
        let before = columns_read(s, order, (count - 1) as nat);
        let last = column(s, order[count - 1]);
        lemma_columns_read(s, order, (count - 1) as nat);
        assert(count * n == (count - 1) * n + n) by (nonlinear_arith);
        assert forall|q: int, r: int| 0 <= q < count && 0 <= r < n implies columns_read(
            s,
            order,
            count,
        )[q * n + r] == #[trigger] s[6 * r + order[q]] by {
            if q < count - 1 {
                assert(0 <= q * n + r < (count - 1) * n) by (nonlinear_arith)
                    requires
                        0 <= q < count - 1,
                        0 <= r < n,
                ;
                assert((before + last)[q * n + r] == before[q * n + r]);
            } else {
                assert((before + last)[(count - 1) * n + r] == last[r]);
            }
        }
    }
}

/// Putting the columns back undoes the transposition.
pub proof fn lemma_transposition_inverse(s: Seq<char>, k: Seq<u8>)
    requires
        s.len() % 6 == 0,
        valid_column_key(k),
    ensures
        transposition(s, k).len() == s.len(),
        inverse_transposition(transposition(s, k), k) == s,
{
    let n = s.len() as int / 6;
    let order = read_order(k);
    let c = transposition(s, k);
    lemma_columns_read(s, order, 6);
    lemma_read_order_permutation(k);
    assert(c.len() == 6 * n);
    let back = inverse_transposition(c, k);
    assert forall|j: int| 0 <= j < s.len() implies back[j] == s[j] by {
        let q = k[j % 6] - 1;
        let r = j / 6;
        assert(order[q] == j % 6);
        assert(c[q * n + r] == s[6 * r + order[q]]);
    }
    assert(back =~= s);
}

/// Decoding the digraph stream of a text gives the text back, where each of
/// its symbols is in the square.
pub proof fn lemma_decode_digraphs(text: Seq<char>, sq: Seq<char>)
    requires
        sq.len() == 36,
        forall|i: int| 0 <= i < text.len() ==> sq.contains(#[trigger] text[i]),
    ensures
        digraphs(text, sq).len() == 2 * text.len(),
        decode_digraphs(digraphs(text, sq), sq) == text,
{
    let stream = digraphs(text, sq);
    let back = decode_digraphs(stream, sq);
    assert forall|t: int| 0 <= t < text.len() implies back[t] == text[t] by {
        assert(sq.contains(text[t]));
        let cell = sq.index_of(text[t]);
        assert(0 <= cell < 36 && sq[cell] == text[t]);
        assert((2 * t) / 2 == t && (2 * t + 1) / 2 == t);
        assert(stream[2 * t] == header()[cell / 6]);
        assert(stream[2 * t + 1] == header()[cell % 6]);
        assert(header_index(header()[cell / 6]) == cell / 6);
        assert(header_index(header()[cell % 6]) == cell % 6);
    }
    assert(back =~= text);
}

/// The symbols of a plaintext that can be encoded are all in the square of
/// a keyword over the alphabet.
pub proof fn lemma_text_in_square(plaintext: Seq<char>, keyword: Seq<char>)
    requires
        key_in_alphabet(keyword),
        encodable(plaintext),
    ensures
        forall|i: int|
            0 <= i < upper(strip_whitespace(plaintext)).len() ==> square_symbols(keyword).contains(
                #[trigger] upper(strip_whitespace(plaintext))[i],
            ),
{
    let sq = square_symbols(keyword);
    let bare = strip_whitespace(plaintext);
    let text = upper(bare);
    let keep = |c: char| !is_whitespace(c);
    lemma_square_of_valid_keyword(keyword);
    assert forall|i: int| 0 <= i < text.len() implies sq.contains(#[trigger] text[i]) by {
        plaintext.lemma_filter_pred(keep, i);
        assert(bare.contains(bare[i]));
        plaintext.lemma_filter_contains_rev(keep, bare[i]);
        let m = choose|m: int| 0 <= m < plaintext.len() && plaintext[m] == bare[i];
        assert(is_whitespace(plaintext[m]) || in_alphabet(to_upper(plaintext[m])));
        assert(text[i] == to_upper(bare[i]));
    }
}

/// The shape of a ciphertext: it is as long as the padded digraph stream,
/// its length is a multiple of six, and it is made of header letters.
pub proof fn lemma_ciphertext_shape(plaintext: Seq<char>, keyword: Seq<char>, column_key: Seq<u8>)
    requires
        valid_keyword(keyword),
        valid_column_key(column_key),
        encodable(plaintext),
    ensures
        adfgvx_encrypt(plaintext, keyword, column_key).len() == pad_to_rows(
            digraphs(upper(strip_whitespace(plaintext)), square_symbols(keyword)),
        ).len(),
        well_formed_ciphertext(adfgvx_encrypt(plaintext, keyword, column_key)),
{
    let sq = square_symbols(keyword);
    let text = upper(strip_whitespace(plaintext));
    let stream = digraphs(text, sq);
    let padded = pad_to_rows(stream);
    let c = transposition(padded, column_key);
    let n = padded.len() as int / 6;
    let order = read_order(column_key);
    lemma_square_of_valid_keyword(keyword);
    lemma_text_in_square(plaintext, keyword);
    assert forall|j: int| 0 <= j < padded.len() implies is_header_letter(#[trigger] padded[j]) by {
        if j < stream.len() {
            assert(sq.contains(text[j / 2]));
            let cell = sq.index_of(text[j / 2]);
            assert(0 <= cell < 36);
            assert(is_header_letter(header()[cell / 6]));
            assert(is_header_letter(header()[cell % 6]));
        }
    }
    lemma_columns_read(padded, order, 6);
    lemma_read_order_permutation(column_key);
    assert forall|j: int| 0 <= j < c.len() implies is_header_letter(#[trigger] c[j]) by {
        let q = j / n;
        let r = j % n;
        assert(j == q * n + r && 0 <= r < n && 0 <= q < 6) by (nonlinear_arith)
            requires
                n > 0,
                0 <= j < 6 * n,
                q == j / n,
                r == j % n,
        ;
        assert(0 <= order[q] < 6);
        assert(c[q * n + r] == padded[6 * r + order[q]]);
    }
}

/// Round trip: with a valid keyword and a valid column key, for a
/// plaintext that can be encoded and whose characters other than
/// whitespace number a multiple of three, so that no padding is added,
/// decrypting the encryption gives the plaintext without its whitespace,
/// upper-cased.
pub proof fn lemma_adfgvx_round_trip(
    plaintext: Seq<char>,
    keyword: Seq<char>,
    column_key: Seq<u8>,
)
    requires
        valid_keyword(keyword),
        valid_column_key(column_key),
        encodable(plaintext),
        strip_whitespace(plaintext).len() % 3 == 0,
    ensures
        adfgvx_decrypt(
            adfgvx_encrypt(plaintext, keyword, column_key),
            keyword,
            column_key,
        ) == upper(strip_whitespace(plaintext)),
{
    let sq = square_symbols(keyword);
    let text = upper(strip_whitespace(plaintext));
    lemma_square_of_valid_keyword(keyword);
    lemma_text_in_square(plaintext, keyword);
    lemma_decode_digraphs(text, sq);
    let stream = digraphs(text, sq);
    assert(pad_to_rows(stream) =~= stream);
    lemma_transposition_inverse(stream, column_key);
}

/// The number of symbols that the padding of the digraph stream of `n`
/// symbols decodes to.
pub open spec fn padding_symbols(n: nat) -> nat {
    (((6 - (2 * n) % 6) % 6) / 2) as nat
}

/// Round trip with padding: with a valid keyword and a valid column key,
/// decrypting the encryption of a plaintext that can be encoded gives the
/// plaintext without its whitespace, upper-cased, followed by one symbol
/// for each pair of `X` that padded it: the symbol in the last cell of the
/// square.
pub proof fn lemma_adfgvx_round_trip_padded(
    plaintext: Seq<char>,
    keyword: Seq<char>,
    column_key: Seq<u8>,
)
    requires
        valid_keyword(keyword),
        valid_column_key(column_key),
        encodable(plaintext),
    ensures
        adfgvx_decrypt(
            adfgvx_encrypt(plaintext, keyword, column_key),
            keyword,
            column_key,
        ) == upper(strip_whitespace(plaintext)) + Seq::new(
            padding_symbols(strip_whitespace(plaintext).len()),
            |i: int| square_symbols(keyword)[35],
        ),
{
    let sq = square_symbols(keyword);
    let text = upper(strip_whitespace(plaintext));
    let stream = digraphs(text, sq);
    let padded = pad_to_rows(stream);
    lemma_square_of_valid_keyword(keyword);
    lemma_text_in_square(plaintext, keyword);
    lemma_decode_digraphs(text, sq);
    lemma_transposition_inverse(padded, column_key);
    let back = decode_digraphs(padded, sq);
    let expected = text + Seq::new(padding_symbols(text.len()), |i: int| sq[35]);
    assert(back.len() == expected.len());
    assert forall|t: int| 0 <= t < back.len() implies back[t] == expected[t] by {
        if t < text.len() {
            assert(padded[2 * t] == stream[2 * t]);
            assert(padded[2 * t + 1] == stream[2 * t + 1]);
            assert(decode_digraphs(stream, sq)[t] == text[t]);
        } else {
            assert(padded[2 * t] == 'X');
            assert(padded[2 * t + 1] == 'X');
        }
    }
    assert(back =~= expected);
}

/// The number that the word `w` writes: one of the digits `1` to `6`.
pub open spec fn key_number(w: Seq<char>) -> Option<u8> {
    if w.len() == 1 && '1' <= w[0] <= '6' {
        Some((w[0] as u8 - 48) as u8)
    } else {
        None
    }
}

/// The numbers that the words of `text` write, in order.
pub open spec fn key_numbers(words: Seq<Seq<char>>) -> Seq<u8> {
    Seq::new(words.len(), |i: int| key_number(words[i]).unwrap_or(0))
}

/// The column key that `text` writes: six numbers from 1 to 6, separated by
/// whitespace, that form a permutation.
pub open spec fn written_column_key(text: Seq<char>) -> Option<Seq<u8>> {
    let words = split_words(text);
    if words.len() == 6 && (forall|i: int| 0 <= i < 6 ==> key_number(#[trigger] words[i]) is Some)
        && valid_column_key(key_numbers(words)) {
        Some(key_numbers(words))
    } else {
        None
    }
}

/// Reads a column key written as six numbers from 1 to 6 separated by
/// whitespace. Fails with `InvalidKey` where `text` is anything else, or
/// the numbers are no permutation.
pub fn parse_column_key(text: &str) -> (r: Result<Vec<u8>, CipherError>)
    ensures
        match r {
            Ok(k) => written_column_key(text@) == Some(k@),
            Err(e) => e == CipherError::InvalidKey && written_column_key(text@) is None,
        },
{
    let chars = to_chars(text);
    let words = split_whitespace_chars(&chars);
    if words.len() != 6 {
        return Err(CipherError::InvalidKey);
    }
    let ghost all = views(words@);
    let mut key: Vec<u8> = Vec::new();
    let mut i: usize = 0;
    while i < 6
        invariant
            i <= 6,
            words@.len() == 6,
            all == views(words@),
            all == split_words(text@),
            key@.len() == i,
            forall|j: int| 0 <= j < i ==> key_number(#[trigger] all[j]) == Some(key@[j]),
        decreases 6 - i,
    {
        let word = &words[i];
        assert(word@ == all[i as int]);
        if word.len() != 1 || word[0] < '1' || word[0] > '6' {
            assert(key_number(all[i as int]) is None);
            return Err(CipherError::InvalidKey);
        }
        key.push((word[0] as u8) - 48);
        i += 1;
    }
    assert(key@ =~= key_numbers(all));
    if !check_column_key(&key) {
        return Err(CipherError::InvalidKey);
    }
    Ok(key)
}

/// The characters of `row`, single spaces between them.
pub open spec fn spaced_row(row: Seq<char>) -> Seq<char>
    decreases row.len(),
{
    if row.len() <= 1 {
        row
    } else {
        spaced_row(row.drop_last()).push(' ').push(row.last())
    }
}

/// The letter that names row `i` of the square; a space from the seventh
/// row on.
pub open spec fn row_label(i: int) -> char {
    if 0 <= i < 6 {
        header()[i]
    } else {
        ' '
    }
}

/// The rows of a square as lines of text: the letter of the row, a bar, and
/// the symbols of the row.
pub open spec fn square_lines(rows: Seq<Seq<char>>) -> Seq<char>
    decreases rows.len(),
{
    if rows.len() == 0 {
        Seq::empty()
    } else {
        square_lines(rows.drop_last()) + seq![row_label(rows.len() - 1), ' ', '|', ' ']
            + spaced_row(rows.last()) + seq!['\n']
    }
}

/// A square as text: the line of the column letters, a rule of two dashes
/// for each row, and the rows.
pub open spec fn square_text(rows: Seq<Seq<char>>) -> Seq<char> {
    "   A D F G V X    \n   "@ + Seq::new(2 * rows.len(), |i: int| '-') + seq!['\n'] + square_lines(
        rows,
    )
}

/// Sets a polybius square as text, its rows and columns named by the header
/// letters.
pub fn polybius_to_string(square: &Vec<Vec<char>>) -> (r: String)
    ensures
        r@ == square_text(views(square@)),
{
    let ghost rows = views(square@);
    let mut result = String::from_str("   A D F G V X    \n   ");
    let ghost heading = result@;
    let mut i: usize = 0;
    while i < square.len()
        invariant
            i <= square.len(),
            result@ == heading + Seq::new(2 * (i as nat), |k: int| '-'),
        decreases square.len() - i,
    {
        result.push('-');
        result.push('-');
        i += 1;
        assert(result@ =~= heading + Seq::new(2 * (i as nat), |k: int| '-'));
    }
    result.push('\n');
    let ghost top = result@;
    let mut i: usize = 0;
    assert(rows.take(0) =~= Seq::<Seq<char>>::empty());
    while i < square.len()
        invariant
            i <= square.len(),
            rows == views(square@),
            result@ == top + square_lines(rows.take(i as int)),
        decreases square.len() - i,
    {
        let ghost before = result@;
        let label = if i < 6 {
            header_letter(i)
        } else {
            ' '
        };
        result.push(label);
        result.push(' ');
        result.push('|');
        result.push(' ');
        let ghost start = result@;
        let row = &square[i];
        let mut j: usize = 0;
        assert(row@.take(0) =~= Seq::<char>::empty());
        while j < row.len()
            invariant
                j <= row.len(),
                result@ == start + spaced_row(row@.take(j as int)),
            decreases row.len() - j,
        {
            proof {
                assert(row@.take(j + 1).drop_last() =~= row@.take(j as int));
                assert(row@.take(j + 1).last() == row@[j as int]);
            }
            if j > 0 {
                result.push(' ');
            }
            result.push(row[j]);
            proof {
                if j == 0 {
                    assert(row@.take(1) =~= seq![row@[0]]);
                    assert(spaced_row(row@.take(1)) == row@.take(1));
                }
                assert(result@ =~= start + spaced_row(row@.take(j + 1)));
            }
            j += 1;
        }
        result.push('\n');
        proof {
            assert(row@.take(row@.len() as int) =~= row@);
            assert(rows.take(i + 1).drop_last() =~= rows.take(i as int));
            assert(rows.take(i + 1).last() == row@);
            assert(start =~= before + seq![row_label(i as int), ' ', '|', ' ']);
            assert(result@ =~= top + square_lines(rows.take(i + 1)));
        }
        i += 1;
    }
    assert(rows.take(rows.len() as int) =~= rows);
    result
}

} // verus!
