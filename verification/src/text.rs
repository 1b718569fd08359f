//! Text primitives shared by the cipher engines.
use vstd::prelude::*;
use regex::Regex;

verus! {

/// The Unicode code points with the `White_Space` property.
pub open spec fn is_whitespace(c: char) -> bool {
    let n = c as u32;
    ||| 0x09 <= n <= 0x0D
    ||| n == 0x20
    ||| n == 0x85
    ||| n == 0xA0
    ||| n == 0x1680
    ||| 0x2000 <= n <= 0x200A
    ||| n == 0x2028
    ||| n == 0x2029
    ||| n == 0x202F
    ||| n == 0x205F
    ||| n == 0x3000
}

/// ASCII upper-casing of one character: `a`..`z` become `A`..`Z`, every
/// other character stays.
pub open spec fn to_upper(c: char) -> char {
    if 'a' <= c <= 'z' {
        ((c as u8) - 32) as char
    } else {
        c
    }
}

/// Tells whether `c` is a whitespace character.
pub fn char_is_whitespace(c: char) -> (b: bool)
    ensures
        b == is_whitespace(c),
{
    let n: u32 = c as u32;
    (0x09 <= n && n <= 0x0D) || n == 0x20 || n == 0x85 || n == 0xA0 || n == 0x1680 || (0x2000 <= n
        && n <= 0x200A) || n == 0x2028 || n == 0x2029 || n == 0x202F || n == 0x205F || n == 0x3000
}

/// Upper-cases one character, ASCII letters only.
pub fn char_to_upper(c: char) -> (u: char)
    ensures
        u == to_upper(c),
{
    if 'a' <= c && c <= 'z' {
        ((c as u8) - 32) as char
    } else {
        c
    }
}

/// `String::push` of the standard library: the string afterwards is the
/// string before with `c` appended.
pub assume_specification[ String::push ](s: &mut String, c: char)
    ensures
        final(s)@ == old(s)@.push(c),
;

/// The characters of `s`, in order.
pub fn to_chars(s: &str) -> (v: Vec<char>)
    ensures
        v@ == s@,
{
    let mut v: Vec<char> = Vec::new();
    for c in it: s.chars()
        invariant
            it.seq() == s@,
            v@ == s@.take(it.index() as int),
    {
        v.push(c);
        proof {
            assert(s@.take(it.index() + 1) =~= s@.take(it.index() as int).push(c));
        }
    }
    assert(s@.take(s@.len() as int) =~= s@);
    v
}

/// The string made of the characters of `v`, in order.
pub fn from_chars(v: &Vec<char>) -> (s: String)
    ensures
        s@ == v@,
{
    let mut s = String::new();
    let mut i: usize = 0;
    while i < v.len()
        invariant
            i <= v.len(),
            s@ == v@.take(i as int),
        decreases v.len() - i,
    {
        s.push(v[i]);
        proof {
            assert(v@.take(i + 1) =~= v@.take(i as int).push(v@[i as int]));
        }
        i += 1;
    }
    assert(v@.take(v@.len() as int) =~= v@);
    s
}


/// `s` without its whitespace characters, order kept.
pub open spec fn strip_whitespace(s: Seq<char>) -> Seq<char> {
    s.filter(|c: char| !is_whitespace(c))
}

/// `s` with every character upper-cased (ASCII only).
pub open spec fn upper(s: Seq<char>) -> Seq<char> {
    s.map_values(|c: char| to_upper(c))
}

/// The punctuation marks that [`remove_punctuation`] deletes.
pub open spec fn is_stripped_mark(c: char) -> bool {
    ||| c == '<'
    ||| c == '>'
    ||| c == '\u{ab}'
    ||| c == '\u{bb}'
    ||| c == ','
    ||| c == '\''
    ||| c == '.'
    ||| c == ';'
    ||| c == ':'
}

/// `s` without the marks of [`is_stripped_mark`].
pub open spec fn strip_marks(s: Seq<char>) -> Seq<char> {
    s.filter(|c: char| !is_stripped_mark(c))
}

/// `s` without its leading whitespace.
pub open spec fn trim_start(s: Seq<char>) -> Seq<char>
    decreases s.len(),
{
    if s.len() > 0 && is_whitespace(s[0]) {
        trim_start(s.drop_first())
    } else {
        s
    }
}

/// `s` without its trailing whitespace.
pub open spec fn trim_end(s: Seq<char>) -> Seq<char>
    decreases s.len(),
{
    if s.len() > 0 && is_whitespace(s.last()) {
        trim_end(s.drop_last())
    } else {
        s
    }
}

/// `s` without leading and trailing whitespace.
pub open spec fn trim(s: Seq<char>) -> Seq<char> {
    trim_end(trim_start(s))
}

/// The keyword `k` repeated and cut to exactly `n` characters.
pub open spec fn keyword_stream(k: Seq<char>, n: nat) -> Seq<char>
    recommends
        k.len() >= 1,
{
    Seq::new(n, |i: int| k[i % (k.len() as int)])
}

/// `s` without the later occurrences of a character already seen;
/// whitespace characters all stay.
pub open spec fn dedup(s: Seq<char>) -> Seq<char>
    decreases s.len(),
{
    if s.len() == 0 {
        s
    } else if is_whitespace(s.last()) || !s.drop_last().contains(s.last()) {
        dedup(s.drop_last()).push(s.last())
    } else {
        dedup(s.drop_last())
    }
}

/// `s` without the characters that occur in `removed`.
pub open spec fn subtract(s: Seq<char>, removed: Seq<char>) -> Seq<char> {
    s.filter(|c: char| !removed.contains(c))
}

/// Removes every whitespace character from `s` and returns a copy of what is
/// left.
pub fn remove_whitespace(s: &mut String) -> (r: String)
    ensures
        final(s)@ == strip_whitespace(old(s)@),
        r@ == final(s)@,
{
    let chars = to_chars(s.as_str());
    let mut kept: Vec<char> = Vec::new();
    let mut i: usize = 0;
    while i < chars.len()
        invariant
            i <= chars.len(),
            kept@ == strip_whitespace(chars@.take(i as int)),
        decreases chars.len() - i,
    {
        proof {
            assert(chars@.take(i + 1) =~= chars@.take(i as int).push(chars@[i as int]));
            chars@.take(i as int).lemma_filter_push(chars@[i as int], |c: char| !is_whitespace(c));
        }
        if !char_is_whitespace(chars[i]) {
            kept.push(chars[i]);
        }
        i += 1;
    }
    assert(chars@.take(chars@.len() as int) =~= chars@);
    *s = from_chars(&kept);
    from_chars(&kept)
}

/// ASCII upper-casing of a whole sequence.
pub fn upper_chars(v: &Vec<char>) -> (r: Vec<char>)
    ensures
        r@ == upper(v@),
{
    let mut r: Vec<char> = Vec::new();
    let mut i: usize = 0;
    while i < v.len()
        invariant
            i <= v.len(),
            r@.len() == i,
            forall|j: int| 0 <= j < i ==> r@[j] == to_upper(v@[j]),
        decreases v.len() - i,
    {
        r.push(char_to_upper(v[i]));
        i += 1;
    }
    assert(r@ =~= upper(v@));
    r
}

proof fn lemma_trim_start_at(s: Seq<char>, i: int)
    requires
        0 <= i <= s.len(),
        forall|j: int| 0 <= j < i ==> is_whitespace(s[j]),
        i < s.len() ==> !is_whitespace(s[i]),
    ensures
        trim_start(s) == s.subrange(i, s.len() as int),
    decreases i,
{
    if i == 0 {
        assert(s.subrange(0, s.len() as int) =~= s);
    } else {
        let t = s.drop_first();
        lemma_trim_start_at(t, i - 1);
        assert(t.subrange(i - 1, t.len() as int) =~= s.subrange(i, s.len() as int));
    }
}

proof fn lemma_trim_end_at(s: Seq<char>, i: int)
    requires
        0 <= i <= s.len(),
        forall|j: int| i <= j < s.len() ==> is_whitespace(s[j]),
        i > 0 ==> !is_whitespace(s[i - 1]),
    ensures
        trim_end(s) == s.subrange(0, i),
    decreases s.len() - i,
{
    if i == s.len() {
        assert(s.subrange(0, s.len() as int) =~= s);
    } else {
        let t = s.drop_last();
        lemma_trim_end_at(t, i);
        assert(t.subrange(0, i) =~= s.subrange(0, i));
    }
}

/// Removes leading and trailing whitespace.
pub fn trim_chars(v: &Vec<char>) -> (r: Vec<char>)
    ensures
        r@ == trim(v@),
{
    let mut start: usize = 0;
    while start < v.len() && char_is_whitespace(v[start])
        invariant
            start <= v.len(),
            forall|j: int| 0 <= j < start ==> is_whitespace(v@[j]),
        decreases v.len() - start,
    {
        start += 1;
    }
    let mut end: usize = v.len();
    while end > start && char_is_whitespace(v[end - 1])
        invariant
            start <= end <= v.len(),
            forall|j: int| end <= j < v.len() ==> is_whitespace(v@[j]),
        decreases end,
    {
        end -= 1;
    }
    let mut r: Vec<char> = Vec::new();
    let mut i: usize = start;
    while i < end
        invariant
            start <= i <= end <= v.len(),
            r@ == v@.subrange(start as int, i as int),
        decreases end - i,
    {
        r.push(v[i]);
        proof {
            assert(v@.subrange(start as int, i + 1) =~= v@.subrange(start as int, i as int).push(
                v@[i as int],
            ));
        }
        i += 1;
    }
    proof {
        let a = v@.subrange(start as int, v@.len() as int);
        lemma_trim_start_at(v@, start as int);
        lemma_trim_end_at(a, end - start);
        assert(a.subrange(0, end - start) =~= v@.subrange(start as int, end as int));
    }
    r
}


/// The pattern whose matches [`remove_punctuation`] deletes: an alternation
/// of the doubled and single angle brackets, the two guillemets, and the
/// comma, apostrophe, full stop, semicolon and colon.
pub open spec fn mark_pattern() -> Seq<char> {
    "<<|>>|<|>|\u{ab}|\u{bb}|,|'|\\.|;|:"@
}

/// Compiles `pattern` with `regex::Regex::new` and calls
/// `Regex::replace_all` on `text` with the empty replacement, which takes
/// every match out of the text, from left to right and none overlapping
/// another. Believed, not proved, and of [`mark_pattern`] alone: that
/// pattern is a valid regular expression, each of its matches is made of
/// characters of [`is_stripped_mark`] only, and each such character of the
/// text lies in a match, so that what comes back is `text` without those
/// characters.
#[verifier::external_body]
fn delete_matches(pattern: &str, text: &str) -> (r: String)
    requires
        pattern@ == mark_pattern(),
    ensures
        r@ == strip_marks(text@),
{
    Regex::new(pattern).unwrap().replace_all(text, "").into_owned()
}

/// Deletes the marks of [`is_stripped_mark`], trims whitespace at both ends
/// and upper-cases what is left; other punctuation stays.
pub fn remove_punctuation(text: &str) -> (r: String)
    ensures
        r@ == upper(trim(strip_marks(text@))),
{
    let stripped = delete_matches("<<|>>|<|>|\u{ab}|\u{bb}|,|'|\\.|;|:", text);
    let chars = to_chars(stripped.as_str());
    let trimmed = trim_chars(&chars);
    let raised = upper_chars(&trimmed);
    from_chars(&raised)
}

/// Builds the keyword stream of `plaintext_len` characters from `keyword`,
/// which is left as it was.
pub fn generate_keyword_string(keyword: &mut String, plaintext_len: usize) -> (r: String)
    requires
        old(keyword)@.len() >= 1,
    ensures
        final(keyword)@ == old(keyword)@,
        r@ == keyword_stream(old(keyword)@, plaintext_len as nat),
{
    let k = to_chars(keyword.as_str());
    let r = keyword_stream_chars(&k, plaintext_len);
    from_chars(&r)
}

/// The keyword stream of `n` characters over the keyword `k`.
pub fn keyword_stream_chars(k: &Vec<char>, n: usize) -> (r: Vec<char>)
    requires
        k@.len() >= 1,
    ensures
        r@ == keyword_stream(k@, n as nat),
{
    let mut r: Vec<char> = Vec::new();
    let mut i: usize = 0;
    while i < n
        invariant
            i <= n,
            k@.len() >= 1,
            r@.len() == i,
            forall|j: int| 0 <= j < i ==> r@[j] == k@[j % (k@.len() as int)],
        decreases n - i,
    {
        r.push(k[i % k.len()]);
        i += 1;
    }
    assert(r@ =~= keyword_stream(k@, n as nat));
    r
}

/// Tells whether `c` occurs in `v`.
pub fn contains_char(v: &Vec<char>, c: char) -> (b: bool)
    ensures
        b == v@.contains(c),
{
    let mut i: usize = 0;
    while i < v.len()
        invariant
            i <= v.len(),
            forall|j: int| 0 <= j < i ==> v@[j] != c,
        decreases v.len() - i,
    {
        if v[i] == c {
            return true;
        }
        i += 1;
    }
    false
}

/// [`dedup`] on a vector of characters.
pub fn dedup_chars(chars: &Vec<char>) -> (kept: Vec<char>)
    ensures
        kept@ == dedup(chars@),
{
    let mut seen: Vec<char> = Vec::new();
    let mut kept: Vec<char> = Vec::new();
    let mut i: usize = 0;
    while i < chars.len()
        invariant
            i <= chars.len(),
            kept@ == dedup(chars@.take(i as int)),
            forall|c: char|
                #![trigger seen@.contains(c)]
                #![trigger chars@.take(i as int).contains(c)]
                seen@.contains(c) <==> (!is_whitespace(c) && chars@.take(i as int).contains(c)),
        decreases chars.len() - i,
    {
        let x = chars[i];
        let ghost before = chars@.take(i as int);
        let ghost after = chars@.take(i + 1);
        proof {
            assert(after.drop_last() =~= before);
            assert(after.last() == x);
            assert forall|c: char| after.contains(c) <==> (before.contains(c) || c == x) by {
                if before.contains(c) {
                    let j = choose|j: int| 0 <= j < before.len() && before[j] == c;
                    assert(after[j] == c);
                }
                if c == x {
                    assert(after[i as int] == c);
                }
                if after.contains(c) {
                    let j = choose|j: int| 0 <= j < after.len() && after[j] == c;
                    if j < i {
                        assert(before[j] == c);
                    }
                }
            }
        }
        let ghost seen_before = seen@;
        if char_is_whitespace(x) {
            kept.push(x);
        } else if !contains_char(&seen, x) {
            seen.push(x);
            kept.push(x);
            proof {
                assert forall|c: char| seen@.contains(c) <==> (seen_before.contains(c) || c == x) by {
                    if seen_before.contains(c) {
                        let j = choose|j: int| 0 <= j < seen_before.len() && seen_before[j] == c;
                        assert(seen@[j] == c);
                    }
                    if c == x {
                        assert(seen@[seen_before.len() as int] == c);
                    }
                    if seen@.contains(c) {
                        let j = choose|j: int| 0 <= j < seen@.len() && seen@[j] == c;
                        if j < seen_before.len() {
                            assert(seen_before[j] == c);
                        }
                    }
                }
            }
        }
        proof {
            assert forall|c: char|
                #![trigger seen@.contains(c)]
                #![trigger after.contains(c)]
                seen@.contains(c) <==> (!is_whitespace(c) && after.contains(c)) by {
                assert(seen_before.contains(c) <==> (!is_whitespace(c) && before.contains(c)));
                assert(after.contains(c) <==> (before.contains(c) || c == x));
            }
        }
        i += 1;
    }
    assert(chars@.take(chars@.len() as int) =~= chars@);
    kept
}

/// Removes the later occurrences of every character already seen; whitespace
/// characters are never removed.
pub fn remove_repeating_letters(text: String) -> (r: String)
    ensures
        r@ == dedup(text@),
{
    let chars = to_chars(text.as_str());
    let kept = dedup_chars(&chars);
    from_chars(&kept)
}

/// [`subtract`] on vectors of characters.
pub fn subtract_chars(chars: &Vec<char>, removed: &Vec<char>) -> (kept: Vec<char>)
    ensures
        kept@ == subtract(chars@, removed@),
{
    let mut kept: Vec<char> = Vec::new();
    let mut i: usize = 0;
    while i < chars.len()
        invariant
            i <= chars.len(),
            kept@ == subtract(chars@.take(i as int), removed@),
        decreases chars.len() - i,
    {
        proof {
            assert(chars@.take(i + 1) =~= chars@.take(i as int).push(chars@[i as int]));
            chars@.take(i as int).lemma_filter_push(
                chars@[i as int],
                |c: char| !removed@.contains(c),
            );
        }
        if !contains_char(removed, chars[i]) {
            kept.push(chars[i]);
        }
        i += 1;
    }
    assert(chars@.take(chars@.len() as int) =~= chars@);
    kept
}

/// Removes from `text` every occurrence of a character of `charset`.
pub fn remove_charset(charset: Vec<char>, text: String) -> (r: String)
    ensures
        r@ == subtract(text@, charset@),
{
    let chars = to_chars(text.as_str());
    let kept = subtract_chars(&chars, &charset);
    from_chars(&kept)
}

/// Tells whether cell (`row`, `col`) comes before cell (`row2`, `col2`) when
/// the grid is read row by row.
pub open spec fn scanned_before(row: int, col: int, row2: int, col2: int) -> bool {
    row < row2 || (row == row2 && col < col2)
}

/// Finds the first cell equal to `target`, reading the grid row by row, and
/// returns its column and its row, in this order.
pub fn find_char(grid: &Vec<Vec<char>>, target: char) -> (r: Option<(usize, usize)>)
    ensures
        match r {
            Some((col, row)) => {
                &&& row < grid@.len()
                &&& col < grid@[row as int]@.len()
                &&& grid@[row as int]@[col as int] == target
                &&& forall|i: int, j: int|
                    0 <= i < grid@.len() && 0 <= j < grid@[i]@.len() && scanned_before(
                        i,
                        j,
                        row as int,
                        col as int,
                    ) ==> grid@[i]@[j] != target
            },
            None => forall|i: int, j: int|
                0 <= i < grid@.len() && 0 <= j < grid@[i]@.len() ==> grid@[i]@[j] != target,
        },
{
    let mut row: usize = 0;
    while row < grid.len()
        invariant
            row <= grid@.len(),
            forall|i: int, j: int|
                0 <= i < row && 0 <= j < grid@[i]@.len() ==> grid@[i]@[j] != target,
        decreases grid.len() - row,
    {
        let mut col: usize = 0;
        while col < grid[row].len()
            invariant
                row < grid@.len(),
                col <= grid@[row as int]@.len(),
                forall|i: int, j: int|
                    0 <= i < row && 0 <= j < grid@[i]@.len() ==> grid@[i]@[j] != target,
                forall|j: int| 0 <= j < col ==> grid@[row as int]@[j] != target,
            decreases grid[row as int].len() - col,
        {
            if grid[row][col] == target {
                return Some((col, row));
            }
            col += 1;
        }
        row += 1;
    }
    None
}

/// Transposes a rectangular matrix: cell (`r`, `c`) of `v` becomes cell
/// (`c`, `r`) of the result.
pub fn transpose<T>(v: Vec<Vec<T>>) -> (t: Vec<Vec<T>>) where T: Clone
    requires
        v@.len() > 0,
        forall|r: int| 0 <= r < v@.len() ==> (#[trigger] v@[r])@.len() == v@[0]@.len(),
    ensures
        t@.len() == v@[0]@.len(),
        forall|c: int| 0 <= c < t@.len() ==> (#[trigger] t@[c])@.len() == v@.len(),
        forall|r: int, c: int|
            0 <= r < v@.len() && 0 <= c < t@.len() ==> cloned(v@[r]@[c], t@[c]@[r]),
{
    let width = v[0].len();
    let mut t: Vec<Vec<T>> = Vec::new();
    let mut c: usize = 0;
    while c < width
        invariant
            c <= width,
            width == v@[0]@.len(),
            v@.len() > 0,
            forall|r: int| 0 <= r < v@.len() ==> (#[trigger] v@[r])@.len() == v@[0]@.len(),
            t@.len() == c,
            forall|k: int| 0 <= k < c ==> (#[trigger] t@[k])@.len() == v@.len(),
            forall|r: int, k: int| 0 <= r < v@.len() && 0 <= k < c ==> cloned(v@[r]@[k], t@[k]@[r]),
        decreases width - c,
    {
        let mut column: Vec<T> = Vec::new();
        let mut r: usize = 0;
        while r < v.len()
            invariant
                r <= v@.len(),
                c < width,
                width == v@[0]@.len(),
                forall|r: int| 0 <= r < v@.len() ==> (#[trigger] v@[r])@.len() == v@[0]@.len(),
                column@.len() == r,
                forall|k: int| 0 <= k < r ==> cloned(v@[k]@[c as int], column@[k]),
            decreases v.len() - r,
        {
            column.push(v[r][c].clone());
            r += 1;
        }
        t.push(column);
        c += 1;
    }
    t
}

/// The sequences that the vectors of `words` hold.
pub open spec fn views(words: Seq<Vec<char>>) -> Seq<Seq<char>> {
    Seq::new(words.len(), |i: int| words[i]@)
}

/// The words of `s`: its maximal runs of characters that are no
/// whitespace, in order.
pub open spec fn split_words(s: Seq<char>) -> Seq<Seq<char>>
    decreases s.len(),
{
    if s.len() == 0 {
        Seq::empty()
    } else {
        let front = s.drop_last();
        let words = split_words(front);
        if is_whitespace(s.last()) {
            words
        } else if front.len() > 0 && !is_whitespace(front.last()) {
            words.drop_last().push(words.last().push(s.last()))
        } else {
            words.push(seq![s.last()])
        }
    }
}

/// A sequence that ends in a character that is no whitespace has a last
/// word, which is not empty.
pub proof fn lemma_last_word(s: Seq<char>)
    requires
        s.len() > 0,
        !is_whitespace(s.last()),
    ensures
        split_words(s).len() > 0,
        split_words(s).last().len() > 0,
    decreases s.len(),
{
    let front = s.drop_last();
    if front.len() > 0 && !is_whitespace(front.last()) {
        lemma_last_word(front);
    }
}

/// Splits `v` at whitespace into its words.
pub fn split_whitespace_chars(v: &Vec<char>) -> (words: Vec<Vec<char>>)
    ensures
        views(words@) == split_words(v@),
{
    let mut words: Vec<Vec<char>> = Vec::new();
    let mut current: Vec<char> = Vec::new();
    let mut i: usize = 0;
    assert(views(words@) =~= split_words(v@.take(0)));
    while i < v.len()
        invariant
            i <= v.len(),
            current@.len() > 0 <==> (i > 0 && !is_whitespace(v@[i - 1])),
            current@.len() == 0 ==> views(words@) == split_words(v@.take(i as int)),
            current@.len() > 0 ==> views(words@).push(current@) == split_words(v@.take(i as int)),
        decreases v.len() - i,
    {
        let c = v[i];
        let ghost before = v@.take(i as int);
        let ghost after = v@.take(i + 1);
        proof {
            assert(after.drop_last() =~= before);
            assert(after.last() == c);
            if i > 0 {
                assert(before.last() == v@[i - 1]);
            }
        }
        if char_is_whitespace(c) {
            if current.len() > 0 {
                let ghost old_words = words@;
                words.push(current);
                current = Vec::new();
                assert(views(words@) =~= views(old_words).push(words@.last()@));
            }
        } else {
            proof {
                if current@.len() > 0 {
                    let w = split_words(before);
                    assert(w.last() == current@);
                    assert(w.drop_last() =~= views(words@));
                } else {
                    assert(seq![c] =~= current@.push(c));
                }
            }
            current.push(c);
        }
        i += 1;
    }
    assert(v@.take(v@.len() as int) =~= v@);
    if current.len() > 0 {
        let ghost old_words = words@;
        words.push(current);
        assert(views(words@) =~= views(old_words).push(words@.last()@));
    }
    words
}

/// Every word is made of characters of the sequence, and none is empty.
pub proof fn lemma_word_chars(s: Seq<char>)
    ensures
        forall|w: int|
            0 <= w < split_words(s).len() ==> (#[trigger] split_words(s)[w]).len() > 0,
        forall|w: int, j: int|
            0 <= w < split_words(s).len() && 0 <= j < split_words(s)[w].len() ==> s.contains(
                #[trigger] split_words(s)[w][j],
            ) && !is_whitespace(split_words(s)[w][j]),
    decreases s.len(),
{
    if s.len() > 0 {
        let front = s.drop_last();
        let words = split_words(front);
        lemma_word_chars(front);
        assert forall|w: int, j: int|
            0 <= w < split_words(s).len() && 0 <= j < split_words(s)[w].len() implies s.contains(
            #[trigger] split_words(s)[w][j],
        ) && !is_whitespace(split_words(s)[w][j]) by {
            let c = split_words(s)[w][j];
            if is_whitespace(s.last()) {
                assert(front.contains(words[w][j]));
            } else if front.len() > 0 && !is_whitespace(front.last()) {
                lemma_last_word(front);
                if w < words.len() - 1 {
                    assert(front.contains(words[w][j]));
                } else if j < words.last().len() {
                    assert(front.contains(words[w][j]));
                } else {
                    assert(c == s.last());
                }
            } else {
                if w < words.len() {
                    assert(front.contains(words[w][j]));
                } else {
                    assert(c == s.last());
                }
            }
            if c == s.last() {
                assert(s[s.len() - 1] == c);
            } else {
                assert(front.contains(c));
                let m = choose|m: int| 0 <= m < front.len() && front[m] == c;
                assert(s[m] == c);
            }
        }
        if !is_whitespace(s.last()) && front.len() > 0 && !is_whitespace(front.last()) {
            lemma_last_word(front);
        }
    }
}

} // verus!
