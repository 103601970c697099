//! Text helpers shared by the parsers: searching, splitting, decimal numbers.

use vstd::prelude::*;
use vstd::string::*;

verus! {

/// Index of the first `c` in `s` at or after `from`, or `s.len()` if there is none.
pub open spec fn find_from(s: Seq<char>, c: char, from: int) -> int
    decreases s.len() - from,
{
    if from < 0 || from >= s.len() {
        s.len() as int
    } else if s[from] == c {
        from
    } else {
        find_from(s, c, from + 1)
    }
}

/// Index of the first `c` in `s`, or `s.len()` if `s` does not hold `c`.
pub open spec fn find(s: Seq<char>, c: char) -> int {
    find_from(s, c, 0)
}

/// `find_from` returns the least index at or after `from` that holds `c`.
pub proof fn lemma_find_from(s: Seq<char>, c: char, from: int)
    requires
        0 <= from <= s.len(),
    ensures
        from <= find_from(s, c, from) <= s.len(),
        find_from(s, c, from) < s.len() ==> s[find_from(s, c, from)] == c,
        forall|j: int| from <= j < find_from(s, c, from) ==> s[j] != c,
    decreases s.len() - from,
{
    if from < s.len() && s[from] != c {
        lemma_find_from(s, c, from + 1);
    }
}

/// `find` returns the least index that holds `c`.
pub proof fn lemma_find(s: Seq<char>, c: char)
    ensures
        0 <= find(s, c) <= s.len(),
        find(s, c) < s.len() ==> s[find(s, c)] == c,
        forall|j: int| 0 <= j < find(s, c) ==> s[j] != c,
        find(s, c) == s.len() <==> !s.contains(c),
{
    lemma_find_from(s, c, 0);
    if find(s, c) < s.len() {
        assert(s.contains(c));
    }
}

/// An index that holds `c` and has no `c` before it is the one `find` returns.
pub proof fn lemma_find_unique(s: Seq<char>, c: char, i: int)
    requires
        0 <= i < s.len(),
        s[i] == c,
        forall|j: int| 0 <= j < i ==> s[j] != c,
    ensures
        find(s, c) == i,
{
    lemma_find(s, c);
}

/// The pieces of `s` between occurrences of `sep`; a text without `sep` is one piece.
pub open spec fn split_on(s: Seq<char>, sep: char) -> Seq<Seq<char>>
    decreases s.len(),
{
    let i = find(s, sep);
    if 0 <= i < s.len() {
        seq![s.subrange(0, i)] + split_on(s.subrange(i + 1, s.len() as int), sep)
    } else {
        seq![s]
    }
}

/// The character of a decimal digit.
pub open spec fn digit_char(d: nat) -> char {
    if d == 0 {
        '0'
    } else if d == 1 {
        '1'
    } else if d == 2 {
        '2'
    } else if d == 3 {
        '3'
    } else if d == 4 {
        '4'
    } else if d == 5 {
        '5'
    } else if d == 6 {
        '6'
    } else if d == 7 {
        '7'
    } else if d == 8 {
        '8'
    } else {
        '9'
    }
}

/// Whether `c` is one of `0` to `9`.
pub open spec fn is_digit(c: char) -> bool {
    c == '0' || c == '1' || c == '2' || c == '3' || c == '4' || c == '5' || c == '6' || c == '7'
        || c == '8' || c == '9'
}

/// The value of a decimal digit character; 0 for any other character.
pub open spec fn digit_value(c: char) -> nat {
    if c == '1' {
        1
    } else if c == '2' {
        2
    } else if c == '3' {
        3
    } else if c == '4' {
        4
    } else if c == '5' {
        5
    } else if c == '6' {
        6
    } else if c == '7' {
        7
    } else if c == '8' {
        8
    } else if c == '9' {
        9
    } else {
        0
    }
}

/// Whether every character of `s` is a decimal digit.
pub open spec fn all_digits(s: Seq<char>) -> bool {
    forall|i: int| 0 <= i < s.len() ==> is_digit(#[trigger] s[i])
}

/// The decimal notation of `n`, without leading zeros.
pub open spec fn decimal(n: nat) -> Seq<char>
    decreases n,
{
    if n < 10 {
        seq![digit_char(n)]
    } else {
        decimal(n / 10).push(digit_char(n % 10))
    }
}

/// The number that a text of decimal digits denotes.
pub open spec fn decimal_value(s: Seq<char>) -> nat
    decreases s.len(),
{
    if s.len() == 0 {
        0
    } else {
        decimal_value(s.drop_last()) * 10 + digit_value(s.last())
    }
}

/// What parsing an unsigned 32-bit number gives: an optional `+`, then one or
/// more decimal digits whose value fits.
pub open spec fn parse_u32(s: Seq<char>) -> Option<u32> {
    let body = if s.len() > 0 && s[0] == '+' {
        s.subrange(1, s.len() as int)
    } else {
        s
    };
    if body.len() > 0 && all_digits(body) && decimal_value(body) <= u32::MAX {
        Some(decimal_value(body) as u32)
    } else {
        None
    }
}

/// A decimal notation is a non-empty text of digits that denotes its number.
pub proof fn lemma_decimal(n: nat)
    ensures
        decimal(n).len() > 0,
        all_digits(decimal(n)),
        decimal_value(decimal(n)) == n,
        n > 0 ==> decimal(n)[0] != '0',
    decreases n,
{
    if n < 10 {
        let s = seq![digit_char(n)];
        assert(s.drop_last() =~= Seq::<char>::empty());
        assert(decimal_value(s.drop_last()) == 0);
        assert(s.last() == digit_char(n));
    } else {
        lemma_decimal(n / 10);
        let p = decimal(n / 10);
        let s = p.push(digit_char(n % 10));
        assert(s.drop_last() =~= p);
        assert(s.last() == digit_char(n % 10));
        assert(s[0] == p[0]);
    }
}

/// A text of digits without a leading zero (or the text `0`) is the decimal
/// notation of its value.
pub proof fn lemma_decimal_of_value(s: Seq<char>)
    requires
        s.len() > 0,
        all_digits(s),
        s.len() > 1 ==> s[0] != '0',
    ensures
        decimal(decimal_value(s)) == s,
        s[0] != '0' ==> decimal_value(s) > 0,
    decreases s.len(),
{
    if s.len() == 1 {
        assert(s.drop_last() =~= Seq::<char>::empty());
        assert(decimal_value(s.drop_last()) == 0);
        assert(decimal_value(s) == digit_value(s[0]));
        assert(is_digit(s[0]));
        assert(seq![digit_char(digit_value(s[0]))] =~= s);
    } else {
        let p = s.drop_last();
        assert(forall|i: int| 0 <= i < p.len() ==> p[i] == s[i]);
        assert(p[0] == s[0]);
        lemma_decimal_of_value(p);
        assert(is_digit(s.last()));
        let v = decimal_value(p);
        assert(v > 0);
        let n = v * 10 + digit_value(s.last());
        assert(n / 10 == v && n % 10 == digit_value(s.last())) by (nonlinear_arith)
            requires
                n == v * 10 + digit_value(s.last()),
                digit_value(s.last()) < 10,
        ;
        assert(n >= 10);
        assert(decimal(n) == decimal(v).push(digit_char(n % 10)));
        assert(p.push(s.last()) =~= s);
    }
}

/// A decimal notation holds no character other than digits.
pub proof fn lemma_decimal_lacks(n: nat, c: char)
    requires
        !is_digit(c),
    ensures
        !decimal(n).contains(c),
        find(decimal(n), c) == decimal(n).len(),
{
    lemma_decimal(n);
    lemma_find(decimal(n), c);
    if decimal(n).contains(c) {
        let i = choose|i: int| 0 <= i < decimal(n).len() && decimal(n)[i] == c;
        assert(is_digit(decimal(n)[i]));
    }
}

/// The text of a decimal digit.
fn digit_text(d: u128) -> (r: &'static str)
    requires
        d < 10,
    ensures
        r@ == seq![digit_char(d as nat)],
{
    proof {
        reveal_strlit("0");
        reveal_strlit("1");
        reveal_strlit("2");
        reveal_strlit("3");
        reveal_strlit("4");
        reveal_strlit("5");
        reveal_strlit("6");
        reveal_strlit("7");
        reveal_strlit("8");
        reveal_strlit("9");
        assert("0"@ =~= seq!['0']);
        assert("1"@ =~= seq!['1']);
        assert("2"@ =~= seq!['2']);
        assert("3"@ =~= seq!['3']);
        assert("4"@ =~= seq!['4']);
        assert("5"@ =~= seq!['5']);
        assert("6"@ =~= seq!['6']);
        assert("7"@ =~= seq!['7']);
        assert("8"@ =~= seq!['8']);
        assert("9"@ =~= seq!['9']);
    }
    if d == 0 {
        "0"
    } else if d == 1 {
        "1"
    } else if d == 2 {
        "2"
    } else if d == 3 {
        "3"
    } else if d == 4 {
        "4"
    } else if d == 5 {
        "5"
    } else if d == 6 {
        "6"
    } else if d == 7 {
        "7"
    } else if d == 8 {
        "8"
    } else {
        "9"
    }
}

/// The decimal notation of a number.
pub fn decimal_text(n: u128) -> (r: String)
    ensures
        r@ == decimal(n as nat),
    decreases n,
{
    if n < 10 {
        String::from_str(digit_text(n))
    } else {
        let mut r = decimal_text(n / 10);
        r.append(digit_text(n % 10));
        assert(r@ =~= decimal((n / 10) as nat).push(digit_char((n % 10) as nat)));
        r
    }
}

/// Index of the first occurrence of `c` in `s`, in characters.
pub fn find_char(s: &str, c: char) -> (r: Option<usize>)
    ensures
        match r {
            Some(i) => i < s@.len() && i == find(s@, c),
            None => find(s@, c) == s@.len() && !s@.contains(c),
        },
{
    let n = s.unicode_len();
    let mut i: usize = 0;
    while i < n
        invariant
            n == s@.len(),
            i <= n,
            forall|j: int| 0 <= j < i ==> s@[j] != c,
        decreases n - i,
    {
        if s.get_char(i) == c {
            proof {
                lemma_find_unique(s@, c, i as int);
            }
            return Some(i);
        }
        i += 1;
    }
    proof {
        lemma_find(s@, c);
    }
    None
}

/// Whether two texts hold the same characters.
pub fn same_text(a: &str, b: &str) -> (r: bool)
    ensures
        r == (a@ == b@),
{
    let n = a.unicode_len();
    if b.unicode_len() != n {
        return false;
    }
    let mut i: usize = 0;
    while i < n
        invariant
            n == a@.len(),
            n == b@.len(),
            i <= n,
            forall|j: int| 0 <= j < i ==> a@[j] == b@[j],
        decreases n - i,
    {
        if a.get_char(i) != b.get_char(i) {
            return false;
        }
        i += 1;
    }
    assert(a@ =~= b@);
    true
}

/// The views of a sequence of texts.
pub open spec fn texts(v: Seq<String>) -> Seq<Seq<char>> {
    v.map_values(|s: String| s@)
}

/// Whether a character is white space: whether it has the property
/// `White_Space` of the Unicode character database.
pub open spec fn char_is_whitespace(c: char) -> bool {
    let n = c as int;
    (0x09 <= n && n <= 0x0d) || n == 0x20 || n == 0x85 || n == 0xa0 || n == 0x1680 || (0x2000 <= n
        && n <= 0x200a) || n == 0x2028 || n == 0x2029 || n == 0x202f || n == 0x205f || n == 0x3000
}

/// Whether a character is white space, as `char::is_whitespace` tells it.
pub fn is_whitespace(c: char) -> (b: bool)
    ensures
        b == char_is_whitespace(c),
{
    let n: u32 = c as u32;
    (0x09 <= n && n <= 0x0d) || n == 0x20 || n == 0x85 || n == 0xa0 || n == 0x1680 || (0x2000 <= n
        && n <= 0x200a) || n == 0x2028 || n == 0x2029 || n == 0x202f || n == 0x205f || n == 0x3000
}

/// First index at or after `from` that holds no white space, or `s.len()`.
pub open spec fn skip_spaces(s: Seq<char>, from: int) -> int
    decreases s.len() - from,
{
    if from < 0 || from >= s.len() {
        s.len() as int
    } else if !char_is_whitespace(s[from]) {
        from
    } else {
        skip_spaces(s, from + 1)
    }
}

/// First index at or after `from` that holds white space, or `s.len()`.
pub open spec fn word_end(s: Seq<char>, from: int) -> int
    decreases s.len() - from,
{
    if from < 0 || from >= s.len() {
        s.len() as int
    } else if char_is_whitespace(s[from]) {
        from
    } else {
        word_end(s, from + 1)
    }
}

/// The words of `s` that start at or after `from`.
pub open spec fn words_from(s: Seq<char>, from: int) -> Seq<Seq<char>>
    decreases s.len() - from,
{
    let a = skip_spaces(s, from);
    if from < 0 || a >= s.len() {
        Seq::empty()
    } else {
        let b = word_end(s, a + 1);
        proof {
            lemma_skip_spaces(s, from);
            lemma_word_end(s, a + 1);
        }
        seq![s.subrange(a, b)] + words_from(s, b)
    }
}

/// The words of `s`: its longest runs of characters that are not white
/// space, in order.
pub open spec fn words(s: Seq<char>) -> Seq<Seq<char>> {
    words_from(s, 0)
}

/// `skip_spaces` passes over white space only and stops at the first other character.
pub proof fn lemma_skip_spaces(s: Seq<char>, from: int)
    requires
        0 <= from <= s.len(),
    ensures
        from <= skip_spaces(s, from) <= s.len(),
        skip_spaces(s, from) < s.len() ==> !char_is_whitespace(s[skip_spaces(s, from)]),
        forall|j: int| from <= j < skip_spaces(s, from) ==> char_is_whitespace(s[j]),
    decreases s.len() - from,
{
    if from < s.len() && char_is_whitespace(s[from]) {
        lemma_skip_spaces(s, from + 1);
    }
}

/// `word_end` passes over no white space and stops at the first white space.
pub proof fn lemma_word_end(s: Seq<char>, from: int)
    requires
        0 <= from <= s.len(),
    ensures
        from <= word_end(s, from) <= s.len(),
        word_end(s, from) < s.len() ==> char_is_whitespace(s[word_end(s, from)]),
        forall|j: int| from <= j < word_end(s, from) ==> !char_is_whitespace(s[j]),
    decreases s.len() - from,
{
    if from < s.len() && !char_is_whitespace(s[from]) {
        lemma_word_end(s, from + 1);
    }
}

/// An index reached over white space only, with no white space at it, is
/// where `skip_spaces` stops.
pub proof fn lemma_skip_spaces_unique(s: Seq<char>, from: int, a: int)
    requires
        0 <= from <= a <= s.len(),
        forall|j: int| from <= j < a ==> char_is_whitespace(s[j]),
        a < s.len() ==> !char_is_whitespace(s[a]),
    ensures
        skip_spaces(s, from) == a,
    decreases a - from,
{
    if from < a {
        lemma_skip_spaces_unique(s, from + 1, a);
    }
}

/// An index reached over no white space, with white space at it, is where
/// `word_end` stops.
pub proof fn lemma_word_end_unique(s: Seq<char>, from: int, b: int)
    requires
        0 <= from <= b <= s.len(),
        forall|j: int| from <= j < b ==> !char_is_whitespace(s[j]),
        b < s.len() ==> char_is_whitespace(s[b]),
    ensures
        word_end(s, from) == b,
    decreases b - from,
{
    if from < b {
        lemma_word_end_unique(s, from + 1, b);
    }
}

/// A word that stands after white space and ends at white space or at the
/// end of the text is the first of the words from there on.
pub proof fn lemma_words_step(s: Seq<char>, from: int, a: int, b: int)
    requires
        0 <= from <= a < b <= s.len(),
        forall|j: int| from <= j < a ==> char_is_whitespace(s[j]),
        forall|j: int| a <= j < b ==> !char_is_whitespace(s[j]),
        b < s.len() ==> char_is_whitespace(s[b]),
    ensures
        words_from(s, from) == seq![s.subrange(a, b)] + words_from(s, b),
{
    lemma_skip_spaces_unique(s, from, a);
    lemma_word_end_unique(s, a + 1, b);
}

/// There is no word from the end of the text on.
pub proof fn lemma_words_end(s: Seq<char>)
    ensures
        words_from(s, s.len() as int) == Seq::<Seq<char>>::empty(),
{
}

/// Splits a text into its words, as `str::split_whitespace` does.
pub fn split_whitespace(s: &str) -> (r: Vec<String>)
    ensures
        texts(r@) == words(s@),
{
    let n = s.unicode_len();
    let mut out: Vec<String> = Vec::new();
    let mut i: usize = 0;
    assert(texts(out@) =~= Seq::<Seq<char>>::empty());
    while i < n
        invariant
            n == s@.len(),
            i <= n,
            words(s@) == texts(out@) + words_from(s@, i as int),
        ensures
            words(s@) == texts(out@),
        decreases n - i,
    {
        let mut a: usize = i;
        while a < n && is_whitespace(s.get_char(a))
            invariant
                n == s@.len(),
                i <= a <= n,
                forall|j: int| i <= j < a ==> char_is_whitespace(s@[j]),
            decreases n - a,
        {
            a += 1;
        }
        proof {
            lemma_skip_spaces_unique(s@, i as int, a as int);
        }
        if a >= n {
            assert(words_from(s@, i as int) =~= Seq::<Seq<char>>::empty());
            break ;
        }
        let mut b: usize = a + 1;
        while b < n && !is_whitespace(s.get_char(b))
            invariant
                n == s@.len(),
                a < b <= n,
                forall|j: int| a < j < b ==> !char_is_whitespace(s@[j]),
            decreases n - b,
        {
            b += 1;
        }
        proof {
            lemma_word_end_unique(s@, a as int + 1, b as int);
        }
        let word = slice_text(s, a, b);
        proof {
            let before = texts(out@);
            assert(words_from(s@, i as int) == seq![s@.subrange(a as int, b as int)] + words_from(
                s@,
                b as int,
            ));
            assert(texts(out@.push(word)) =~= before + seq![word@]);
            assert(before + (seq![word@] + words_from(s@, b as int)) =~= (before + seq![word@])
                + words_from(s@, b as int));
        }
        out.push(word);
        i = b;
    }
    proof {
        if i >= n {
            lemma_skip_spaces(s@, i as int);
            assert(words_from(s@, i as int) =~= Seq::<Seq<char>>::empty());
        }
    }
    out
}

/// Where the text ends once the white space at its end is left out.
pub open spec fn trim_end(s: Seq<char>) -> int
    decreases s.len(),
{
    if s.len() == 0 {
        0
    } else if !char_is_whitespace(s.last()) {
        s.len() as int
    } else {
        trim_end(s.drop_last())
    }
}

/// The text without the white space at its start and at its end.
pub open spec fn trimmed(s: Seq<char>) -> Seq<char> {
    let a = skip_spaces(s, 0);
    let b = trim_end(s);
    if a < b {
        s.subrange(a, b)
    } else {
        Seq::empty()
    }
}

/// An index before which the last character is no white space, and from
/// which on all is white space, is where the trimmed text ends.
pub proof fn lemma_trim_end_unique(s: Seq<char>, b: int)
    requires
        0 <= b <= s.len(),
        b > 0 ==> !char_is_whitespace(s[b - 1]),
        forall|j: int| b <= j < s.len() ==> char_is_whitespace(s[j]),
    ensures
        trim_end(s) == b,
    decreases s.len(),
{
    if s.len() > 0 && b < s.len() {
        let front = s.drop_last();
        assert(s.last() == s[s.len() - 1]);
        assert forall|j: int| b <= j < front.len() implies char_is_whitespace(front[j]) by {
            assert(front[j] == s[j]);
        }
        if b > 0 {
            assert(front[b - 1] == s[b - 1]);
        }
        lemma_trim_end_unique(front, b);
    }
}

/// The text without the white space at its start and at its end, as
/// `str::trim` gives it.
pub fn trim(s: &str) -> (r: String)
    ensures
        r@ == trimmed(s@),
{
    let n = s.unicode_len();
    let mut a: usize = 0;
    while a < n && is_whitespace(s.get_char(a))
        invariant
            n == s@.len(),
            a <= n,
            forall|j: int| 0 <= j < a ==> char_is_whitespace(s@[j]),
        decreases n - a,
    {
        a += 1;
    }
    let mut b: usize = n;
    while b > 0 && is_whitespace(s.get_char(b - 1))
        invariant
            n == s@.len(),
            b <= n,
            forall|j: int| b <= j < n ==> char_is_whitespace(s@[j]),
        decreases b,
    {
        b -= 1;
    }
    proof {
        lemma_skip_spaces_unique(s@, 0, a as int);
        lemma_trim_end_unique(s@, b as int);
    }
    if a < b {
        slice_text(s, a, b)
    } else {
        let r = String::new();
        assert(r@ =~= Seq::<char>::empty());
        r
    }
}

/// Whether the text `a` comes before the text `b` in the order of texts:
/// at the first place where they differ `a` has the lower character, or
/// `a` ends there and `b` does not.
pub open spec fn text_lt(a: Seq<char>, b: Seq<char>) -> bool
    decreases a.len(),
{
    if b.len() == 0 {
        false
    } else if a.len() == 0 {
        true
    } else if a[0] != b[0] {
        (a[0] as int) < (b[0] as int)
    } else {
        text_lt(a.drop_first(), b.drop_first())
    }
}

/// The order of texts is a strict total order.
pub proof fn lemma_text_order(a: Seq<char>, b: Seq<char>, c: Seq<char>)
    ensures
        !text_lt(a, a),
        text_lt(a, b) || a == b || text_lt(b, a),
        text_lt(a, b) ==> !text_lt(b, a),
        text_lt(a, b) && text_lt(b, c) ==> text_lt(a, c),
    decreases a.len(),
{
    if a.len() > 0 {
        lemma_text_order(a.drop_first(), a.drop_first(), a.drop_first());
    }
    if a.len() > 0 && b.len() > 0 {
        if c.len() > 0 {
            lemma_text_order(a.drop_first(), b.drop_first(), c.drop_first());
        } else {
            lemma_text_order(a.drop_first(), b.drop_first(), b.drop_first());
        }
        if a[0] == b[0] {
            if a.drop_first() == b.drop_first() {
                assert(a =~= seq![a[0]] + a.drop_first());
                assert(b =~= seq![b[0]] + b.drop_first());
                assert(a == b);
            }
        }
    } else if a.len() == 0 && b.len() == 0 {
        assert(a =~= b);
    }
}

/// Two texts that agree up to a place are in the order of what follows.
proof fn lemma_text_lt_skip(a: Seq<char>, b: Seq<char>, i: int)
    requires
        0 <= i <= a.len(),
        i <= b.len(),
        forall|j: int| 0 <= j < i ==> a[j] == b[j],
    ensures
        text_lt(a, b) == text_lt(a.skip(i), b.skip(i)),
    decreases i,
{
    if i > 0 {
        assert(a.drop_first().skip(i - 1) =~= a.skip(i));
        assert(b.drop_first().skip(i - 1) =~= b.skip(i));
        assert forall|j: int| 0 <= j < i - 1 implies a.drop_first()[j] == b.drop_first()[j] by {
            assert(a[j + 1] == b[j + 1]);
        }
        lemma_text_lt_skip(a.drop_first(), b.drop_first(), i - 1);
        assert(a[0] == b[0]);
    } else {
        assert(a.skip(0) =~= a);
        assert(b.skip(0) =~= b);
    }
}

/// Whether the text `a` comes before the text `b` in the order of texts.
pub fn is_before(a: &str, b: &str) -> (r: bool)
    ensures
        r == text_lt(a@, b@),
{
    let n = a.unicode_len();
    let m = b.unicode_len();
    let mut i: usize = 0;
    while i < n && i < m
        invariant
            n == a@.len(),
            m == b@.len(),
            i <= n,
            i <= m,
            forall|j: int| 0 <= j < i ==> a@[j] == b@[j],
        decreases n - i,
    {
        let x = a.get_char(i);
        let y = b.get_char(i);
        if x != y {
            proof {
                lemma_text_lt_skip(a@, b@, i as int);
                assert(a@.skip(i as int)[0] == x);
                assert(b@.skip(i as int)[0] == y);
            }
            return (x as u32) < (y as u32);
        }
        i += 1;
    }
    proof {
        lemma_text_lt_skip(a@, b@, i as int);
    }
    i < m
}

/// The characters of `s` from index `from` up to `to`, as an owned text.
pub fn slice_text(s: &str, from: usize, to: usize) -> (r: String)
    requires
        from <= to <= s@.len(),
    ensures
        r@ == s@.subrange(from as int, to as int),
{
    String::from_str(s.substring_char(from, to))
}

} // verus!
