//! Text primitives: characters, trimming, splitting, replacing and decimal numbers.
use vstd::prelude::*;

verus! {

// ---------------------------------------------------------------------------
// What the standard library provides
// ---------------------------------------------------------------------------

/// `String::push`: appends one character.
pub assume_specification[ String::push ](s: &mut String, c: char)
    ensures
        final(s)@ == old(s)@.push(c),
;

/// `String::pop`: takes the last character off, if there is one.
pub assume_specification[ String::pop ](s: &mut String) -> (c: Option<char>)
    ensures
        old(s)@.len() == 0 ==> c is None && final(s)@ == old(s)@,
        old(s)@.len() > 0 ==> c == Some(old(s)@.last()) && final(s)@ == old(s)@.drop_last(),
;

/// The Unicode lower case of a text that holds a character beyond ASCII.
pub uninterp spec fn unicode_lowercase(s: Seq<char>) -> Seq<char>;

/// `str::to_lowercase`: a text of ASCII characters has `A` to `Z` replaced by `a` to `z`; what
/// becomes of any other text is left to the Unicode tables, and named.
#[verifier::external_body]
pub(crate) fn str_to_lowercase(s: &str) -> (r: String)
    ensures
        is_ascii_text(s@) ==> r@ == ascii_lower_text(s@),
        !is_ascii_text(s@) ==> r@ == unicode_lowercase(s@),
{
    s.to_lowercase()
}

// ---------------------------------------------------------------------------
// Texts as sequences of characters
// ---------------------------------------------------------------------------

/// Every character is ASCII.
pub open spec fn is_ascii_text(s: Seq<char>) -> bool {
    forall|i: int| 0 <= i < s.len() ==> (#[trigger] s[i] as u32) < 128
}

/// `A` to `Z` become `a` to `z`; every other character stays.
pub open spec fn ascii_lower(c: char) -> char {
    if 'A' <= c <= 'Z' {
        (c as u32 + 32) as char
    } else {
        c
    }
}

/// Each character in ASCII lower case.
pub open spec fn ascii_lower_text(s: Seq<char>) -> Seq<char> {
    s.map_values(|c: char| ascii_lower(c))
}

/// The lower case of a text.
pub open spec fn lowercase(s: Seq<char>) -> Seq<char> {
    if is_ascii_text(s) {
        ascii_lower_text(s)
    } else {
        unicode_lowercase(s)
    }
}

/// The characters with the Unicode `White_Space` property.
pub open spec fn white_space(c: char) -> bool {
    ||| '\u{9}' <= c <= '\u{d}'
    ||| c == ' '
    ||| c == '\u{85}'
    ||| c == '\u{a0}'
    ||| c == '\u{1680}'
    ||| '\u{2000}' <= c <= '\u{200a}'
    ||| c == '\u{2028}'
    ||| c == '\u{2029}'
    ||| c == '\u{202f}'
    ||| c == '\u{205f}'
    ||| c == '\u{3000}'
}

/// Equal up to the case of ASCII letters.
pub open spec fn eq_ignoring_ascii_case(a: Seq<char>, b: Seq<char>) -> bool {
    ascii_lower_text(a) == ascii_lower_text(b)
}

/// `s` begins with `prefix`.
pub open spec fn starts_with(s: Seq<char>, prefix: Seq<char>) -> bool {
    prefix.len() <= s.len() && s.take(prefix.len() as int) == prefix
}

/// The index of the first `c` in `s`, or the length of `s`.
pub open spec fn index_of_char(s: Seq<char>, c: char) -> int
    decreases s.len(),
{
    if s.len() == 0 || s[0] == c {
        0
    } else {
        1 + index_of_char(s.drop_first(), c)
    }
}

/// The parts of `s` before and after the first `c`, if there is one.
pub open spec fn split_at_char(s: Seq<char>, c: char) -> Option<(Seq<char>, Seq<char>)> {
    let i = index_of_char(s, c);
    if i < s.len() {
        Some((s.take(i), s.skip(i + 1)))
    } else {
        None
    }
}

/// The index of the first place where `s` continues with `part`, if there is one.
pub open spec fn index_of_text(s: Seq<char>, part: Seq<char>) -> Option<int>
    decreases s.len(),
{
    if starts_with(s, part) {
        Some(0)
    } else if s.len() == 0 {
        None
    } else {
        match index_of_text(s.drop_first(), part) {
            Some(i) => Some(i + 1),
            None => None,
        }
    }
}

/// `s` without a carriage return at its end.
pub open spec fn without_final_cr(s: Seq<char>) -> Seq<char> {
    if s.len() > 0 && s.last() == '\r' {
        s.drop_last()
    } else {
        s
    }
}

/// The lines of a text: each ends at a line feed, with a carriage return before it dropped; the
/// last one may lack its line feed.
pub open spec fn lines_of(s: Seq<char>) -> Seq<Seq<char>>
    decreases s.len(),
{
    if s.len() == 0 {
        Seq::empty()
    } else {
        let i = index_of_char(s, '\n');
        if 0 <= i < s.len() {
            seq![without_final_cr(s.take(i))] + lines_of(s.skip(i + 1))
        } else {
            seq![s]
        }
    }
}

/// `s` without its leading white space.
pub open spec fn trimmed_start(s: Seq<char>) -> Seq<char>
    decreases s.len(),
{
    if s.len() > 0 && white_space(s[0]) {
        trimmed_start(s.drop_first())
    } else {
        s
    }
}

/// `s` without its trailing white space.
pub open spec fn trimmed_end(s: Seq<char>) -> Seq<char>
    decreases s.len(),
{
    if s.len() > 0 && white_space(s.last()) {
        trimmed_end(s.drop_last())
    } else {
        s
    }
}

/// `s` without leading and trailing white space.
pub open spec fn trimmed(s: Seq<char>) -> Seq<char> {
    trimmed_end(trimmed_start(s))
}

/// The number of characters before the first white space.
pub open spec fn word_len(s: Seq<char>) -> nat
    decreases s.len(),
{
    if s.len() == 0 || white_space(s[0]) {
        0
    } else {
        1 + word_len(s.drop_first())
    }
}

/// The maximal runs of characters that are no white space, in order.
pub open spec fn words_of(s: Seq<char>) -> Seq<Seq<char>>
    decreases s.len(),
{
    if s.len() == 0 {
        Seq::empty()
    } else if white_space(s[0]) {
        words_of(s.drop_first())
    } else {
        let n = word_len(s) as int;
        if 0 < n <= s.len() {
            seq![s.take(n)] + words_of(s.skip(n))
        } else {
            Seq::empty()
        }
    }
}

/// Every occurrence of `from` replaced by `to`, from left to right, without overlaps.
pub open spec fn replaced(s: Seq<char>, from: Seq<char>, to: Seq<char>) -> Seq<char>
    decreases s.len(),
{
    if s.len() == 0 {
        s
    } else if from.len() > 0 && starts_with(s, from) {
        to + replaced(s.skip(from.len() as int), from, to)
    } else {
        seq![s[0]] + replaced(s.drop_first(), from, to)
    }
}

/// The texts put together, with `separator` between them.
pub open spec fn joined(parts: Seq<Seq<char>>, separator: Seq<char>) -> Seq<char>
    decreases parts.len(),
{
    if parts.len() == 0 {
        Seq::empty()
    } else if parts.len() == 1 {
        parts[0]
    } else {
        joined(parts.drop_last(), separator) + separator + parts.last()
    }
}

/// The character of a decimal digit.
pub open spec fn digit_char(d: nat) -> char {
    (48 + d) as char
}

/// A number in decimal notation, without leading zeros.
pub open spec fn decimal(n: nat) -> Seq<char>
    decreases n,
{
    if n < 10 {
        seq![digit_char(n)]
    } else {
        decimal(n / 10).push(digit_char(n % 10))
    }
}

/// A number in decimal notation, padded with zeros on the left to at least `width` digits.
pub open spec fn decimal_padded(n: nat, width: nat) -> Seq<char> {
    let digits = decimal(n);
    if digits.len() >= width {
        digits
    } else {
        Seq::new((width - digits.len()) as nat, |i: int| '0') + digits
    }
}

/// The value of a digit character in a base of at most sixteen.
pub open spec fn digit_value(c: char, base: nat) -> Option<nat> {
    let d: int = if '0' <= c <= '9' {
        c as u32 - 48
    } else if 'a' <= c <= 'f' {
        c as u32 - 87
    } else if 'A' <= c <= 'F' {
        c as u32 - 55
    } else {
        99
    };
    if d < base {
        Some(d as nat)
    } else {
        None
    }
}

/// The number that a sequence of digits writes, if each character is a digit of the base.
pub open spec fn digits_value(s: Seq<char>, base: nat) -> Option<nat>
    decreases s.len(),
{
    if s.len() == 0 {
        Some(0)
    } else {
        match (digits_value(s.drop_last(), base), digit_value(s.last(), base)) {
            (Some(high), Some(low)) => Some(high * base + low),
            _ => None,
        }
    }
}

/// The number that a text writes in a base: an optional plus sign, then at least one digit, with
/// a value of at most `max`.
pub open spec fn number_value(s: Seq<char>, base: nat, max: nat) -> Option<nat> {
    let digits = if s.len() > 1 && s[0] == '+' {
        s.drop_first()
    } else {
        s
    };
    if digits.len() == 0 {
        None
    } else {
        match digits_value(digits, base) {
            Some(v) => if v <= max {
                Some(v)
            } else {
                None
            },
            None => None,
        }
    }
}

// ---------------------------------------------------------------------------
// Facts about the definitions
// ---------------------------------------------------------------------------

/// The first `c` of `s` lies where `index_of_char` says, and nowhere before.
pub proof fn lemma_index_of_char(s: Seq<char>, c: char)
    ensures
        0 <= index_of_char(s, c) <= s.len(),
        forall|j: int| 0 <= j < index_of_char(s, c) ==> s[j] != c,
        index_of_char(s, c) < s.len() ==> s[index_of_char(s, c)] == c,
    decreases s.len(),
{
    if s.len() > 0 && s[0] != c {
        let rest = s.drop_first();
        lemma_index_of_char(rest, c);
        assert forall|j: int| 0 <= j < index_of_char(s, c) implies s[j] != c by {
            if j > 0 {
                assert(rest[j - 1] == s[j]);
            }
        }
    }
}

/// An index before which there is no `c`, and at which there is one or the text ends, is the
/// index of the first `c`.
pub proof fn lemma_index_of_char_unique(s: Seq<char>, c: char, i: int)
    requires
        0 <= i <= s.len(),
        forall|j: int| 0 <= j < i ==> s[j] != c,
        i < s.len() ==> s[i] == c,
    ensures
        index_of_char(s, c) == i,
{
    lemma_index_of_char(s, c);
    let k = index_of_char(s, c);
    if k < i {
        assert(s[k] != c);
    }
    if i < k {
        assert(s[i] != c);
    }
}

/// A word is no longer than the text that it starts.
pub proof fn lemma_word_len(s: Seq<char>)
    ensures
        word_len(s) <= s.len(),
        s.len() > 0 && !white_space(s[0]) ==> word_len(s) > 0,
        forall|j: int| 0 <= j < word_len(s) ==> !white_space(s[j]),
        word_len(s) < s.len() ==> white_space(s[word_len(s) as int]),
    decreases s.len(),
{
    if s.len() > 0 && !white_space(s[0]) {
        let rest = s.drop_first();
        lemma_word_len(rest);
        assert forall|j: int| 0 <= j < word_len(s) implies !white_space(s[j]) by {
            if j > 0 {
                assert(rest[j - 1] == s[j]);
            }
        }
    }
}

/// The length before the first white space is the only one with its two properties.
pub proof fn lemma_word_len_unique(s: Seq<char>, n: int)
    requires
        0 <= n <= s.len(),
        forall|j: int| 0 <= j < n ==> !white_space(s[j]),
        n < s.len() ==> white_space(s[n]),
    ensures
        word_len(s) == n,
{
    lemma_word_len(s);
    let k = word_len(s) as int;
    if k < n {
        assert(!white_space(s[k]));
    }
    if n < k {
        assert(!white_space(s[n]));
    }
}

/// Skipping `n` leading white space characters does not change the trimmed start.
proof fn lemma_trimmed_start_skip(s: Seq<char>, n: int)
    requires
        0 <= n <= s.len(),
        forall|j: int| 0 <= j < n ==> white_space(#[trigger] s[j]),
    ensures
        trimmed_start(s) == trimmed_start(s.skip(n)),
    decreases n,
{
    if n == 0 {
        assert(s.skip(0) == s);
    } else {
        let rest = s.drop_first();
        assert(white_space(s[0]));
        assert forall|j: int| 0 <= j < n - 1 implies white_space(#[trigger] rest[j]) by {
            assert(rest[j] == s[j + 1]);
        }
        lemma_trimmed_start_skip(rest, n - 1);
        assert(rest.skip(n - 1) == s.skip(n));
    }
}

/// Dropping trailing white space characters does not change the trimmed end.
proof fn lemma_trimmed_end_take(s: Seq<char>, n: int)
    requires
        0 <= n <= s.len(),
        forall|j: int| n <= j < s.len() ==> white_space(#[trigger] s[j]),
    ensures
        trimmed_end(s) == trimmed_end(s.take(n)),
    decreases s.len() - n,
{
    if n == s.len() {
        assert(s.take(n) == s);
    } else {
        let rest = s.drop_last();
        assert(white_space(s.last()));
        lemma_trimmed_end_take(rest, n);
        assert(rest.take(n) == s.take(n));
    }
}

/// A line without a line feed, then a line feed: the line comes first, then those of the rest.
pub proof fn lemma_lines_first(line: Seq<char>, rest: Seq<char>)
    requires
        forall|i: int| 0 <= i < line.len() ==> line[i] != '\n',
    ensures
        lines_of(line + seq!['\n'] + rest) == seq![without_final_cr(line)] + lines_of(rest),
{
    let s = line + seq!['\n'] + rest;
    assert(s[line.len() as int] == '\n');
    lemma_index_of_char_unique(s, '\n', line.len() as int);
    assert(s.take(line.len() as int) == line);
    assert(s.skip((line.len() + 1) as int) == rest);
}

/// A key without `c`, then `c`: the text is split behind the key.
pub proof fn lemma_split_behind(key: Seq<char>, c: char, rest: Seq<char>)
    requires
        forall|i: int| 0 <= i < key.len() ==> key[i] != c,
    ensures
        split_at_char(key + seq![c] + rest, c) == Some((key, rest)),
{
    let s = key + seq![c] + rest;
    assert(s[key.len() as int] == c);
    lemma_index_of_char_unique(s, c, key.len() as int);
    assert(s.take(key.len() as int) == key);
    assert(s.skip((key.len() + 1) as int) == rest);
}

/// Decimal notation is made of digits, and reading it gives the number back.
pub proof fn lemma_decimal(n: nat)
    ensures
        decimal(n).len() > 0,
        forall|i: int| 0 <= i < decimal(n).len() ==> '0' <= #[trigger] decimal(n)[i] <= '9',
        digits_value(decimal(n), 10) == Some(n),
    decreases n,
{
    let s = decimal(n);
    let d = n % 10;
    assert('0' <= digit_char(d) <= '9');
    assert(digit_value(digit_char(d), 10) == Some(d));
    if n < 10 {
        assert(s.drop_last().len() == 0);
        assert(digits_value(s.drop_last(), 10) == Some(0nat));
    } else {
        lemma_decimal(n / 10);
        assert(s.drop_last() == decimal(n / 10));
    }
}

/// A number in decimal notation is read back as itself.
pub proof fn lemma_number_round_trip(n: nat, max: nat)
    requires
        n <= max,
    ensures
        number_value(decimal(n), 10, max) == Some(n),
{
    lemma_decimal(n);
    assert('0' <= decimal(n)[0] <= '9');
}

/// A text whose first and last characters are no white space is its own trimmed form.
pub proof fn lemma_trimmed_fixed(s: Seq<char>)
    requires
        s.len() > 0 ==> !white_space(s[0]) && !white_space(s.last()),
    ensures
        trimmed(s) == s,
{
}

// ---------------------------------------------------------------------------
// Executable counterparts
// ---------------------------------------------------------------------------

/// Whether a character is white space.
pub fn is_white_space(c: char) -> (r: bool)
    ensures
        r == white_space(c),
{
    ('\u{9}' <= c && c <= '\u{d}') || c == ' ' || c == '\u{85}' || c == '\u{a0}' || c == '\u{1680}'
        || ('\u{2000}' <= c && c <= '\u{200a}') || c == '\u{2028}' || c == '\u{2029}' || c
        == '\u{202f}' || c == '\u{205f}' || c == '\u{3000}'
}

/// The texts that a vector of character vectors holds.
pub open spec fn texts(v: Seq<Vec<char>>) -> Seq<Seq<char>> {
    v.map_values(|t: Vec<char>| t@)
}

/// The texts that a vector of strings holds.
pub open spec fn strings(v: Seq<String>) -> Seq<Seq<char>> {
    v.map_values(|t: String| t@)
}

/// The text of an optional string.
pub open spec fn text_of(s: Option<String>) -> Option<Seq<char>> {
    match s {
        Some(t) => Some(t@),
        None => None,
    }
}

/// The characters of a text.
pub(crate) fn chars_of(s: &str) -> (r: Vec<char>)
    ensures
        r@ == s@,
{
    let mut r: Vec<char> = Vec::new();
    for c in it: s.chars()
        invariant
            it.seq() == s@,
            r@ == s@.take(it.index() as int),
    {
        proof {
            assert(s@.take(it.index() + 1) == s@.take(it.index() as int).push(s@[it.index() as int]));
        }
        r.push(c);
    }
    assert(s@.take(s@.len() as int) == s@);
    r
}

/// The text of a sequence of characters.
pub(crate) fn string_of(chars: &[char]) -> (r: String)
    ensures
        r@ == chars@,
{
    let mut r = String::new();
    let mut i: usize = 0;
    while i < chars.len()
        invariant
            i <= chars@.len(),
            r@ == chars@.take(i as int),
        decreases chars@.len() - i,
    {
        assert(chars@.take(i + 1) == chars@.take(i as int).push(chars@[i as int]));
        r.push(chars[i]);
        i = i + 1;
    }
    assert(chars@.take(i as int) == chars@);
    r
}

/// A part of a sequence of characters.
pub(crate) fn part_of(s: &[char], from: usize, to: usize) -> (r: Vec<char>)
    requires
        from <= to <= s@.len(),
    ensures
        r@ == s@.subrange(from as int, to as int),
{
    let mut r: Vec<char> = Vec::new();
    let mut i: usize = from;
    while i < to
        invariant
            from <= i <= to <= s@.len(),
            r@ == s@.subrange(from as int, i as int),
        decreases to - i,
    {
        r.push(s[i]);
        i = i + 1;
        assert(s@.subrange(from as int, i as int) == s@.subrange(from as int, i - 1).push(
            s@[i - 1],
        ));
    }
    r
}

/// Whether two sequences of characters are equal.
pub(crate) fn same_chars(a: &[char], b: &[char]) -> (r: bool)
    ensures
        r == (a@ == b@),
{
    if a.len() != b.len() {
        return false;
    }
    let mut i: usize = 0;
    while i < a.len()
        invariant
            i <= a@.len(),
            a@.len() == b@.len(),
            forall|j: int| 0 <= j < i ==> a@[j] == b@[j],
        decreases a@.len() - i,
    {
        if a[i] != b[i] {
            assert(a@[i as int] != b@[i as int]);
            return false;
        }
        i = i + 1;
    }
    assert(a@ == b@);
    true
}

/// Whether two texts are equal.
pub(crate) fn same_text(a: &str, b: &str) -> (r: bool)
    ensures
        r == (a@ == b@),
{
    let x = chars_of(a);
    let y = chars_of(b);
    same_chars(&x, &y)
}

/// Whether `s` continues with `part` at `at`.
pub(crate) fn continues_with(s: &[char], at: usize, part: &[char]) -> (r: bool)
    requires
        at <= s@.len(),
    ensures
        r == starts_with(s@.skip(at as int), part@),
{
    let total: usize = s.len();
    if total - at < part.len() {
        return false;
    }
    let mut i: usize = 0;
    while i < part.len()
        invariant
            i <= part@.len(),
            at + part@.len() <= s@.len() == total,
            forall|j: int| 0 <= j < i ==> s@[at + j] == part@[j],
        decreases part@.len() - i,
    {
        if s[at + i] != part[i] {
            assert(s@.skip(at as int).take(part@.len() as int)[i as int] != part@[i as int]);
            return false;
        }
        i = i + 1;
    }
    assert(s@.skip(at as int).take(part@.len() as int) == part@);
    true
}

/// One character in ASCII lower case.
pub(crate) fn lower_char(c: char) -> (r: char)
    ensures
        r == ascii_lower(c),
{
    if 'A' <= c && c <= 'Z' {
        ((c as u8) + 32) as char
    } else {
        c
    }
}

/// Each character in ASCII lower case.
pub(crate) fn lower_chars(s: &[char]) -> (r: Vec<char>)
    ensures
        r@ == ascii_lower_text(s@),
{
    let mut r: Vec<char> = Vec::new();
    let mut i: usize = 0;
    while i < s.len()
        invariant
            i <= s@.len(),
            r@ == ascii_lower_text(s@).take(i as int),
        decreases s@.len() - i,
    {
        r.push(lower_char(s[i]));
        i = i + 1;
        assert(ascii_lower_text(s@).take(i as int) == ascii_lower_text(s@).take(i - 1).push(
            ascii_lower(s@[i - 1]),
        ));
    }
    assert(ascii_lower_text(s@).take(i as int) == ascii_lower_text(s@));
    r
}

/// Whether two texts are equal up to the case of ASCII letters.
pub(crate) fn same_ignoring_ascii_case(a: &str, b: &str) -> (r: bool)
    ensures
        r == eq_ignoring_ascii_case(a@, b@),
{
    let x = lower_chars(&chars_of(a));
    let y = lower_chars(&chars_of(b));
    same_chars(&x, &y)
}

/// The index of the first `c`, or the length.
pub(crate) fn find_char(s: &[char], c: char) -> (r: usize)
    ensures
        r == index_of_char(s@, c),
        r <= s@.len(),
{
    let mut i: usize = 0;
    while i < s.len() && s[i] != c
        invariant
            i <= s@.len(),
            forall|j: int| 0 <= j < i ==> s@[j] != c,
        decreases s@.len() - i,
    {
        i = i + 1;
    }
    proof {
        lemma_index_of_char_unique(s@, c, i as int);
    }
    i
}

/// The index of the first place where `s` continues with `part`.
pub(crate) fn find_text(s: &[char], part: &[char]) -> (r: Option<usize>)
    ensures
        (match r {
            Some(i) => index_of_text(s@, part@) == Some(i as int) && i + part@.len() <= s@.len(),
            None => index_of_text(s@, part@) is None,
        }),
{
    let mut i: usize = 0;
    proof {
        assert(s@.skip(0) == s@);
    }
    loop
        invariant
            i <= s@.len(),
            (match index_of_text(s@.skip(i as int), part@) {
                Some(k) => index_of_text(s@, part@) == Some(i + k),
                None => index_of_text(s@, part@) is None,
            }),
        decreases s@.len() - i,
    {
        if continues_with(s, i, part) {
            return Some(i);
        }
        if i == s.len() {
            return None;
        }
        assert(s@.skip(i as int).drop_first() == s@.skip(i + 1));
        i = i + 1;
    }
}

/// The lines of a text.
pub(crate) fn split_lines(s: &[char]) -> (r: Vec<Vec<char>>)
    ensures
        texts(r@) == lines_of(s@),
{
    let mut r: Vec<Vec<char>> = Vec::new();
    let mut start: usize = 0;
    proof {
        assert(s@.skip(0) == s@);
        assert(texts(r@) + lines_of(s@) == lines_of(s@));
    }
    while start < s.len()
        invariant
            start <= s@.len(),
            lines_of(s@) == texts(r@) + lines_of(s@.skip(start as int)),
        decreases s@.len() - start,
    {
        let ghost rest = s@.skip(start as int);
        let mut end: usize = start;
        while end < s.len() && s[end] != '\n'
            invariant
                start <= end <= s@.len(),
                rest == s@.skip(start as int),
                forall|j: int| 0 <= j < end - start ==> rest[j] != '\n',
            decreases s@.len() - end,
        {
            assert(rest[end - start] == s@[end as int]);
            end = end + 1;
        }
        proof {
            lemma_index_of_char_unique(rest, '\n', end - start);
        }
        let ghost before = texts(r@);
        if end == s.len() {
            assert(s@.subrange(start as int, end as int) == rest);
            let line = part_of(s, start, end);
            r.push(line);
            proof {
                assert(texts(r@) == before.push(rest));
                assert(before + seq![rest] == before.push(rest));
                assert(s@.skip(end as int).len() == 0);
                assert(before.push(rest) + lines_of(s@.skip(end as int)) == before.push(rest));
            }
            start = end;
        } else {
            let mut stop: usize = end;
            if stop > start && s[stop - 1] == '\r' {
                stop = stop - 1;
            }
            let line = part_of(s, start, stop);
            let ghost head = without_final_cr(rest.take(end - start));
            assert(line@ == head) by {
                assert(rest.take(end - start) == s@.subrange(start as int, end as int));
                if end > start {
                    assert(rest.take(end - start).last() == s@[end - 1]);
                    assert(s@.subrange(start as int, end as int).drop_last() == s@.subrange(
                        start as int,
                        end - 1,
                    ));
                }
            }
            r.push(line);
            proof {
                assert(rest.skip(end - start + 1) == s@.skip(end + 1));
                assert(texts(r@) == before.push(head));
                assert(before + (seq![head] + lines_of(s@.skip(end + 1))) == before.push(head)
                    + lines_of(s@.skip(end + 1)));
            }
            start = end + 1;
        }
    }
    proof {
        assert(s@.skip(start as int).len() == 0);
        assert(texts(r@) + lines_of(s@.skip(start as int)) == texts(r@));
    }
    r
}

/// A text without leading and trailing white space.
pub(crate) fn trim_chars(s: &[char]) -> (r: Vec<char>)
    ensures
        r@ == trimmed(s@),
{
    let mut from: usize = 0;
    while from < s.len() && is_white_space(s[from])
        invariant
            from <= s@.len(),
            forall|j: int| 0 <= j < from ==> white_space(#[trigger] s@[j]),
        decreases s@.len() - from,
    {
        from = from + 1;
    }
    let ghost rest = s@.skip(from as int);
    proof {
        lemma_trimmed_start_skip(s@, from as int);
        assert(from < s@.len() ==> rest[0] == s@[from as int]);
        assert(trimmed_start(s@) == rest);
    }
    let mut to: usize = s.len();
    while to > from && is_white_space(s[to - 1])
        invariant
            from <= to <= s@.len(),
            rest == s@.skip(from as int),
            forall|j: int| to - from <= j < rest.len() ==> white_space(#[trigger] rest[j]),
        decreases to,
    {
        assert(rest[to - 1 - from] == s@[to - 1]);
        to = to - 1;
    }
    proof {
        lemma_trimmed_end_take(rest, to - from);
        let t = rest.take(to - from);
        assert(t == s@.subrange(from as int, to as int));
        if to > from {
            assert(t.last() == s@[to - 1]);
        }
        assert(trimmed_end(t) == t);
    }
    part_of(s, from, to)
}

/// The words of a text.
pub(crate) fn split_words(s: &[char]) -> (r: Vec<Vec<char>>)
    ensures
        texts(r@) == words_of(s@),
{
    let mut r: Vec<Vec<char>> = Vec::new();
    let mut at: usize = 0;
    proof {
        assert(s@.skip(0) == s@);
        assert(texts(r@) + words_of(s@) == words_of(s@));
    }
    while at < s.len()
        invariant
            at <= s@.len(),
            words_of(s@) == texts(r@) + words_of(s@.skip(at as int)),
        decreases s@.len() - at,
    {
        let ghost rest = s@.skip(at as int);
        assert(rest[0] == s@[at as int]);
        if is_white_space(s[at]) {
            assert(rest.drop_first() == s@.skip(at + 1));
            at = at + 1;
        } else {
            let mut end: usize = at + 1;
            while end < s.len() && !is_white_space(s[end])
                invariant
                    at < end <= s@.len(),
                    rest == s@.skip(at as int),
                    forall|j: int| 0 <= j < end - at ==> !white_space(rest[j]),
                decreases s@.len() - end,
            {
                assert(rest[end - at] == s@[end as int]);
                end = end + 1;
            }
            let word = part_of(s, at, end);
            let ghost before = texts(r@);
            proof {
                assert(end < s@.len() ==> rest[end - at] == s@[end as int]);
                lemma_word_len_unique(rest, end - at);
                assert(rest.take(end - at) == s@.subrange(at as int, end as int));
                assert(rest.skip(end - at) == s@.skip(end as int));
            }
            r.push(word);
            proof {
                assert(texts(r@) == before.push(word@));
                assert(before + (seq![word@] + words_of(s@.skip(end as int))) == before.push(word@)
                    + words_of(s@.skip(end as int)));
            }
            at = end;
        }
    }
    proof {
        assert(s@.skip(at as int).len() == 0);
        assert(texts(r@) + words_of(s@.skip(at as int)) == texts(r@));
    }
    r
}

/// Every occurrence of `from` replaced by `to`.
pub(crate) fn replace_chars(s: &[char], from: &[char], to: &[char]) -> (r: Vec<char>)
    requires
        from@.len() > 0,
    ensures
        r@ == replaced(s@, from@, to@),
{
    let mut r: Vec<char> = Vec::new();
    let mut at: usize = 0;
    proof {
        assert(s@.skip(0) == s@);
        assert(r@ + replaced(s@, from@, to@) == replaced(s@, from@, to@));
    }
    while at < s.len()
        invariant
            at <= s@.len(),
            from@.len() > 0,
            replaced(s@, from@, to@) == r@ + replaced(s@.skip(at as int), from@, to@),
        decreases s@.len() - at,
    {
        let ghost rest = s@.skip(at as int);
        let ghost before = r@;
        if continues_with(s, at, from) {
            let mut i: usize = 0;
            while i < to.len()
                invariant
                    i <= to@.len(),
                    r@ == before + to@.take(i as int),
                decreases to@.len() - i,
            {
                r.push(to[i]);
                i = i + 1;
                assert(to@.take(i as int) == to@.take(i - 1).push(to@[i - 1]));
                assert(before + to@.take(i as int) == (before + to@.take(i - 1)).push(to@[i - 1]));
            }
            proof {
                assert(to@.take(i as int) == to@);
                assert(rest.skip(from@.len() as int) == s@.skip(at + from@.len()));
                let tail = replaced(s@.skip(at + from@.len()), from@, to@);
                assert(before + (to@ + tail) == (before + to@) + tail);
            }
            at = at + from.len();
        } else {
            r.push(s[at]);
            proof {
                assert(rest[0] == s@[at as int]);
                assert(rest.drop_first() == s@.skip(at + 1));
                let tail = replaced(s@.skip(at + 1), from@, to@);
                assert(before + (seq![s@[at as int]] + tail) == before.push(s@[at as int]) + tail);
            }
            at = at + 1;
        }
    }
    proof {
        assert(s@.skip(at as int).len() == 0);
        assert(r@ + replaced(s@.skip(at as int), from@, to@) == r@);
    }
    r
}

/// A number in decimal notation.
pub(crate) fn decimal_chars(n: u64) -> (r: Vec<char>)
    ensures
        r@ == decimal(n as nat),
    decreases n,
{
    let digit = (48 + (n % 10) as u8) as char;
    if n < 10 {
        let mut r: Vec<char> = Vec::new();
        r.push(digit);
        assert(r@ == seq![digit_char(n as nat)]);
        r
    } else {
        let mut r = decimal_chars(n / 10);
        r.push(digit);
        r
    }
}

/// A number in decimal notation.
pub(crate) fn decimal_string(n: u64) -> (r: String)
    ensures
        r@ == decimal(n as nat),
{
    string_of(&decimal_chars(n))
}

/// A number in decimal notation, padded with zeros on the left.
pub(crate) fn padded_string(n: u64, width: usize) -> (r: String)
    ensures
        r@ == decimal_padded(n as nat, width as nat),
{
    let digits = decimal_chars(n);
    let mut r = String::new();
    if digits.len() < width {
        let missing: usize = width - digits.len();
        let mut i: usize = 0;
        while i < missing
            invariant
                i <= missing,
                r@ == Seq::new(i as nat, |k: int| '0'),
            decreases missing - i,
        {
            r.push('0');
            i = i + 1;
            assert(Seq::new(i as nat, |k: int| '0') == Seq::new((i - 1) as nat, |k: int| '0').push(
                '0',
            ));
        }
    }
    let ghost zeros = r@;
    r.append(&string_of(&digits));
    proof {
        if digits@.len() >= width {
            assert(zeros + digits@ == digits@);
        }
    }
    r
}

/// What the digits of a text write is no less than what its first digits write.
proof fn lemma_digits_value_prefix(s: Seq<char>, base: nat, n: int)
    requires
        0 <= n <= s.len(),
        base >= 1,
        digits_value(s, base) is Some,
    ensures
        digits_value(s.take(n), base) is Some,
        digits_value(s.take(n), base)->0 <= digits_value(s, base)->0,
    decreases s.len(),
{
    if n == s.len() {
        assert(s.take(n) == s);
    } else {
        lemma_digits_value_prefix(s.drop_last(), base, n);
        assert(s.drop_last().take(n) == s.take(n));
        let high = digits_value(s.drop_last(), base)->0;
        assert(high * base >= high) by (nonlinear_arith)
            requires
                base >= 1,
        ;
    }
}

/// The value of a digit character.
pub(crate) fn digit_of(c: char, base: u32) -> (r: Option<u32>)
    requires
        base <= 16,
    ensures
        (match r {
            Some(d) => digit_value(c, base as nat) == Some(d as nat) && d < base,
            None => digit_value(c, base as nat) is None,
        }),
{
    let d: u32 = if '0' <= c && c <= '9' {
        c as u32 - 48
    } else if 'a' <= c && c <= 'f' {
        c as u32 - 87
    } else if 'A' <= c && c <= 'F' {
        c as u32 - 55
    } else {
        99
    };
    if d < base {
        Some(d)
    } else {
        None
    }
}

/// The number that a text writes in a base.
pub(crate) fn parse_number(s: &[char], base: u32, max: u32) -> (r: Option<u32>)
    requires
        2 <= base <= 16,
    ensures
        (match r {
            Some(v) => number_value(s@, base as nat, max as nat) == Some(v as nat),
            None => number_value(s@, base as nat, max as nat) is None,
        }),
{
    let from: usize = if s.len() > 1 && s[0] == '+' {
        1
    } else {
        0
    };
    let ghost digits = s@.skip(from as int);
    proof {
        assert(from == 0 ==> digits == s@);
        assert(from == 1 ==> digits == s@.drop_first());
    }
    if from == s.len() {
        return None;
    }
    let mut value: u32 = 0;
    let mut i: usize = from;
    proof {
        assert(digits.take(0).len() == 0);
    }
    while i < s.len()
        invariant
            from <= i <= s@.len(),
            digits == s@.skip(from as int),
            2 <= base <= 16,
            digits_value(digits.take(i - from), base as nat) == Some(value as nat),
            value <= max,
            digits.len() > 0,
            number_value(s@, base as nat, max as nat) == (match digits_value(digits, base as nat) {
                Some(v) => if v <= max {
                    Some(v)
                } else {
                    None
                },
                None => None,
            }),
        decreases s@.len() - i,
    {
        let ghost next = digits.take(i - from + 1);
        proof {
            assert(next.drop_last() == digits.take(i - from));
            assert(next.last() == s@[i as int]);
            if digits_value(digits, base as nat) is Some {
                lemma_digits_value_prefix(digits, base as nat, i - from + 1);
            }
        }
        match digit_of(s[i], base) {
            None => {
                return None;
            },
            Some(d) => {
                let wide: u64 = {
                    assert(value * base <= u32::MAX * 16) by (nonlinear_arith)
                        requires
                            0 <= value <= u32::MAX,
                            0 <= base <= 16,
                    ;
                    (value as u64) * (base as u64) + (d as u64)
                };
                if wide > max as u64 {
                    return None;
                }
                value = wide as u32;
            },
        }
        i = i + 1;
    }
    assert(digits.take(i - from) == digits);
    Some(value)
}

/// The texts put together, with `separator` between them.
pub(crate) fn join_strings(parts: &Vec<String>, separator: &str) -> (r: String)
    ensures
        r@ == joined(strings(parts@), separator@),
{
    let ghost all = strings(parts@);
    let mut r = String::new();
    let mut i: usize = 0;
    assert(all.take(0).len() == 0);
    while i < parts.len()
        invariant
            i <= parts@.len(),
            all == strings(parts@),
            r@ == joined(all.take(i as int), separator@),
        decreases parts@.len() - i,
    {
        proof {
            assert(all[i as int] == parts@[i as int]@);
            assert(all.take(i + 1).drop_last() == all.take(i as int));
            assert(all.take(i + 1).last() == all[i as int]);
        }
        if i > 0 {
            r.append(separator);
        }
        r.append(&parts[i]);
        proof {
            if i == 0 {
                assert(all.take(1)[0] == all[0]);
                assert(Seq::<char>::empty() + all[0] == all[0]);
            }
        }
        i = i + 1;
    }
    assert(all.take(i as int) == all);
    r
}

/// A copy of a text.
pub(crate) fn copy_text(s: &str) -> (r: String)
    ensures
        r@ == s@,
{
    s.to_owned()
}

/// A copy of an optional text.
pub(crate) fn copy_optional(s: &Option<String>) -> (r: Option<String>)
    ensures
        text_of(r) == text_of(*s),
{
    match s {
        Some(t) => Some(t.clone()),
        None => None,
    }
}

// ---------------------------------------------------------------------------
// What holds of texts
// ---------------------------------------------------------------------------

/// A text starts with another exactly where it is that text with something behind it.
pub proof fn lemma_starts_with(s: Seq<char>, prefix: Seq<char>)
    ensures
        starts_with(s, prefix) <==> exists|rest: Seq<char>| s == #[trigger] (prefix + rest),
{
    if starts_with(s, prefix) {
        assert(s =~= prefix + s.skip(prefix.len() as int));
    }
    if exists|rest: Seq<char>| s == #[trigger] (prefix + rest) {
        let rest = choose|rest: Seq<char>| s == #[trigger] (prefix + rest);
        assert(s.take(prefix.len() as int) =~= prefix);
    }
}

/// The lower case of the capital letters of ASCII are the small letters; every other character stays.
pub proof fn lemma_ascii_lower(c: char)
    ensures
        ({
            let capital = "ABCDEFGHIJKLMNOPQRSTUVWXYZ"@;
            let small = "abcdefghijklmnopqrstuvwxyz"@;
            &&& forall|i: int| 0 <= i < 26 && c == #[trigger] capital[i] ==> ascii_lower(c) == small[i]
            &&& !capital.contains(c) ==> ascii_lower(c) == c
        }),
{
    reveal_strlit("ABCDEFGHIJKLMNOPQRSTUVWXYZ");
    reveal_strlit("abcdefghijklmnopqrstuvwxyz");
    let capital = "ABCDEFGHIJKLMNOPQRSTUVWXYZ"@;
    if 'A' <= c <= 'Z' {
        assert(capital[c as u32 - 65] == c);
    }
}

/// Texts are equal without regard to case exactly where they are of one length and each two
/// characters are equal or a capital and a small letter of one kind.
pub proof fn lemma_eq_ignoring_ascii_case(a: Seq<char>, b: Seq<char>)
    ensures
        eq_ignoring_ascii_case(a, b) <==> a.len() == b.len() && forall|i: int|
            0 <= i < a.len() ==> ascii_lower(#[trigger] a[i]) == ascii_lower(b[i]),
        eq_ignoring_ascii_case(a, a),
{
    let x = ascii_lower_text(a);
    let y = ascii_lower_text(b);
    if eq_ignoring_ascii_case(a, b) {
        assert(x.len() == a.len() && y.len() == b.len());
        assert forall|i: int| 0 <= i < a.len() implies ascii_lower(#[trigger] a[i])
            == ascii_lower(b[i]) by {
            assert(x[i] == y[i]);
        }
    }
    if a.len() == b.len() && forall|i: int|
        0 <= i < a.len() ==> ascii_lower(#[trigger] a[i]) == ascii_lower(b[i]) {
        assert(x =~= y);
    }
}

/// A part stands in a text at index `i`.
pub open spec fn stands_at(s: Seq<char>, part: Seq<char>, i: int) -> bool {
    0 <= i && i + part.len() <= s.len() && s.subrange(i, i + part.len()) == part
}

/// The index that is given of a part is that of its first occurrence; none is given only where the
/// text does not hold the part.
pub proof fn lemma_index_of_text(s: Seq<char>, part: Seq<char>)
    ensures
        (match index_of_text(s, part) {
            Some(i) => stands_at(s, part, i) && forall|j: int|
                0 <= j < i ==> !#[trigger] stands_at(s, part, j),
            None => forall|j: int| !#[trigger] stands_at(s, part, j),
        }),
    decreases s.len(),
{
    if starts_with(s, part) {
        assert(s.subrange(0, part.len() as int) =~= s.take(part.len() as int));
    } else {
        assert(!stands_at(s, part, 0)) by {
            if part.len() <= s.len() {
                assert(s.subrange(0, part.len() as int) =~= s.take(part.len() as int));
            }
        }
        if s.len() > 0 {
            let rest = s.drop_first();
            lemma_index_of_text(rest, part);
            assert forall|j: int| 0 < j implies #[trigger] stands_at(s, part, j) == stands_at(
                rest,
                part,
                j - 1,
            ) by {
                if j + part.len() <= s.len() {
                    assert(s.subrange(j, j + part.len()) =~= rest.subrange(
                        j - 1,
                        j - 1 + part.len(),
                    ));
                }
            }
            if let Some(i) = index_of_text(rest, part) {
                assert(stands_at(s, part, i + 1));
            } else {
                assert forall|j: int| !#[trigger] stands_at(s, part, j) by {
                    if j > 0 {
                        assert(!stands_at(rest, part, j - 1));
                    }
                }
            }
        }
    }
}

/// All characters of a text are white space.
pub open spec fn is_blank(s: Seq<char>) -> bool {
    forall|i: int| 0 <= i < s.len() ==> white_space(#[trigger] s[i])
}

/// The white space of ASCII is the space and the five characters from the tabulator on.
pub proof fn lemma_ascii_white_space(c: char)
    requires
        (c as u32) < 128,
    ensures
        white_space(c) <==> c == ' ' || c == '\t' || c == '\n' || c == '\u{b}' || c == '\u{c}' || c
            == '\r',
{
}

/// Trimming takes white space from both ends, and leaves none there.
pub proof fn lemma_trimmed(s: Seq<char>)
    ensures
        exists|before: Seq<char>, behind: Seq<char>|
            s == #[trigger] (before + trimmed(s) + behind) && is_blank(before) && is_blank(behind),
        trimmed(s).len() > 0 ==> !white_space(trimmed(s)[0]) && !white_space(trimmed(s).last()),
{
    let front = lemma_trimmed_start(s);
    let middle = trimmed_start(s);
    let back = lemma_trimmed_end(middle);
    assert(s =~= front + trimmed(s) + back);
    if trimmed(s).len() > 0 {
        assert(middle[0] == trimmed(s)[0]);
    }
}

proof fn lemma_trimmed_start(s: Seq<char>) -> (before: Seq<char>)
    ensures
        s == before + trimmed_start(s),
        is_blank(before),
        trimmed_start(s).len() > 0 ==> !white_space(trimmed_start(s)[0]),
    decreases s.len(),
{
    if s.len() > 0 && white_space(s[0]) {
        let rest = lemma_trimmed_start(s.drop_first());
        let before = seq![s[0]] + rest;
        assert(s =~= seq![s[0]] + s.drop_first());
        assert(s =~= before + trimmed_start(s.drop_first()));
        before
    } else {
        assert(s =~= Seq::<char>::empty() + s);
        Seq::empty()
    }
}

proof fn lemma_trimmed_end(s: Seq<char>) -> (behind: Seq<char>)
    ensures
        s == trimmed_end(s) + behind,
        is_blank(behind),
        trimmed_end(s).len() > 0 ==> !white_space(trimmed_end(s).last()),
    decreases s.len(),
{
    if s.len() > 0 && white_space(s.last()) {
        let rest = lemma_trimmed_end(s.drop_last());
        let behind = rest.push(s.last());
        assert(s =~= s.drop_last().push(s.last()));
        assert(s =~= trimmed_end(s.drop_last()) + behind);
        behind
    } else {
        assert(s =~= s + Seq::<char>::empty());
        Seq::empty()
    }
}

/// A word that stands behind white space and before white space, or at the end, is the first word;
/// the other words are those of what follows it.
pub proof fn lemma_words_first(blank: Seq<char>, word: Seq<char>, rest: Seq<char>)
    requires
        is_blank(blank),
        word.len() > 0,
        forall|i: int| 0 <= i < word.len() ==> !white_space(#[trigger] word[i]),
        rest.len() > 0 ==> white_space(rest[0]),
    ensures
        words_of(blank + word + rest) == seq![word] + words_of(rest),
    decreases blank.len(),
{
    let s = blank + word + rest;
    if blank.len() > 0 {
        assert(s.drop_first() =~= blank.drop_first() + word + rest);
        assert forall|i: int| 0 <= i < blank.drop_first().len() implies white_space(
            #[trigger] blank.drop_first()[i],
        ) by {
            assert(white_space(blank[i + 1]));
        }
        lemma_words_first(blank.drop_first(), word, rest);
        assert(white_space(s[0])) by {
            assert(white_space(blank[0]));
        }
    } else {
        let n = word.len() as int;
        assert(s =~= word + rest);
        assert forall|j: int| 0 <= j < n implies !white_space(s[j]) by {
            assert(s[j] == word[j]);
        }
        lemma_word_len_unique(s, n);
        assert(s.take(n) =~= word);
        assert(s.skip(n) =~= rest);
        assert(!white_space(s[0]));
    }
}

/// White space holds no word.
pub proof fn lemma_blank_holds_no_word(s: Seq<char>)
    requires
        is_blank(s),
    ensures
        words_of(s).len() == 0,
    decreases s.len(),
{
    if s.len() > 0 {
        assert(white_space(s[0]));
        let rest = s.drop_first();
        assert forall|i: int| 0 <= i < rest.len() implies white_space(#[trigger] rest[i]) by {
            assert(white_space(s[i + 1]));
        }
        lemma_blank_holds_no_word(rest);
    }
}

/// A last line needs no line break; where there is nothing, there is no line.
pub proof fn lemma_lines_last(line: Seq<char>)
    requires
        forall|i: int| 0 <= i < line.len() ==> line[i] != '\n',
    ensures
        line.len() > 0 ==> lines_of(line) == seq![line],
        line.len() == 0 ==> lines_of(line).len() == 0,
{
    lemma_index_of_char_unique(line, '\n', line.len() as int);
}

/// Texts are joined with the separator between them, and none before the first or behind the last.
pub proof fn lemma_joined(a: Seq<Seq<char>>, b: Seq<Seq<char>>, separator: Seq<char>)
    ensures
        joined(Seq::empty(), separator).len() == 0,
        a.len() == 1 ==> joined(a, separator) == a[0],
        a.len() > 0 && b.len() > 0 ==> joined(a + b, separator) == joined(a, separator) + separator
            + joined(b, separator),
    decreases b.len(),
{
    if a.len() > 0 && b.len() > 0 {
        let all = a + b;
        assert(all.drop_last() =~= a + b.drop_last());
        assert(all.last() == b.last());
        if b.len() == 1 {
            assert(a + b.drop_last() =~= a);
            assert(joined(b, separator) == b[0]);
        } else {
            lemma_joined(a, b.drop_last(), separator);
            assert(joined(all, separator) =~= joined(a, separator) + separator + joined(
                b,
                separator,
            ));
        }
    }
}

/// The first occurrence of a part is replaced, and what follows it is treated in the same way. A
/// text that does not hold the part stays as it is.
pub proof fn lemma_replaced_first(
    before: Seq<char>,
    from: Seq<char>,
    to: Seq<char>,
    rest: Seq<char>,
)
    requires
        from.len() > 0,
        forall|i: int| 0 <= i < before.len() ==> !#[trigger] stands_at(before + from + rest, from, i),
    ensures
        replaced(before + from + rest, from, to) == before + to + replaced(rest, from, to),
    decreases before.len(),
{
    let s = before + from + rest;
    if before.len() == 0 {
        assert(s.take(from.len() as int) =~= from);
        assert(s.skip(from.len() as int) =~= rest);
        assert(before + to =~= to);
    } else {
        assert(!stands_at(s, from, 0));
        assert(s.subrange(0, from.len() as int) =~= s.take(from.len() as int));
        let tail = before.drop_first() + from + rest;
        assert(s.drop_first() =~= tail);
        assert forall|i: int| 0 <= i < before.drop_first().len() implies !#[trigger] stands_at(
            tail,
            from,
            i,
        ) by {
            assert(!stands_at(s, from, i + 1));
            if i + from.len() <= tail.len() {
                assert(s.subrange(i + 1, i + 1 + from.len()) =~= tail.subrange(
                    i,
                    i + from.len(),
                ));
            }
        }
        lemma_replaced_first(before.drop_first(), from, to, rest);
        assert(replaced(s, from, to) =~= before + to + replaced(rest, from, to));
    }
}

/// A text that does not hold the part that is to be replaced stays as it is.
pub proof fn lemma_replaced_nowhere(s: Seq<char>, from: Seq<char>, to: Seq<char>)
    requires
        forall|i: int| !#[trigger] stands_at(s, from, i),
    ensures
        replaced(s, from, to) == s,
    decreases s.len(),
{
    if s.len() > 0 {
        assert(!stands_at(s, from, 0));
        if from.len() <= s.len() {
            assert(s.subrange(0, from.len() as int) =~= s.take(from.len() as int));
        }
        let tail = s.drop_first();
        assert forall|i: int| !#[trigger] stands_at(tail, from, i) by {
            assert(!stands_at(s, from, i + 1));
            if 0 <= i && i + from.len() <= tail.len() {
                assert(s.subrange(i + 1, i + 1 + from.len()) =~= tail.subrange(
                    i,
                    i + from.len(),
                ));
            }
        }
        lemma_replaced_nowhere(tail, from, to);
        assert(replaced(s, from, to) =~= s);
    }
}

/// A number is written without leading zeros, and padding puts zeros before it up to the width and
/// changes nothing else.
pub proof fn lemma_decimal_padded(n: nat, width: nat)
    ensures
        n > 0 ==> decimal(n)[0] != '0',
        n == 0 ==> decimal(n) == seq!['0'],
        ({
            let padded = decimal_padded(n, width);
            let more = padded.len() - decimal(n).len();
            &&& padded.len() == if decimal(n).len() > width {
                decimal(n).len()
            } else {
                width
            }
            &&& forall|i: int| 0 <= i < more ==> #[trigger] padded[i] == '0'
            &&& padded.skip(more) == decimal(n)
        }),
{
    lemma_decimal_leading(n);
    let padded = decimal_padded(n, width);
    let more = padded.len() - decimal(n).len();
    assert(padded.skip(more) =~= decimal(n));
}

proof fn lemma_decimal_leading(n: nat)
    ensures
        decimal(n).len() > 0,
        n > 0 ==> decimal(n)[0] != '0',
    decreases n,
{
    if n >= 10 {
        lemma_decimal_leading(n / 10);
    }
}

/// What the digits of a number stand for, in either case.
pub proof fn lemma_digit_values(c: char, base: nat, d: int)
    requires
        base <= 16,
        0 <= d < 16,
    ensures
        c == "0123456789abcdef"@[d] || c == "0123456789ABCDEF"@[d] ==> digit_value(c, base) == if d
            < base {
            Some(d as nat)
        } else {
            None
        },
        !"0123456789abcdef"@.contains(c) && !"0123456789ABCDEF"@.contains(c) ==> digit_value(
            c,
            base,
        ) is None,
{
    reveal_strlit("0123456789abcdef");
    reveal_strlit("0123456789ABCDEF");
    let small = "0123456789abcdef"@;
    let capital = "0123456789ABCDEF"@;
    if '0' <= c <= '9' {
        assert(small[c as u32 - 48] == c);
    } else if 'a' <= c <= 'f' {
        assert(small[c as u32 - 87] == c);
    } else if 'A' <= c <= 'F' {
        assert(capital[c as u32 - 55] == c);
    }
}

/// Digits count by their place: those before `b` count `base` times for each digit of `b`.
pub proof fn lemma_digits_by_place(a: Seq<char>, b: Seq<char>, base: nat)
    requires
        base > 0,
    ensures
        digits_value(a, base) is Some && digits_value(b, base) is Some ==> digits_value(
            a + b,
            base,
        ) == Some(
            (digits_value(a, base)->0 * vstd::arithmetic::power::pow(base as int, b.len())
                + digits_value(b, base)->0) as nat,
        ),
        digits_value(a + b, base) is Some <==> digits_value(a, base) is Some && digits_value(
            b,
            base,
        ) is Some,
        b.len() == 1 ==> digits_value(b, base) == digit_value(b[0], base),
    decreases b.len(),
{
    if b.len() == 0 {
        assert(a + b =~= a);
        vstd::arithmetic::power::lemma_pow0(base as int);
    } else {
        let front = b.drop_last();
        let last = b.last();
        lemma_digits_by_place(a, front, base);
        assert((a + b).drop_last() =~= a + front);
        assert((a + b).last() == last);
        reveal(vstd::arithmetic::power::pow);
        if digits_value(a, base) is Some && digits_value(b, base) is Some {
            let x = digits_value(a, base)->0 as int;
            let y = digits_value(front, base)->0 as int;
            let p = vstd::arithmetic::power::pow(base as int, front.len());
            let k = base as int;
            assert((x * p + y) * k == x * (k * p) + y * k) by (nonlinear_arith);
            assert(vstd::arithmetic::power::pow(k, b.len()) == k * p);
            vstd::arithmetic::power::lemma_pow_positive(k, front.len());
            assert(x * p >= 0) by (nonlinear_arith)
                requires
                    x >= 0,
                    p > 0,
            ;
        }
        if b.len() == 1 {
            assert(front.len() == 0);
            assert(digits_value(front, base) == Some(0nat));
            assert(0 * base == 0) by (nonlinear_arith);
        }
    }
}

/// A number is read where there are digits, all of the base, behind at most one plus sign, and where
/// what they stand for is not too large.
pub proof fn lemma_number_value(s: Seq<char>, base: nat, max: nat)
    ensures
        ({
            let digits = if s.len() > 1 && s[0] == '+' {
                s.skip(1)
            } else {
                s
            };
            &&& number_value(s, base, max) is Some <==> digits.len() > 0 && digits_value(
                digits,
                base,
            ) is Some && digits_value(digits, base)->0 <= max
            &&& number_value(s, base, max) is Some ==> number_value(s, base, max) == digits_value(
                digits,
                base,
            )
        }),
{
    assert(s.len() > 0 ==> s.skip(1) =~= s.drop_first());
}

/// A line ends before its line break, and before a carriage return that stands right before it.
pub proof fn lemma_line_ends(line: Seq<char>, rest: Seq<char>)
    requires
        forall|i: int| 0 <= i < line.len() ==> line[i] != '\n',
    ensures
        lines_of(line + seq!['\r', '\n'] + rest) == seq![line] + lines_of(rest),
        line.len() == 0 || line.last() != '\r' ==> lines_of(line + seq!['\n'] + rest) == seq![line]
            + lines_of(rest),
{
    let longer = line.push('\r');
    assert(longer.drop_last() =~= line);
    lemma_lines_first(longer, rest);
    assert(longer + seq!['\n'] + rest =~= line + seq!['\r', '\n'] + rest);
    lemma_lines_first(line, rest);
}

} // verus!
