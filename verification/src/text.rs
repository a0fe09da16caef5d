//! Character and string primitives shared by the screenplay modules.
//!
//! Text is handled as sequences of `char`; the Unicode character properties and
//! the case mappings come from the standard library and are named below.

use vstd::prelude::*;

verus! {

broadcast use vstd::string::group_string_axioms;

/// Whether a character has the Unicode `White_Space` property (`char::is_whitespace`): tab,
/// line feed, vertical tab, form feed, carriage return, space, U+0085, no-break space,
/// U+1680, U+2000 to U+200A, the line and paragraph separators, U+202F, U+205F and U+3000.
pub open spec fn is_white_space(c: char) -> bool {
    ||| '\u{9}' <= c <= '\u{d}'
    ||| c == ' '
    ||| c == '\u{85}'
    ||| c == '\u{a0}'
    ||| c == '\u{1680}'
    ||| '\u{2000}' <= c <= '\u{200a}'
    ||| c == '\u{2028}'
    ||| c == '\u{2029}'
    ||| c == '\u{202f}'
    ||| c == '\u{205f}'
    ||| c == '\u{3000}'
}

/// ASCII letter (`char::is_ascii_alphabetic`).
pub open spec fn is_ascii_letter(c: char) -> bool {
    ('A' <= c && c <= 'Z') || ('a' <= c && c <= 'z')
}

/// Whether a character beyond ASCII has the Unicode `Alphabetic` property.
pub uninterp spec fn alphabetic_beyond_ascii(c: char) -> bool;

/// Whether a character beyond ASCII has the Unicode `Uppercase` property.
pub uninterp spec fn uppercase_beyond_ascii(c: char) -> bool;

/// Whether a character beyond ASCII is alphabetic or numeric.
pub uninterp spec fn alphanumeric_beyond_ascii(c: char) -> bool;

/// `char::is_alphabetic`: among ASCII characters exactly the letters.
pub open spec fn is_alphabetic_char(c: char) -> bool {
    if c <= '\u{7f}' {
        is_ascii_letter(c)
    } else {
        alphabetic_beyond_ascii(c)
    }
}

/// `char::is_uppercase`: among ASCII characters exactly `A` to `Z`.
pub open spec fn is_uppercase_char(c: char) -> bool {
    if c <= '\u{7f}' {
        'A' <= c && c <= 'Z'
    } else {
        uppercase_beyond_ascii(c)
    }
}

/// `char::is_alphanumeric`: among ASCII characters exactly the letters and digits.
pub open spec fn is_alphanumeric_char(c: char) -> bool {
    if c <= '\u{7f}' {
        is_ascii_alnum(c)
    } else {
        alphanumeric_beyond_ascii(c)
    }
}

/// The full Unicode uppercase mapping of a character beyond ASCII that is not white space.
pub uninterp spec fn upper_beyond_ascii(c: char) -> Seq<char>;

/// The ASCII uppercase of `c`: `a`–`z` to `A`–`Z`, any other character kept.
pub open spec fn ascii_upper_of(c: char) -> char {
    if 'a' <= c && c <= 'z' {
        ((c as u32) - 32) as char
    } else {
        c
    }
}

/// The ASCII lowercase of `c`: `A`–`Z` to `a`–`z`, any other character kept.
pub open spec fn ascii_lower_of(c: char) -> char {
    if 'A' <= c && c <= 'Z' {
        ((c as u32) + 32) as char
    } else {
        c
    }
}

/// The uppercase of one character (`char::to_uppercase`): its ASCII uppercase for an ASCII
/// character, the character itself for white space (which has no case), else its Unicode
/// uppercase mapping.
pub open spec fn upper_char(c: char) -> Seq<char> {
    if c <= '\u{7f}' {
        seq![ascii_upper_of(c)]
    } else if is_white_space(c) {
        seq![c]
    } else {
        upper_beyond_ascii(c)
    }
}

/// The uppercase of a string (`str::to_uppercase`): the uppercase of each character in turn.
pub open spec fn uppercase_of(s: Seq<char>) -> Seq<char>
    decreases s.len(),
{
    if s.len() == 0 {
        Seq::empty()
    } else {
        uppercase_of(s.drop_last()) + upper_char(s.last())
    }
}

/// Every character of `s` is ASCII.
pub open spec fn all_ascii(s: Seq<char>) -> bool {
    forall|i: int| 0 <= i < s.len() ==> #[trigger] s[i] <= '\u{7f}'
}

/// The full Unicode lowercase mapping of a string (`str::to_lowercase`).
pub uninterp spec fn lowercase_of(s: Seq<char>) -> Seq<char>;

/// Whether `c` has the `White_Space` property, as [`is_white_space`] lists it.
pub(crate) fn char_is_whitespace(c: char) -> (r: bool)
    ensures
        r == is_white_space(c),
{
    ('\u{9}' <= c && c <= '\u{d}') || c == ' ' || c == '\u{85}' || c == '\u{a0}' || c
        == '\u{1680}' || ('\u{2000}' <= c && c <= '\u{200a}') || c == '\u{2028}' || c
        == '\u{2029}' || c == '\u{202f}' || c == '\u{205f}' || c == '\u{3000}'
}

/// Calls `char::is_alphabetic`: among ASCII characters true exactly of the letters; beyond
/// ASCII the `Alphabetic` property, named [`alphabetic_beyond_ascii`].
#[verifier::external_body]
pub(crate) fn char_is_alphabetic(c: char) -> (r: bool)
    ensures
        c <= '\u{7f}' ==> (r <==> is_ascii_letter(c)),
        c > '\u{7f}' ==> r == alphabetic_beyond_ascii(c),
{
    c.is_alphabetic()
}

/// Calls `char::is_uppercase`: among ASCII characters true exactly of `A` to `Z`; beyond
/// ASCII the `Uppercase` property, named [`uppercase_beyond_ascii`].
#[verifier::external_body]
pub(crate) fn char_is_uppercase(c: char) -> (r: bool)
    ensures
        c <= '\u{7f}' ==> (r <==> ('A' <= c && c <= 'Z')),
        c > '\u{7f}' ==> r == uppercase_beyond_ascii(c),
{
    c.is_uppercase()
}

/// Calls `char::is_alphanumeric`: among ASCII characters true exactly of the letters and
/// digits; beyond ASCII whether `c` is alphabetic or numeric, named
/// [`alphanumeric_beyond_ascii`].
#[verifier::external_body]
pub(crate) fn char_is_alphanumeric(c: char) -> (r: bool)
    ensures
        c <= '\u{7f}' ==> (r <==> is_ascii_alnum(c)),
        c > '\u{7f}' ==> r == alphanumeric_beyond_ascii(c),
{
    c.is_alphanumeric()
}

/// Calls `str::to_uppercase` on the string made of `s`, which maps each character by
/// `char::to_uppercase` in turn: see [`uppercase_of`].
#[verifier::external_body]
pub(crate) fn to_uppercase(s: &[char]) -> (r: Vec<char>)
    ensures
        r@ == uppercase_of(s@),
        s@.len() == 1 && s@[0] > '\u{7f}' && !is_white_space(s@[0]) ==> r@ == upper_beyond_ascii(
            s@[0],
        ),
{
    let t: String = s.iter().collect();
    t.to_uppercase().chars().collect()
}

/// Calls `str::to_lowercase` on the string made of `s`: the result is named
/// [`lowercase_of`]; on ASCII text it maps `A`–`Z` to `a`–`z` and keeps every other character.
#[verifier::external_body]
pub(crate) fn to_lowercase(s: &[char]) -> (r: Vec<char>)
    ensures
        r@ == lowercase_of(s@),
        all_ascii(s@) ==> r@ == s@.map_values(|c: char| ascii_lower_of(c)),
{
    let t: String = s.iter().collect();
    t.to_lowercase().chars().collect()
}

/// Builds a `String` from its characters (`FromIterator<&char> for String`).
#[verifier::external_body]
pub(crate) fn string_from(s: &[char]) -> (r: String)
    ensures
        r@ == s@,
{
    s.iter().collect()
}


/// ASCII decimal digit (`char::is_ascii_digit`).
pub open spec fn is_digit(c: char) -> bool {
    '0' <= c && c <= '9'
}

/// ASCII uppercase letter (`char::is_ascii_uppercase`).
pub open spec fn is_ascii_upper(c: char) -> bool {
    'A' <= c && c <= 'Z'
}

/// ASCII letter or digit (`char::is_ascii_alphanumeric`).
pub open spec fn is_ascii_alnum(c: char) -> bool {
    is_digit(c) || is_ascii_upper(c) || ('a' <= c && c <= 'z')
}

pub fn ascii_digit(c: char) -> (r: bool)
    ensures
        r == is_digit(c),
{
    '0' <= c && c <= '9'
}

pub fn ascii_upper(c: char) -> (r: bool)
    ensures
        r == is_ascii_upper(c),
{
    'A' <= c && c <= 'Z'
}

pub fn ascii_alnum(c: char) -> (r: bool)
    ensures
        r == is_ascii_alnum(c),
{
    ('0' <= c && c <= '9') || ('A' <= c && c <= 'Z') || ('a' <= c && c <= 'z')
}

/// The sets of characters that the screenplay rules strip from the ends of a text.
#[derive(Clone, Copy, PartialEq, Eq, Debug)]
pub enum CharClass {
    /// White space.
    Space,
    /// White space or `.`.
    SpaceDot,
    /// `#` or `.`.
    HashDot,
    /// White space, `#` or `.`.
    SpaceHashDot,
    /// ASCII digits, white space, `.` or `#`.
    DigitSpaceDotHash,
    /// `(` or `)`.
    Parens,
    /// `(`, `)` or white space.
    ParensSpace,
    /// `:` or a space character.
    ColonBlank,
    /// `<` or `>`.
    Angles,
    /// `[` or `]`.
    Brackets,
}

pub open spec fn in_class(c: char, k: CharClass) -> bool {
    match k {
        CharClass::Space => is_white_space(c),
        CharClass::SpaceDot => is_white_space(c) || c == '.',
        CharClass::HashDot => c == '#' || c == '.',
        CharClass::SpaceHashDot => is_white_space(c) || c == '#' || c == '.',
        CharClass::DigitSpaceDotHash => is_digit(c) || is_white_space(c) || c == '.' || c == '#',
        CharClass::Parens => c == '(' || c == ')',
        CharClass::ParensSpace => c == '(' || c == ')' || is_white_space(c),
        CharClass::ColonBlank => c == ':' || c == ' ',
        CharClass::Angles => c == '<' || c == '>',
        CharClass::Brackets => c == '[' || c == ']',
    }
}

pub fn char_in_class(c: char, k: CharClass) -> (r: bool)
    ensures
        r == in_class(c, k),
{
    match k {
        CharClass::Space => char_is_whitespace(c),
        CharClass::SpaceDot => char_is_whitespace(c) || c == '.',
        CharClass::HashDot => c == '#' || c == '.',
        CharClass::SpaceHashDot => char_is_whitespace(c) || c == '#' || c == '.',
        CharClass::DigitSpaceDotHash => ascii_digit(c) || char_is_whitespace(c) || c == '.' || c
            == '#',
        CharClass::Parens => c == '(' || c == ')',
        CharClass::ParensSpace => c == '(' || c == ')' || char_is_whitespace(c),
        CharClass::ColonBlank => c == ':' || c == ' ',
        CharClass::Angles => c == '<' || c == '>',
        CharClass::Brackets => c == '[' || c == ']',
    }
}

/// Index of the first character at or after `i` that is not in the class.
pub open spec fn lead_from(s: Seq<char>, k: CharClass, i: int) -> int
    decreases s.len() - i,
{
    if i < 0 || i >= s.len() {
        s.len() as int
    } else if in_class(s[i], k) {
        lead_from(s, k, i + 1)
    } else {
        i
    }
}

/// One past the last character before `e` that is not in the class.
pub open spec fn tail_from(s: Seq<char>, k: CharClass, e: int) -> int
    decreases e,
{
    if e <= 0 || e > s.len() {
        0
    } else if in_class(s[e - 1], k) {
        tail_from(s, k, e - 1)
    } else {
        e
    }
}

/// `s` without its leading characters of the class (`str::trim_start_matches`).
pub open spec fn trim_start(s: Seq<char>, k: CharClass) -> Seq<char> {
    s.skip(lead_from(s, k, 0))
}

/// `s` without its trailing characters of the class (`str::trim_end_matches`).
pub open spec fn trim_end(s: Seq<char>, k: CharClass) -> Seq<char> {
    s.take(tail_from(s, k, s.len() as int))
}

/// `s` without its leading and trailing characters of the class (`str::trim_matches`).
pub open spec fn trim(s: Seq<char>, k: CharClass) -> Seq<char> {
    trim_end(trim_start(s, k), k)
}

/// `s` without leading and trailing white space (`str::trim`).
pub open spec fn trim_ws(s: Seq<char>) -> Seq<char> {
    trim(s, CharClass::Space)
}

pub proof fn lemma_lead_from_bounds(s: Seq<char>, k: CharClass, i: int)
    requires
        0 <= i <= s.len(),
    ensures
        i <= lead_from(s, k, i) <= s.len(),
        forall|j: int| i <= j < lead_from(s, k, i) ==> in_class(#[trigger] s[j], k),
        lead_from(s, k, i) < s.len() ==> !in_class(s[lead_from(s, k, i)], k),
    decreases s.len() - i,
{
    if i < s.len() && in_class(s[i], k) {
        lemma_lead_from_bounds(s, k, i + 1);
    }
}

pub proof fn lemma_tail_from_bounds(s: Seq<char>, k: CharClass, e: int)
    requires
        0 <= e <= s.len(),
    ensures
        0 <= tail_from(s, k, e) <= e,
        forall|j: int| tail_from(s, k, e) <= j < e ==> in_class(#[trigger] s[j], k),
        tail_from(s, k, e) > 0 ==> !in_class(s[tail_from(s, k, e) - 1], k),
    decreases e,
{
    if e > 0 && in_class(s[e - 1], k) {
        lemma_tail_from_bounds(s, k, e - 1);
    }
}

/// Number of leading characters of `s` in the class.
pub fn lead_len(s: &[char], k: CharClass) -> (n: usize)
    ensures
        n == lead_from(s@, k, 0),
{
    let mut i: usize = 0;
    while i < s.len() && char_in_class(s[i], k)
        invariant
            0 <= i <= s.len(),
            lead_from(s@, k, i as int) == lead_from(s@, k, 0),
        decreases s.len() - i,
    {
        i = i + 1;
    }
    i
}

/// Length of `s` once its trailing characters of the class are removed.
pub fn tail_len(s: &[char], k: CharClass) -> (n: usize)
    ensures
        n == tail_from(s@, k, s@.len() as int),
{
    let mut e: usize = s.len();
    while e > 0 && char_in_class(s[e - 1], k)
        invariant
            0 <= e <= s.len(),
            tail_from(s@, k, e as int) == tail_from(s@, k, s@.len() as int),
        decreases e,
    {
        e = e - 1;
    }
    e
}

/// The characters `s[from..to]` as a new vector.
pub fn slice_to_vec(s: &[char], from: usize, to: usize) -> (r: Vec<char>)
    requires
        from <= to <= s.len(),
    ensures
        r@ == s@.subrange(from as int, to as int),
{
    let mut r: Vec<char> = Vec::new();
    let mut i = from;
    while i < to
        invariant
            from <= i <= to <= s.len(),
            r@ == s@.subrange(from as int, i as int),
        decreases to - i,
    {
        r.push(s[i]);
        i = i + 1;
        assert(r@ =~= s@.subrange(from as int, i as int));
    }
    r
}

pub fn trim_start_class(s: &[char], k: CharClass) -> (r: Vec<char>)
    ensures
        r@ == trim_start(s@, k),
{
    let a = lead_len(s, k);
    proof {
        lemma_lead_from_bounds(s@, k, 0);
    }
    slice_to_vec(s, a, s.len())
}

pub fn trim_end_class(s: &[char], k: CharClass) -> (r: Vec<char>)
    ensures
        r@ == trim_end(s@, k),
{
    let e = tail_len(s, k);
    proof {
        lemma_tail_from_bounds(s@, k, s@.len() as int);
    }
    slice_to_vec(s, 0, e)
}

pub fn trim_class(s: &[char], k: CharClass) -> (r: Vec<char>)
    ensures
        r@ == trim(s@, k),
{
    let t = trim_start_class(s, k);
    trim_end_class(&t, k)
}

pub fn trim_spaces(s: &[char]) -> (r: Vec<char>)
    ensures
        r@ == trim_ws(s@),
{
    trim_class(s, CharClass::Space)
}

/// `s` begins with `p` (`str::starts_with`).
pub open spec fn has_prefix(s: Seq<char>, p: Seq<char>) -> bool {
    p.len() <= s.len() && s.take(p.len() as int) == p
}

/// `s` ends with `p` (`str::ends_with`).
pub open spec fn has_suffix(s: Seq<char>, p: Seq<char>) -> bool {
    p.len() <= s.len() && s.skip(s.len() - p.len()) == p
}

/// `p` occurs in `s` at position `i`.
pub open spec fn occurs_at(s: Seq<char>, p: Seq<char>, i: int) -> bool {
    0 <= i && i + p.len() <= s.len() && s.subrange(i, i + p.len()) == p
}

/// `p` occurs somewhere in `s` (`str::contains`).
pub open spec fn has_infix(s: Seq<char>, p: Seq<char>) -> bool {
    exists|i: int| occurs_at(s, p, i)
}

/// Whether `p` occurs in `s` at position `i`.
pub fn matches_at(s: &[char], p: &[char], i: usize) -> (r: bool)
    ensures
        r == occurs_at(s@, p@, i as int),
{
    if i > s.len() || p.len() > s.len() - i {
        return false;
    }
    let mut j: usize = 0;
    while j < p.len()
        invariant
            i + p.len() <= s.len(),
            0 <= j <= p.len(),
            forall|m: int| 0 <= m < j ==> s@[i + m] == p@[m],
        decreases p.len() - j,
    {
        if s[i + j] != p[j] {
            assert(s@.subrange(i as int, i + p.len())[j as int] != p@[j as int]);
            return false;
        }
        j = j + 1;
    }
    assert(s@.subrange(i as int, i + p.len()) =~= p@);
    true
}

pub fn starts_with(s: &[char], p: &[char]) -> (r: bool)
    ensures
        r == has_prefix(s@, p@),
{
    let r = matches_at(s, p, 0);
    assert(s@.subrange(0, p@.len() as int) =~= s@.take(p@.len() as int));
    r
}

pub fn ends_with(s: &[char], p: &[char]) -> (r: bool)
    ensures
        r == has_suffix(s@, p@),
{
    if p.len() > s.len() {
        return false;
    }
    let r = matches_at(s, p, s.len() - p.len());
    assert(s@.subrange(s@.len() - p@.len(), s@.len() as int) =~= s@.skip(s@.len() - p@.len()));
    r
}

pub fn contains(s: &[char], p: &[char]) -> (r: bool)
    ensures
        r == has_infix(s@, p@),
{
    if p.len() > s.len() {
        return false;
    }
    let last = s.len() - p.len();
    let mut i: usize = 0;
    loop
        invariant
            p.len() <= s.len(),
            last == s.len() - p.len(),
            0 <= i <= last,
            forall|m: int| 0 <= m < i ==> !occurs_at(s@, p@, m),
        ensures
            forall|m: int| 0 <= m <= last ==> !occurs_at(s@, p@, m),
        decreases last - i,
    {
        if matches_at(s, p, i) {
            return true;
        }
        if i == last {
            break;
        }
        i = i + 1;
    }
    false
}



/// Appends the characters of `s` to `out`.
pub fn push_all(out: &mut Vec<char>, s: &[char])
    ensures
        final(out)@ == old(out)@ + s@,
{
    let ghost start = out@;
    let mut i: usize = 0;
    while i < s.len()
        invariant
            0 <= i <= s.len(),
            out@ == start + s@.take(i as int),
        decreases s.len() - i,
    {
        out.push(s[i]);
        i = i + 1;
        assert(out@ =~= start + s@.take(i as int));
    }
    assert(s@.take(s@.len() as int) =~= s@);
}

/// Appends the characters of the string literal `lit` to `out`.
pub fn push_str(out: &mut Vec<char>, lit: &str)
    ensures
        final(out)@ == old(out)@ + lit@,
{
    let v = chars_of(lit);
    push_all(out, &v);
}


/// Number of UTF-8 bytes that encode `c` (`char::len_utf8`).
pub open spec fn char_utf8_len(c: char) -> nat {
    if (c as u32) < 0x80 {
        1
    } else if (c as u32) < 0x800 {
        2
    } else if (c as u32) < 0x10000 {
        3
    } else {
        4
    }
}

/// Number of UTF-8 bytes that encode `s` (`str::len`).
pub open spec fn utf8_len(s: Seq<char>) -> nat
    decreases s.len(),
{
    if s.len() == 0 {
        0
    } else {
        utf8_len(s.drop_last()) + char_utf8_len(s.last())
    }
}

/// Whether the UTF-8 encoding of `s` takes at most `cap` bytes.
pub fn utf8_len_at_most(s: &[char], cap: usize) -> (r: bool)
    ensures
        r == (utf8_len(s@) <= cap),
{
    let mut total: usize = 0;
    let mut i: usize = 0;
    while i < s.len()
        invariant
            0 <= i <= s.len(),
            total == utf8_len(s@.take(i as int)),
            total <= cap,
        decreases s.len() - i,
    {
        let c = s[i];
        let w: usize = if (c as u32) < 0x80 {
            1
        } else if (c as u32) < 0x800 {
            2
        } else if (c as u32) < 0x10000 {
            3
        } else {
            4
        };
        assert(s@.take(i + 1).drop_last() =~= s@.take(i as int));
        if w > cap - total {
            proof {
                lemma_utf8_len_prefix(s@, i + 1);
            }
            return false;
        }
        total = total + w;
        i = i + 1;
    }
    assert(s@.take(s@.len() as int) =~= s@);
    true
}

/// The encoding of a prefix is no longer than that of the whole text.
pub proof fn lemma_utf8_len_prefix(s: Seq<char>, n: int)
    requires
        0 <= n <= s.len(),
    ensures
        utf8_len(s.take(n)) <= utf8_len(s),
    decreases s.len() - n,
{
    if n < s.len() {
        lemma_utf8_len_prefix(s, n + 1);
        assert(s.take(n + 1).drop_last() =~= s.take(n));
    } else {
        assert(s.take(n) =~= s);
    }
}

/// Index of the first `c` at or after `i`, or the length of `s` when there is none.
pub open spec fn index_from(s: Seq<char>, c: char, i: int) -> int
    decreases s.len() - i,
{
    if i < 0 || i >= s.len() {
        s.len() as int
    } else if s[i] == c {
        i
    } else {
        index_from(s, c, i + 1)
    }
}

pub proof fn lemma_index_from(s: Seq<char>, c: char, i: int)
    requires
        0 <= i <= s.len(),
    ensures
        i <= index_from(s, c, i) <= s.len(),
        forall|j: int| i <= j < index_from(s, c, i) ==> #[trigger] s[j] != c,
        index_from(s, c, i) < s.len() ==> s[index_from(s, c, i)] == c,
    decreases s.len() - i,
{
    if i < s.len() && s[i] != c {
        lemma_index_from(s, c, i + 1);
    }
}

/// Position of the first `c` in `s[from..]`, or the length of `s` (`str::find` on a char).
pub fn find_char(s: &[char], c: char, from: usize) -> (r: usize)
    requires
        from <= s.len(),
    ensures
        r == index_from(s@, c, from as int),
{
    let mut i = from;
    while i < s.len() && s[i] != c
        invariant
            from <= i <= s.len(),
            index_from(s@, c, i as int) == index_from(s@, c, from as int),
        decreases s.len() - i,
    {
        i = i + 1;
    }
    i
}

/// `s` with every non-overlapping occurrence of `p` replaced by `r`, leftmost first
/// (`str::replace`, for a non-empty pattern).
pub open spec fn replace_all(s: Seq<char>, p: Seq<char>, r: Seq<char>) -> Seq<char>
    decreases s.len(),
{
    if p.len() == 0 || s.len() == 0 {
        s
    } else if occurs_at(s, p, 0) {
        r + replace_all(s.skip(p.len() as int), p, r)
    } else {
        seq![s[0]] + replace_all(s.drop_first(), p, r)
    }
}

pub fn replace(s: &[char], p: &[char], r: &[char]) -> (out: Vec<char>)
    requires
        p.len() > 0,
    ensures
        out@ == replace_all(s@, p@, r@),
{
    let mut out: Vec<char> = Vec::new();
    let mut i: usize = 0;
    assert(s@.skip(0) =~= s@);
    assert(out@ + replace_all(s@, p@, r@) =~= replace_all(s@, p@, r@));
    while i < s.len()
        invariant
            0 <= i <= s.len(),
            p@.len() > 0,
            out@ + replace_all(s@.skip(i as int), p@, r@) == replace_all(s@, p@, r@),
        decreases s.len() - i,
    {
        let ghost rest = s@.skip(i as int);
        if matches_at(s, p, i) {
            assert(occurs_at(rest, p@, 0)) by {
                assert(rest.subrange(0, p@.len() as int) =~= s@.subrange(i as int, i + p@.len()));
            }
            assert(rest.skip(p@.len() as int) =~= s@.skip(i + p@.len()));
            let ghost before = out@;
            push_all(&mut out, r);
            i = i + p.len();
            assert(before + replace_all(rest, p@, r@) =~= out@ + replace_all(s@.skip(i as int), p@, r@));
        } else {
            assert(!occurs_at(rest, p@, 0)) by {
                if occurs_at(rest, p@, 0) {
                    assert(rest.subrange(0, p@.len() as int) =~= s@.subrange(i as int, i + p@.len()));
                }
            }
            assert(rest.drop_first() =~= s@.skip(i + 1));
            let ghost before = out@;
            out.push(s[i]);
            i = i + 1;
            assert(before + replace_all(rest, p@, r@) =~= out@ + replace_all(s@.skip(i as int), p@, r@));
        }
    }
    assert(s@.skip(s@.len() as int) =~= Seq::<char>::empty());
    assert(out@ + Seq::<char>::empty() =~= out@);
    out
}


/// The pieces of `s` between white space, empty pieces left out (`str::split_whitespace`),
/// where `cur` is a piece already begun.
pub open spec fn words_from(s: Seq<char>, cur: Seq<char>) -> Seq<Seq<char>>
    decreases s.len(),
{
    if s.len() == 0 {
        if cur.len() > 0 {
            seq![cur]
        } else {
            Seq::empty()
        }
    } else if is_white_space(s[0]) {
        (if cur.len() > 0 {
            seq![cur]
        } else {
            Seq::<Seq<char>>::empty()
        }) + words_from(s.drop_first(), Seq::empty())
    } else {
        words_from(s.drop_first(), cur.push(s[0]))
    }
}

/// The white-space separated words of `s` (`str::split_whitespace`).
pub open spec fn words(s: Seq<char>) -> Seq<Seq<char>> {
    words_from(s, Seq::empty())
}

pub open spec fn views_of(v: Seq<Vec<char>>) -> Seq<Seq<char>> {
    v.map_values(|w: Vec<char>| w@)
}

pub fn split_whitespace(s: &[char]) -> (r: Vec<Vec<char>>)
    ensures
        views_of(r@) == words(s@),
{
    let mut r: Vec<Vec<char>> = Vec::new();
    let mut cur: Vec<char> = Vec::new();
    let mut i: usize = 0;
    assert(s@.skip(0) =~= s@);
    assert(views_of(r@) + words_from(s@, cur@) =~= words(s@));
    while i < s.len()
        invariant
            0 <= i <= s.len(),
            views_of(r@) + words_from(s@.skip(i as int), cur@) == words(s@),
        decreases s.len() - i,
    {
        let ghost rest = s@.skip(i as int);
        let ghost before = views_of(r@);
        assert(rest.drop_first() =~= s@.skip(i + 1));
        let ghost cur0 = cur@;
        if char_is_whitespace(s[i]) {
            if cur.len() > 0 {
                let w = cur;
                r.push(w);
                cur = Vec::new();
                assert(views_of(r@) =~= before + seq![cur0]);
            } else {
                cur = Vec::new();
                assert(before + Seq::<Seq<char>>::empty() =~= before);
            }
            i = i + 1;
            assert(before + words_from(rest, cur0) =~= views_of(r@) + words_from(
                s@.skip(i as int),
                cur@,
            ));
        } else {
            cur.push(s[i]);
            i = i + 1;
        }
    }
    assert(s@.skip(s@.len() as int) =~= Seq::<char>::empty());
    if cur.len() > 0 {
        let ghost before = views_of(r@);
        r.push(cur);
        assert(views_of(r@) =~= before + words_from(Seq::<char>::empty(), views_of(r@).last()));
    } else {
        assert(views_of(r@) + words_from(Seq::<char>::empty(), cur@) =~= views_of(r@));
    }
    r
}


/// The words joined with one space between each two (`[&str]::join(" ")`).
pub open spec fn join_spaced(ws: Seq<Seq<char>>) -> Seq<char>
    decreases ws.len(),
{
    if ws.len() == 0 {
        Seq::empty()
    } else if ws.len() == 1 {
        ws[0]
    } else {
        join_spaced(ws.drop_last()) + seq![' '] + ws.last()
    }
}

/// Joins `ws[from..to]` with single spaces.
pub fn join_range(ws: &Vec<Vec<char>>, from: usize, to: usize) -> (r: Vec<char>)
    requires
        from <= to <= ws.len(),
    ensures
        r@ == join_spaced(views_of(ws@).subrange(from as int, to as int)),
{
    let ghost v = views_of(ws@);
    let mut r: Vec<char> = Vec::new();
    let mut i = from;
    while i < to
        invariant
            from <= i <= to <= ws.len(),
            v == views_of(ws@),
            r@ == join_spaced(v.subrange(from as int, i as int)),
        decreases to - i,
    {
        if i > from {
            r.push(' ');
        }
        push_all(&mut r, &ws[i]);
        i = i + 1;
        assert(v.subrange(from as int, i as int).drop_last() =~= v.subrange(from as int, i - 1));
        if i - 1 == from {
            assert(r@ =~= join_spaced(v.subrange(from as int, i as int)));
        }
    }
    r
}

/// The pieces of `s` between occurrences of `sep`, empty pieces kept (`str::split`),
/// where `cur` is the piece already begun.
pub open spec fn split_from(s: Seq<char>, sep: char, cur: Seq<char>) -> Seq<Seq<char>>
    decreases s.len(),
{
    if s.len() == 0 {
        seq![cur]
    } else if s[0] == sep {
        seq![cur] + split_from(s.drop_first(), sep, Seq::empty())
    } else {
        split_from(s.drop_first(), sep, cur.push(s[0]))
    }
}

/// The pieces of `s` between occurrences of `sep` (`str::split`).
pub open spec fn split_on(s: Seq<char>, sep: char) -> Seq<Seq<char>> {
    split_from(s, sep, Seq::empty())
}

pub proof fn lemma_split_from_nonempty(s: Seq<char>, sep: char, cur: Seq<char>)
    ensures
        split_from(s, sep, cur).len() >= 1,
    decreases s.len(),
{
    if s.len() > 0 {
        if s[0] == sep {
            lemma_split_from_nonempty(s.drop_first(), sep, Seq::empty());
        } else {
            lemma_split_from_nonempty(s.drop_first(), sep, cur.push(s[0]));
        }
    }
}

pub fn split_char(s: &[char], sep: char) -> (r: Vec<Vec<char>>)
    ensures
        views_of(r@) == split_on(s@, sep),
{
    let mut r: Vec<Vec<char>> = Vec::new();
    let mut cur: Vec<char> = Vec::new();
    let mut i: usize = 0;
    assert(s@.skip(0) =~= s@);
    assert(views_of(r@) + split_from(s@, sep, cur@) =~= split_on(s@, sep));
    while i < s.len()
        invariant
            0 <= i <= s.len(),
            views_of(r@) + split_from(s@.skip(i as int), sep, cur@) == split_on(s@, sep),
        decreases s.len() - i,
    {
        let ghost rest = s@.skip(i as int);
        let ghost before = views_of(r@);
        let ghost cur0 = cur@;
        assert(rest.drop_first() =~= s@.skip(i + 1));
        if s[i] == sep {
            let w = cur;
            r.push(w);
            cur = Vec::new();
            i = i + 1;
            assert(views_of(r@) =~= before + seq![cur0]);
            assert(before + split_from(rest, sep, cur0) =~= views_of(r@) + split_from(
                s@.skip(i as int),
                sep,
                cur@,
            ));
        } else {
            cur.push(s[i]);
            i = i + 1;
        }
    }
    assert(s@.skip(s@.len() as int) =~= Seq::<char>::empty());
    let ghost before = views_of(r@);
    let ghost cur0 = cur@;
    r.push(cur);
    assert(views_of(r@) =~= before + seq![cur0]);
    r
}

/// `l` without one trailing carriage return.
pub open spec fn strip_cr(l: Seq<char>) -> Seq<char> {
    if l.len() > 0 && l.last() == '\r' {
        l.drop_last()
    } else {
        l
    }
}

/// The lines of `s` (`str::lines`): the pieces between newlines, each piece that a newline
/// ends without one carriage return before it, and the piece after the last newline only
/// when it is not empty.
pub open spec fn lines_of(s: Seq<char>) -> Seq<Seq<char>> {
    let p = split_on(s, '\n');
    let ended = p.drop_last().map_values(|l: Seq<char>| strip_cr(l));
    if p.len() > 0 && p.last().len() == 0 {
        ended
    } else {
        ended.push(p.last())
    }
}

pub fn lines(s: &[char]) -> (r: Vec<Vec<char>>)
    ensures
        views_of(r@) == lines_of(s@),
{
    let pieces = split_char(s, '\n');
    let ghost pv = views_of(pieces@);
    proof {
        lemma_split_from_nonempty(s@, '\n', Seq::empty());
    }
    let n = pieces.len();
    let mut r: Vec<Vec<char>> = Vec::new();
    let mut i: usize = 0;
    while i + 1 < n
        invariant
            n == pieces.len(),
            n >= 1,
            pv == views_of(pieces@),
            0 <= i < n,
            views_of(r@) == pv.take(i as int).map_values(|l: Seq<char>| strip_cr(l)),
        decreases n - i,
    {
        let mut l = slice_to_vec(&pieces[i], 0, pieces[i].len());
        assert(l@ =~= pv[i as int]);
        if l.len() > 0 && l[l.len() - 1] == '\r' {
            let _ = l.pop();
        }
        let ghost before = views_of(r@);
        let ghost lv = l@;
        r.push(l);
        assert(views_of(r@) =~= before.push(lv));
        assert(pv.take(i + 1).map_values(|l: Seq<char>| strip_cr(l)) =~= pv.take(i as int).map_values(
            |l: Seq<char>| strip_cr(l),
        ).push(strip_cr(pv[i as int])));
        i = i + 1;
    }
    assert(pv.take(i as int) =~= pv.drop_last());
    let last = &pieces[n - 1];
    if last.len() > 0 {
        let l = slice_to_vec(last, 0, last.len());
        assert(l@ =~= pv.last());
        let ghost before = views_of(r@);
        let ghost lv = l@;
        r.push(l);
        assert(views_of(r@) =~= before.push(lv));
    }
    r
}

/// Whether every character of `s` is an ASCII digit.
pub open spec fn all_digits(s: Seq<char>) -> bool {
    forall|i: int| 0 <= i < s.len() ==> is_digit(#[trigger] s[i])
}

/// The value of a digit in base 16 (0 for other characters).
pub open spec fn hex_digit_value(c: char) -> nat {
    if is_digit(c) {
        (c as u32 - '0' as u32) as nat
    } else if 'a' <= c && c <= 'f' {
        (c as u32 - 'a' as u32 + 10) as nat
    } else if 'A' <= c && c <= 'F' {
        (c as u32 - 'A' as u32 + 10) as nat
    } else {
        0
    }
}

/// Whether `c` is a digit in base 16.
pub open spec fn is_hex_digit(c: char) -> bool {
    is_digit(c) || ('a' <= c && c <= 'f') || ('A' <= c && c <= 'F')
}

/// Whether `c` is a digit in the given base (10 or 16).
pub open spec fn is_digit_in(c: char, base: nat) -> bool {
    if base == 16 {
        is_hex_digit(c)
    } else {
        is_digit(c)
    }
}

/// The value of the digits `s` in the given base.
pub open spec fn digits_value(s: Seq<char>, base: nat) -> nat
    decreases s.len(),
{
    if s.len() == 0 {
        0
    } else {
        digits_value(s.drop_last(), base) * base + hex_digit_value(s.last())
    }
}

/// `s` without one leading `+`.
pub open spec fn unsigned_digits(s: Seq<char>) -> Seq<char> {
    if s.len() > 0 && s[0] == '+' {
        s.drop_first()
    } else {
        s
    }
}

/// What parsing `s` as an unsigned integer in `base` no larger than `max` gives
/// (`FromStr` and `from_str_radix` of the unsigned integer types): an optional `+`,
/// then at least one digit and nothing else.
pub open spec fn parse_unsigned_spec(s: Seq<char>, base: nat, max: nat) -> Option<nat> {
    let d = unsigned_digits(s);
    if d.len() > 0 && (forall|i: int| 0 <= i < d.len() ==> is_digit_in(#[trigger] d[i], base))
        && digits_value(d, base) <= max {
        Some(digits_value(d, base))
    } else {
        None
    }
}

proof fn lemma_digits_value_mono(s: Seq<char>, base: nat, n: int)
    requires
        0 <= n <= s.len(),
        base >= 1,
    ensures
        digits_value(s.take(n), base) <= digits_value(s, base),
    decreases s.len() - n,
{
    if n < s.len() {
        lemma_digits_value_mono(s, base, n + 1);
        let t = s.take(n + 1);
        assert(t.drop_last() =~= s.take(n));
        let v = digits_value(s.take(n), base);
        assert(v * base >= v) by (nonlinear_arith)
            requires
                base >= 1,
        ;
    } else {
        assert(s.take(n) =~= s);
    }
}

/// Parses `s` as an unsigned integer in base 10 or 16 that is at most `max`.
pub fn parse_unsigned(s: &[char], base: u32, max: u64) -> (r: Option<u64>)
    requires
        base == 10 || base == 16,
    ensures
        match parse_unsigned_spec(s@, base as nat, max as nat) {
            Some(v) => r == Some(v as u64),
            None => r is None,
        },
{
    let start: usize = if s.len() > 0 && s[0] == '+' {
        1
    } else {
        0
    };
    let ghost d = unsigned_digits(s@);
    assert(d =~= s@.skip(start as int));
    if start >= s.len() {
        return None;
    }
    let mut acc: u64 = 0;
    let mut i = start;
    while i < s.len()
        invariant
            start <= i <= s.len(),
            d == s@.skip(start as int),
            d == unsigned_digits(s@),
            base == 10 || base == 16,
            acc as nat == digits_value(d.take(i - start), base as nat),
            acc <= max,
            forall|j: int| 0 <= j < i - start ==> is_digit_in(#[trigger] d[j], base as nat),
        decreases s.len() - i,
    {
        let c = s[i];
        let ok = if base == 16 {
            ('0' <= c && c <= '9') || ('a' <= c && c <= 'f') || ('A' <= c && c <= 'F')
        } else {
            '0' <= c && c <= '9'
        };
        if !ok {
            assert(!is_digit_in(d[i - start], base as nat));
            return None;
        }
        let dv: u64 = if '0' <= c && c <= '9' {
            (c as u32 - '0' as u32) as u64
        } else if 'a' <= c && c <= 'f' {
            (c as u32 - 'a' as u32 + 10) as u64
        } else {
            (c as u32 - 'A' as u32 + 10) as u64
        };
        assert(d.take(i - start + 1).drop_last() =~= d.take(i - start));
        assert(d.take(i - start + 1).last() == c);
        assert(dv < 16);
        assert(acc as u128 * base as u128 <= 0xffff_ffff_ffff_ffff * 16) by (nonlinear_arith)
            requires
                acc <= 0xffff_ffff_ffff_ffffu64,
                base <= 16,
        ;
        let wide: u128 = acc as u128 * base as u128 + dv as u128;
        if wide > max as u128 {
            proof {
                lemma_digits_value_mono(d, base as nat, i - start + 1);
            }
            return None;
        }
        acc = wide as u64;
        i = i + 1;
    }
    assert(d.take(d.len() as int) =~= d);
    Some(acc)
}


/// Whether two character sequences are equal.
pub fn equals(s: &[char], t: &[char]) -> (r: bool)
    ensures
        r == (s@ == t@),
{
    if s.len() != t.len() {
        return false;
    }
    let r = matches_at(s, t, 0);
    assert(s@.subrange(0, t@.len() as int) =~= s@);
    r
}

/// Whether `s` begins with the string literal `lit`.
pub fn starts_with_str(s: &[char], lit: &str) -> (r: bool)
    ensures
        r == has_prefix(s@, lit@),
{
    starts_with(s, &chars_of(lit))
}

/// Whether `s` ends with the string literal `lit`.
pub fn ends_with_str(s: &[char], lit: &str) -> (r: bool)
    ensures
        r == has_suffix(s@, lit@),
{
    ends_with(s, &chars_of(lit))
}

/// Whether the string literal `lit` occurs in `s`.
pub fn contains_str(s: &[char], lit: &str) -> (r: bool)
    ensures
        r == has_infix(s@, lit@),
{
    contains(s, &chars_of(lit))
}

/// Whether `s` is the string literal `lit`.
pub fn equals_str(s: &[char], lit: &str) -> (r: bool)
    ensures
        r == (s@ == lit@),
{
    equals(s, &chars_of(lit))
}

/// The characters of a string, in order.
pub fn chars_of(s: &str) -> (v: Vec<char>)
    ensures
        v@ == s@,
{
    let mut v: Vec<char> = Vec::new();
    for c in it: s.chars()
        invariant
            it.seq() == s@,
            v@ == it.seq().take(it.index() as int),
    {
        v.push(c);
    }
    v
}

} // verus!
