//! Text helpers over character sequences.

use vstd::prelude::*;
use vstd::slice::slice_subrange;

verus! {

/// `String::push` of std appends one character.
pub assume_specification[ String::push ](s: &mut String, c: char)
    ensures
        final(s)@ == old(s)@.push(c),
;

/// White space as the Unicode property `White_Space` defines it.
pub open spec fn is_space(c: char) -> bool {
    ||| '\u{9}' <= c <= '\u{d}'
    ||| c == ' '
    ||| c == '\u{85}'
    ||| c == '\u{a0}'
    ||| c == '\u{1680}'
    ||| '\u{2000}' <= c <= '\u{200a}'
    ||| c == '\u{2028}'
    ||| c == '\u{2029}'
    ||| c == '\u{202f}'
    ||| c == '\u{205f}'
    ||| c == '\u{3000}'
}

/// `s` without leading white space.
pub open spec fn trimmed_start(s: Seq<char>) -> Seq<char>
    decreases s.len(),
{
    if s.len() > 0 && is_space(s[0]) {
        trimmed_start(s.skip(1))
    } else {
        s
    }
}

/// `s` without trailing white space.
pub open spec fn trimmed_end(s: Seq<char>) -> Seq<char>
    decreases s.len(),
{
    if s.len() > 0 && is_space(s.last()) {
        trimmed_end(s.drop_last())
    } else {
        s
    }
}

/// `s` without white space at either end.
pub open spec fn trimmed(s: Seq<char>) -> Seq<char> {
    trimmed_end(trimmed_start(s))
}

/// The lower-case form of an ASCII letter; other characters stay.
pub open spec fn lower_char(c: char) -> char {
    if 'A' <= c <= 'Z' {
        ((c as u32 + 32) as u8) as char
    } else {
        c
    }
}

/// `s` with its ASCII letters in lower case.
pub open spec fn lower(s: Seq<char>) -> Seq<char> {
    Seq::new(s.len(), |i: int| lower_char(s[i]))
}

/// The character of a decimal digit.
pub open spec fn digit_char(d: int) -> char {
    ((0x30 + d) as u8) as char
}

/// The decimal digits of `v`, most significant first, without leading zeros.
pub open spec fn decimal_text(v: nat) -> Seq<char>
    decreases v,
{
    if v < 10 {
        seq![digit_char(v as int)]
    } else {
        decimal_text(v / 10).push(digit_char((v % 10) as int))
    }
}

/// Appends the decimal digits of `v`.
pub fn push_decimal(out: &mut String, v: u128)
    ensures
        final(out)@ == old(out)@ + decimal_text(v as nat),
    decreases v,
{
    let ghost before: Seq<char> = out@;
    if v >= 10 {
        push_decimal(out, v / 10);
    }
    out.push((0x30 + (v % 10) as u8) as char);
    assert(out@ =~= before + decimal_text(v as nat));
}

/// Whether `c` is white space.
pub fn is_space_char(c: char) -> (r: bool)
    ensures
        r == is_space(c),
{
    ('\u{9}' <= c && c <= '\u{d}') || c == ' ' || c == '\u{85}' || c == '\u{a0}' || c == '\u{1680}'
        || ('\u{2000}' <= c && c <= '\u{200a}') || c == '\u{2028}' || c == '\u{2029}' || c
        == '\u{202f}' || c == '\u{205f}' || c == '\u{3000}'
}

/// The characters of a string.
pub fn chars_of(s: &str) -> (r: Vec<char>)
    ensures
        r@ == s@,
{
    let mut out: Vec<char> = Vec::new();
    for c in it: s.chars()
        invariant
            out@ == it.seq().take(it.index() as int),
            it.seq() == s@,
    {
        out.push(c);
        assert(out@ =~= it.seq().take(it.index() + 1));
    }
    assert(s@.take(s@.len() as int) =~= s@);
    out
}

/// The string of some characters.
pub fn string_of(chars: &[char]) -> (r: String)
    ensures
        r@ == chars@,
{
    let mut out: String = String::new();
    push_chars(&mut out, chars);
    assert(out@ =~= chars@);
    out
}

/// Appends characters to a string.
pub fn push_chars(out: &mut String, chars: &[char])
    ensures
        final(out)@ == old(out)@ + chars@,
{
    let mut i: usize = 0;
    assert(out@ =~= old(out)@ + chars@.take(0));
    while i < chars.len()
        invariant
            i <= chars@.len(),
            out@ == old(out)@ + chars@.take(i as int),
        decreases chars@.len() - i,
    {
        out.push(chars[i]);
        i += 1;
        assert(out@ =~= old(out)@ + chars@.take(i as int));
    }
    assert(chars@.take(i as int) =~= chars@);
}

/// Appends a string to a string.
pub fn push_str(out: &mut String, s: &str)
    ensures
        final(out)@ == old(out)@ + s@,
{
    let chars: Vec<char> = chars_of(s);
    push_chars(out, chars.as_slice());
}

/// Whether two character sequences are equal.
pub fn chars_eq(a: &[char], b: &[char]) -> (r: bool)
    ensures
        r == (a@ == b@),
{
    if a.len() != b.len() {
        return false;
    }
    let mut i: usize = 0;
    while i < a.len()
        invariant
            a@.len() == b@.len(),
            i <= a@.len(),
            forall|j: int| 0 <= j < i ==> a@[j] == b@[j],
        decreases a@.len() - i,
    {
        if a[i] != b[i] {
            return false;
        }
        i += 1;
    }
    assert(a@ =~= b@);
    true
}

/// Whether a character sequence spells `s`.
pub fn spells(a: &[char], s: &str) -> (r: bool)
    ensures
        r == (a@ == s@),
{
    let b: Vec<char> = chars_of(s);
    chars_eq(a, b.as_slice())
}

/// Whether two strings are equal.
pub fn text_eq(a: &str, b: &str) -> (r: bool)
    ensures
        r == (a@ == b@),
{
    let x: Vec<char> = chars_of(a);
    spells(x.as_slice(), b)
}

/// `chars` without white space at either end.
pub fn trim(chars: &[char]) -> (r: &[char])
    ensures
        r@ == trimmed(chars@),
{
    let mut start: usize = 0;
    assert(chars@.skip(0) =~= chars@);
    while start < chars.len() && is_space_char(chars[start])
        invariant
            start <= chars@.len(),
            trimmed_start(chars@) == trimmed_start(chars@.skip(start as int)),
        decreases chars@.len() - start,
    {
        assert(chars@.skip(start as int).skip(1) =~= chars@.skip(start + 1));
        start += 1;
    }
    let mut end: usize = chars.len();
    let ghost head: Seq<char> = chars@.skip(start as int);
    assert(trimmed_start(chars@) == head);
    assert(chars@.subrange(start as int, end as int) =~= head);
    while end > start && is_space_char(chars[end - 1])
        invariant
            start <= end <= chars@.len(),
            trimmed_end(head) == trimmed_end(chars@.subrange(start as int, end as int)),
        decreases end,
    {
        assert(chars@.subrange(start as int, end as int).drop_last() =~= chars@.subrange(
            start as int,
            end - 1,
        ));
        end -= 1;
    }
    slice_subrange(chars, start, end)
}

/// The lower-case form of an ASCII letter; other characters stay.
pub fn to_lower_char(c: char) -> (r: char)
    ensures
        r == lower_char(c),
{
    if 'A' <= c && c <= 'Z' {
        ((c as u32 + 32) as u8) as char
    } else {
        c
    }
}

/// `chars` with ASCII letters in lower case.
pub fn to_lower(chars: &[char]) -> (r: Vec<char>)
    ensures
        r@ == lower(chars@),
{
    let mut out: Vec<char> = Vec::new();
    let mut i: usize = 0;
    while i < chars.len()
        invariant
            i <= chars@.len(),
            out@ == lower(chars@).take(i as int),
        decreases chars@.len() - i,
    {
        out.push(to_lower_char(chars[i]));
        i += 1;
        assert(out@ =~= lower(chars@).take(i as int));
    }
    assert(out@ =~= lower(chars@));
    out
}

// ---------------------------------------------------------------------------
// Searching
// ---------------------------------------------------------------------------

/// Where `c` occurs last in `s`.
pub open spec fn last_index(s: Seq<char>, c: char) -> Option<int>
    decreases s.len(),
{
    if s.len() == 0 {
        None
    } else if s.last() == c {
        Some(s.len() - 1)
    } else {
        last_index(s.drop_last(), c)
    }
}

/// Where `c` occurs first in `s`.
pub open spec fn first_index(s: Seq<char>, c: char) -> Option<int>
    decreases s.len(),
{
    if s.len() == 0 {
        None
    } else if s[0] == c {
        Some(0)
    } else {
        match first_index(s.skip(1), c) {
            Some(i) => Some(i + 1),
            None => None,
        }
    }
}

/// Whether `s` begins with `head`.
pub open spec fn begins(s: Seq<char>, head: Seq<char>) -> bool {
    s.len() >= head.len() && s.take(head.len() as int) == head
}

/// Whether `part` occurs in `s`.
pub open spec fn occurs(s: Seq<char>, part: Seq<char>) -> bool {
    exists|i: int| 0 <= i <= s.len() - part.len() && #[trigger] s.subrange(i, i + part.len()) == part
}

/// The index of the first occurrence lies in the sequence, and nothing before
/// it is the character.
pub proof fn lemma_first_index(s: Seq<char>, c: char)
    ensures
        match first_index(s, c) {
            Some(i) => 0 <= i < s.len() && s[i] == c && forall|j: int|
                0 <= j < i ==> #[trigger] s[j] != c,
            None => forall|j: int| 0 <= j < s.len() ==> #[trigger] s[j] != c,
        },
    decreases s.len(),
{
    if s.len() > 0 && s[0] != c {
        let t: Seq<char> = s.skip(1);
        lemma_first_index(t, c);
        match first_index(t, c) {
            Some(i) => {
                assert forall|j: int| 0 <= j < i + 1 implies #[trigger] s[j] != c by {
                    if j > 0 {
                        assert(t[j - 1] != c);
                    }
                }
            },
            None => {
                assert forall|j: int| 0 <= j < s.len() implies #[trigger] s[j] != c by {
                    if j > 0 {
                        assert(t[j - 1] != c);
                    }
                }
            },
        }
    }
}

/// The index of the last occurrence lies in the sequence, and nothing behind it
/// is the character.
pub proof fn lemma_last_index(s: Seq<char>, c: char)
    ensures
        match last_index(s, c) {
            Some(i) => 0 <= i < s.len() && s[i] == c && forall|j: int|
                i < j < s.len() ==> #[trigger] s[j] != c,
            None => forall|j: int| 0 <= j < s.len() ==> #[trigger] s[j] != c,
        },
    decreases s.len(),
{
    if s.len() > 0 && s.last() != c {
        let t: Seq<char> = s.drop_last();
        lemma_last_index(t, c);
        assert forall|j: int| 0 <= j < s.len() && (last_index(t, c) matches Some(i) ==> i
            < j) implies #[trigger] s[j] != c by {
            if j < t.len() {
                assert(t[j] != c);
            }
        }
    }
}

/// A text splits at its first and its last separator: where the rest holds no
/// more of them, the separator is found where it stands.
pub proof fn law_separator_found(a: Seq<char>, c: char, b: Seq<char>)
    ensures
        !b.contains(c) ==> last_index(a + seq![c] + b, c) == Some(a.len() as int),
        !a.contains(c) ==> first_index(a + seq![c] + b, c) == Some(a.len() as int),
        !a.contains(c) <==> first_index(a, c) is None,
        !a.contains(c) <==> last_index(a, c) is None,
        (a + seq![c] + b).take(a.len() as int) == a,
        (a + seq![c] + b).skip(a.len() as int + 1) == b,
{
    let s: Seq<char> = a + seq![c] + b;
    lemma_first_index(s, c);
    lemma_last_index(s, c);
    lemma_first_index(a, c);
    lemma_last_index(a, c);
    assert(s[a.len() as int] == c);
    assert(s.take(a.len() as int) =~= a);
    assert(s.skip(a.len() as int + 1) =~= b);
    if !b.contains(c) {
        let i: int = last_index(s, c)->Some_0;
        if i > a.len() {
            assert(b[i - a.len() - 1] == c);
        }
    }
    if !a.contains(c) {
        let i: int = first_index(s, c)->Some_0;
        if i < a.len() {
            assert(a[i] == c);
        }
    }
}

/// Trimming cuts white space off both ends and nothing else: what is left
/// neither starts nor ends with white space.
pub proof fn law_trimmed(s: Seq<char>)
    ensures
        exists|i: int, j: int|
            0 <= i <= j <= s.len() && trimmed(s) == #[trigger] s.subrange(i, j) && (forall|k: int|
                0 <= k < i ==> is_space(#[trigger] s[k])) && (forall|k: int|
                j <= k < s.len() ==> is_space(#[trigger] s[k])),
        trimmed(s).len() > 0 ==> !is_space(trimmed(s)[0]) && !is_space(trimmed(s).last()),
{
    let i: int = lemma_trimmed_start(s);
    let t: Seq<char> = trimmed_start(s);
    let n: int = lemma_trimmed_end(t);
    assert(trimmed(s) =~= s.subrange(i, i + n));
    assert forall|k: int| i + n <= k < s.len() implies is_space(#[trigger] s[k]) by {
        assert(is_space(t[k - i]));
    }
    if trimmed(s).len() > 0 {
        assert(trimmed(s)[0] == t[0]);
    }
}

proof fn lemma_trimmed_start(s: Seq<char>) -> (i: int)
    ensures
        0 <= i <= s.len(),
        trimmed_start(s) == s.skip(i),
        forall|k: int| 0 <= k < i ==> is_space(#[trigger] s[k]),
        i < s.len() ==> !is_space(s[i]),
    decreases s.len(),
{
    if s.len() > 0 && is_space(s[0]) {
        let t: Seq<char> = s.skip(1);
        let j: int = lemma_trimmed_start(t);
        assert(t.skip(j) =~= s.skip(j + 1));
        assert forall|k: int| 0 <= k < j + 1 implies is_space(#[trigger] s[k]) by {
            if k > 0 {
                assert(is_space(t[k - 1]));
            }
        }
        j + 1
    } else {
        assert(s.skip(0) =~= s);
        0
    }
}

proof fn lemma_trimmed_end(s: Seq<char>) -> (n: int)
    ensures
        0 <= n <= s.len(),
        trimmed_end(s) == s.take(n),
        forall|k: int| n <= k < s.len() ==> is_space(#[trigger] s[k]),
        n > 0 ==> !is_space(s[n - 1]),
    decreases s.len(),
{
    if s.len() > 0 && is_space(s.last()) {
        let t: Seq<char> = s.drop_last();
        let n: int = lemma_trimmed_end(t);
        assert(t.take(n) =~= s.take(n));
        assert forall|k: int| n <= k < s.len() implies is_space(#[trigger] s[k]) by {
            if k < t.len() {
                assert(is_space(t[k]));
            }
        }
        n
    } else {
        assert(s.take(s.len() as int) =~= s);
        s.len() as int
    }
}

/// A text without white space at either end is not trimmed.
pub proof fn law_trim_keeps_tight_text(s: Seq<char>)
    requires
        s.len() > 0 ==> !is_space(s[0]) && !is_space(s.last()),
    ensures
        trimmed(s) == s,
{
}

/// ASCII white space is white space; letters, digits and punctuation are not.
pub proof fn law_ascii_space(c: char)
    requires
        (c as u32) < 0x80,
    ensures
        is_space(c) <==> c == ' ' || c == '\t' || c == '\n' || c == '\r' || c == '\u{b}' || c
            == '\u{c}',
{
}

/// Lower case moves the letters `A` to `Z` up by 32 and changes nothing else.
pub proof fn law_lower(s: Seq<char>)
    ensures
        lower(s).len() == s.len(),
        forall|i: int|
            0 <= i < s.len() && 'A' <= s[i] <= 'Z' ==> #[trigger] lower(s)[i] as u32 == s[i] as u32
                + 32,
        forall|i: int| 0 <= i < s.len() && !('A' <= s[i] <= 'Z') ==> #[trigger] lower(s)[i] == s[i],
        lower(lower(s)) == lower(s),
{
    assert forall|i: int| 0 <= i < s.len() implies lower_char(lower_char(s[i])) == lower_char(
        s[i],
    ) by {}
    assert(lower(lower(s)) =~= lower(s));
}

/// Where `c` occurs last.
pub fn rfind(s: &[char], c: char) -> (r: Option<usize>)
    ensures
        match last_index(s@, c) {
            Some(i) => r matches Some(k) && k == i && k < s@.len(),
            None => r is None,
        },
{
    let mut end: usize = s.len();
    assert(s@.take(end as int) =~= s@);
    while end > 0
        invariant
            end <= s@.len(),
            last_index(s@, c) == last_index(s@.take(end as int), c),
        decreases end,
    {
        if s[end - 1] == c {
            return Some(end - 1);
        }
        assert(s@.take(end as int).drop_last() =~= s@.take(end - 1));
        end -= 1;
    }
    None
}

/// Where `c` occurs first.
pub fn find(s: &[char], c: char) -> (r: Option<usize>)
    ensures
        match first_index(s@, c) {
            Some(i) => r matches Some(k) && k == i && k < s@.len(),
            None => r is None,
        },
{
    proof {
        lemma_first_index(s@, c);
    }
    let mut i: usize = 0;
    while i < s.len()
        invariant
            i <= s@.len(),
            forall|j: int| 0 <= j < i ==> #[trigger] s@[j] != c,
            match first_index(s@, c) {
                Some(k) => 0 <= k < s@.len() && s@[k] == c && forall|j: int|
                    0 <= j < k ==> #[trigger] s@[j] != c,
                None => forall|j: int| 0 <= j < s@.len() ==> #[trigger] s@[j] != c,
            },
        decreases s@.len() - i,
    {
        if s[i] == c {
            return Some(i);
        }
        i += 1;
    }
    None
}

/// Whether `s` begins with `head`.
pub fn starts_with(s: &[char], head: &str) -> (r: bool)
    ensures
        r == begins(s@, head@),
{
    let h: Vec<char> = chars_of(head);
    if s.len() < h.len() {
        return false;
    }
    let front: &[char] = slice_subrange(s, 0, h.len());
    assert(front@ =~= s@.take(h@.len() as int));
    chars_eq(front, h.as_slice())
}

/// Whether `part` occurs in `s`.
pub fn contains_chars(s: &[char], part: &[char]) -> (r: bool)
    ensures
        r == occurs(s@, part@),
{
    let n: usize = s.len();
    let k: usize = part.len();
    if n < k {
        return false;
    }
    let mut i: usize = 0;
    while i <= n - k
        invariant
            n == s@.len(),
            k == part@.len(),
            k <= n,
            i <= n - k + 1,
            forall|j: int| 0 <= j < i ==> #[trigger] s@.subrange(j, j + k) != part@,
        decreases n - k + 1 - i,
    {
        if chars_eq(slice_subrange(s, i, i + k), part) {
            return true;
        }
        if i == n - k {
            return false;
        }
        i += 1;
    }
    false
}

// ---------------------------------------------------------------------------
// Numbers and quotes in text
// ---------------------------------------------------------------------------

/// Whether `c` is a decimal digit.
pub open spec fn is_digit_char(c: char) -> bool {
    '0' <= c <= '9'
}

/// Every character is a decimal digit.
pub open spec fn all_digit_chars(s: Seq<char>) -> bool {
    forall|i: int| 0 <= i < s.len() ==> is_digit_char(#[trigger] s[i])
}

/// The number that decimal digits stand for.
pub open spec fn digits_value(s: Seq<char>) -> nat
    decreases s.len(),
{
    if s.len() == 0 {
        0
    } else {
        digits_value(s.drop_last()) * 10 + (s.last() as u32 - 0x30) as nat
    }
}

/// The number of a digit string, where there is one up to `max`.
pub open spec fn number_text(s: Seq<char>, max: nat) -> Option<nat> {
    if s.len() > 0 && all_digit_chars(s) && digits_value(s) <= max {
        Some(digits_value(s))
    } else {
        None
    }
}

proof fn lemma_digits_monotonic(s: Seq<char>, i: int)
    requires
        0 <= i <= s.len(),
        all_digit_chars(s),
    ensures
        digits_value(s.take(i)) <= digits_value(s),
    decreases s.len(),
{
    if i < s.len() {
        let t: Seq<char> = s.drop_last();
        lemma_digits_monotonic(t, i);
        assert(t.take(i) =~= s.take(i));
        assert(is_digit_char(s[s.len() - 1]));
    } else {
        assert(s.take(i) =~= s);
    }
}

/// Parses a digit string of a number up to `max`.
pub fn parse_number(s: &[char], max: u32) -> (r: Option<u32>)
    ensures
        match number_text(s@, max as nat) {
            Some(n) => r == Some(n as u32),
            None => r is None,
        },
{
    if s.len() == 0 {
        return None;
    }
    let mut n: u64 = 0;
    let mut i: usize = 0;
    while i < s.len()
        invariant
            i <= s@.len(),
            n == digits_value(s@.take(i as int)),
            n <= max,
            forall|j: int| 0 <= j < i ==> is_digit_char(#[trigger] s@[j]),
        decreases s@.len() - i,
    {
        let c: char = s[i];
        if c < '0' || c > '9' {
            assert(!is_digit_char(s@[i as int]));
            return None;
        }
        proof {
            assert(s@.take(i + 1).drop_last() =~= s@.take(i as int));
            if all_digit_chars(s@) {
                lemma_digits_monotonic(s@, i + 1);
            }
        }
        n = n * 10 + (c as u32 - 0x30) as u64;
        if n > max as u64 {
            return None;
        }
        i += 1;
    }
    assert(s@.take(i as int) =~= s@);
    Some(n as u32)
}

/// The decimal text of a number has digits alone, no leading zero but for zero
/// itself, and stands for that number.
pub proof fn law_decimal_text(v: nat)
    ensures
        decimal_text(v).len() >= 1,
        all_digit_chars(decimal_text(v)),
        digits_value(decimal_text(v)) == v,
        v >= 1 ==> decimal_text(v)[0] != '0',
        decimal_text(0) == seq!['0'],
    decreases v,
{
    let t: Seq<char> = decimal_text(v);
    assert(decimal_text(0) =~= seq!['0']);
    if v >= 10 {
        law_decimal_text(v / 10);
        assert(t.drop_last() =~= decimal_text(v / 10));
        assert forall|i: int| 0 <= i < t.len() implies is_digit_char(#[trigger] t[i]) by {
            if i < t.len() - 1 {
                assert(is_digit_char(decimal_text(v / 10)[i]));
            }
        }
        assert(t[0] == decimal_text(v / 10)[0]);
    } else {
        assert(t.drop_last() =~= Seq::<char>::empty());
        assert(digits_value(t.drop_last()) == 0);
    }
}

/// The decimal text of a number parses to that number up to the limit, and not
/// beyond it.
pub proof fn law_number_parses(n: nat, max: nat)
    ensures
        n <= max ==> number_text(decimal_text(n), max) == Some(n),
        n > max ==> number_text(decimal_text(n), max) is None,
{
    law_decimal_text(n);
}

/// Only digits parse, each worth ten times the one behind it, and leading zeros
/// count for nothing.
pub proof fn law_digits_are_decimal(s: Seq<char>, c: char, max: nat)
    ensures
        number_text(Seq::empty(), max) is None,
        number_text(s, max) matches Some(n) ==> n <= max && forall|i: int|
            0 <= i < s.len() ==> '0' <= #[trigger] s[i] <= '9',
        digits_value(s.push(c)) == 10 * digits_value(s) + (c as u32 - 0x30) as nat,
        digits_value(seq!['0'] + s) == digits_value(s),
{
    assert(s.push(c).drop_last() =~= s);
    if number_text(s, max) is Some {
        assert forall|i: int| 0 <= i < s.len() implies '0' <= #[trigger] s[i] <= '9' by {
            assert(is_digit_char(s[i]));
        }
    }
    lemma_zero_in_front(s);
}

proof fn lemma_zero_in_front(s: Seq<char>)
    ensures
        digits_value(seq!['0'] + s) == digits_value(s),
    decreases s.len(),
{
    let t: Seq<char> = seq!['0'] + s;
    if s.len() == 0 {
        assert(t.drop_last() =~= Seq::<char>::empty());
        assert(digits_value(t.drop_last()) == 0);
    } else {
        assert(t.drop_last() =~= seq!['0'] + s.drop_last());
        lemma_zero_in_front(s.drop_last());
    }
}

/// How the standard library quotes a string for debug output.
pub uninterp spec fn debug_text(s: Seq<char>) -> Seq<char>;

/// The `{:?}` form of a string, as the standard library formats it: the text is
/// a function of the string.
#[verifier::external_body]
pub(crate) fn quoted(s: &str) -> (r: String)
    ensures
        r@ == debug_text(s@),
{
    format!("{s:?}")
}

/// A lower-case hexadecimal digit.
pub open spec fn hex_digit(d: int) -> char {
    if d < 10 {
        ((0x30 + d) as u8) as char
    } else {
        ((0x57 + d) as u8) as char
    }
}

/// A byte as `0x` and two hexadecimal digits.
pub open spec fn hex_text(b: u8) -> Seq<char> {
    "0x"@.push(hex_digit(b as int / 16)).push(hex_digit(b as int % 16))
}

/// A byte in hexadecimal: `0x`, then the upper and the lower half, each as a
/// digit or a letter from `a` on.
pub proof fn law_hex_text(b: u8)
    ensures
        ({
            let t: Seq<char> = hex_text(b);
            let high: int = b as int / 16;
            let low: int = b as int % 16;
            &&& t.len() == 4
            &&& t[0] == '0' && t[1] == 'x'
            &&& high < 10 ==> t[2] as int == '0' as int + high
            &&& high >= 10 ==> t[2] as int == 'a' as int + (high - 10)
            &&& low < 10 ==> t[3] as int == '0' as int + low
            &&& low >= 10 ==> t[3] as int == 'a' as int + (low - 10)
        }),
{
    reveal_strlit("0x");
}

/// Appends a byte as `0x` and two hexadecimal digits.
pub fn push_hex(out: &mut String, b: u8)
    ensures
        final(out)@ == old(out)@ + hex_text(b),
{
    let ghost before: Seq<char> = out@;
    push_str(out, "0x");
    out.push(to_hex_digit(b / 16));
    out.push(to_hex_digit(b % 16));
    assert(out@ =~= before + hex_text(b));
}

fn to_hex_digit(d: u8) -> (r: char)
    requires
        d < 16,
    ensures
        r == hex_digit(d as int),
{
    if d < 10 {
        (0x30 + d) as char
    } else {
        (0x57 + d) as char
    }
}

/// The text of bytes, with replacement characters where they are not UTF-8.
pub uninterp spec fn lossy_text(bytes: Seq<u8>) -> Seq<char>;

/// `String::from_utf8_lossy` of std: the text is a function of the bytes, and
/// for valid UTF-8 it is the text that they encode.
#[verifier::external_body]
pub(crate) fn decode_lossy(bytes: &[u8]) -> (r: String)
    ensures
        r@ == lossy_text(bytes@),
        vstd::utf8::valid_utf8(bytes@) ==> r@ == vstd::utf8::decode_utf8(bytes@),
{
    String::from_utf8_lossy(bytes).into_owned()
}

/// `core::str::from_utf8` of std succeeds exactly on valid UTF-8.
#[verifier::external_body]
pub(crate) fn is_utf8(bytes: &[u8]) -> (r: bool)
    ensures
        r == vstd::utf8::valid_utf8(bytes@),
{
    core::str::from_utf8(bytes).is_ok()
}

} // verus!
