//! Letter case, words and whole numbers in text.

use crate::text::{chars_eq, chars_of, is_white_space, part, starts_with, starts_with_chars, white_space};
use vstd::prelude::*;

verus! {

/// An ASCII capital letter as a small one; other characters as they are.
pub open spec fn lower_char(c: char) -> char {
    if 'A' <= c && c <= 'Z' {
        (c as u32 + 32) as char
    } else {
        c
    }
}

/// A text with its ASCII capitals made small.
pub open spec fn lower(s: Seq<char>) -> Seq<char> {
    Seq::new(s.len(), |i: int| lower_char(s[i]))
}

/// Every character is ASCII.
pub open spec fn is_ascii(s: Seq<char>) -> bool {
    forall|i: int| 0 <= i < s.len() ==> (#[trigger] s[i] as u32) < 128
}

/// The two texts differ at most in the case of ASCII letters.
pub open spec fn same_ignoring_case(a: Seq<char>, b: Seq<char>) -> bool {
    lower(a) == lower(b)
}

pub fn to_lower_char(c: char) -> (r: char)
    ensures
        r == lower_char(c),
{
    if 'A' <= c && c <= 'Z' {
        let n: u8 = c as u8;
        (n + 32) as char
    } else {
        c
    }
}

pub fn lower_chars(s: &[char]) -> (r: Vec<char>)
    ensures
        r@ == lower(s@),
{
    let mut out: Vec<char> = Vec::new();
    let mut i: usize = 0;
    while i < s.len()
        invariant
            i <= s.len(),
            out@ == lower(s@).take(i as int),
        decreases s.len() - i,
    {
        out.push(to_lower_char(s[i]));
        i += 1;
    }
    out
}

pub fn str_same_ignoring_case(a: &str, b: &str) -> (r: bool)
    ensures
        r == same_ignoring_case(a@, b@),
{
    let x = chars_of(a);
    let y = chars_of(b);
    let p = lower_chars(&x);
    let q = lower_chars(&y);
    chars_eq(&p, &q)
}

/// What `str::to_lowercase` makes of a text.
pub uninterp spec fn lowercased(s: Seq<char>) -> Seq<char>;

/// Calls `str::to_lowercase`: the lowercase form of the text by the Unicode
/// rules, a function of the text. ASCII capitals become small letters and
/// other ASCII characters stay.
#[verifier::external_body]
fn unicode_lowercase(s: &str) -> (r: String)
    ensures
        r@ == lowercased(s@),
        is_ascii(s@) ==> r@ == lower(s@),
{
    s.to_lowercase()
}

/// The lowercase form of a text.
pub fn lowercase(s: &str) -> (r: String)
    ensures
        r@ == lowercased(s@),
        is_ascii(s@) ==> r@ == lower(s@),
{
    unicode_lowercase(s)
}

/// A prefix removed as often as it stands at the front.
pub open spec fn strip_all(s: Seq<char>, p: Seq<char>) -> Seq<char>
    decreases s.len(),
{
    if p.len() > 0 && starts_with(s, p) {
        strip_all(s.skip(p.len() as int), p)
    } else {
        s
    }
}

pub fn strip_all_chars(s: &[char], p: &[char]) -> (r: Vec<char>)
    ensures
        r@ == strip_all(s@, p@),
{
    let mut rest = part(s, 0, s.len());
    assert(rest@ =~= s@);
    while p.len() > 0 && starts_with_chars(&rest, p)
        invariant
            strip_all(rest@, p@) == strip_all(s@, p@),
        decreases rest.len(),
    {
        let next = part(&rest, p.len(), rest.len());
        assert(next@ =~= rest@.skip(p@.len() as int));
        rest = next;
    }
    rest
}

/// The finished words and the word under way after reading a text.
pub open spec fn scan_words(s: Seq<char>) -> (Seq<Seq<char>>, Seq<char>)
    decreases s.len(),
{
    if s.len() == 0 {
        (Seq::empty(), Seq::empty())
    } else {
        let (done, word) = scan_words(s.drop_last());
        if !white_space(s.last()) {
            (done, word.push(s.last()))
        } else if word.len() > 0 {
            (done.push(word), Seq::empty())
        } else {
            (done, word)
        }
    }
}

/// The words of a text: the runs without white space.
pub open spec fn words(s: Seq<char>) -> Seq<Seq<char>> {
    let (done, word) = scan_words(s);
    if word.len() > 0 {
        done.push(word)
    } else {
        done
    }
}

pub fn words_of(s: &[char]) -> (r: Vec<Vec<char>>)
    ensures
        crate::text::pieces_of(r@) == words(s@),
{
    let mut out: Vec<Vec<char>> = Vec::new();
    let mut word: Vec<char> = Vec::new();
    let mut i: usize = 0;
    assert(s@.take(0) =~= Seq::<char>::empty());
    assert(crate::text::pieces_of(out@) =~= Seq::<Seq<char>>::empty());
    while i < s.len()
        invariant
            i <= s.len(),
            (crate::text::pieces_of(out@), word@) == scan_words(s@.take(i as int)),
        decreases s.len() - i,
    {
        let ghost before = crate::text::pieces_of(out@);
        let ghost w = word@;
        assert(s@.take(i + 1).drop_last() =~= s@.take(i as int));
        assert(s@.take(i + 1).last() == s@[i as int]);
        if !is_white_space(s[i]) {
            word.push(s[i]);
        } else if word.len() > 0 {
            out.push(word);
            word = Vec::new();
            assert(crate::text::pieces_of(out@) =~= before.push(w));
            assert(word@ =~= Seq::<char>::empty());
        }
        i += 1;
    }
    assert(s@.take(s@.len() as int) =~= s@);
    if word.len() > 0 {
        let ghost before = crate::text::pieces_of(out@);
        let ghost w = word@;
        out.push(word);
        assert(crate::text::pieces_of(out@) =~= before.push(w));
    }
    out
}

/// A decimal digit.
pub open spec fn is_digit(c: char) -> bool {
    '0' <= c && c <= '9'
}

/// The number that a row of digits stands for.
pub open spec fn digits_value(s: Seq<char>) -> nat
    decreases s.len(),
{
    if s.len() == 0 {
        0
    } else {
        digits_value(s.drop_last()) * 10 + (s.last() as u32 - 48) as nat
    }
}

/// The digits of a number, without a leading plus sign.
pub open spec fn number_digits(s: Seq<char>) -> Seq<char> {
    if s.len() > 0 && s[0] == '+' {
        s.skip(1)
    } else {
        s
    }
}

/// The text is a whole number that 32 bits hold: digits, with at most a plus
/// sign in front.
pub open spec fn number_in(s: Seq<char>) -> Option<u32> {
    let d = number_digits(s);
    if d.len() > 0 && (forall|i: int| 0 <= i < d.len() ==> is_digit(#[trigger] d[i]))
        && digits_value(d) <= u32::MAX {
        Some(digits_value(d) as u32)
    } else {
        None
    }
}

/// Reads a whole number.
pub fn parse_number(text: &str) -> (r: Option<u32>)
    ensures
        r == number_in(text@),
{
    let s = chars_of(text);
    let from: usize = if s.len() > 0 && s[0] == '+' { 1 } else { 0 };
    let ghost d = number_digits(s@);
    assert(d =~= s@.skip(from as int));
    if from == s.len() {
        return None;
    }
    let mut value: u64 = 0;
    let mut over = false;
    let mut i: usize = from;
    while i < s.len()
        invariant
            from <= i <= s.len(),
            s@ == text@,
            d == number_digits(s@),
            d == s@.skip(from as int),
            forall|k: int| 0 <= k < i - from ==> is_digit(#[trigger] d[k]),
            over <==> digits_value(d.take(i - from)) > u32::MAX,
            !over ==> value == digits_value(d.take(i - from)),
        decreases s.len() - i,
    {
        let c = s[i];
        assert(d[i - from] == c);
        if !('0' <= c && c <= '9') {
            assert(!is_digit(d[i - from]));
            return None;
        }
        assert(d.take(i - from + 1).drop_last() =~= d.take(i - from));
        assert(d.take(i - from + 1).last() == c);
        if !over {
            let n: u32 = c as u32;
            value = value * 10 + (n - 48) as u64;
            over = value > 0xffff_ffff;
        }
        i += 1;
    }
    assert(d.take(d.len() as int) =~= d);
    if over {
        None
    } else {
        Some(value as u32)
    }
}

/// The capitals A to Z become a to z in order, and nothing else changes.
pub proof fn law_lower_case(c: char, i: int)
    ensures
        lower_char('A') == 'a' && lower_char('M') == 'm' && lower_char('Z') == 'z',
        0 <= i < 26 && c as u32 == 'A' as u32 + i ==> lower_char(c) as u32 == 'a' as u32 + i,
        !('A' <= c && c <= 'Z') ==> lower_char(c) == c,
        lower_char(lower_char(c)) == lower_char(c),
{
}

/// Letter case aside, texts of equal length are the same where each character
/// is the same or the small letter of the other.
pub proof fn law_case_is_passed_over(a: Seq<char>, b: Seq<char>)
    ensures
        same_ignoring_case(a, a),
        same_ignoring_case(a, lower(a)),
        same_ignoring_case(a, b) ==> a.len() == b.len() && forall|i: int|
            0 <= i < a.len() ==> #[trigger] lower_char(a[i]) == lower_char(b[i]),
        a.len() == b.len() && (forall|i: int|
            0 <= i < a.len() ==> #[trigger] lower_char(a[i]) == lower_char(b[i]))
            ==> same_ignoring_case(a, b),
{
    assert forall|i: int| 0 <= i < a.len() implies lower(lower(a))[i] == lower(a)[i] by {
        law_lower_case(a[i], 0);
    }
    assert(lower(lower(a)) =~= lower(a));
    if same_ignoring_case(a, b) {
        assert(lower(a).len() == lower(b).len());
        assert forall|i: int| 0 <= i < a.len() implies #[trigger] lower_char(a[i]) == lower_char(
            b[i],
        ) by {
            assert(lower(a)[i] == lower(b)[i]);
        }
    }
    if a.len() == b.len() && (forall|i: int|
        0 <= i < a.len() ==> #[trigger] lower_char(a[i]) == lower_char(b[i])) {
        assert(lower(a) =~= lower(b));
    }
}

proof fn lemma_digits_value_of_decimal(n: nat)
    ensures
        digits_value(crate::text::decimal(n)) == n,
        crate::text::decimal(n).len() > 0,
        forall|i: int|
            0 <= i < crate::text::decimal(n).len() ==> is_digit(
                #[trigger] crate::text::decimal(n)[i],
            ),
    decreases n,
{
    let d = crate::text::decimal(n);
    crate::text::law_digits_have_characters();
    reveal_with_fuel(digits_value, 2);
    if n >= 10 {
        lemma_digits_value_of_decimal(n / 10);
        assert(d.drop_last() =~= crate::text::decimal(n / 10));
        assert forall|i: int| 0 <= i < d.len() implies is_digit(#[trigger] d[i]) by {
            if i < d.len() - 1 {
                assert(d[i] == crate::text::decimal(n / 10)[i]);
            }
        }
    } else {
        assert(d.drop_last() =~= Seq::<char>::empty());
    }
}

/// A number written in decimal is read back, with a plus sign or without one.
pub proof fn law_decimal_is_read_back(n: u32)
    ensures
        number_in(crate::text::decimal(n as nat)) == Some(n),
        number_in(seq!['+'] + crate::text::decimal(n as nat)) == Some(n),
{
    lemma_digits_value_of_decimal(n as nat);
    let d = crate::text::decimal(n as nat);
    assert(is_digit(d[0]));
    assert((seq!['+'] + d).skip(1) =~= d);
}

/// What is no row of digits, one plus sign aside, is no number, nor is what 32
/// bits do not hold.
pub proof fn law_other_texts_are_no_numbers(s: Seq<char>, i: int, n: nat)
    requires
        0 <= i < s.len(),
    ensures
        !('0' <= s[i] && s[i] <= '9') && (i > 0 || s[i] != '+') ==> number_in(s) is None,
        number_in(Seq::empty()) is None,
        number_in(seq!['+']) is None,
        n > u32::MAX ==> number_in(crate::text::decimal(n)) is None,
{
    if !('0' <= s[i] && s[i] <= '9') && (i > 0 || s[i] != '+') {
        let d = number_digits(s);
        if s[0] == '+' {
            assert(d[i - 1] == s[i]);
        } else {
            assert(d[i] == s[i]);
        }
    }
    lemma_digits_value_of_decimal(n);
    let d = crate::text::decimal(n);
    assert(is_digit(d[0]));
}

/// A zero in front changes no number.
pub proof fn law_leading_zeros_are_passed_over(d: Seq<char>)
    requires
        d.len() > 0,
        forall|i: int| 0 <= i < d.len() ==> is_digit(#[trigger] d[i]),
    ensures
        digits_value(seq!['0'] + d) == digits_value(d),
        number_in(seq!['0'] + d) == number_in(d),
{
    lemma_leading_zero(d);
    let z = seq!['0'] + d;
    assert(is_digit(d[0]));
    assert forall|i: int| 0 <= i < z.len() implies is_digit(#[trigger] z[i]) by {
        if i > 0 {
            assert(z[i] == d[i - 1]);
        }
    }
}

proof fn lemma_leading_zero(d: Seq<char>)
    ensures
        digits_value(seq!['0'] + d) == digits_value(d),
    decreases d.len(),
{
    let z = seq!['0'] + d;
    if d.len() == 0 {
        assert(z.drop_last() =~= Seq::<char>::empty());
        assert(digits_value(z.drop_last()) == 0);
    } else {
        lemma_leading_zero(d.drop_last());
        assert(z.drop_last() =~= seq!['0'] + d.drop_last());
    }
}

/// A front that is cut as often as it stands there: what is left does not
/// begin with it, and one more copy in front changes nothing.
pub proof fn law_all_copies_are_cut(s: Seq<char>, p: Seq<char>)
    requires
        p.len() > 0,
    ensures
        !starts_with(strip_all(s, p), p),
        strip_all(p + s, p) == strip_all(s, p),
        !starts_with(s, p) ==> strip_all(s, p) == s,
    decreases s.len(),
{
    if starts_with(s, p) {
        law_all_copies_are_cut(s.skip(p.len() as int), p);
    }
    assert((p + s).take(p.len() as int) =~= p);
    assert((p + s).skip(p.len() as int) =~= s);
}

/// A word behind white space is the last word; white space at the end adds
/// none, and a text without white space is its only word.
pub proof fn law_words_stand_apart(a: Seq<char>, gap: char, w: Seq<char>)
    requires
        white_space(gap),
        forall|i: int| 0 <= i < w.len() ==> !white_space(#[trigger] w[i]),
        w.len() > 0,
    ensures
        words(w) == seq![w],
        words(a + seq![gap]) == words(a),
        words(a + seq![gap] + w) == words(a).push(w),
        words(Seq::empty()).len() == 0,
{
    let g = a + seq![gap];
    assert(g.drop_last() =~= a);
    assert(scan_words(g) == (words(a), Seq::<char>::empty()));
    lemma_scan_word(g, w);
    assert(Seq::<char>::empty() + w =~= w);
    lemma_scan_word(Seq::empty(), w);
    assert(words(w) =~= seq![w]);
}

proof fn lemma_scan_word(s: Seq<char>, w: Seq<char>)
    requires
        forall|i: int| 0 <= i < w.len() ==> !white_space(#[trigger] w[i]),
    ensures
        scan_words(s + w) == (scan_words(s).0, scan_words(s).1 + w),
    decreases w.len(),
{
    if w.len() == 0 {
        assert(s + w =~= s);
        assert(scan_words(s).1 + w =~= scan_words(s).1);
    } else {
        lemma_scan_word(s, w.drop_last());
        assert((s + w).drop_last() =~= s + w.drop_last());
        assert(!white_space(w[w.len() - 1]));
        assert(scan_words(s).1 + w.drop_last() + seq![w.last()] =~= scan_words(s).1 + w);
        assert((scan_words(s).1 + w.drop_last()).push(w.last()) =~= scan_words(s).1 + w);
    }
}

} // verus!
