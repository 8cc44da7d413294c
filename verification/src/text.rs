//! Strings as sequences of characters: decimal numbers, splitting, replacing and searching.
use vstd::prelude::*;
use vstd::string::{StrSliceExecFns, StringExecFns};

verus! {

/// `String::push` appends one character to the end of the string.
pub assume_specification[ String::push ](s: &mut String, c: char)
    ensures
        final(s)@ == old(s)@.push(c),
;

/// The characters of a text, in order.
pub fn chars_of(text: &str) -> (chars: Vec<char>)
    ensures
        chars@ == text@,
{
    let mut chars: Vec<char> = Vec::new();
    for c in it: text.chars()
        invariant
            chars@ == it.seq().take(it.index() as int),
            it.seq() == text@,
    {
        chars.push(c);
    }
    chars
}

/// The text made of the given characters.
pub fn text_of(chars: &[char]) -> (text: String)
    ensures
        text@ == chars@,
{
    let mut text = String::new();
    let mut i: usize = 0;
    while i < chars.len()
        invariant
            0 <= i <= chars@.len(),
            text@ == chars@.take(i as int),
        decreases chars@.len() - i,
    {
        text.push(chars[i]);
        i = i + 1;
    }
    assert(chars@.take(i as int) == chars@);
    text
}

/// The decimal digit that stands for `d`.
pub open spec fn digit_char(d: nat) -> char
    recommends
        d < 10,
{
    (48 + d) as char
}

/// The decimal notation of `n`, without leading zeros.
pub open spec fn decimal(n: nat) -> Seq<char>
    decreases n,
{
    if n < 10 {
        seq![digit_char(n)]
    } else {
        decimal(n / 10).push(digit_char(n % 10))
    }
}

/// Appends the decimal notation of `n`.
pub fn push_decimal(text: &mut String, n: u64)
    ensures
        final(text)@ == old(text)@ + decimal(n as nat),
    decreases n,
{
    if n >= 10 {
        push_decimal(text, n / 10);
    }
    let d: u8 = (n % 10) as u8;
    text.push((48u8 + d) as char);
    assert(text@ == old(text)@ + decimal(n as nat));
}

/// The decimal notation of `n` as a text of its own.
pub fn decimal_text(n: u64) -> (text: String)
    ensures
        text@ == decimal(n as nat),
{
    let mut text = String::new();
    push_decimal(&mut text, n);
    text
}

/// A decimal digit.
pub open spec fn is_digit(c: char) -> bool {
    '0' <= c <= '9'
}

/// The number that a row of decimal digits denotes.
pub open spec fn digits_value(digits: Seq<char>) -> nat
    decreases digits.len(),
{
    if digits.len() == 0 {
        0
    } else {
        digits_value(digits.drop_last()) * 10 + (digits.last() as nat - 48) as nat
    }
}

/// A text without its leading plus sign, where it has one.
pub open spec fn without_plus(text: Seq<char>) -> Seq<char> {
    if text.len() > 0 && text[0] == '+' {
        text.skip(1)
    } else {
        text
    }
}

/// What a text denotes as an unsigned number of at most `max`: an optional plus sign, then one or
/// more decimal digits and nothing else.
pub open spec fn unsigned_value(text: Seq<char>, max: nat) -> Option<nat> {
    let digits = without_plus(text);
    if digits.len() > 0 && (forall|i: int| 0 <= i < digits.len() ==> is_digit(#[trigger] digits[i]))
        && digits_value(digits) <= max {
        Some(digits_value(digits))
    } else {
        None
    }
}

proof fn lemma_digits_value_monotone(digits: Seq<char>, i: int)
    requires
        0 <= i <= digits.len(),
        forall|k: int| 0 <= k < digits.len() ==> is_digit(#[trigger] digits[k]),
    ensures
        digits_value(digits.take(i)) <= digits_value(digits),
    decreases digits.len() - i,
{
    if i < digits.len() {
        lemma_digits_value_monotone(digits, i + 1);
        assert(digits.take(i + 1).drop_last() == digits.take(i));
    } else {
        assert(digits.take(i) == digits);
    }
}

/// Reads an unsigned number of at most `max`.
pub fn parse_unsigned(text: &str, max: u64) -> (number: Option<u64>)
    ensures
        number is Some <==> unsigned_value(text@, max as nat) is Some,
        number matches Some(n) ==> n as nat == unsigned_value(text@, max as nat)->0,
{
    let chars = chars_of(text);
    let start: usize = if chars.len() > 0 && chars[0] == '+' {
        1
    } else {
        0
    };
    let ghost digits = without_plus(text@);
    assert(digits == chars@.skip(start as int));
    if chars.len() == start {
        return None;
    }
    let mut value: u64 = 0;
    let mut i: usize = start;
    while i < chars.len()
        invariant
            start <= i <= chars@.len(),
            start <= 1,
            start < chars@.len(),
            chars@ == text@,
            digits == without_plus(text@),
            digits == chars@.skip(start as int),
            forall|k: int| 0 <= k < i - start ==> is_digit(#[trigger] digits[k]),
            value == digits_value(digits.take(i - start)),
            value <= max,
        decreases chars@.len() - i,
    {
        let c = chars[i];
        assert(digits[i - start] == c);
        if c < '0' || c > '9' {
            assert(!is_digit(digits[i - start]));
            return None;
        }
        let d: u64 = (c as u32 - 48) as u64;
        assert(digits.take(i + 1 - start).drop_last() == digits.take(i - start));
        assert(digits_value(digits.take(i + 1 - start)) == value * 10 + d);
        if d > max || value > (max - d) / 10 {
            proof {
                if forall|k: int| 0 <= k < digits.len() ==> is_digit(#[trigger] digits[k]) {
                    lemma_digits_value_monotone(digits, i + 1 - start);
                }
            }
            return None;
        }
        value = value * 10 + d;
        i = i + 1;
    }
    assert(digits.take(i - start) == digits);
    Some(value)
}

/// The decimal notation consists of digits, is not empty and denotes the number it was made from.
pub proof fn lemma_decimal_value(n: nat)
    ensures
        decimal(n).len() > 0,
        forall|i: int| 0 <= i < decimal(n).len() ==> is_digit(#[trigger] decimal(n)[i]),
        digits_value(decimal(n)) == n,
    decreases n,
{
    if n < 10 {
        assert(decimal(n).drop_last() == Seq::<char>::empty());
        assert(digits_value(Seq::<char>::empty()) == 0);
    } else {
        lemma_decimal_value(n / 10);
        assert(decimal(n).drop_last() == decimal(n / 10));
    }
}

/// Reading back a number that was written in decimal gives the number.
pub proof fn law_decimal_round_trip(n: nat, max: nat)
    requires
        n <= max,
    ensures
        unsigned_value(decimal(n), max) == Some(n),
{
    lemma_decimal_value(n);
    assert(is_digit(decimal(n)[0]));
}

/// Two numbers with the same decimal notation are the same number.
pub proof fn lemma_decimal_injective(m: nat, n: nat)
    requires
        decimal(m) == decimal(n),
    ensures
        m == n,
{
    lemma_decimal_value(m);
    lemma_decimal_value(n);
}

/// Whether two texts hold the same characters.
pub fn same_text(a: &str, b: &str) -> (same: bool)
    ensures
        same == (a@ == b@),
{
    let x = a.as_bytes();
    let y = b.as_bytes();
    proof {
        vstd::utf8::encode_utf8_decode_utf8(a@);
        vstd::utf8::encode_utf8_decode_utf8(b@);
    }
    if x.len() != y.len() {
        return false;
    }
    let mut i: usize = 0;
    while i < x.len()
        invariant
            x@.len() == y@.len(),
            0 <= i <= x@.len(),
            x@ == vstd::utf8::encode_utf8(a@),
            y@ == vstd::utf8::encode_utf8(b@),
            forall|k: int| 0 <= k < i ==> x@[k] == y@[k],
        decreases x@.len() - i,
    {
        if x[i] != y[i] {
            return false;
        }
        i = i + 1;
    }
    assert(x@ == y@);
    true
}

/// The pieces of a text between the occurrences of a separator: one more piece than separators.
pub open spec fn split(text: Seq<char>, separator: char) -> Seq<Seq<char>>
    decreases text.len(),
{
    if text.len() == 0 {
        seq![Seq::<char>::empty()]
    } else {
        let pieces = split(text.drop_last(), separator);
        if text.last() == separator {
            pieces.push(Seq::<char>::empty())
        } else {
            pieces.drop_last().push(pieces.last().push(text.last()))
        }
    }
}

/// The contents of a list of texts.
pub open spec fn texts(list: Seq<String>) -> Seq<Seq<char>> {
    list.map_values(|text: String| text@)
}

/// Splits a text at each occurrence of a separator.
pub fn split_text(text: &str, separator: char) -> (pieces: Vec<String>)
    ensures
        texts(pieces@) == split(text@, separator),
        pieces@.len() > 0,
{
    let chars = chars_of(text);
    let mut pieces: Vec<String> = Vec::new();
    let mut current = String::new();
    let mut i: usize = 0;
    while i < chars.len()
        invariant
            0 <= i <= chars@.len(),
            chars@ == text@,
            texts(pieces@).push(current@) == split(text@.take(i as int), separator),
        decreases chars@.len() - i,
    {
        let c = chars[i];
        assert(text@.take(i + 1).drop_last() == text@.take(i as int));
        assert(texts(pieces@).push(current@).drop_last() == texts(pieces@));
        if c == separator {
            pieces.push(current);
            current = String::new();
        } else {
            current.push(c);
        }
        i = i + 1;
    }
    assert(text@.take(i as int) == text@);
    pieces.push(current);
    pieces
}

/// A text without the separator splits into itself.
pub proof fn lemma_split_single(text: Seq<char>, separator: char)
    requires
        !text.contains(separator),
    ensures
        split(text, separator) == seq![text],
    decreases text.len(),
{
    if text.len() > 0 {
        assert(text[text.len() - 1] != separator);
        assert forall|c: char| text.drop_last().contains(c) implies text.contains(c) by {
            let i = choose|i: int| 0 <= i < text.drop_last().len() && text.drop_last()[i] == c;
            assert(text[i] == c);
        }
        lemma_split_single(text.drop_last(), separator);
        assert(text.drop_last().push(text.last()) == text);
        assert(seq![text.drop_last()].drop_last() == Seq::<Seq<char>>::empty());
        assert(split(text, separator) =~= seq![text]);
    } else {
        assert(text == Seq::<char>::empty());
    }
}

/// A text joined by the separator to one without it splits into the pieces of the first and the
/// second as one more piece.
pub proof fn lemma_split_joined(front: Seq<char>, back: Seq<char>, separator: char)
    requires
        !back.contains(separator),
    ensures
        split(front.push(separator) + back, separator) == split(front, separator).push(back),
    decreases back.len(),
{
    if back.len() == 0 {
        assert(front.push(separator) + back == front.push(separator));
        assert(front.push(separator).drop_last() == front);
        assert(back == Seq::<char>::empty());
    } else {
        let shorter = back.drop_last();
        assert(back[back.len() - 1] != separator);
        assert forall|c: char| shorter.contains(c) implies back.contains(c) by {
            let i = choose|i: int| 0 <= i < shorter.len() && shorter[i] == c;
            assert(back[i] == c);
        }
        lemma_split_joined(front, shorter, separator);
        let whole = front.push(separator) + back;
        assert(whole.drop_last() == front.push(separator) + shorter);
        assert(shorter.push(back.last()) == back);
        assert(split(front, separator).push(shorter).drop_last() == split(front, separator));
    }
}

/// A part of a path that leads somewhere: an empty part and a single dot lead nowhere.
pub open spec fn leads_on(part: Seq<char>) -> bool {
    part.len() > 0 && part != "."@
}

/// The parts that lead somewhere, in order.
pub open spec fn leading_on(pieces: Seq<Seq<char>>) -> Seq<Seq<char>>
    decreases pieces.len(),
{
    if pieces.len() == 0 {
        Seq::empty()
    } else if leads_on(pieces.last()) {
        leading_on(pieces.drop_last()).push(pieces.last())
    } else {
        leading_on(pieces.drop_last())
    }
}

/// The parts of a path below a directory: the names between its slashes.
pub open spec fn path_parts(path: Seq<char>) -> Seq<Seq<char>> {
    leading_on(split(path, '/'))
}

/// The parts of a path below a directory.
pub fn split_path(path: &str) -> (parts: Vec<String>)
    ensures
        texts(parts@) == path_parts(path@),
{
    let pieces = split_text(path, '/');
    let ghost views = texts(pieces@);
    let mut parts: Vec<String> = Vec::new();
    assert(texts(parts@) =~= Seq::<Seq<char>>::empty());
    let mut i: usize = 0;
    while i < pieces.len()
        invariant
            0 <= i <= pieces@.len(),
            views == texts(pieces@),
            texts(parts@) == leading_on(views.take(i as int)),
        decreases pieces@.len() - i,
    {
        let ghost before = texts(parts@);
        assert(views.take(i + 1).drop_last() == views.take(i as int));
        assert(views[i as int] == pieces@[i as int]@);
        if pieces[i].as_str().unicode_len() > 0 && !same_text(pieces[i].as_str(), ".") {
            parts.push(pieces[i].clone());
            assert(texts(parts@) =~= before.push(views[i as int]));
        }
        i = i + 1;
    }
    assert(views.take(i as int) == views);
    parts
}

/// Where every part leads somewhere, all of them stay.
pub proof fn lemma_leading_on(pieces: Seq<Seq<char>>)
    requires
        forall|i: int| 0 <= i < pieces.len() ==> leads_on(#[trigger] pieces[i]),
    ensures
        leading_on(pieces) == pieces,
    decreases pieces.len(),
{
    if pieces.len() > 0 {
        let front = pieces.drop_last();
        assert forall|i: int| 0 <= i < front.len() implies leads_on(#[trigger] front[i]) by {
            assert(front[i] == pieces[i]);
        }
        lemma_leading_on(front);
        assert(leads_on(pieces[pieces.len() - 1]));
        assert(front.push(pieces.last()) =~= pieces);
    } else {
        assert(leading_on(pieces) =~= pieces);
    }
}

/// The lower case form of an ASCII letter; any other character as it is.
pub open spec fn lower_char(c: char) -> char {
    if 'A' <= c <= 'Z' {
        (c as u32 + 32) as char
    } else {
        c
    }
}

/// A text with its ASCII letters in lower case.
pub open spec fn lower(text: Seq<char>) -> Seq<char> {
    text.map_values(|c: char| lower_char(c))
}

/// A text with its ASCII letters in lower case.
pub fn lower_text(text: &str) -> (result: String)
    ensures
        result@ == lower(text@),
{
    let chars = chars_of(text);
    let mut result = String::new();
    let mut i: usize = 0;
    while i < chars.len()
        invariant
            0 <= i <= chars@.len(),
            chars@ == text@,
            result@ == lower(text@.take(i as int)),
        decreases chars@.len() - i,
    {
        let c = chars[i];
        if 'A' <= c && c <= 'Z' {
            let code: u8 = c as u8;
            result.push((code + 32u8) as char);
        } else {
            result.push(c);
        }
        assert(result@ == lower(text@.take(i + 1)));
        i = i + 1;
    }
    assert(text@.take(i as int) == text@);
    result
}

/// Whether a row of characters starts with the given ones.
pub fn chars_start_with(chars: &[char], start: &[char]) -> (answer: bool)
    ensures
        answer == start@.is_prefix_of(chars@),
{
    if start.len() > chars.len() {
        return false;
    }
    let mut i: usize = 0;
    while i < start.len()
        invariant
            0 <= i <= start@.len() <= chars@.len(),
            forall|k: int| 0 <= k < i ==> start@[k] == chars@[k],
        decreases start@.len() - i,
    {
        if start[i] != chars[i] {
            assert(start@[i as int] != chars@.subrange(0, start@.len() as int)[i as int]);
            return false;
        }
        i = i + 1;
    }
    assert(start@ =~= chars@.subrange(0, start@.len() as int));
    true
}

/// Whether a text starts with another.
pub fn starts_with(text: &str, start: &str) -> (answer: bool)
    ensures
        answer == start@.is_prefix_of(text@),
{
    let a = chars_of(text);
    let b = chars_of(start);
    chars_start_with(a.as_slice(), b.as_slice())
}

/// Whether a text ends with another.
pub fn ends_with(text: &str, end: &str) -> (answer: bool)
    ensures
        answer == end@.is_suffix_of(text@),
{
    let a = chars_of(text);
    let b = chars_of(end);
    if b.len() > a.len() {
        return false;
    }
    let offset: usize = a.len() - b.len();
    let tail = vstd::slice::slice_subrange(a.as_slice(), offset, a.len());
    chars_start_with(tail, b.as_slice())
}

/// A text with each occurrence of `pattern`, searched from the left, in place of which `with`
/// stands.
pub open spec fn replaced(text: Seq<char>, pattern: Seq<char>, with: Seq<char>) -> Seq<char>
    decreases text.len(),
{
    if text.len() == 0 {
        Seq::<char>::empty()
    } else if pattern.len() > 0 && pattern.is_prefix_of(text) {
        with + replaced(text.skip(pattern.len() as int), pattern, with)
    } else {
        seq![text[0]] + replaced(text.skip(1), pattern, with)
    }
}

/// Replaces each occurrence of a pattern that is not empty.
pub fn replace_text(text: &str, pattern: &str, with: &str) -> (result: String)
    requires
        pattern@.len() > 0,
    ensures
        result@ == replaced(text@, pattern@, with@),
{
    let chars = chars_of(text);
    let sought = chars_of(pattern);
    let mut result = String::new();
    let mut i: usize = 0;
    assert(text@.skip(0) == text@);
    while i < chars.len()
        invariant
            0 <= i <= chars@.len(),
            chars@ == text@,
            sought@ == pattern@,
            pattern@.len() > 0,
            result@ + replaced(text@.skip(i as int), pattern@, with@) == replaced(
                text@,
                pattern@,
                with@,
            ),
        decreases chars@.len() - i,
    {
        let rest = vstd::slice::slice_subrange(chars.as_slice(), i, chars.len());
        assert(rest@ == text@.skip(i as int));
        let ghost before = result@;
        if chars_start_with(rest, sought.as_slice()) {
            result.append(with);
            assert(rest@.skip(pattern@.len() as int) == text@.skip(i + pattern@.len()));
            assert(before + (with@ + replaced(rest@.skip(pattern@.len() as int), pattern@, with@))
                == before + with@ + replaced(rest@.skip(pattern@.len() as int), pattern@, with@));
            i = i + sought.len();
        } else {
            result.push(chars[i]);
            assert(rest@.skip(1) == text@.skip(i + 1));
            assert(before + (seq![rest@[0]] + replaced(rest@.skip(1), pattern@, with@))
                == before.push(rest@[0]) + replaced(rest@.skip(1), pattern@, with@));
            i = i + 1;
        }
    }
    assert(replaced(text@.skip(i as int), pattern@, with@) == Seq::<char>::empty());
    assert(result@ + Seq::<char>::empty() == result@);
    result
}

/// A text without the given character at its start, however often it stands there.
pub open spec fn without_leading(text: Seq<char>, c: char) -> Seq<char>
    decreases text.len(),
{
    if text.len() > 0 && text[0] == c {
        without_leading(text.skip(1), c)
    } else {
        text
    }
}

/// Drops a character from the start of a text as often as it stands there.
pub fn trim_leading(text: &str, c: char) -> (result: String)
    ensures
        result@ == without_leading(text@, c),
{
    let chars = chars_of(text);
    let mut i: usize = 0;
    assert(text@.skip(0) == text@);
    while i < chars.len() && chars[i] == c
        invariant
            0 <= i <= chars@.len(),
            chars@ == text@,
            without_leading(text@.skip(i as int), c) == without_leading(text@, c),
        decreases chars@.len() - i,
    {
        assert(text@.skip(i as int).skip(1) == text@.skip(i + 1));
        i = i + 1;
    }
    assert(chars@.subrange(i as int, chars@.len() as int) == text@.skip(i as int));
    text_of(vstd::slice::slice_subrange(chars.as_slice(), i, chars.len()))
}

/// A decimal notation ends in the digit of the units and starts with what stands for the rest; a
/// single digit stands for itself, from zero to nine, and only zero starts with a zero.
pub proof fn law_decimal_digits(n: nat, d: nat)
    requires
        d < 10,
    ensures
        n > 0 ==> decimal(10 * n + d) == decimal(n).push((48 + d) as char),
        decimal(d) == seq![(48 + d) as char],
        '0' as nat == 48,
        decimal(n)[0] == '0' ==> n == 0,
{
    if n > 0 {
        assert((10 * n + d) / 10 == n && (10 * n + d) % 10 == d);
    }
    lemma_leading_digit(n);
}

proof fn lemma_leading_digit(n: nat)
    ensures
        decimal(n).len() > 0,
        decimal(n)[0] == '0' ==> n == 0,
    decreases n,
{
    if n >= 10 {
        lemma_leading_digit(n / 10);
        assert(decimal(n)[0] == decimal(n / 10)[0]);
    }
}

/// A row of digits counts its first digit as often as ten to the number of digits that follow.
pub proof fn law_digit_weights(c: char, rest: Seq<char>)
    requires
        '0' <= c <= '9',
        forall|i: int| 0 <= i < rest.len() ==> '0' <= #[trigger] rest[i] <= '9',
    ensures
        digits_value(seq![c] + rest) == (c as nat - 48) * vstd::arithmetic::power::pow(
            10,
            rest.len(),
        ) + digits_value(rest),
    decreases rest.len(),
{
    let whole = seq![c] + rest;
    if rest.len() == 0 {
        vstd::arithmetic::power::lemma_pow0(10);
        assert(whole.drop_last() =~= Seq::<char>::empty());
        assert(whole.last() == c);
        assert(digits_value(Seq::<char>::empty()) == 0);
    } else {
        let front = rest.drop_last();
        assert forall|i: int| 0 <= i < front.len() implies '0' <= #[trigger] front[i] <= '9' by {
            assert(front[i] == rest[i]);
        }
        law_digit_weights(c, front);
        assert(whole.drop_last() =~= seq![c] + front);
        assert(whole.last() == rest.last());
        assert('0' <= rest[rest.len() - 1]);
        let p = vstd::arithmetic::power::pow(10, front.len());
        vstd::arithmetic::power::lemma_pow_adds(10, front.len(), 1);
        vstd::arithmetic::power::lemma_pow1(10);
        let w = c as nat - 48;
        assert((w * p) * 10 == w * (p * 10)) by (nonlinear_arith);
    }
}

/// A number may have one plus sign before it and zeros before its digits; a text without digits,
/// one with any other character and one above the limit is no number.
pub proof fn law_unsigned_texts(text: Seq<char>, max: nat)
    ensures
        (text.len() == 0 || text[0] != '+') ==> unsigned_value(seq!['+'] + text, max)
            == unsigned_value(text, max),
        unsigned_value(seq!['+', '+'] + text, max) is None,
        text.len() > 0 && '0' <= text[0] <= '9' ==> unsigned_value(seq!['0'] + text, max)
            == unsigned_value(text, max),
        text.len() == 0 ==> unsigned_value(text, max) is None,
        (exists|i: int|
            0 < i < text.len() && !('0' <= #[trigger] text[i] <= '9')) ==> unsigned_value(text, max)
            is None,
        text.len() > 0 && text[0] != '+' && !('0' <= text[0] <= '9') ==> unsigned_value(text, max)
            is None,
        unsigned_value(text, max) matches Some(n) ==> n <= max,
        text.len() > 0 && (forall|i: int| 0 <= i < text.len() ==> '0' <= #[trigger] text[i] <= '9')
            ==> unsigned_value(text, max) == (if digits_value(text) <= max {
            Some(digits_value(text))
        } else {
            None
        }),
{
    let signed = seq!['+'] + text;
    assert(signed.skip(1) =~= text);
    let twice = seq!['+', '+'] + text;
    assert(without_plus(twice) =~= seq!['+'] + text);
    assert(!is_digit(without_plus(twice)[0]));
    if exists|i: int| 0 < i < text.len() && !('0' <= #[trigger] text[i] <= '9') {
        let i = choose|i: int| 0 < i < text.len() && !('0' <= #[trigger] text[i] <= '9');
        let digits = without_plus(text);
        if text[0] == '+' {
            assert(digits[i - 1] == text[i]);
            assert(!is_digit(digits[i - 1]));
        } else {
            assert(!is_digit(digits[i]));
        }
    }
    if text.len() > 0 && '0' <= text[0] <= '9' {
        let padded = seq!['0'] + text;
        assert(padded[0] == '0');
        if forall|i: int| 0 <= i < text.len() ==> is_digit(#[trigger] text[i]) {
            assert forall|i: int| 0 <= i < text.len() implies '0' <= #[trigger] text[i] <= '9' by {
                assert(is_digit(text[i]));
            }
            assert forall|i: int| 0 <= i < padded.len() implies is_digit(#[trigger] padded[i]) by {
                if i > 0 {
                    assert(padded[i] == text[i - 1]);
                    assert(is_digit(text[i - 1]));
                }
            }
            law_digit_weights('0', text);
            let p = vstd::arithmetic::power::pow(10, text.len());
            assert(0 * p == 0);
        } else {
            let i = choose|i: int| 0 <= i < text.len() && !is_digit(#[trigger] text[i]);
            assert(padded[i + 1] == text[i]);
            assert(!is_digit(padded[i + 1]));
        }
    }
}

/// Pieces with a separator between each and the next.
pub open spec fn with_separator(pieces: Seq<Seq<char>>, separator: char) -> Seq<char>
    decreases pieces.len(),
{
    if pieces.len() == 0 {
        Seq::<char>::empty()
    } else if pieces.len() == 1 {
        pieces[0]
    } else {
        with_separator(pieces.drop_last(), separator).push(separator) + pieces.last()
    }
}

/// Splitting takes the separators out and nothing else: the pieces hold none, and put together
/// again with one between each and the next they are the text.
pub proof fn law_split_joins_back(text: Seq<char>, separator: char)
    ensures
        split(text, separator).len() > 0,
        with_separator(split(text, separator), separator) == text,
        forall|i: int|
            0 <= i < split(text, separator).len() ==> !(#[trigger] split(
                text,
                separator,
            )[i]).contains(separator),
    decreases text.len(),
{
    let all = split(text, separator);
    if text.len() == 0 {
        assert(with_separator(all, separator) =~= text);
    } else {
        law_split_joins_back(text.drop_last(), separator);
        let pieces = split(text.drop_last(), separator);
        assert(text =~= text.drop_last().push(text.last()));
        if text.last() == separator {
            assert(all.drop_last() =~= pieces);
            assert(with_separator(all, separator) =~= text);
        } else {
            assert(all.drop_last() =~= pieces.drop_last());
            assert(all.last() =~= pieces.last().push(text.last()));
            if pieces.len() == 1 {
                assert(with_separator(all, separator) =~= text);
            } else {
                assert(with_separator(pieces, separator) =~= with_separator(
                    pieces.drop_last(),
                    separator,
                ).push(separator) + pieces.last());
                assert(with_separator(all, separator) =~= text);
            }
            assert forall|i: int| 0 <= i < all.len() implies !(#[trigger] all[i]).contains(
                separator,
            ) by {
                if i < all.len() - 1 {
                    assert(all[i] == pieces[i]);
                } else {
                    let last = pieces[pieces.len() - 1];
                    assert(!last.contains(separator));
                    if all[i].contains(separator) {
                        let k = choose|k: int| 0 <= k < all[i].len() && all[i][k] == separator;
                        assert(last[k] == separator);
                    }
                }
            }
        }
    }
}

/// The parts of a path are the names between its slashes, in order; empty names and single dots
/// are left out, and nothing else is.
pub proof fn law_path_parts(front: Seq<char>, name: Seq<char>)
    requires
        !name.contains('/'),
    ensures
        name.len() == 0 || name == seq!['.'] ==> path_parts(name) == Seq::<Seq<char>>::empty()
            && path_parts(front.push('/') + name) == path_parts(front),
        name.len() > 0 && name != seq!['.'] ==> path_parts(name) == seq![name] && path_parts(
            front.push('/') + name,
        ) == path_parts(front).push(name),
{
    reveal_strlit(".");
    assert("."@ =~= seq!['.']);
    lemma_split_single(name, '/');
    lemma_split_joined(front, name, '/');
    let pieces = split(front, '/').push(name);
    assert(pieces.drop_last() =~= split(front, '/'));
    assert(seq![name].drop_last() =~= Seq::<Seq<char>>::empty());
    assert(leading_on(Seq::<Seq<char>>::empty()) =~= Seq::<Seq<char>>::empty());
    if name.len() > 0 && name != seq!['.'] {
        assert(Seq::<Seq<char>>::empty().push(name) =~= seq![name]);
    }
}

/// Lower case changes the letters from `A` to `Z`, each into the letter that stands as far from
/// `a`, and nothing else; doing it twice is doing it once.
pub proof fn law_lower_case(text: Seq<char>)
    ensures
        lower(text).len() == text.len(),
        forall|i: int|
            0 <= i < text.len() ==> {
                let c = #[trigger] lower(text)[i];
                &&& 'A' <= text[i] <= 'Z' ==> c as int - 'a' as int == text[i] as int - 'A' as int
                &&& !('A' <= text[i] <= 'Z') ==> c == text[i]
            },
        lower(lower(text)) == lower(text),
{
    assert(lower(lower(text)) =~= lower(text));
}

/// A text that nowhere holds the pattern.
pub open spec fn never_holds(text: Seq<char>, pattern: Seq<char>) -> bool {
    forall|i: int| 0 <= i <= text.len() ==> !pattern.is_prefix_of(#[trigger] text.skip(i))
}

/// Replacing puts the new text in place of the first occurrence and goes on behind it; a text that
/// does not hold the pattern stays as it is.
pub proof fn law_first_occurrence_is_replaced(
    front: Seq<char>,
    pattern: Seq<char>,
    back: Seq<char>,
    with: Seq<char>,
)
    requires
        pattern.len() > 0,
        forall|i: int|
            0 <= i < front.len() ==> !pattern.is_prefix_of(
                #[trigger] (front + pattern + back).skip(i),
            ),
    ensures
        replaced(front + pattern + back, pattern, with) == front + with + replaced(
            back,
            pattern,
            with,
        ),
    decreases front.len(),
{
    let whole = front + pattern + back;
    if front.len() == 0 {
        assert(whole.skip(pattern.len() as int) =~= back);
        assert(pattern =~= whole.subrange(0, pattern.len() as int));
        assert(front + with + replaced(back, pattern, with) =~= with + replaced(
            back,
            pattern,
            with,
        ));
    } else {
        let rest = front.skip(1);
        let shorter = rest + pattern + back;
        assert(whole.skip(0) =~= whole);
        assert(whole.skip(1) =~= shorter);
        assert forall|i: int| 0 <= i < rest.len() implies !pattern.is_prefix_of(
            #[trigger] shorter.skip(i),
        ) by {
            assert(whole.skip(i + 1) =~= shorter.skip(i));
        }
        law_first_occurrence_is_replaced(rest, pattern, back, with);
        assert(front =~= seq![front[0]] + rest);
        assert(front + with + replaced(back, pattern, with) =~= seq![front[0]] + (rest + with
            + replaced(back, pattern, with)));
    }
}

/// A text that does not hold the pattern stays as it is.
pub proof fn law_nothing_to_replace(text: Seq<char>, pattern: Seq<char>, with: Seq<char>)
    requires
        never_holds(text, pattern),
    ensures
        replaced(text, pattern, with) == text,
    decreases text.len(),
{
    if text.len() > 0 {
        let rest = text.skip(1);
        assert(text.skip(0) =~= text);
        assert forall|i: int| 0 <= i <= rest.len() implies !pattern.is_prefix_of(
            #[trigger] rest.skip(i),
        ) by {
            assert(text.skip(i + 1) =~= rest.skip(i));
        }
        law_nothing_to_replace(rest, pattern, with);
        assert(seq![text[0]] + rest =~= text);
    } else {
        assert(replaced(text, pattern, with) =~= text);
    }
}

/// What stays of a text is its end, from the first character that is not the one to be dropped;
/// everything before it is that character.
pub proof fn law_leading_characters(text: Seq<char>, c: char)
    ensures
        ({
            let rest = without_leading(text, c);
            &&& rest.len() <= text.len()
            &&& text.skip(text.len() - rest.len()) == rest
            &&& rest.len() > 0 ==> rest[0] != c
            &&& forall|i: int| 0 <= i < text.len() - rest.len() ==> #[trigger] text[i] == c
        }),
    decreases text.len(),
{
    let rest = without_leading(text, c);
    if text.len() > 0 && text[0] == c {
        law_leading_characters(text.skip(1), c);
        assert(text.skip(1).skip(text.len() - 1 - rest.len()) =~= text.skip(
            text.len() - rest.len(),
        ));
        assert forall|i: int| 0 <= i < text.len() - rest.len() implies #[trigger] text[i] == c by {
            if i > 0 {
                assert(text.skip(1)[i - 1] == text[i]);
            }
        }
    } else {
        assert(text.skip(0) =~= text);
    }
}

} // verus!
