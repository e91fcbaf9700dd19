//! Text as sequences of characters: comparison, search, replacement and decimal digits.
use vstd::prelude::*;
use vstd::utf8::encode_utf8;

verus! {

/// `std::string::String::push` appends one character to the end of the text.
pub assume_specification[ std::string::String::push ](text: &mut std::string::String, c: char)
    ensures
        final(text)@ == old(text)@.push(c),
;

/// Whether a character has the Unicode property `White_Space`.
pub open spec fn is_white_space(c: char) -> bool {
    ||| '\u{9}' <= c && c <= '\u{d}'
    ||| c == ' '
    ||| c == '\u{85}'
    ||| c == '\u{a0}'
    ||| c == '\u{1680}'
    ||| '\u{2000}' <= c && c <= '\u{200a}'
    ||| c == '\u{2028}'
    ||| c == '\u{2029}'
    ||| c == '\u{202f}'
    ||| c == '\u{205f}'
    ||| c == '\u{3000}'
}

/// Whether a character has the Unicode property `White_Space`.
pub fn is_white(c: char) -> (white: bool)
    ensures
        white == is_white_space(c),
{
    ('\u{9}' <= c && c <= '\u{d}') || c == ' ' || c == '\u{85}' || c == '\u{a0}' || c == '\u{1680}'
        || ('\u{2000}' <= c && c <= '\u{200a}') || c == '\u{2028}' || c == '\u{2029}' || c
        == '\u{202f}' || c == '\u{205f}' || c == '\u{3000}'
}

/// The characters of a text.
pub fn chars_of(text: &str) -> (chars: Vec<char>)
    ensures
        chars@ == text@,
{
    let mut chars: Vec<char> = Vec::new();
    for c in iter: text.chars()
        invariant
            chars@ == iter.seq().take(iter.index() as int),
            iter.seq() == text@,
    {
        chars.push(c);
    }
    chars
}

/// Appends the characters `chars[from..to]` to a text.
pub fn push_chars(text: &mut String, chars: &Vec<char>, from: usize, to: usize)
    requires
        from <= to <= chars@.len(),
    ensures
        final(text)@ == old(text)@ + chars@.subrange(from as int, to as int),
{
    let ghost before = text@;
    assert(before + chars@.subrange(from as int, from as int) == before);
    for i in from..to
        invariant
            from <= i <= to <= chars@.len(),
            text@ == before + chars@.subrange(from as int, i as int),
    {
        text.push(chars[i]);
        assert(before + chars@.subrange(from as int, i + 1) == (before + chars@.subrange(
            from as int,
            i as int,
        )).push(chars@[i as int]));
    }
}

/// The text made of the characters `chars[from..to]`.
pub fn text_of(chars: &Vec<char>, from: usize, to: usize) -> (text: String)
    requires
        from <= to <= chars@.len(),
    ensures
        text@ == chars@.subrange(from as int, to as int),
{
    let mut text = String::new();
    push_chars(&mut text, chars, from, to);
    text
}

/// Distinct character sequences have distinct UTF-8 encodings.
pub proof fn lemma_encoding_injective(a: Seq<char>, b: Seq<char>)
    requires
        encode_utf8(a) == encode_utf8(b),
    ensures
        a == b,
{
    vstd::utf8::encode_utf8_decode_utf8(a);
    vstd::utf8::encode_utf8_decode_utf8(b);
}

/// Whether two texts hold the same characters.
pub fn same_text(a: &str, b: &str) -> (same: bool)
    ensures
        same == (a@ == b@),
{
    let left = a.as_bytes();
    let right = b.as_bytes();
    if left.len() != right.len() {
        return false;
    }
    for i in 0..left.len()
        invariant
            left@ == encode_utf8(a@),
            right@ == encode_utf8(b@),
            left@.len() == right@.len(),
            left@.take(i as int) == right@.take(i as int),
    {
        if left[i] != right[i] {
            return false;
        }
        assert(left@.take(i + 1) == left@.take(i as int).push(left@[i as int]));
        assert(right@.take(i + 1) == right@.take(i as int).push(right@[i as int]));
    }
    proof {
        assert(left@.take(left@.len() as int) == left@);
        assert(right@.take(right@.len() as int) == right@);
        lemma_encoding_injective(a@, b@);
    }
    true
}

/// The characters of an optional text.
pub open spec fn optional_text(text: Option<String>) -> Option<Seq<char>> {
    match text {
        Some(t) => Some(t@),
        None => None,
    }
}

/// The characters of each text in a list.
pub open spec fn texts(list: Seq<String>) -> Seq<Seq<char>> {
    list.map_values(|t: String| t@)
}

/// Whether a list holds a text.
pub fn contains_text(list: &Vec<String>, text: &str) -> (found: bool)
    ensures
        found == texts(list@).contains(text@),
{
    for i in 0..list.len()
        invariant
            forall|j: int| 0 <= j < i ==> texts(list@)[j] != text@,
    {
        if same_text(list[i].as_str(), text) {
            assert(texts(list@)[i as int] == text@);
            return true;
        }
    }
    false
}

/// A copy of a list of texts.
pub fn clone_texts(list: &Vec<String>) -> (copy: Vec<String>)
    ensures
        copy@ == list@,
{
    let mut copy: Vec<String> = Vec::new();
    for i in 0..list.len()
        invariant
            copy@ == list@.take(i as int),
    {
        copy.push(list[i].clone());
        assert(list@.take(i + 1) == list@.take(i as int).push(list@[i as int]));
    }
    assert(list@.take(list@.len() as int) == list@);
    copy
}

/// A copy of an optional text.
pub fn clone_optional(text: &Option<String>) -> (copy: Option<String>)
    ensures
        copy == *text,
{
    match text {
        Some(t) => Some(t.clone()),
        None => None,
    }
}

/// Whether `part` stands in `whole` at position `at`.
pub open spec fn occurs_at(whole: Seq<char>, part: Seq<char>, at: int) -> bool {
    0 <= at && at + part.len() <= whole.len() && whole.subrange(at, at + part.len()) == part
}

/// Whether `part` stands anywhere in `whole`.
pub open spec fn occurs(whole: Seq<char>, part: Seq<char>) -> bool {
    exists|at: int| #[trigger] occurs_at(whole, part, at)
}

/// Whether `part` stands in `whole` at position `at`.
pub fn matches_at(whole: &Vec<char>, part: &Vec<char>, at: usize) -> (found: bool)
    requires
        at <= whole@.len(),
    ensures
        found == occurs_at(whole@, part@, at as int),
{
    if part.len() > whole.len() - at {
        return false;
    }
    for i in 0..part.len()
        invariant
            at + part@.len() <= whole@.len() <= usize::MAX,
            forall|j: int| 0 <= j < i ==> whole@[at + j] == part@[j],
    {
        if whole[at + i] != part[i] {
            assert(whole@.subrange(at as int, at + part@.len())[i as int] != part@[i as int]);
            return false;
        }
    }
    assert(whole@.subrange(at as int, at + part@.len()) == part@);
    true
}

/// Whether a text starts with a prefix.
pub fn starts_with(text: &str, prefix: &str) -> (starts: bool)
    ensures
        starts == prefix@.is_prefix_of(text@),
{
    let whole = chars_of(text);
    let part = chars_of(prefix);
    let starts = matches_at(&whole, &part, 0);
    proof {
        if prefix@.is_prefix_of(text@) {
            assert(text@.subrange(0, prefix@.len() as int) == prefix@);
        }
    }
    starts
}

/// Whether a text contains another.
pub fn contains(text: &str, part: &str) -> (found: bool)
    ensures
        found == occurs(text@, part@),
{
    let whole = chars_of(text);
    let wanted = chars_of(part);
    let mut at: usize = 0;
    while at <= whole.len()
        invariant
            whole@ == text@,
            wanted@ == part@,
            at <= whole@.len() + 1,
            forall|i: int| 0 <= i < at ==> !occurs_at(text@, part@, i),
        decreases whole@.len() + 1 - at,
    {
        if matches_at(&whole, &wanted, at) {
            return true;
        }
        if at == whole.len() {
            return false;
        }
        at = at + 1;
    }
    false
}

/// The text in which every occurrence of a non-empty `part`, found from left to right without
/// overlap, is replaced; an empty `part` is found before every character and at the end.
pub open spec fn replaced(whole: Seq<char>, part: Seq<char>, with: Seq<char>) -> Seq<char>
    decreases whole.len(),
{
    if whole.len() == 0 {
        if part.len() == 0 {
            with
        } else {
            whole
        }
    } else if part.len() == 0 {
        with + seq![whole[0]] + replaced(whole.drop_first(), part, with)
    } else if occurs_at(whole, part, 0) {
        with + replaced(whole.skip(part.len() as int), part, with)
    } else {
        seq![whole[0]] + replaced(whole.drop_first(), part, with)
    }
}

/// Replaces every occurrence of `part` in a text.
pub fn replace_all(text: &str, part: &str, with: &str) -> (result: String)
    ensures
        result@ == replaced(text@, part@, with@),
{
    let whole = chars_of(text);
    let wanted = chars_of(part);
    let mut result = String::new();
    let mut at: usize = 0;
    assert(text@.skip(0) == text@);
    while at < whole.len()
        invariant
            whole@ == text@,
            wanted@ == part@,
            at <= whole@.len(),
            result@ + replaced(text@.skip(at as int), part@, with@) == replaced(text@, part@, with@),
        decreases whole@.len() - at,
    {
        let ghost rest = text@.skip(at as int);
        let ghost before = result@;
        assert(rest.len() > 0 && rest[0] == whole@[at as int]);
        assert(rest.drop_first() == text@.skip(at + 1));
        if wanted.len() == 0 {
            result.append(with);
            result.push(whole[at]);
            at = at + 1;
            assert(result@ + replaced(text@.skip(at as int), part@, with@) == before + (with@
                + seq![rest[0]] + replaced(text@.skip(at as int), part@, with@)));
        } else {
            let found = matches_at(&whole, &wanted, at);
            proof {
                if at + part@.len() <= whole@.len() {
                    assert(rest.subrange(0, part@.len() as int) == whole@.subrange(
                        at as int,
                        at + part@.len(),
                    ));
                }
                assert(found == occurs_at(rest, part@, 0));
            }
            if found {
                result.append(with);
                at = at + wanted.len();
                assert(rest.skip(part@.len() as int) == text@.skip(at as int));
                assert(result@ + replaced(text@.skip(at as int), part@, with@) == before + (with@
                    + replaced(text@.skip(at as int), part@, with@)));
            } else {
                result.push(whole[at]);
                at = at + 1;
                assert(result@ + replaced(text@.skip(at as int), part@, with@) == before + (seq![
                    rest[0],
                ] + replaced(text@.skip(at as int), part@, with@)));
            }
        }
    }
    assert(text@.skip(at as int).len() == 0);
    let ghost before = result@;
    if wanted.len() == 0 {
        result.append(with);
    } else {
        assert(before + text@.skip(at as int) == before);
    }
    result
}

/// Whether two texts have no character in common.
pub open spec fn disjoint(a: Seq<char>, b: Seq<char>) -> bool {
    forall|i: int, j: int|
        0 <= i < a.len() && 0 <= j < b.len() ==> #[trigger] a[i] != #[trigger] b[j]
}

/// The start of a text after a replacement, as far as it has none of the inserted characters, is
/// the start of the text before.
proof fn lemma_replaced_start(whole: Seq<char>, part: Seq<char>, with: Seq<char>, count: int)
    requires
        part.len() > 0,
        with.len() > 0,
        0 <= count <= replaced(whole, part, with).len(),
        forall|i: int, j: int|
            0 <= i < count && 0 <= j < with.len() ==> #[trigger] replaced(whole, part, with)[i]
                != #[trigger] with[j],
    ensures
        count <= whole.len(),
        whole.take(count) == replaced(whole, part, with).take(count),
    decreases whole.len(),
{
    let result = replaced(whole, part, with);
    if count == 0 {
        assert(whole.take(0) =~= result.take(0));
    } else if whole.len() == 0 {
        assert(result.len() == 0);
    } else if occurs_at(whole, part, 0) {
        assert(result[0] == with[0]);
    } else {
        let rest = whole.drop_first();
        let after = replaced(rest, part, with);
        assert(result == seq![whole[0]] + after);
        assert forall|i: int, j: int| 0 <= i < count - 1 && 0 <= j < with.len() implies #[trigger] after[i]
            != #[trigger] with[j] by {
            assert(result[i + 1] == after[i]);
        }
        lemma_replaced_start(rest, part, with, count - 1);
        assert forall|i: int| 0 <= i < count implies whole[i] == result[i] by {
            if i > 0 {
                assert(rest.take(count - 1)[i - 1] == after.take(count - 1)[i - 1]);
                assert(result[i] == after[i - 1]);
                assert(whole[i] == rest[i - 1]);
            }
        }
        assert(whole.take(count) =~= result.take(count));
    }
}

/// A part that is replaced by a text with none of its characters does not occur any more.
pub proof fn law_replaced_does_not_occur(whole: Seq<char>, part: Seq<char>, with: Seq<char>)
    requires
        part.len() > 0,
        with.len() > 0,
        disjoint(part, with),
    ensures
        !occurs(replaced(whole, part, with), part),
    decreases whole.len(),
{
    let result = replaced(whole, part, with);
    if occurs(result, part) {
        let at = choose|at: int| #[trigger] occurs_at(result, part, at);
        let n = part.len() as int;
        if whole.len() == 0 {
            assert(result.len() == 0);
        } else if occurs_at(whole, part, 0) {
            let rest = whole.skip(n);
            let after = replaced(rest, part, with);
            law_replaced_does_not_occur(rest, part, with);
            assert(result == with + after);
            if at < with.len() {
                assert(result.subrange(at, at + n)[0] == result[at]);
                assert(result[at] == with[at]);
                assert(part[0] == with[at]);
            } else {
                assert(after.subrange(at - with.len(), at - with.len() + n) =~= part) by {
                    assert forall|i: int| 0 <= i < n implies after[at - with.len() + i] == part[i] by {
                        assert(result.subrange(at, at + n)[i] == result[at + i]);
                        assert(result[at + i] == after[at - with.len() + i]);
                    }
                }
                assert(occurs_at(after, part, at - with.len()));
            }
        } else {
            let rest = whole.drop_first();
            let after = replaced(rest, part, with);
            law_replaced_does_not_occur(rest, part, with);
            assert(result == seq![whole[0]] + after);
            if at > 0 {
                assert(after.subrange(at - 1, at - 1 + n) =~= part) by {
                    assert forall|i: int| 0 <= i < n implies after[at - 1 + i] == part[i] by {
                        assert(result.subrange(at, at + n)[i] == result[at + i]);
                        assert(result[at + i] == after[at - 1 + i]);
                    }
                }
                assert(occurs_at(after, part, at - 1));
            } else {
                assert forall|i: int, j: int| 0 <= i < n && 0 <= j < with.len() implies #[trigger] result[i]
                    != #[trigger] with[j] by {
                    assert(result.subrange(0, n)[i] == result[i]);
                    assert(part[i] != with[j]);
                }
                lemma_replaced_start(whole, part, with, n);
                assert(whole.subrange(0, n) =~= whole.take(n));
                assert(result.subrange(0, n) =~= result.take(n));
                assert(occurs_at(whole, part, 0));
            }
        }
    }
}

/// Where a part does not stand, nothing is replaced.
pub proof fn law_replaced_absent(whole: Seq<char>, part: Seq<char>, with: Seq<char>)
    requires
        part.len() > 0,
        !occurs(whole, part),
    ensures
        replaced(whole, part, with) == whole,
    decreases whole.len(),
{
    if whole.len() > 0 {
        assert(!occurs_at(whole, part, 0));
        let rest = whole.drop_first();
        assert forall|at: int| !#[trigger] occurs_at(rest, part, at) by {
            if occurs_at(rest, part, at) {
                assert(whole.subrange(at + 1, at + 1 + part.len()) =~= rest.subrange(
                    at,
                    at + part.len(),
                ));
                assert(occurs_at(whole, part, at + 1));
            }
        }
        law_replaced_absent(rest, part, with);
        assert(seq![whole[0]] + rest =~= whole);
    }
}

/// The first place where a part stands is replaced, and then what follows it is looked through.
pub proof fn law_replaced_first(
    before: Seq<char>,
    part: Seq<char>,
    after: Seq<char>,
    with: Seq<char>,
)
    requires
        part.len() > 0,
        forall|at: int|
            0 <= at < before.len() ==> !#[trigger] occurs_at(before + part + after, part, at),
    ensures
        replaced(before + part + after, part, with) == before + with + replaced(after, part, with),
    decreases before.len(),
{
    let whole = before + part + after;
    if before.len() == 0 {
        assert(whole.subrange(0, part.len() as int) =~= part);
        assert(occurs_at(whole, part, 0));
        assert(whole.skip(part.len() as int) =~= after);
        assert(before + with + replaced(after, part, with) =~= with + replaced(after, part, with));
    } else {
        let rest = before.drop_first();
        assert(!occurs_at(whole, part, 0));
        assert(whole.drop_first() =~= rest + part + after);
        assert forall|at: int| 0 <= at < rest.len() implies !#[trigger] occurs_at(
            rest + part + after,
            part,
            at,
        ) by {
            if occurs_at(rest + part + after, part, at) {
                assert(whole.subrange(at + 1, at + 1 + part.len()) =~= (rest + part
                    + after).subrange(at, at + part.len()));
                assert(occurs_at(whole, part, at + 1));
            }
        }
        law_replaced_first(rest, part, after, with);
        assert(seq![whole[0]] + (rest + with + replaced(after, part, with)) =~= before + with
            + replaced(after, part, with));
    }
}

/// Whether a text holds nothing but white space.
pub open spec fn blank(text: Seq<char>) -> bool {
    forall|i: int| 0 <= i < text.len() ==> is_white_space(#[trigger] text[i])
}

/// Whether a text holds nothing but white space.
pub fn is_blank(text: &str) -> (result: bool)
    ensures
        result == blank(text@),
{
    let chars = chars_of(text);
    for i in 0..chars.len()
        invariant
            chars@ == text@,
            forall|j: int| 0 <= j < i ==> is_white_space(#[trigger] text@[j]),
    {
        if !is_white(chars[i]) {
            return false;
        }
    }
    true
}

/// An ASCII letter in lower case, any other character unchanged.
pub open spec fn lower_char(c: char) -> char {
    if 'A' <= c && c <= 'Z' {
        ((c as u32) + 32) as char
    } else {
        c
    }
}

/// A text with its ASCII letters in lower case.
pub open spec fn lowered(text: Seq<char>) -> Seq<char> {
    text.map_values(|c: char| lower_char(c))
}

fn lower_letter(c: char) -> (lower: char)
    ensures
        lower == lower_char(c),
{
    if 'A' <= c && c <= 'Z' {
        let code: u8 = c as u8;
        (code + 32) as char
    } else {
        c
    }
}

/// Converts the ASCII letters of a text to lower case.
pub fn to_lower(text: &str) -> (lower: String)
    ensures
        lower@ == lowered(text@),
{
    let chars = chars_of(text);
    let mut lower = String::new();
    for i in 0..chars.len()
        invariant
            chars@ == text@,
            lower@ == lowered(text@.take(i as int)),
    {
        lower.push(lower_letter(chars[i]));
        assert(lowered(text@.take(i + 1)) == lowered(text@.take(i as int)).push(
            lower_char(text@[i as int]),
        ));
    }
    assert(text@.take(text@.len() as int) == text@);
    lower
}

/// Whether a character is an ASCII letter or digit.
pub open spec fn alphanumeric(c: char) -> bool {
    ('a' <= c && c <= 'z') || ('A' <= c && c <= 'Z') || ('0' <= c && c <= '9')
}

/// Whether a character is an ASCII letter or digit.
pub fn is_alphanumeric(c: char) -> (result: bool)
    ensures
        result == alphanumeric(c),
{
    ('a' <= c && c <= 'z') || ('A' <= c && c <= 'Z') || ('0' <= c && c <= '9')
}

/// A text without its leading and trailing white space.
pub open spec fn trimmed(text: Seq<char>) -> Seq<char>
    decreases text.len(),
{
    if text.len() == 0 {
        text
    } else if is_white_space(text[0]) {
        trimmed(text.drop_first())
    } else if is_white_space(text.last()) {
        trimmed(text.drop_last())
    } else {
        text
    }
}

/// The bounds of a text without its leading and trailing white space.
pub fn trim_bounds(chars: &Vec<char>) -> (bounds: (usize, usize))
    ensures
        bounds.0 <= bounds.1 <= chars@.len(),
        chars@.subrange(bounds.0 as int, bounds.1 as int) == trimmed(chars@),
{
    let mut from: usize = 0;
    let mut to: usize = chars.len();
    assert(chars@.subrange(0, chars@.len() as int) == chars@);
    while from < to && is_white(chars[from])
        invariant
            from <= to == chars@.len(),
            trimmed(chars@.subrange(from as int, to as int)) == trimmed(chars@),
        decreases to - from,
    {
        assert(chars@.subrange(from as int, to as int).drop_first() == chars@.subrange(
            from + 1,
            to as int,
        ));
        from = from + 1;
    }
    while from < to && is_white(chars[to - 1])
        invariant
            from <= to <= chars@.len(),
            from < to ==> !is_white_space(chars@[from as int]),
            trimmed(chars@.subrange(from as int, to as int)) == trimmed(chars@),
        decreases to - from,
    {
        assert(chars@.subrange(from as int, to as int).drop_last() == chars@.subrange(
            from as int,
            to - 1,
        ));
        to = to - 1;
    }
    (from, to)
}

/// The character of one digit, with lower-case letters above nine.
pub open spec fn digit_char(digit: nat) -> char {
    if digit < 10 {
        (48 + digit) as u8 as char
    } else {
        (87 + digit) as u8 as char
    }
}

/// The numeral of a number without leading zeros.
pub open spec fn numeral(number: nat, base: nat) -> Seq<char>
    decreases number,
    via numeral_decreases
{
    if base < 2 || number < base {
        seq![digit_char(number)]
    } else {
        numeral(number / base, base).push(digit_char(number % base))
    }
}

#[via_fn]
proof fn numeral_decreases(number: nat, base: nat) {
    if !(base < 2 || number < base) {
        lemma_quotient_smaller(number, base);
    }
}

proof fn lemma_quotient_smaller(number: nat, base: nat)
    requires
        2 <= base <= number,
    ensures
        number / base < number,
{
    assert(number / base < number) by (nonlinear_arith)
        requires
            2 <= base <= number,
    ;
}

/// Appends the numeral of a number to a text.
pub fn push_numeral(text: &mut String, number: u64, base: u64)
    requires
        2 <= base <= 36,
    ensures
        final(text)@ == old(text)@ + numeral(number as nat, base as nat),
    decreases number,
{
    if number >= base {
        let ghost before = text@;
        proof {
            lemma_quotient_smaller(number as nat, base as nat);
        }
        push_numeral(text, number / base, base);
        let digit: u8 = (number % base) as u8;
        proof {
            assert((number as nat) / (base as nat) == (number / base) as nat);
            assert((number as nat) % (base as nat) == digit as nat);
        }
        text.push(if digit < 10 { (48 + digit) as char } else { (87 + digit) as char });
        assert(text@ == before + numeral((number / base) as nat, base as nat).push(
            digit_char(digit as nat),
        ));
    } else {
        let digit: u8 = number as u8;
        text.push(if digit < 10 { (48 + digit) as char } else { (87 + digit) as char });
    }
}

/// The decimal numeral of a number.
pub open spec fn decimal(number: nat) -> Seq<char> {
    numeral(number, 10)
}

/// Appends the decimal numeral of a number to a text.
pub fn push_decimal(text: &mut String, number: usize)
    ensures
        final(text)@ == old(text)@ + decimal(number as nat),
{
    push_numeral(text, number as u64, 10);
}

/// Whether a character is a decimal digit.
pub open spec fn is_digit(c: char) -> bool {
    '0' <= c && c <= '9'
}

/// The number that a run of decimal digits denotes.
pub open spec fn digits_value(digits: Seq<char>) -> nat
    decreases digits.len(),
{
    if digits.len() == 0 {
        0
    } else {
        (digits_value(digits.drop_last()) * 10 + (digits.last() as u32 - 48)) as nat
    }
}

/// The digits of an unsigned number: a leading `+` is left out.
pub open spec fn unsigned_digits(text: Seq<char>) -> Seq<char> {
    if text.len() > 0 && text[0] == '+' {
        text.drop_first()
    } else {
        text
    }
}

/// The number that a text denotes: an optional `+` and at least one decimal digit, up to a limit.
pub open spec fn parsed_number(text: Seq<char>, limit: nat) -> Option<nat> {
    let digits = unsigned_digits(text);
    if digits.len() > 0 && (forall|i: int| 0 <= i < digits.len() ==> is_digit(#[trigger] digits[i]))
        && digits_value(digits) <= limit {
        Some(digits_value(digits))
    } else {
        None
    }
}

/// The number that a text denotes, within the range of `usize`.
pub open spec fn parsed_usize(text: Seq<char>) -> Option<nat> {
    parsed_number(text, usize::MAX as nat)
}

proof fn lemma_digits_value_grows(digits: Seq<char>, shorter: int)
    requires
        0 <= shorter <= digits.len(),
        forall|i: int| 0 <= i < digits.len() ==> is_digit(#[trigger] digits[i]),
    ensures
        digits_value(digits.take(shorter)) <= digits_value(digits),
    decreases digits.len(),
{
    if shorter < digits.len() {
        assert(forall|i: int| 0 <= i < digits.drop_last().len() ==> digits.drop_last()[i] == digits[i]);
        lemma_digits_value_grows(digits.drop_last(), shorter);
        assert(digits.drop_last().take(shorter) == digits.take(shorter));
        assert(is_digit(digits[digits.len() - 1]));
    } else {
        assert(digits.take(shorter) == digits);
    }
}

/// Reads the unsigned number that the characters `chars[from..to]` denote.
pub fn parse_number(chars: &Vec<char>, from: usize, to: usize, limit: u64) -> (number: Option<u64>)
    requires
        from <= to <= chars@.len(),
    ensures
        match parsed_number(chars@.subrange(from as int, to as int), limit as nat) {
            Some(value) => number is Some && number->0 == value,
            None => number is None,
        },
{
    let ghost text = chars@.subrange(from as int, to as int);
    let mut start: usize = from;
    if from < to && chars[from] == '+' {
        start = from + 1;
    }
    let ghost digits = unsigned_digits(text);
    assert(digits == chars@.subrange(start as int, to as int));
    if start == to {
        return None;
    }
    let mut value: u64 = 0;
    for i in start..to
        invariant
            from <= start <= i <= to <= chars@.len(),
            text == chars@.subrange(from as int, to as int),
            digits == unsigned_digits(text),
            digits == chars@.subrange(start as int, to as int),
            forall|j: int| 0 <= j < i - start ==> is_digit(#[trigger] digits[j]),
            value == digits_value(digits.take(i - start)),
            value <= limit,
    {
        let c = chars[i];
        assert(c == digits[i - start]);
        if !('0' <= c && c <= '9') {
            return None;
        }
        let digit: u64 = (c as u8 - 48) as u64;
        let ghost longer = digits.take(i + 1 - start);
        proof {
            assert(longer.drop_last() == digits.take(i - start));
            assert(digits_value(longer) == value * 10 + digit);
            if forall|k: int| 0 <= k < digits.len() ==> is_digit(#[trigger] digits[k]) {
                lemma_digits_value_grows(digits, i + 1 - start);
            }
        }
        if digit > limit || value > (limit - digit) / 10 {
            return None;
        }
        value = value * 10 + digit;
    }
    assert(digits.take(to - start) == digits);
    Some(value)
}

/// Reads the unsigned number that the characters `chars[from..to]` denote.
pub fn parse_usize(chars: &Vec<char>, from: usize, to: usize) -> (number: Option<usize>)
    requires
        from <= to <= chars@.len(),
    ensures
        match parsed_usize(chars@.subrange(from as int, to as int)) {
            Some(value) => number is Some && number->0 == value,
            None => number is None,
        },
{
    match parse_number(chars, from, to, usize::MAX as u64) {
        Some(value) => Some(value as usize),
        None => None,
    }
}

/// The decimal numeral of a number consists of digits that denote the number.
pub proof fn law_decimal_reads_back(number: nat)
    ensures
        decimal(number).len() > 0,
        forall|i: int| 0 <= i < decimal(number).len() ==> is_digit(#[trigger] decimal(number)[i]),
        digits_value(decimal(number)) == number,
    decreases number,
{
    let text = decimal(number);
    if number >= 10 {
        law_decimal_reads_back(number / 10);
        let before = decimal(number / 10);
        assert(text == before.push(digit_char(number % 10)));
        assert(text.drop_last() =~= before);
        assert(text.last() as u32 == 48 + number % 10);
        assert forall|i: int| 0 <= i < text.len() implies is_digit(#[trigger] text[i]) by {
            if i < before.len() {
                assert(text[i] == before[i]);
            }
        }
    } else {
        assert(text =~= seq![digit_char(number)]);
        assert(text.drop_last() =~= Seq::<char>::empty());
        assert(digits_value(text.drop_last()) == 0);
        assert(text.last() as u32 == 48 + number);
    }
}

/// A number within a limit is read from its decimal numeral.
pub proof fn law_decimal_parses(number: nat, limit: nat)
    requires
        number <= limit,
    ensures
        parsed_number(decimal(number), limit) == Some(number),
{
    law_decimal_reads_back(number);
    assert(is_digit(decimal(number)[0]));
    assert(unsigned_digits(decimal(number)) == decimal(number));
}

/// Two texts one after the other.
pub fn join2(a: &str, b: &str) -> (text: String)
    ensures
        text@ == a@ + b@,
{
    let mut text = String::new();
    text.append(a);
    text.append(b);
    assert(text@ =~= a@ + b@);
    text
}

/// Three texts one after the other.
pub fn join3(a: &str, b: &str, c: &str) -> (text: String)
    ensures
        text@ == a@ + b@ + c@,
{
    let mut text = join2(a, b);
    text.append(c);
    text
}

/// Four texts one after the other.
pub fn join4(a: &str, b: &str, c: &str, d: &str) -> (text: String)
    ensures
        text@ == a@ + b@ + c@ + d@,
{
    let mut text = join3(a, b, c);
    text.append(d);
    text
}

/// Five texts one after the other.
pub fn join5(a: &str, b: &str, c: &str, d: &str, e: &str) -> (text: String)
    ensures
        text@ == a@ + b@ + c@ + d@ + e@,
{
    let mut text = join4(a, b, c, d);
    text.append(e);
    text
}

/// The decimal numeral of a number.
pub fn to_decimal(number: u64) -> (text: String)
    ensures
        text@ == decimal(number as nat),
{
    let mut text = String::new();
    push_numeral(&mut text, number, 10);
    assert(text@ =~= decimal(number as nat));
    text
}

/// The form in which `std` shows a text for debugging: in quotes, with escapes.
pub uninterp spec fn quoted_form(text: Seq<char>) -> Seq<char>;

/// `std` shows a `str` by `Debug` in quotes and with escapes; the form is a function of the text
/// and is referred to by name.
#[verifier::external_body]
pub(crate) fn quoted(text: &str) -> (shown: String)
    ensures
        shown@ == quoted_form(text@),
{
    format!("{text:?}")
}

} // verus!
