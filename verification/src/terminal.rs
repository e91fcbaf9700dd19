//! Text that is safe to show on a terminal.
use crate::text::{chars_of, numeral, push_numeral};
use std::borrow::Cow;
use vstd::prelude::*;

verus! {

/// Whether a character is a control character.
pub open spec fn is_control_char(c: char) -> bool {
    c <= '\u{1f}' || ('\u{7f}' <= c && c <= '\u{9f}')
}

/// Whether a text has a control character.
pub open spec fn has_control(text: Seq<char>) -> bool {
    exists|i: int| 0 <= i < text.len() && is_control_char(#[trigger] text[i])
}

/// A character as it is shown: a control character as an escape sequence.
pub open spec fn shown_char(c: char) -> Seq<char> {
    if !is_control_char(c) {
        seq![c]
    } else if c == '\t' {
        seq!['\\', 't']
    } else if c == '\r' {
        seq!['\\', 'r']
    } else if c == '\n' {
        seq!['\\', 'n']
    } else {
        seq!['\\', 'u', '{'] + numeral(c as u32 as nat, 16) + seq!['}']
    }
}

/// A text as it is shown, each control character as an escape sequence.
pub open spec fn shown(text: Seq<char>) -> Seq<char>
    decreases text.len(),
{
    if text.len() == 0 {
        Seq::empty()
    } else {
        shown(text.drop_last()) + shown_char(text.last())
    }
}

/// Whether a character is a control character.
pub fn is_control(c: char) -> (control: bool)
    ensures
        control == is_control_char(c),
{
    c <= '\u{1f}' || ('\u{7f}' <= c && c <= '\u{9f}')
}

/// Whether a text has a control character.
pub fn contains_control(text: &str) -> (found: bool)
    ensures
        found == has_control(text@),
{
    let chars = chars_of(text);
    for i in 0..chars.len()
        invariant
            chars@ == text@,
            forall|j: int| 0 <= j < i ==> !is_control_char(#[trigger] text@[j]),
    {
        if is_control(chars[i]) {
            assert(is_control_char(text@[i as int]));
            return true;
        }
    }
    false
}

fn push_shown(text: &mut String, c: char)
    ensures
        final(text)@ == old(text)@ + shown_char(c),
{
    let ghost before = text@;
    if !is_control(c) {
        text.push(c);
    } else if c == '\t' {
        text.push('\\');
        text.push('t');
    } else if c == '\r' {
        text.push('\\');
        text.push('r');
    } else if c == '\n' {
        text.push('\\');
        text.push('n');
    } else {
        text.push('\\');
        text.push('u');
        text.push('{');
        let code: u64 = c as u32 as u64;
        push_numeral(text, code, 16);
        text.push('}');
    }
    assert(text@ =~= before + shown_char(c));
}

/// A text without control characters is shown as it is.
pub proof fn law_plain_text_unchanged(text: Seq<char>)
    requires
        !has_control(text),
    ensures
        shown(text) == text,
    decreases text.len(),
{
    if text.len() > 0 {
        let shorter = text.drop_last();
        assert forall|i: int| 0 <= i < shorter.len() implies !is_control_char(#[trigger] shorter[i]) by {
            assert(shorter[i] == text[i]);
        }
        law_plain_text_unchanged(shorter);
        assert(!is_control_char(text[text.len() - 1]));
        assert(shown(text) =~= text);
    } else {
        assert(shown(text) =~= text);
    }
}

proof fn lemma_numeral_plain(number: nat)
    ensures
        !has_control(numeral(number, 16)) || number >= 0x110000,
    decreases number,
{
    if 16 <= number < 0x110000 {
        lemma_numeral_plain(number / 16);
        let (before, whole) = (numeral(number / 16, 16), numeral(number, 16));
        assert forall|i: int| 0 <= i < whole.len() implies !is_control_char(#[trigger] whole[i]) by {
            if i < before.len() {
                assert(whole[i] == before[i]);
            } else {
                assert(whole[i] == crate::text::digit_char(number % 16));
            }
        }
    } else if number < 16 {
        let whole = numeral(number, 16);
        assert forall|i: int| 0 <= i < whole.len() implies !is_control_char(#[trigger] whole[i]) by {
            assert(whole[i] == crate::text::digit_char(number));
        }
    }
}

proof fn lemma_shown_char_plain(c: char)
    ensures
        !has_control(shown_char(c)),
{
    let code = c as u32 as nat;
    let whole = shown_char(c);
    if is_control_char(c) {
        lemma_numeral_plain(code);
        let digits = numeral(code, 16);
        assert forall|i: int| 0 <= i < whole.len() implies !is_control_char(#[trigger] whole[i]) by {
            if c != '\t' && c != '\r' && c != '\n' {
                if 3 <= i < 3 + digits.len() {
                    assert(whole[i] == digits[i - 3]);
                }
            }
        }
    }
}

/// What is shown has no control characters.
pub proof fn law_shown_has_no_control(text: Seq<char>)
    ensures
        !has_control(shown(text)),
    decreases text.len(),
{
    if text.len() > 0 {
        law_shown_has_no_control(text.drop_last());
        lemma_shown_char_plain(text.last());
        let (before, last) = (shown(text.drop_last()), shown_char(text.last()));
        assert forall|i: int| 0 <= i < shown(text).len() implies !is_control_char(
            #[trigger] shown(text)[i],
        ) by {
            if i < before.len() {
                assert(shown(text)[i] == before[i]);
            } else {
                assert(shown(text)[i] == last[i - before.len()]);
            }
        }
    }
}

/// A text with its control characters as escape sequences; a text without any is borrowed.
pub fn escape_controls(value: &str) -> (result: Cow<'_, str>)
    ensures
        result@ == shown(value@),
        result is Borrowed <==> !has_control(value@),
{
    if !contains_control(value) {
        proof {
            law_plain_text_unchanged(value@);
        }
        return Cow::Borrowed(value);
    }
    Cow::Owned(escape_text(value))
}

/// A text with its control characters as escape sequences.
pub fn escape_text(value: &str) -> (result: String)
    ensures
        result@ == shown(value@),
{
    let chars = chars_of(value);
    let mut result = String::new();
    for i in 0..chars.len()
        invariant
            chars@ == value@,
            result@ == shown(value@.take(i as int)),
    {
        push_shown(&mut result, chars[i]);
        assert(value@.take(i + 1).drop_last() =~= value@.take(i as int));
    }
    assert(value@.take(value@.len() as int) =~= value@);
    result
}

} // verus!
