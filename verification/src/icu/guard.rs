//! Which texts the message parser can take.
//!
//! The parser goes wrong in two places. It takes characters for bytes where it looks for the end of
//! a quotation inside an argument style, and it reads a number of a plural into 64 bits before it
//! tests its range. The way of the parser through a text is followed up to such a place.
use crate::text::{chars_of, same_text, text_of};
use vstd::prelude::*;

verus! {

/// Whether the parser skips a character as white space.
pub open spec fn icu_space(c: char) -> bool {
    ('\u{9}' <= c && c <= '\u{d}') || c == ' ' || c == '\u{85}' || c == '\u{200e}' || c == '\u{200f}'
        || c == '\u{2028}' || c == '\u{2029}'
}

/// Whether a character can stand in a name. The parser takes fewer: where it ends a name earlier
/// it reports an error.
pub open spec fn name_char(c: char) -> bool {
    !icu_space(c) && c != ',' && c != '{' && c != '}' && c != ':' && c != '=' && c != '\''
}

/// Whether a character is a decimal digit.
pub open spec fn decimal_digit(c: char) -> bool {
    '0' <= c && c <= '9'
}

/// The end of the white space at a position.
pub open spec fn space_end(text: Seq<char>, at: int) -> int
    decreases text.len() - at,
{
    if 0 <= at < text.len() && icu_space(text[at]) {
        space_end(text, at + 1)
    } else {
        at
    }
}

/// The end of the name at a position.
pub open spec fn name_end(text: Seq<char>, at: int) -> int
    decreases text.len() - at,
{
    if 0 <= at < text.len() && name_char(text[at]) {
        name_end(text, at + 1)
    } else {
        at
    }
}

/// The end of the digits at a position.
pub open spec fn digits_end(text: Seq<char>, at: int) -> int
    decreases text.len() - at,
{
    if 0 <= at < text.len() && decimal_digit(text[at]) {
        digits_end(text, at + 1)
    } else {
        at
    }
}

/// Whether a character stands at a position.
pub open spec fn stands_at(text: Seq<char>, at: int, c: char) -> bool {
    0 <= at < text.len() && text[at] == c
}

/// Whether a character of quoted text stands at a position: one that a single apostrophe before
/// it quotes, `#` only in a plural.
pub open spec fn quotable_at(text: Seq<char>, at: int, plural: bool) -> bool {
    stands_at(text, at, '{') || stands_at(text, at, '}') || stands_at(text, at, '<') || stands_at(
        text,
        at,
        '>',
    ) || (plural && stands_at(text, at, '#'))
}

/// The end of the quoted text at a position: after the next apostrophe that stands alone.
pub open spec fn quote_end(text: Seq<char>, at: int) -> int
    decreases text.len() - at,
{
    if at < 0 || at >= text.len() {
        at
    } else if text[at] != '\'' {
        quote_end(text, at + 1)
    } else if stands_at(text, at + 1, '\'') {
        quote_end(text, at + 2)
    } else {
        at + 1
    }
}

/// How far a part of an argument reaches: the parser reports an error in it, goes wrong in it, or
/// gets to a position after it.
pub enum Reach {
    Stops,
    Fails,
    At(int),
}

/// The number of bytes of a character.
pub open spec fn utf8_width(c: char) -> nat {
    if c <= '\u{7f}' {
        1
    } else if c <= '\u{7ff}' {
        2
    } else if c <= '\u{ffff}' {
        3
    } else {
        4
    }
}

/// Whether a character, or the end of the text, stands `bytes` bytes after the character at a
/// position.
pub open spec fn boundary_after(text: Seq<char>, at: int, bytes: int) -> bool
    decreases text.len() - at,
{
    if bytes <= 0 || at < 0 || at >= text.len() {
        bytes == 0
    } else {
        boundary_after(text, at + 1, bytes - utf8_width(text[at]))
    }
}

/// How many bytes after the byte that stands `bytes` bytes after the character at a position the
/// next apostrophe stands.
pub open spec fn quote_after(text: Seq<char>, at: int, bytes: int) -> Option<nat>
    decreases text.len() - at,
{
    if at < 0 || at >= text.len() {
        None
    } else if bytes <= 0 && text[at] == '\'' {
        Some((-bytes) as nat)
    } else {
        quote_after(text, at + 1, bytes - utf8_width(text[at]))
    }
}

/// How far the style that continues at a position reaches, inside `depth` more braces than its
/// argument. For a quotation, the number of the character after the apostrophe serves as the
/// number of a byte, and that of the byte of the next apostrophe as that of a character.
pub open spec fn style_reach(text: Seq<char>, at: int, depth: nat) -> Reach
    decreases text.len() - at,
{
    if at < 0 || at >= text.len() {
        Reach::Stops
    } else if text[at] == '\'' {
        if !boundary_after(text, 0, at + 1) {
            Reach::Fails
        } else {
            match quote_after(text, 0, at + 1) {
                None => Reach::Stops,
                Some(distance) => if at + 1 + distance > text.len() {
                    Reach::Fails
                } else if at + 1 + distance == text.len() {
                    Reach::Stops
                } else {
                    style_reach(text, at + 2 + distance, depth)
                },
            }
        }
    } else if text[at] == '{' {
        style_reach(text, at + 1, depth + 1)
    } else if text[at] == '}' {
        if depth == 0 {
            Reach::At(at)
        } else {
            style_reach(text, at + 1, (depth - 1) as nat)
        }
    } else {
        style_reach(text, at + 1, depth)
    }
}

/// Whether a value grows beyond 64 bits with a sign when the digits at a position are appended to
/// it.
pub open spec fn exceeds(text: Seq<char>, at: int, value: int) -> bool
    decreases text.len() - at,
{
    if value > i64::MAX {
        true
    } else if 0 <= at < text.len() && decimal_digit(text[at]) {
        exceeds(text, at + 1, value * 10 + (text[at] as int - '0' as int))
    } else {
        false
    }
}

/// How far the number at a position reaches; a sign may stand before its digits.
pub open spec fn number_reach(text: Seq<char>, at: int) -> Reach {
    let digits = if stands_at(text, at, '+') || stands_at(text, at, '-') {
        at + 1
    } else {
        at
    };
    if exceeds(text, digits, 0) {
        Reach::Fails
    } else if digits_end(text, digits) == digits {
        Reach::Stops
    } else {
        Reach::At(digits_end(text, digits))
    }
}

/// What a text is at a position of it.
#[derive(Debug, Clone, Copy, PartialEq, Eq, Structural)]
pub enum Spot {
    /// The text of the message or of a branch.
    Text,
    /// The beginning of an argument, after its brace.
    Head,
    /// The part of an argument in which its branches are.
    Branches,
}

/// A position of a text and what the text is there; for each argument whose branches are not over
/// yet, whether it is a plural.
#[verifier::ext_equal]
pub struct Place {
    pub spot: Spot,
    pub at: int,
    pub plurals: Seq<bool>,
}

/// Where the parser gets.
pub enum Walk {
    Stops,
    Fails,
    Goes(Place),
}

/// Where the parser gets from a position in the text of a message or of a branch.
pub open spec fn text_step(text: Seq<char>, at: int, plurals: Seq<bool>) -> Walk {
    let plural = plurals.len() > 0 && plurals.last();
    if at < 0 || at >= text.len() {
        Walk::Stops
    } else if text[at] == '\'' && stands_at(text, at + 1, '\'') {
        Walk::Goes(Place { spot: Spot::Text, at: at + 2, plurals })
    } else if text[at] == '\'' && quotable_at(text, at + 1, plural) {
        Walk::Goes(Place { spot: Spot::Text, at: quote_end(text, at + 2), plurals })
    } else if text[at] == '{' {
        Walk::Goes(Place { spot: Spot::Head, at: at + 1, plurals })
    } else if text[at] == '}' && plurals.len() > 0 {
        Walk::Goes(Place { spot: Spot::Branches, at: at + 1, plurals })
    } else {
        Walk::Goes(Place { spot: Spot::Text, at: at + 1, plurals })
    }
}

/// Where the parser gets when the argument has to end at a position.
pub open spec fn closing_step(text: Seq<char>, at: int, plurals: Seq<bool>) -> Walk {
    if stands_at(text, at, '}') {
        Walk::Goes(Place { spot: Spot::Text, at: at + 1, plurals })
    } else {
        Walk::Stops
    }
}

/// Where the parser gets after the type of a number, date or time argument.
pub open spec fn style_step(text: Seq<char>, at: int, plurals: Seq<bool>) -> Walk {
    if stands_at(text, at, ',') {
        match style_reach(text, space_end(text, at + 1), 0) {
            Reach::Stops => Walk::Stops,
            Reach::Fails => Walk::Fails,
            Reach::At(end) => closing_step(text, end, plurals),
        }
    } else {
        closing_step(text, at, plurals)
    }
}

/// Where the parser gets after the type of an argument with branches: a plural can have an offset
/// before them.
pub open spec fn offset_step(text: Seq<char>, at: int, plural: bool, plurals: Seq<bool>) -> Walk {
    let start = space_end(text, at + 1);
    let end = name_end(text, start);
    let inside = plurals.push(plural);
    if !stands_at(text, at, ',') {
        Walk::Stops
    } else if plural && text.subrange(start, end) == "offset"@ {
        if stands_at(text, end, ':') {
            match number_reach(text, space_end(text, end + 1)) {
                Reach::Stops => Walk::Stops,
                Reach::Fails => Walk::Fails,
                Reach::At(after) => Walk::Goes(
                    Place { spot: Spot::Branches, at: after, plurals: inside },
                ),
            }
        } else {
            Walk::Stops
        }
    } else {
        Walk::Goes(Place { spot: Spot::Branches, at: start, plurals: inside })
    }
}

/// Where the parser gets after the name of an argument and a comma.
pub open spec fn type_step(text: Seq<char>, at: int, plurals: Seq<bool>) -> Walk {
    let start = space_end(text, at);
    let end = name_end(text, start);
    let after = space_end(text, end);
    let word = text.subrange(start, end);
    if word == "number"@ || word == "date"@ || word == "time"@ {
        style_step(text, after, plurals)
    } else if word == "plural"@ || word == "selectordinal"@ {
        offset_step(text, after, true, plurals)
    } else if word == "select"@ {
        offset_step(text, after, false, plurals)
    } else {
        Walk::Stops
    }
}

/// Where the parser gets from the beginning of an argument.
pub open spec fn head_step(text: Seq<char>, at: int, plurals: Seq<bool>) -> Walk {
    let start = space_end(text, at);
    let end = name_end(text, start);
    let after = space_end(text, end);
    if end == start {
        Walk::Stops
    } else if stands_at(text, after, ',') {
        type_step(text, after + 1, plurals)
    } else {
        closing_step(text, after, plurals)
    }
}

/// Where the parser gets after the selector of a branch.
pub open spec fn branch_step(text: Seq<char>, at: int, plurals: Seq<bool>) -> Walk {
    let after = space_end(text, at);
    if stands_at(text, after, '{') {
        Walk::Goes(Place { spot: Spot::Text, at: after + 1, plurals })
    } else {
        Walk::Stops
    }
}

/// Where the parser gets from a position at which a branch can begin or the argument can end.
pub open spec fn selector_step(text: Seq<char>, at: int, plurals: Seq<bool>) -> Walk {
    let start = space_end(text, at);
    let end = name_end(text, start);
    if plurals.len() == 0 {
        Walk::Stops
    } else if end > start {
        branch_step(text, end, plurals)
    } else if plurals.last() && stands_at(text, start, '=') {
        match number_reach(text, start + 1) {
            Reach::Stops => Walk::Stops,
            Reach::Fails => Walk::Fails,
            Reach::At(after) => branch_step(text, after, plurals),
        }
    } else {
        closing_step(text, start, plurals.drop_last())
    }
}

/// Where the parser gets from a place.
pub open spec fn step(text: Seq<char>, place: Place) -> Walk {
    match place.spot {
        Spot::Text => text_step(text, place.at, place.plurals),
        Spot::Head => head_step(text, place.at, place.plurals),
        Spot::Branches => selector_step(text, place.at, place.plurals),
    }
}

/// Where the parser is after a number of steps from the beginning of a text.
pub open spec fn after_steps(text: Seq<char>, count: nat) -> Walk
    decreases count,
{
    if count == 0 {
        Walk::Goes(Place { spot: Spot::Text, at: 0, plurals: Seq::empty() })
    } else {
        match after_steps(text, (count - 1) as nat) {
            Walk::Goes(place) => step(text, place),
            end => end,
        }
    }
}

/// Whether the parser can take a text: it goes wrong nowhere on its way through it.
/// Errors that come of what was read before, such as a repeated selector, do not end the way.
pub open spec fn icu_parsable(text: Seq<char>) -> bool {
    forall|count: nat| !(#[trigger] after_steps(text, count) is Fails)
}

proof fn lemma_goes_before(text: Seq<char>, fewer: nat, count: nat)
    requires
        fewer <= count,
        after_steps(text, count) is Goes,
    ensures
        after_steps(text, fewer) is Goes,
    decreases count,
{
    if fewer < count {
        lemma_goes_before(text, fewer, (count - 1) as nat);
    }
}

proof fn lemma_stays_stopped(text: Seq<char>, count: nat, more: nat)
    requires
        count <= more,
        after_steps(text, count) is Stops,
    ensures
        after_steps(text, more) is Stops,
    decreases more,
{
    if count < more {
        lemma_stays_stopped(text, count, (more - 1) as nat);
    }
}

proof fn lemma_stopped_parsable(text: Seq<char>, count: nat)
    requires
        count > 0,
        after_steps(text, count) is Stops,
        after_steps(text, (count - 1) as nat) is Goes,
    ensures
        icu_parsable(text),
{
    assert forall|other: nat| !(#[trigger] after_steps(text, other) is Fails) by {
        if other < count {
            lemma_goes_before(text, other, (count - 1) as nat);
        } else {
            lemma_stays_stopped(text, count, other);
        }
    }
}

fn is_icu_space(c: char) -> (space: bool)
    ensures
        space == icu_space(c),
{
    ('\u{9}' <= c && c <= '\u{d}') || c == ' ' || c == '\u{85}' || c == '\u{200e}' || c == '\u{200f}'
        || c == '\u{2028}' || c == '\u{2029}'
}

fn is_name_char(c: char) -> (named: bool)
    ensures
        named == name_char(c),
{
    !is_icu_space(c) && c != ',' && c != '{' && c != '}' && c != ':' && c != '=' && c != '\''
}

fn is_decimal_digit(c: char) -> (digit: bool)
    ensures
        digit == decimal_digit(c),
{
    '0' <= c && c <= '9'
}

fn skip_space(chars: &Vec<char>, from: usize) -> (end: usize)
    requires
        from <= chars@.len(),
    ensures
        end == space_end(chars@, from as int),
        from <= end <= chars@.len(),
{
    let mut at: usize = from;
    while at < chars.len() && is_icu_space(chars[at])
        invariant
            from <= at <= chars@.len(),
            space_end(chars@, at as int) == space_end(chars@, from as int),
        decreases chars@.len() - at,
    {
        at = at + 1;
    }
    at
}

fn skip_name(chars: &Vec<char>, from: usize) -> (end: usize)
    requires
        from <= chars@.len(),
    ensures
        end == name_end(chars@, from as int),
        from <= end <= chars@.len(),
{
    let mut at: usize = from;
    while at < chars.len() && is_name_char(chars[at])
        invariant
            from <= at <= chars@.len(),
            name_end(chars@, at as int) == name_end(chars@, from as int),
        decreases chars@.len() - at,
    {
        at = at + 1;
    }
    at
}

fn is_at(chars: &Vec<char>, at: usize, c: char) -> (found: bool)
    ensures
        found == stands_at(chars@, at as int, c),
        found ==> at < usize::MAX,
{
    at < chars.len() && chars[at] == c
}

fn is_quotable_at(chars: &Vec<char>, at: usize, plural: bool) -> (quotable: bool)
    ensures
        quotable == quotable_at(chars@, at as int, plural),
{
    is_at(chars, at, '{') || is_at(chars, at, '}') || is_at(chars, at, '<') || is_at(chars, at, '>')
        || (plural && is_at(chars, at, '#'))
}

fn skip_quoted(chars: &Vec<char>, from: usize) -> (end: usize)
    requires
        from <= chars@.len(),
    ensures
        end == quote_end(chars@, from as int),
        from <= end <= chars@.len(),
{
    let mut at: usize = from;
    while at < chars.len()
        invariant
            from <= at <= chars@.len(),
            quote_end(chars@, at as int) == quote_end(chars@, from as int),
        decreases chars@.len() - at,
    {
        if chars[at] != '\'' {
            at = at + 1;
        } else if is_at(chars, at + 1, '\'') {
            at = at + 2;
        } else {
            return at + 1;
        }
    }
    at
}

/// How far a part of an argument reaches.
enum Reached {
    Stops,
    Fails,
    At(usize),
}

impl Reached {
    spec fn model(self) -> Reach {
        match self {
            Reached::Stops => Reach::Stops,
            Reached::Fails => Reach::Fails,
            Reached::At(end) => Reach::At(end as int),
        }
    }
}

fn byte_width(c: char) -> (width: usize)
    ensures
        width == utf8_width(c),
{
    if c <= '\u{7f}' {
        1
    } else if c <= '\u{7ff}' {
        2
    } else if c <= '\u{ffff}' {
        3
    } else {
        4
    }
}

fn has_boundary(chars: &Vec<char>, bytes: usize) -> (found: bool)
    ensures
        found == boundary_after(chars@, 0, bytes as int),
{
    let mut left: usize = bytes;
    let mut at: usize = 0;
    while at < chars.len() && left > 0
        invariant
            at <= chars@.len(),
            boundary_after(chars@, at as int, left as int) == boundary_after(
                chars@,
                0,
                bytes as int,
            ),
        decreases chars@.len() - at,
    {
        let width = byte_width(chars[at]);
        if width > left {
            assert(!boundary_after(chars@, at + 1, left - width));
            return false;
        }
        left = left - width;
        at = at + 1;
    }
    left == 0
}

fn next_quote(chars: &Vec<char>, bytes: usize) -> (distance: Option<u128>)
    ensures
        distance is Some <==> quote_after(chars@, 0, bytes as int) is Some,
        distance is Some ==> distance->0 == quote_after(chars@, 0, bytes as int)->0,
{
    let mut start: u128 = 0;
    for at in 0..chars.len()
        invariant
            start <= 4 * at,
            quote_after(chars@, at as int, bytes - start) == quote_after(chars@, 0, bytes as int),
    {
        let c = chars[at];
        if start >= bytes as u128 && c == '\'' {
            return Some(start - bytes as u128);
        }
        start = start + byte_width(c) as u128;
    }
    None
}

fn skip_style(chars: &Vec<char>, from: usize) -> (reached: Reached)
    requires
        from <= chars@.len(),
    ensures
        reached.model() == style_reach(chars@, from as int, 0),
        reached is At ==> from <= reached->At_0 < chars@.len(),
{
    let count: usize = chars.len();
    let mut at: usize = from;
    let mut depth: usize = 0;
    while at < count
        invariant
            count == chars@.len(),
            from <= at <= count,
            depth <= at - from,
            style_reach(chars@, at as int, depth as nat) == style_reach(chars@, from as int, 0),
        decreases count - at,
    {
        let c = chars[at];
        if c == '\'' {
            if !has_boundary(chars, at + 1) {
                return Reached::Fails;
            }
            match next_quote(chars, at + 1) {
                None => {
                    return Reached::Stops;
                },
                Some(distance) => {
                    if distance > (count - at - 1) as u128 {
                        return Reached::Fails;
                    }
                    if distance == (count - at - 1) as u128 {
                        return Reached::Stops;
                    }
                    at = at + 1 + distance as usize;
                },
            }
        } else if c == '{' {
            depth = depth + 1;
        } else if c == '}' {
            if depth == 0 {
                return Reached::At(at);
            }
            depth = depth - 1;
        }
        at = at + 1;
    }
    Reached::Stops
}

fn number_exceeds(chars: &Vec<char>, from: usize) -> (found: bool)
    requires
        from <= chars@.len(),
    ensures
        found == exceeds(chars@, from as int, 0),
{
    let mut value: u128 = 0;
    let mut at: usize = from;
    while at < chars.len() && is_decimal_digit(chars[at])
        invariant
            from <= at <= chars@.len(),
            value <= i64::MAX,
            exceeds(chars@, at as int, value as int) == exceeds(chars@, from as int, 0),
        decreases chars@.len() - at,
    {
        value = value * 10 + (chars[at] as u128 - '0' as u128);
        at = at + 1;
        if value > i64::MAX as u128 {
            assert(exceeds(chars@, at as int, value as int));
            return true;
        }
    }
    false
}

fn skip_number(chars: &Vec<char>, from: usize) -> (reached: Reached)
    requires
        from <= chars@.len(),
    ensures
        reached.model() == number_reach(chars@, from as int),
        reached is At ==> from < reached->At_0 <= chars@.len(),
{
    let start: usize = if is_at(chars, from, '+') || is_at(chars, from, '-') {
        from + 1
    } else {
        from
    };
    if number_exceeds(chars, start) {
        return Reached::Fails;
    }
    let mut at: usize = start;
    while at < chars.len() && is_decimal_digit(chars[at])
        invariant
            start <= at <= chars@.len(),
            digits_end(chars@, at as int) == digits_end(chars@, start as int),
        decreases chars@.len() - at,
    {
        at = at + 1;
    }
    if at == start {
        Reached::Stops
    } else {
        Reached::At(at)
    }
}

/// Where the parser gets.
enum Step {
    Stops,
    Fails,
    Goes(Spot, usize, Vec<bool>),
}

impl Step {
    spec fn model(self) -> Walk {
        match self {
            Step::Stops => Walk::Stops,
            Step::Fails => Walk::Fails,
            Step::Goes(spot, at, plurals) => Walk::Goes(
                Place { spot, at: at as int, plurals: plurals@ },
            ),
        }
    }

    spec fn advances(self, text: Seq<char>, from: int) -> bool {
        self is Goes ==> from < self->Goes_1 <= text.len()
    }
}

fn step_in_text(chars: &Vec<char>, at: usize, plurals: Vec<bool>) -> (next: Step)
    requires
        at <= chars@.len(),
    ensures
        next.model() == text_step(chars@, at as int, plurals@),
        next.advances(chars@, at as int),
{
    let count: usize = plurals.len();
    let plural = count > 0 && plurals[count - 1];
    if at >= chars.len() {
        return Step::Stops;
    }
    if chars[at] == '\'' {
        if is_at(chars, at + 1, '\'') {
            return Step::Goes(Spot::Text, at + 2, plurals);
        }
        if is_quotable_at(chars, at + 1, plural) {
            return Step::Goes(Spot::Text, skip_quoted(chars, at + 2), plurals);
        }
    }
    if chars[at] == '{' {
        Step::Goes(Spot::Head, at + 1, plurals)
    } else if chars[at] == '}' && count > 0 {
        Step::Goes(Spot::Branches, at + 1, plurals)
    } else {
        Step::Goes(Spot::Text, at + 1, plurals)
    }
}

fn step_at_close(chars: &Vec<char>, at: usize, plurals: Vec<bool>) -> (next: Step)
    ensures
        next.model() == closing_step(chars@, at as int, plurals@),
        next.advances(chars@, at as int),
{
    if is_at(chars, at, '}') {
        Step::Goes(Spot::Text, at + 1, plurals)
    } else {
        Step::Stops
    }
}

fn step_over_style(chars: &Vec<char>, at: usize, plurals: Vec<bool>) -> (next: Step)
    ensures
        next.model() == style_step(chars@, at as int, plurals@),
        next.advances(chars@, at as int),
{
    if !is_at(chars, at, ',') {
        return step_at_close(chars, at, plurals);
    }
    let start = skip_space(chars, at + 1);
    match skip_style(chars, start) {
        Reached::Stops => Step::Stops,
        Reached::Fails => Step::Fails,
        Reached::At(end) => step_at_close(chars, end, plurals),
    }
}

fn step_over_offset(chars: &Vec<char>, at: usize, plural: bool, plurals: Vec<bool>) -> (next: Step)
    ensures
        next.model() == offset_step(chars@, at as int, plural, plurals@),
        next.advances(chars@, at as int),
{
    if !is_at(chars, at, ',') {
        return Step::Stops;
    }
    let start = skip_space(chars, at + 1);
    let end = skip_name(chars, start);
    let mut inside = plurals;
    inside.push(plural);
    let word = text_of(chars, start, end);
    if plural && same_text(word.as_str(), "offset") {
        if !is_at(chars, end, ':') {
            return Step::Stops;
        }
        return match skip_number(chars, skip_space(chars, end + 1)) {
            Reached::Stops => Step::Stops,
            Reached::Fails => Step::Fails,
            Reached::At(after) => Step::Goes(Spot::Branches, after, inside),
        };
    }
    Step::Goes(Spot::Branches, start, inside)
}

fn step_over_type(chars: &Vec<char>, at: usize, plurals: Vec<bool>) -> (next: Step)
    requires
        at <= chars@.len(),
    ensures
        next.model() == type_step(chars@, at as int, plurals@),
        next.advances(chars@, at as int),
{
    let start = skip_space(chars, at);
    let end = skip_name(chars, start);
    let after = skip_space(chars, end);
    let text = text_of(chars, start, end);
    let word: &str = text.as_str();
    if same_text(word, "number") || same_text(word, "date") || same_text(word, "time") {
        step_over_style(chars, after, plurals)
    } else if same_text(word, "plural") || same_text(word, "selectordinal") {
        step_over_offset(chars, after, true, plurals)
    } else if same_text(word, "select") {
        step_over_offset(chars, after, false, plurals)
    } else {
        Step::Stops
    }
}

fn step_over_head(chars: &Vec<char>, at: usize, plurals: Vec<bool>) -> (next: Step)
    requires
        at <= chars@.len(),
    ensures
        next.model() == head_step(chars@, at as int, plurals@),
        next.advances(chars@, at as int),
{
    let start = skip_space(chars, at);
    let end = skip_name(chars, start);
    let after = skip_space(chars, end);
    if end == start {
        Step::Stops
    } else if is_at(chars, after, ',') {
        step_over_type(chars, after + 1, plurals)
    } else {
        step_at_close(chars, after, plurals)
    }
}

fn step_into_branch(chars: &Vec<char>, at: usize, plurals: Vec<bool>) -> (next: Step)
    requires
        at <= chars@.len(),
    ensures
        next.model() == branch_step(chars@, at as int, plurals@),
        next.advances(chars@, at as int),
{
    let after = skip_space(chars, at);
    if is_at(chars, after, '{') {
        Step::Goes(Spot::Text, after + 1, plurals)
    } else {
        Step::Stops
    }
}

fn step_over_selector(chars: &Vec<char>, at: usize, plurals: Vec<bool>) -> (next: Step)
    requires
        at <= chars@.len(),
    ensures
        next.model() == selector_step(chars@, at as int, plurals@),
        next.advances(chars@, at as int),
{
    let start = skip_space(chars, at);
    let end = skip_name(chars, start);
    let count: usize = plurals.len();
    if count == 0 {
        Step::Stops
    } else if end > start {
        step_into_branch(chars, end, plurals)
    } else if plurals[count - 1] && is_at(chars, start, '=') {
        match skip_number(chars, start + 1) {
            Reached::Stops => Step::Stops,
            Reached::Fails => Step::Fails,
            Reached::At(after) => step_into_branch(chars, after, plurals),
        }
    } else {
        let mut outside = plurals;
        outside.pop();
        step_at_close(chars, start, outside)
    }
}

/// Whether the parser can take the text.
pub fn is_icu_parsable(text: &str) -> (parsable: bool)
    ensures
        parsable == icu_parsable(text@),
{
    let chars = chars_of(text);
    let mut spot: Spot = Spot::Text;
    let mut at: usize = 0;
    let mut plurals: Vec<bool> = Vec::new();
    let ghost mut count: nat = 0;
    assert(plurals@ =~= Seq::<bool>::empty());
    loop
        invariant
            chars@ == text@,
            at <= chars@.len(),
            after_steps(text@, count) == Walk::Goes(
                Place { spot, at: at as int, plurals: plurals@ },
            ),
        decreases chars@.len() - at,
    {
        let next = match spot {
            Spot::Text => step_in_text(&chars, at, plurals),
            Spot::Head => step_over_head(&chars, at, plurals),
            Spot::Branches => step_over_selector(&chars, at, plurals),
        };
        proof {
            count = count + 1;
            assert(next.model() == after_steps(text@, count));
        }
        match next {
            Step::Stops => {
                proof {
                    lemma_stopped_parsable(text@, count);
                }
                return true;
            },
            Step::Fails => {
                assert(after_steps(text@, count) is Fails);
                return false;
            },
            Step::Goes(new_spot, new_at, new_plurals) => {
                spot = new_spot;
                at = new_at;
                plurals = new_plurals;
            },
        }
    }
}

} // verus!
