//! Fingerprints of source messages.
use crate::catalog::CatalogFormat;
use crate::text::{digit_char, lemma_encoding_injective, optional_text, texts};
use sha2::Digest;
use vstd::prelude::*;
use vstd::utf8::encode_utf8;

verus! {

/// The SHA-256 digest of a byte sequence.
pub uninterp spec fn sha256(bytes: Seq<u8>) -> Seq<u8>;

/// `sha2::Sha256::digest` computes the SHA-256 digest, 32 bytes that are a function of the input.
#[verifier::external_body]
fn digest(bytes: &Vec<u8>) -> (result: Vec<u8>)
    ensures
        result@ == sha256(bytes@),
        result@.len() == 32,
{
    sha2::Sha256::digest(bytes).to_vec()
}

/// A number as a big-endian sequence of bytes of a given width.
pub open spec fn big_endian(number: nat, width: nat) -> Seq<u8>
    decreases width,
{
    if width == 0 {
        Seq::empty()
    } else {
        big_endian(number / 256, (width - 1) as nat).push((number % 256) as u8)
    }
}

/// A part of the digested message: its length in eight bytes, then its bytes.
pub open spec fn framed(part: Seq<u8>) -> Seq<u8> {
    big_endian(part.len(), 8) + part
}

/// The parts of the digested message one after the other.
pub open spec fn framed_parts(parts: Seq<Seq<u8>>) -> Seq<u8>
    decreases parts.len(),
{
    if parts.len() == 0 {
        Seq::empty()
    } else {
        framed_parts(parts.drop_last()) + framed(parts.last())
    }
}

/// The name of a format in the digested message.
pub open spec fn format_tag(format: CatalogFormat) -> Seq<char> {
    match format {
        CatalogFormat::Json => "json"@,
        CatalogFormat::Arb => "arb"@,
    }
}

/// The texts that identify a source message: how it is stored, what it says, and what its
/// metadata says about it.
pub open spec fn identifying_texts(
    format: CatalogFormat,
    source: Seq<char>,
    description: Option<Seq<char>>,
    placeholders: Seq<Seq<char>>,
) -> Seq<Seq<char>> {
    seq!["locale-forge-source-v1"@, format_tag(format), source] + (match description {
        Some(text) => seq!["description:some"@, text],
        None => seq!["description:none"@],
    }) + placeholders
}

/// The UTF-8 bytes of each text.
pub open spec fn encoded(list: Seq<Seq<char>>) -> Seq<Seq<u8>> {
    list.map_values(|text: Seq<char>| encode_utf8(text))
}

/// The message that is digested for a source message.
pub open spec fn digested(
    format: CatalogFormat,
    source: Seq<char>,
    description: Option<Seq<char>>,
    placeholders: Seq<Seq<char>>,
) -> Seq<u8> {
    framed_parts(encoded(identifying_texts(format, source, description, placeholders)))
}

/// Two lower-case hexadecimal digits for each byte.
pub open spec fn hex(bytes: Seq<u8>) -> Seq<char>
    decreases bytes.len(),
{
    if bytes.len() == 0 {
        Seq::empty()
    } else {
        hex(bytes.drop_last()).push(digit_char((bytes.last() / 16) as nat)).push(
            digit_char((bytes.last() % 16) as nat),
        )
    }
}

/// The fingerprint of a source message.
pub open spec fn fingerprint_text(
    format: CatalogFormat,
    source: Seq<char>,
    description: Option<Seq<char>>,
    placeholders: Seq<Seq<char>>,
) -> Seq<char> {
    "sha256:"@ + hex(sha256(digested(format, source, description, placeholders)))
}

/// Appends a number in big-endian order.
fn push_big_endian(bytes: &mut Vec<u8>, number: u64, width: usize)
    ensures
        final(bytes)@ == old(bytes)@ + big_endian(number as nat, width as nat),
    decreases width,
{
    if width > 0 {
        let ghost before = bytes@;
        push_big_endian(bytes, number / 256, width - 1);
        bytes.push((number % 256) as u8);
        assert(bytes@ =~= before + big_endian(number as nat, width as nat));
    } else {
        assert(bytes@ =~= bytes@ + big_endian(number as nat, 0));
    }
}

/// Appends a part of the digested message.
fn update_part(bytes: &mut Vec<u8>, part: &str)
    ensures
        final(bytes)@ == old(bytes)@ + framed(encode_utf8(part@)),
{
    let ghost before = bytes@;
    let content = part.as_bytes();
    let count: u64 = content.len() as u64;
    push_big_endian(bytes, count, 8);
    let ghost prefix = bytes@;
    for i in 0..content.len()
        invariant
            content@ == encode_utf8(part@),
            bytes@ == prefix + content@.take(i as int),
    {
        bytes.push(content[i]);
        assert(bytes@ =~= prefix + content@.take(i + 1));
    }
    assert(bytes@ =~= before + framed(encode_utf8(part@)));
}

/// Appends the hexadecimal digits of bytes to a text.
fn push_hex(text: &mut String, bytes: &Vec<u8>)
    ensures
        final(text)@ == old(text)@ + hex(bytes@),
{
    let ghost before = text@;
    for i in 0..bytes.len()
        invariant
            text@ == before + hex(bytes@.take(i as int)),
    {
        let high: u8 = bytes[i] / 16;
        let low: u8 = bytes[i] % 16;
        text.push(hex_digit(high));
        text.push(hex_digit(low));
        assert(bytes@.take(i + 1).drop_last() =~= bytes@.take(i as int));
        assert(text@ =~= before + hex(bytes@.take(i + 1)));
    }
    assert(bytes@.take(bytes@.len() as int) =~= bytes@);
}

fn hex_digit(digit: u8) -> (c: char)
    requires
        digit < 16,
    ensures
        c == digit_char(digit as nat),
{
    if digit < 10 {
        (48 + digit) as char
    } else {
        (87 + digit) as char
    }
}

/// The parts that one more text adds to the digested message.
proof fn lemma_one_more(list: Seq<Seq<char>>, text: Seq<char>)
    ensures
        framed_parts(encoded(list.push(text))) == framed_parts(encoded(list)) + framed(
            encode_utf8(text),
        ),
{
    assert(encoded(list.push(text)).drop_last() =~= encoded(list));
    assert(encoded(list.push(text)).last() == encode_utf8(text));
}

/// The message that is digested for a source message.
pub fn message_bytes(
    format: CatalogFormat,
    source: &str,
    description: &Option<String>,
    placeholders: &Vec<String>,
) -> (bytes: Vec<u8>)
    ensures
        bytes@ == digested(format, source@, optional_text(*description), texts(placeholders@)),
{
    let mut bytes: Vec<u8> = Vec::new();
    let ghost mut list: Seq<Seq<char>> = Seq::empty();
    assert(bytes@ =~= framed_parts(encoded(list)));
    update_part(&mut bytes, "locale-forge-source-v1");
    proof {
        lemma_one_more(list, "locale-forge-source-v1"@);
        list = list.push("locale-forge-source-v1"@);
    }
    let tag = match format {
        CatalogFormat::Json => "json",
        CatalogFormat::Arb => "arb",
    };
    update_part(&mut bytes, tag);
    update_part(&mut bytes, source);
    proof {
        lemma_one_more(list, tag@);
        lemma_one_more(list.push(tag@), source@);
        list = list.push(tag@).push(source@);
    }
    match description {
        Some(text) => {
            update_part(&mut bytes, "description:some");
            update_part(&mut bytes, text.as_str());
            proof {
                lemma_one_more(list, "description:some"@);
                lemma_one_more(list.push("description:some"@), text@);
                list = list.push("description:some"@).push(text@);
            }
        },
        None => {
            update_part(&mut bytes, "description:none");
            proof {
                lemma_one_more(list, "description:none"@);
                list = list.push("description:none"@);
            }
        },
    }
    let ghost names = texts(placeholders@);
    assert(list + names.take(0) =~= list);
    for i in 0..placeholders.len()
        invariant
            names == texts(placeholders@),
            bytes@ == framed_parts(encoded(list + names.take(i as int))),
    {
        update_part(&mut bytes, placeholders[i].as_str());
        proof {
            lemma_one_more(list + names.take(i as int), names[i as int]);
            assert(list + names.take(i + 1) =~= (list + names.take(i as int)).push(names[i as int]));
        }
    }
    assert(names.take(names.len() as int) =~= names);
    assert(list + names =~= identifying_texts(
        format,
        source@,
        optional_text(*description),
        texts(placeholders@),
    ));
    bytes
}

/// The fingerprint that a digest is shown as.
pub fn fingerprint_of(digest: &Vec<u8>) -> (result: String)
    ensures
        result@ == "sha256:"@ + hex(digest@),
        digest@.len() == 32 ==> valid_fingerprint(result@),
{
    let mut result = String::new();
    result.append("sha256:");
    push_hex(&mut result, digest);
    assert(result@ =~= "sha256:"@ + hex(digest@));
    proof {
        reveal_strlit("sha256:");
        lemma_hex_digits(digest@);
        assert forall|i: int| 7 <= i < result@.len() implies is_hex(#[trigger] result@[i]) by {
            assert(result@[i] == hex(digest@)[i - 7]);
        }
    }
    result
}

/// The fingerprint of a source message.
pub fn fingerprint(
    format: CatalogFormat,
    source: &str,
    description: &Option<String>,
    placeholders: &Vec<String>,
) -> (result: String)
    ensures
        result@ == fingerprint_text(
            format,
            source@,
            optional_text(*description),
            texts(placeholders@),
        ),
        valid_fingerprint(result@),
{
    let bytes = message_bytes(format, source, description, placeholders);
    fingerprint_of(&digest(&bytes))
}

/// Whether a character is a lower-case hexadecimal digit.
pub open spec fn is_hex(c: char) -> bool {
    ('0' <= c && c <= '9') || ('a' <= c && c <= 'f')
}

/// Whether a text has the form of a fingerprint.
pub open spec fn valid_fingerprint(text: Seq<char>) -> bool {
    &&& text.len() == 71
    &&& "sha256:"@.is_prefix_of(text)
    &&& forall|i: int| 7 <= i < text.len() ==> is_hex(#[trigger] text[i])
}

/// Whether a text has the form of a fingerprint.
pub fn is_valid_fingerprint(value: &str) -> (valid: bool)
    ensures
        valid == valid_fingerprint(value@),
{
    let chars = crate::text::chars_of(value);
    if chars.len() != 71 || !crate::text::starts_with(value, "sha256:") {
        return false;
    }
    for i in 7..chars.len()
        invariant
            chars@ == value@,
            chars@.len() == 71,
            forall|j: int| 7 <= j < i ==> is_hex(#[trigger] value@[j]),
    {
        let c = chars[i];
        if !(('0' <= c && c <= '9') || ('a' <= c && c <= 'f')) {
            assert(!is_hex(value@[i as int]));
            return false;
        }
    }
    true
}

/// The number that bytes in big-endian order stand for.
pub open spec fn big_endian_value(bytes: Seq<u8>) -> nat
    decreases bytes.len(),
{
    if bytes.len() == 0 {
        0
    } else {
        big_endian_value(bytes.drop_last()) * 256 + bytes.last() as nat
    }
}

/// The number of values that a given number of bytes can hold.
pub open spec fn byte_range(width: nat) -> nat
    decreases width,
{
    if width == 0 {
        1
    } else {
        byte_range((width - 1) as nat) * 256
    }
}

proof fn lemma_big_endian_value(number: nat, width: nat)
    requires
        number < byte_range(width),
    ensures
        big_endian(number, width).len() == width,
        big_endian_value(big_endian(number, width)) == number,
    decreases width,
{
    if width > 0 {
        lemma_big_endian_value(number / 256, (width - 1) as nat);
        let bytes = big_endian(number, width);
        assert(bytes.drop_last() =~= big_endian(number / 256, (width - 1) as nat));
    }
}

proof fn lemma_eight_bytes(number: nat)
    requires
        number <= u64::MAX,
    ensures
        big_endian(number, 8).len() == 8,
        big_endian_value(big_endian(number, 8)) == number,
{
    reveal_with_fuel(byte_range, 9);
    assert(byte_range(8) == 0x1_0000_0000_0000_0000);
    lemma_big_endian_value(number, 8);
}

proof fn lemma_framed_front(parts: Seq<Seq<u8>>)
    requires
        parts.len() > 0,
    ensures
        framed_parts(parts) == framed(parts[0]) + framed_parts(parts.drop_first()),
    decreases parts.len(),
{
    if parts.len() == 1 {
        assert(framed_parts(parts.drop_last()) =~= Seq::empty());
        assert(framed_parts(parts.drop_first()) =~= Seq::empty());
        assert(framed_parts(parts) =~= framed(parts[0]) + framed_parts(parts.drop_first()));
    } else {
        lemma_framed_front(parts.drop_last());
        assert(parts.drop_last().drop_first() =~= parts.drop_first().drop_last());
        assert(parts.drop_last()[0] == parts[0]);
        assert(parts.drop_first().last() == parts.last());
        assert(framed_parts(parts) =~= framed(parts[0]) + framed_parts(parts.drop_first()));
    }
}

/// The parts of a digested message can be told apart: no two lists of parts give the same bytes.
pub proof fn law_framing_injective(a: Seq<Seq<u8>>, b: Seq<Seq<u8>>)
    requires
        framed_parts(a) == framed_parts(b),
        forall|i: int| 0 <= i < a.len() ==> (#[trigger] a[i]).len() <= u64::MAX,
        forall|i: int| 0 <= i < b.len() ==> (#[trigger] b[i]).len() <= u64::MAX,
    ensures
        a == b,
    decreases a.len(),
{
    if a.len() > 0 {
        lemma_framed_front(a);
        lemma_eight_bytes(a[0].len());
    }
    if b.len() > 0 {
        lemma_framed_front(b);
        lemma_eight_bytes(b[0].len());
    }
    if a.len() > 0 && b.len() > 0 {
        let whole = framed_parts(a);
        let (x, y) = (big_endian(a[0].len(), 8), big_endian(b[0].len(), 8));
        let (rest, other) = (framed_parts(a.drop_first()), framed_parts(b.drop_first()));
        assert(whole == (x + a[0]) + rest && whole == (y + b[0]) + other);
        assert(x.len() == 8 && y.len() == 8);
        assert(whole =~= x + (a[0] + rest));
        assert(whole =~= y + (b[0] + other));
        assert(x =~= whole.take(8));
        assert(y =~= whole.take(8));
        assert(a[0].len() == b[0].len());
        assert(a[0] =~= whole.subrange(8, 8 + a[0].len() as int));
        assert(b[0] =~= whole.subrange(8, 8 + a[0].len() as int));
        assert(rest =~= whole.skip(8 + a[0].len() as int));
        assert(other =~= whole.skip(8 + a[0].len() as int));
        assert forall|i: int| 0 <= i < a.drop_first().len() implies (#[trigger] a.drop_first()[i]).len()
            <= u64::MAX by {
            assert(a.drop_first()[i] == a[i + 1]);
        }
        assert forall|i: int| 0 <= i < b.drop_first().len() implies (#[trigger] b.drop_first()[i]).len()
            <= u64::MAX by {
            assert(b.drop_first()[i] == b[i + 1]);
        }
        law_framing_injective(a.drop_first(), b.drop_first());
        assert(a =~= seq![a[0]] + a.drop_first());
        assert(b =~= seq![b[0]] + b.drop_first());
    } else {
        if a.len() > 0 {
            assert(framed(a[0]).len() >= 8);
            assert(framed_parts(a).len() > 0 && framed_parts(b).len() == 0);
        }
        if b.len() > 0 {
            assert(framed(b[0]).len() >= 8);
            assert(framed_parts(b).len() > 0 && framed_parts(a).len() == 0);
        }
        assert(a =~= b);
    }
}

/// Whether each text is short enough for its length to be framed.
pub open spec fn frameable(list: Seq<Seq<char>>) -> bool {
    forall|i: int| 0 <= i < list.len() ==> encode_utf8(#[trigger] list[i]).len() <= u64::MAX
}

proof fn lemma_encoded_injective(a: Seq<Seq<char>>, b: Seq<Seq<char>>)
    requires
        encoded(a) == encoded(b),
    ensures
        a == b,
{
    assert(a.len() == encoded(a).len() && b.len() == encoded(b).len());
    assert forall|i: int| 0 <= i < a.len() implies a[i] == b[i] by {
        assert(encoded(a)[i] == encode_utf8(a[i]));
        assert(encoded(b)[i] == encode_utf8(b[i]));
        lemma_encoding_injective(a[i], b[i]);
    }
    assert(a =~= b);
}

/// A change of the format, the text, the description or the placeholders of a source message
/// changes what is digested for it.
pub proof fn law_digested_injective(
    format: CatalogFormat,
    source: Seq<char>,
    description: Option<Seq<char>>,
    placeholders: Seq<Seq<char>>,
    other_format: CatalogFormat,
    other_source: Seq<char>,
    other_description: Option<Seq<char>>,
    other_placeholders: Seq<Seq<char>>,
)
    requires
        digested(format, source, description, placeholders) == digested(
            other_format,
            other_source,
            other_description,
            other_placeholders,
        ),
        frameable(identifying_texts(format, source, description, placeholders)),
        frameable(
            identifying_texts(other_format, other_source, other_description, other_placeholders),
        ),
    ensures
        format == other_format,
        source == other_source,
        description == other_description,
        placeholders == other_placeholders,
{
    let a = identifying_texts(format, source, description, placeholders);
    let b = identifying_texts(other_format, other_source, other_description, other_placeholders);
    assert forall|i: int| 0 <= i < encoded(a).len() implies (#[trigger] encoded(a)[i]).len()
        <= u64::MAX by {
        assert(encode_utf8(a[i]).len() <= u64::MAX);
    }
    assert forall|i: int| 0 <= i < encoded(b).len() implies (#[trigger] encoded(b)[i]).len()
        <= u64::MAX by {
        assert(encode_utf8(b[i]).len() <= u64::MAX);
    }
    law_framing_injective(encoded(a), encoded(b));
    lemma_encoded_injective(a, b);
    reveal_strlit("json");
    reveal_strlit("arb");
    reveal_strlit("description:some");
    reveal_strlit("description:none");
    assert(a[1] == format_tag(format) && b[1] == format_tag(other_format));
    assert("json"@.len() == 4 && "arb"@.len() == 3);
    assert(a[2] == source && b[2] == other_source);
    assert("description:some"@[12] == 's' && "description:none"@[12] == 'n');
    assert(description is Some ==> a[3] == "description:some"@ && a[4] == description->0);
    assert(description is None ==> a[3] == "description:none"@);
    assert(other_description is Some ==> b[3] == "description:some"@ && b[4]
        == other_description->0);
    assert(other_description is None ==> b[3] == "description:none"@);
    let start = if description is Some {
        5int
    } else {
        4
    };
    assert(placeholders =~= a.skip(start));
    assert(other_placeholders =~= b.skip(start));
}

proof fn lemma_digit_char_injective(a: nat, b: nat)
    requires
        a < 16,
        b < 16,
        digit_char(a) == digit_char(b),
    ensures
        a == b,
{
}

/// Distinct byte sequences have distinct hexadecimal digits.
pub proof fn law_hex_injective(a: Seq<u8>, b: Seq<u8>)
    requires
        hex(a) == hex(b),
    ensures
        a == b,
    decreases a.len(),
{
    if a.len() > 0 && b.len() > 0 {
        let (x, y) = (hex(a), hex(b));
        let n = x.len() as int;
        assert(x.drop_last().drop_last() =~= hex(a.drop_last()));
        assert(y.drop_last().drop_last() =~= hex(b.drop_last()));
        assert(x[n - 1] == digit_char((a.last() % 16) as nat));
        assert(y[n - 1] == digit_char((b.last() % 16) as nat));
        assert(x[n - 2] == digit_char((a.last() / 16) as nat));
        assert(y[n - 2] == digit_char((b.last() / 16) as nat));
        lemma_digit_char_injective((a.last() % 16) as nat, (b.last() % 16) as nat);
        lemma_digit_char_injective((a.last() / 16) as nat, (b.last() / 16) as nat);
        law_hex_injective(a.drop_last(), b.drop_last());
        assert(a =~= a.drop_last().push(a.last()));
        assert(b =~= b.drop_last().push(b.last()));
    } else {
        if a.len() > 0 {
            assert(hex(a).len() > 0 && hex(b).len() == 0);
        }
        if b.len() > 0 {
            assert(hex(b).len() > 0 && hex(a).len() == 0);
        }
        assert(a =~= b);
    }
}

/// Equal fingerprints come from equal digests.
pub proof fn law_fingerprint_identifies_digest(
    format: CatalogFormat,
    source: Seq<char>,
    description: Option<Seq<char>>,
    placeholders: Seq<Seq<char>>,
    other_format: CatalogFormat,
    other_source: Seq<char>,
    other_description: Option<Seq<char>>,
    other_placeholders: Seq<Seq<char>>,
)
    requires
        fingerprint_text(format, source, description, placeholders) == fingerprint_text(
            other_format,
            other_source,
            other_description,
            other_placeholders,
        ),
    ensures
        sha256(digested(format, source, description, placeholders)) == sha256(
            digested(other_format, other_source, other_description, other_placeholders),
        ),
{
    let a = sha256(digested(format, source, description, placeholders));
    let b = sha256(digested(other_format, other_source, other_description, other_placeholders));
    let prefix = "sha256:"@;
    assert(hex(a) =~= (prefix + hex(a)).skip(prefix.len() as int));
    assert(hex(b) =~= (prefix + hex(b)).skip(prefix.len() as int));
    law_hex_injective(a, b);
}

proof fn lemma_hex_digits(bytes: Seq<u8>)
    ensures
        hex(bytes).len() == 2 * bytes.len(),
        forall|i: int| 0 <= i < hex(bytes).len() ==> is_hex(#[trigger] hex(bytes)[i]),
    decreases bytes.len(),
{
    if bytes.len() > 0 {
        lemma_hex_digits(bytes.drop_last());
    }
}

} // verus!
