use vstd::prelude::*;
use vstd::std_specs::iter::IteratorSpec;
use vstd::string::*;
use vstd::utf8::{char_is_scalar, encode_scalar, encode_utf8};

verus! {

/// `String::push` appends one character to the end of the string.
pub assume_specification[ String::push ](text: &mut String, ch: char)
    ensures
        final(text)@ == old(text)@.push(ch),
;

/// The characters of `text`, in order.
pub fn chars_of(text: &str) -> (chars: Vec<char>)
    ensures
        chars@ == text@,
{
    let mut chars: Vec<char> = Vec::new();
    let mut rest = text.chars();
    loop
        invariant
            chars@ + rest.remaining() == text@,
            rest.decrease() is Some,
        ensures
            chars@ == text@,
        decreases rest.decrease()->0,
    {
        broadcast use vstd::string::group_string_axioms;
        match rest.next() {
            Some(c) => {
                chars.push(c);
            },
            None => {
                assert(chars@ =~= chars@ + rest.remaining());
                break;
            },
        }
    }
    chars
}

/// The number of bytes that `c` takes in UTF-8.
pub open spec fn utf8_width(c: char) -> nat {
    if (c as u32) < 0x80 {
        1
    } else if (c as u32) < 0x800 {
        2
    } else if (c as u32) < 0x1_0000 {
        3
    } else {
        4
    }
}

/// The byte offset, in the UTF-8 text of `chars`, of the character at `index`.
pub open spec fn byte_offset(chars: Seq<char>, index: int) -> nat
    decreases index,
{
    if index <= 0 {
        0
    } else {
        byte_offset(chars, index - 1) + utf8_width(chars[index - 1])
    }
}

/// The number of bytes that `c` takes in UTF-8.
pub fn width_of(c: char) -> (width: usize)
    ensures
        width == utf8_width(c),
{
    let code: u32 = c as u32;
    if code < 0x80 {
        1
    } else if code < 0x800 {
        2
    } else if code < 0x1_0000 {
        3
    } else {
        4
    }
}

/// The decimal digit for `d`, which is below ten.
pub open spec fn digit(d: nat) -> char {
    (d + 48) as char
}

/// `n` written in decimal, without leading zeros.
pub open spec fn decimal(n: nat) -> Seq<char>
    decreases n,
{
    if n < 10 {
        seq![digit(n)]
    } else {
        decimal(n / 10).push(digit(n % 10))
    }
}

/// Appends `n`, written in decimal, to `text`.
pub fn push_decimal(text: &mut String, n: usize)
    ensures
        final(text)@ == old(text)@ + decimal(n as nat),
    decreases n,
{
    if n >= 10 {
        push_decimal(text, n / 10);
    }
    let d: u8 = (n % 10) as u8;
    text.push((d + 48) as char);
    assert(final(text)@ =~= old(text)@ + decimal(n as nat));
}

/// The width of a character is the length of its UTF-8 encoding.
pub proof fn lemma_width_is_encoded_length(c: char)
    ensures
        utf8_width(c) == encode_scalar(c as u32).len(),
{
    char_is_scalar(c);
}

/// Encoding one character more appends that character's encoding.
proof fn lemma_encode_push(chars: Seq<char>, c: char)
    ensures
        encode_utf8(chars.push(c)) == encode_utf8(chars) + encode_scalar(c as u32),
    decreases chars.len(),
{
    let longer = chars.push(c);
    if chars.len() == 0 {
        assert(longer.drop_first() =~= Seq::<char>::empty());
        assert(longer[0] == c);
        assert(encode_utf8(longer.drop_first()) =~= Seq::<u8>::empty());
        assert(encode_utf8(chars) =~= Seq::<u8>::empty());
        assert(encode_utf8(longer) == encode_scalar(longer[0] as u32) + encode_utf8(
            longer.drop_first(),
        ));
        assert(encode_utf8(longer) =~= encode_utf8(chars) + encode_scalar(c as u32));
    } else {
        assert(longer.drop_first() =~= chars.drop_first().push(c));
        lemma_encode_push(chars.drop_first(), c);
        assert(encode_utf8(longer) =~= encode_utf8(chars) + encode_scalar(c as u32));
    }
}

/// A byte offset is the length of the UTF-8 encoding of the characters that
/// stand before it.
pub proof fn lemma_byte_offset_is_encoded_length(chars: Seq<char>, index: int)
    requires
        0 <= index <= chars.len(),
    ensures
        byte_offset(chars, index) == encode_utf8(chars.subrange(0, index)).len(),
    decreases index,
{
    if index > 0 {
        lemma_byte_offset_is_encoded_length(chars, index - 1);
        lemma_encode_push(chars.subrange(0, index - 1), chars[index - 1]);
        lemma_width_is_encoded_length(chars[index - 1]);
        assert(chars.subrange(0, index) =~= chars.subrange(0, index - 1).push(chars[index - 1]));
    } else {
        assert(chars.subrange(0, 0) =~= Seq::<char>::empty());
    }
}

/// A byte offset is at most four bytes for each character before it.
pub proof fn lemma_byte_offset_bound(chars: Seq<char>, index: int)
    requires
        0 <= index,
    ensures
        byte_offset(chars, index) <= 4 * index,
    decreases index,
{
    if index > 0 {
        lemma_byte_offset_bound(chars, index - 1);
    }
}

/// The message for an operator `c` found at byte `offset` of the pattern.
pub open spec fn unexpected_char_text(c: char, offset: nat) -> Seq<char> {
    "Unexpected char '"@ + seq![c] + "' at "@ + decimal(offset) + "."@
}

/// The message for a pattern that ends inside a group.
pub open spec fn unexpected_end_text() -> Seq<char> {
    "Unexpected end of stream."@
}

/// The message for an operator `c` found at byte `offset` of the pattern.
pub fn unexpected_char_message(c: char, offset: usize) -> (message: String)
    ensures
        message@ == unexpected_char_text(c, offset as nat),
{
    let mut message = String::from_str("Unexpected char '");
    message.push(c);
    message.append("' at ");
    push_decimal(&mut message, offset);
    message.append(".");
    assert(message@ =~= unexpected_char_text(c, offset as nat));
    message
}

/// The message for a pattern that ends inside a group.
pub fn unexpected_end_message() -> (message: String)
    ensures
        message@ == unexpected_end_text(),
{
    String::from_str("Unexpected end of stream.")
}

} // verus!
