//! Names and comments, one byte per character.

use vstd::prelude::*;

verus! {

/// `String::push` appends the character.
pub assume_specification[ String::push ](s: &mut String, c: char)
    ensures
        final(s)@ == old(s)@.push(c),
;

/// The text that bytes stand for, each one being the character of its number.
pub open spec fn text_of(bytes: Seq<u8>) -> Seq<char> {
    Seq::new(bytes.len(), |i: int| bytes[i] as char)
}

/// Every character has a byte.
pub open spec fn is_latin1(text: Seq<char>) -> bool {
    forall|i: int| 0 <= i < text.len() ==> #[trigger] text[i] as int <= 255
}

/// The bytes that stand for text.
pub open spec fn bytes_of(text: Seq<char>) -> Seq<u8> {
    Seq::new(text.len(), |i: int| text[i] as int as u8)
}

/// The number of a character.
fn code_point(c: char) -> (n: u32)
    ensures
        n == c as int,
{
    c as u32
}

proof fn lemma_char(c: char)
    ensures
        c as int <= 255 ==> (c as int as u8) as char == c,
        c as int <= 255 ==> (c as int as u8) == c as int,
{
}

/// The bytes that stand for text, where every character has one.
pub fn encode_latin1(text: &str) -> (r: Option<Vec<u8>>)
    ensures
        match r {
            Some(bytes) => is_latin1(text@) && bytes@ == bytes_of(text@),
            None => !is_latin1(text@),
        },
{
    let mut bytes: Vec<u8> = Vec::new();
    for c in chars: text.chars()
        invariant
            bytes@.len() == chars.index(),
            chars.seq() == text@,
            forall|i: int|
                0 <= i < bytes@.len() ==> #[trigger] text@[i] as int <= 255 && bytes@[i]
                    == text@[i] as int,
    {
        let n: u32 = code_point(c);
        if n > 255 {
            return None;
        }
        bytes.push(n as u8);
    }
    assert(bytes@ =~= bytes_of(text@));
    Some(bytes)
}

/// The text that bytes stand for.
pub fn decode_latin1(bytes: &[u8]) -> (text: String)
    ensures
        text@ == text_of(bytes@),
{
    let mut text = String::new();
    let mut i: usize = 0;
    while i < bytes.len()
        invariant
            i <= bytes@.len(),
            text@ == text_of(bytes@.take(i as int)),
        decreases bytes@.len() - i,
    {
        text.push(bytes[i] as char);
        i += 1;
        assert(text@ =~= text_of(bytes@.take(i as int)));
    }
    assert(bytes@.take(i as int) =~= bytes@);
    text
}

/// Text comes back from its bytes.
pub proof fn lemma_text_round_trip(text: Seq<char>)
    requires
        is_latin1(text),
    ensures
        text_of(bytes_of(text)) == text,
        bytes_of(text).len() == text.len(),
{
    assert(text_of(bytes_of(text)) =~= text) by {
        assert forall|i: int| 0 <= i < text.len() implies text_of(bytes_of(text))[i]
            == #[trigger] text[i] by {
            assert(text[i] as int <= 255);
            lemma_char(text[i]);
        }
    }
}

/// Each byte is the character of its number, in both directions, and nothing but
/// a character above 255 has no byte.
pub proof fn lemma_numbers(text: Seq<char>, bytes: Seq<u8>)
    ensures
        text_of(bytes).len() == bytes.len(),
        forall|i: int| 0 <= i < bytes.len() ==> #[trigger] text_of(bytes)[i] as int == bytes[i],
        bytes_of(text).len() == text.len(),
        forall|i: int|
            0 <= i < text.len() && text[i] as int <= 255 ==> #[trigger] bytes_of(text)[i]
                == text[i] as int,
        is_latin1(text) <==> !exists|i: int| 0 <= i < text.len() && #[trigger] text[i] as int > 255,
        is_latin1(text_of(bytes)),
{
    assert forall|i: int| 0 <= i < text.len() && text[i] as int <= 255 implies #[trigger] bytes_of(
        text,
    )[i] == text[i] as int by {
        lemma_char(text[i]);
    }
}

} // verus!
