//! What a cell looks like on the screen: its text and its colour.

use vstd::prelude::*;
use vstd::utf8::{encode_utf8, is_ascii_chars, is_ascii_chars_encode_utf8};

verus! {

/// The colours that tiles are shown in.
#[derive(Clone, Copy, Debug, PartialEq, Eq, Structural)]
pub enum TileColor {
    Green,
    Magenta,
    Cyan,
    LightRed,
    Red,
}

/// The colour for a value: green below 64, magenta below 256, cyan below
/// 1024, light red below 4096, and red from there on.
pub open spec fn color_of(score: int) -> TileColor {
    if score < 64 {
        TileColor::Green
    } else if score < 256 {
        TileColor::Magenta
    } else if score < 1024 {
        TileColor::Cyan
    } else if score < 4096 {
        TileColor::LightRed
    } else {
        TileColor::Red
    }
}

/// The colour in which a value is shown.
pub fn score_to_color(score: i32) -> (c: TileColor)
    ensures
        c == color_of(score as int),
{
    if score < 64 {
        TileColor::Green
    } else if score < 256 {
        TileColor::Magenta
    } else if score < 1024 {
        TileColor::Cyan
    } else if score < 4096 {
        TileColor::LightRed
    } else {
        TileColor::Red
    }
}

/// How many bytes the text takes up.
pub open spec fn byte_len(text: Seq<char>) -> nat {
    encode_utf8(text).len()
}

/// `n` blanks.
pub open spec fn blanks(n: nat) -> Seq<char> {
    Seq::new(n, |i: int| ' ')
}

/// The text filled up with blanks at its end until it takes up `length`
/// bytes; a text that takes up as many or more stays as it is.
pub open spec fn padded(text: Seq<char>, length: nat) -> Seq<char> {
    if byte_len(text) < length {
        text + blanks((length - byte_len(text)) as nat)
    } else {
        text
    }
}

/// The bytes of two texts put together are the bytes of the first followed by
/// the bytes of the second.
pub proof fn lemma_bytes_concat(a: Seq<char>, b: Seq<char>)
    ensures
        encode_utf8(a + b) == encode_utf8(a) + encode_utf8(b),
    decreases a.len(),
{
    if a.len() == 0 {
        assert(a + b =~= b);
        assert(encode_utf8(a) + encode_utf8(b) =~= encode_utf8(b));
    } else {
        lemma_bytes_concat(a.drop_first(), b);
        assert((a + b).drop_first() =~= a.drop_first() + b);
        assert(encode_utf8(a + b) =~= encode_utf8(a) + encode_utf8(b));
    }
}

/// One more blank at the end of a text makes it one byte longer.
pub proof fn lemma_blank_byte(text: Seq<char>)
    ensures
        byte_len(text + seq![' ']) == byte_len(text) + 1,
{
    let one = seq![' '];
    assert(is_ascii_chars(one));
    is_ascii_chars_encode_utf8(one);
    lemma_bytes_concat(text, one);
}

/// Fills `s` up with blanks at its end until it takes up `length` bytes.
pub fn pad_str(s: String, length: usize) -> (out: String)
    requires
        byte_len(s@) <= usize::MAX,
    ensures
        out@ == padded(s@, length as nat),
{
    let mut s = s;
    let ghost text = s@;
    proof {
        assert(text + blanks(0) =~= text);
    }
    while s.as_str().len() < length
        invariant
            byte_len(text) <= usize::MAX,
            byte_len(s@) <= usize::MAX,
            byte_len(s@) >= byte_len(text),
            byte_len(s@) > byte_len(text) ==> byte_len(s@) <= length,
            s@ == text + blanks((byte_len(s@) - byte_len(text)) as nat),
        decreases length - byte_len(s@),
    {
        let ghost before = s@;
        proof {
            reveal_strlit(" ");
            assert(" "@ =~= seq![' ']);
            lemma_blank_byte(before);
        }
        s.append(" ");
        proof {
            assert(s@ =~= text + blanks((byte_len(s@) - byte_len(text)) as nat));
        }
    }
    s
}

} // verus!
