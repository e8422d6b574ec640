//! Texts and lists of texts: what a list of strings holds, and splitting a
//! text at a separator.

use vstd::prelude::*;
use vstd::string::StrSliceExecFns;

verus! {

/// The character sequences of a list of strings.
pub open spec fn texts(strings: Seq<String>) -> Seq<Seq<char>> {
    Seq::new(strings.len(), |i: int| strings[i]@)
}

/// The fields of the part of `text` that begins at `start`, where no
/// separator stands between `start` and `at`.
pub open spec fn fields_from(text: Seq<char>, separator: char, start: int, at: int) -> Seq<
    Seq<char>,
>
    recommends
        0 <= start <= at,
    decreases text.len() - at,
{
    if at >= text.len() {
        seq![text.subrange(start, text.len() as int)]
    } else if text[at] == separator {
        seq![text.subrange(start, at)] + fields_from(text, separator, at + 1, at + 1)
    } else {
        fields_from(text, separator, start, at + 1)
    }
}

/// The fields of a text: the pieces between its separators, from left to
/// right. A text without a separator is one field, and so is an empty text.
pub open spec fn fields(text: Seq<char>, separator: char) -> Seq<Seq<char>> {
    fields_from(text, separator, 0, 0)
}

/// Splits a text at every occurrence of a separator.
pub fn split_text(text: &str, separator: char) -> (pieces: Vec<String>)
    ensures
        texts(pieces@) == fields(text@, separator),
        pieces.len() >= 1,
{
    let n = text.unicode_len();
    let mut pieces: Vec<String> = Vec::new();
    let mut start: usize = 0;
    let mut at: usize = 0;
    assert(texts(pieces@) =~= Seq::empty());
    while at < n
        invariant
            start <= at <= n,
            n == text@.len(),
            texts(pieces@) + fields_from(text@, separator, start as int, at as int)
                == fields(text@, separator),
        decreases n - at,
    {
        let ghost done = texts(pieces@);
        if text.get_char(at) == separator {
            pieces.push(text.substring_char(start, at).to_owned());
            let ghost piece = text@.subrange(start as int, at as int);
            assert(texts(pieces@) =~= done.push(piece));
            assert(done + (seq![piece] + fields_from(text@, separator, at + 1, at + 1))
                =~= done.push(piece) + fields_from(text@, separator, at + 1, at + 1));
            at = at + 1;
            start = at;
        } else {
            at = at + 1;
        }
    }
    let ghost done = texts(pieces@);
    let ghost piece = text@.subrange(start as int, n as int);
    pieces.push(text.substring_char(start, n).to_owned());
    assert(texts(pieces@) =~= done.push(piece));
    assert(done + seq![piece] =~= done.push(piece));
    pieces
}

} // verus!
