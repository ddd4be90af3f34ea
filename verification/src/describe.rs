//! Short descriptions of places in the source.
use crate::text::{decimal, join, push_decimal, squeeze, words};
use vstd::prelude::*;
use vstd::utf8::*;

verus! {

/// A place in the source: the line where it starts, and the text that stands there.
pub struct SourceText {
    pub line: usize,
    pub snippet: String,
}

/// The places of a local: where it is declared, and the pattern that binds it, if the user wrote
/// one.
pub struct LocalSource {
    pub source: SourceText,
    pub pattern: Option<SourceText>,
}

/// What a snippet looks like on one line.
pub open spec fn squeezed(snippet: Seq<char>) -> Seq<char> {
    join(words(snippet))
}

/// Whether a text of more than twenty bytes can be cut after fifteen bytes and before the last
/// five.
pub open spec fn can_cut(s: Seq<char>) -> bool {
    let bytes = encode_utf8(s);
    bytes.len() > 20 ==> is_char_boundary(bytes, 15) && is_char_boundary(bytes, bytes.len() - 5)
}

/// A text of more than twenty bytes, with all but the first fifteen and the last five bytes left
/// out.
pub open spec fn abbreviated(s: Seq<char>) -> Seq<char> {
    let bytes = encode_utf8(s);
    if bytes.len() > 20 {
        decode_utf8(bytes.subrange(0, 15)) + " ... "@ + decode_utf8(
            bytes.subrange(bytes.len() - 5, bytes.len() as int),
        )
    } else {
        s
    }
}

/// The line and the abbreviated text of a place.
pub open spec fn description(place: SourceText) -> Seq<char> {
    decimal(place.line as nat) + ": "@ + abbreviated(squeezed(place.snippet@))
}

/// The number of bytes of a text.
fn byte_len(s: &str) -> (r: usize)
    ensures
        r == encode_utf8(s@).len(),
{
    s.as_bytes().len()
}

/// Whether the text at a place can be abbreviated, if it has to be: a cut must not fall into the
/// middle of a character.
pub fn can_describe(place: &SourceText) -> (r: bool)
    ensures
        r == can_cut(squeezed(place.snippet@)),
{
    let s = squeeze(place.snippet.as_str());
    let n = byte_len(s.as_str());
    n <= 20 || (s.as_str().is_char_boundary(15) && s.as_str().is_char_boundary(n - 5))
}

/// Describes a place by its line and the beginning and end of its text.
pub fn describe_span(place: &SourceText) -> (r: String)
    requires
        can_cut(squeezed(place.snippet@)),
    ensures
        r@ == description(*place),
{
    let s = squeeze(place.snippet.as_str());
    let mut out = String::new();
    push_decimal(&mut out, place.line as u64);
    out.append(": ");
    let ghost head = decimal(place.line as nat) + ": "@;
    assert(out@ =~= head);
    let n = byte_len(s.as_str());
    if n > 20 {
        let (src1, _) = s.as_str().split_at(15);
        let (_, src3) = s.as_str().split_at(n - 5);
        proof {
            encode_utf8_decode_utf8(src1@);
            encode_utf8_decode_utf8(src3@);
        }
        out.append(src1);
        out.append(" ... ");
        out.append(src3);
        assert(out@ =~= head + abbreviated(s@));
    } else {
        out.append(s.as_str());
    }
    out
}

/// The place that describes a local: the pattern that binds it, or else its declaration.
pub open spec fn shown_place(local: LocalSource) -> SourceText {
    match local.pattern {
        Some(p) => p,
        None => local.source,
    }
}

/// Describes a local by the pattern that binds it, or else by its declaration.
pub fn describe_local(local: &LocalSource) -> (r: String)
    requires
        can_cut(squeezed(shown_place(*local).snippet@)),
    ensures
        r@ == description(shown_place(*local)),
{
    match &local.pattern {
        Some(p) => describe_span(p),
        None => describe_span(&local.source),
    }
}

proof fn lemma_ascii_boundary(s: Seq<char>, i: int)
    requires
        is_ascii_chars(s),
        0 <= i <= s.len(),
    ensures
        is_char_boundary(encode_utf8(s), i),
{
    let bytes = encode_utf8(s);
    is_ascii_chars_encode_utf8(s);
    encode_utf8_valid_utf8(s);
    is_char_boundary_start_end_of_seq(bytes);
    if i < s.len() {
        is_char_boundary_iff_not_is_continuation_byte(bytes, i);
        assert(s[i] as u8 == bytes[i]);
        assert(s[i] as u32 <= 0x7f);
    }
}

proof fn lemma_ascii_part(s: Seq<char>, i: int, j: int)
    requires
        is_ascii_chars(s),
        0 <= i <= j <= s.len(),
    ensures
        decode_utf8(encode_utf8(s).subrange(i, j)) == s.subrange(i, j),
{
    let part = s.subrange(i, j);
    is_ascii_chars_encode_utf8(s);
    assert forall|k: int| 0 <= k < part.len() implies '\0' <= #[trigger] part[k] <= '\u{7f}' by {
        assert(part[k] == s[i + k]);
    }
    is_ascii_chars_encode_utf8(part);
    assert forall|k: int| 0 <= k < part.len() implies encode_utf8(s).subrange(i, j)[k]
        == encode_utf8(part)[k] by {
        assert(s[i + k] as u8 == encode_utf8(s)[i + k]);
        assert(part[k] as u8 == encode_utf8(part)[k]);
    }
    assert(encode_utf8(s).subrange(i, j) =~= encode_utf8(part));
    encode_utf8_decode_utf8(part);
}

/// ASCII text can always be cut, and is abbreviated to its first fifteen and its last five
/// characters if it has more than twenty.
pub proof fn law_ascii_is_cut(s: Seq<char>)
    requires
        is_ascii_chars(s),
    ensures
        can_cut(s),
        abbreviated(s) == if s.len() > 20 {
            s.take(15) + " ... "@ + s.skip(s.len() - 5)
        } else {
            s
        },
{
    is_ascii_chars_encode_utf8(s);
    if s.len() > 20 {
        lemma_ascii_boundary(s, 15);
        lemma_ascii_boundary(s, s.len() - 5);
        lemma_ascii_part(s, 0, 15);
        lemma_ascii_part(s, s.len() - 5, s.len() as int);
        assert(s.subrange(0, 15) =~= s.take(15));
        assert(s.subrange(s.len() - 5, s.len() as int) =~= s.skip(s.len() - 5));
    }
}

/// A place is described by the line where it starts and the words of its text, with one space
/// between them. A text of up to twenty bytes is shown whole; of a longer one, the first fifteen
/// bytes and the last five are.
pub proof fn law_descriptions(place: SourceText, s: Seq<char>)
    ensures
        description(place) == decimal(place.line as nat) + ": "@ + abbreviated(
            join(words(place.snippet@)),
        ),
        encode_utf8(s).len() <= 20 ==> abbreviated(s) == s && can_cut(s),
        encode_utf8(s).len() > 20 ==> abbreviated(s) == decode_utf8(
            encode_utf8(s).subrange(0, 15),
        ) + " ... "@ + decode_utf8(
            encode_utf8(s).subrange(encode_utf8(s).len() - 5, encode_utf8(s).len() as int),
        ),
        encode_utf8(s).len() > 20 ==> (can_cut(s) <==> is_char_boundary(encode_utf8(s), 15)
            && is_char_boundary(encode_utf8(s), encode_utf8(s).len() - 5)),
        squeezed(s) == join(words(s)),
{
}

/// A local is shown by the pattern that binds it, and where there is none, by its declaration.
pub proof fn law_shown_places(source: SourceText, pattern: SourceText)
    ensures
        shown_place(LocalSource { source, pattern: Some(pattern) }) == pattern,
        shown_place(LocalSource { source, pattern: None }) == source,
{
}

} // verus!
