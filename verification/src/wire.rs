//! The line format that requests are written in, on both sides of the proxy.
use crate::request::{all_lines, crlf, is_line, HeaderView};
use crate::text::{
    contains, lemma_split_concat, lemma_split_once_concat, occurs_at, spec_split,
    spec_split_once,
};
use vstd::prelude::*;
use vstd::utf8::encode_utf8;

verus! {

/// One space, as it stands between the tokens of a request line in its
/// regular form.
pub open spec fn sp() -> Seq<char> {
    seq![' ']
}

/// The separator between the key and the value of a header line.
pub open spec fn header_separator() -> Seq<char> {
    seq![':', ' ']
}

/// A header as a line: key, separator, value.
pub open spec fn header_line(header: HeaderView) -> Seq<char> {
    header.key + header_separator() + header.value
}

/// The lines of a list of headers, in order.
pub open spec fn header_lines(headers: Seq<HeaderView>) -> Seq<Seq<char>> {
    Seq::new(headers.len(), |i: int| header_line(headers[i]))
}

/// The lines one after the other, each ended by a line break.
pub open spec fn join_lines(lines: Seq<Seq<char>>) -> Seq<char>
    decreases lines.len(),
{
    if lines.len() == 0 {
        seq![]
    } else {
        lines[0] + crlf() + join_lines(lines.drop_first())
    }
}

/// Joining one more line appends it and its line break.
pub proof fn lemma_join_push(lines: Seq<Seq<char>>, line: Seq<char>)
    ensures
        join_lines(lines.push(line)) == join_lines(lines) + line + crlf(),
    decreases lines.len(),
{
    if lines.len() == 0 {
        assert(lines.push(line).drop_first() =~= lines);
        assert(join_lines(lines.push(line)) =~= join_lines(lines) + line + crlf());
    } else {
        assert(lines.push(line).drop_first() =~= lines.drop_first().push(line));
        lemma_join_push(lines.drop_first(), line);
        assert(join_lines(lines.push(line)) =~= join_lines(lines) + line + crlf());
    }
}

/// A text without a carriage return holds no line break.
pub proof fn lemma_no_cr_is_line(text: Seq<char>)
    requires
        forall|i: int| 0 <= i < text.len() ==> text[i] != '\r',
    ensures
        is_line(text),
{
    if contains(text, crlf()) {
        let at = choose|at: int| occurs_at(text, crlf(), at);
        assert(text.subrange(at, at + 2)[0] == '\r');
    }
}

/// Two lines written one after the other make a line, unless the first ends
/// in a carriage return and the second begins with a line feed.
pub proof fn lemma_concat_is_line(a: Seq<char>, b: Seq<char>)
    requires
        is_line(a),
        is_line(b),
        !(a.len() > 0 && b.len() > 0 && a.last() == '\r' && b[0] == '\n'),
    ensures
        is_line(a + b),
{
    let text = a + b;
    if contains(text, crlf()) {
        let at = choose|at: int| occurs_at(text, crlf(), at);
        let window = text.subrange(at, at + 2);
        assert(window[0] == '\r' && window[1] == '\n');
        if at + 2 <= a.len() {
            assert(a.subrange(at, at + 2) =~= window);
            assert(occurs_at(a, crlf(), at));
        } else if at >= a.len() {
            assert(b.subrange(at - a.len(), at - a.len() + 2) =~= window);
            assert(occurs_at(b, crlf(), at - a.len()));
        } else {
            assert(a.last() == window[0]);
            assert(b[0] == window[1]);
        }
    }
}

/// The line of a header whose key and value are lines is a line.
pub proof fn lemma_header_line_is_line(header: HeaderView)
    requires
        is_line(header.key),
        is_line(header.value),
    ensures
        is_line(header_line(header)),
        header_line(header).len() > 0,
{
    lemma_no_cr_is_line(header_separator());
    lemma_concat_is_line(header.key, header_separator());
    lemma_concat_is_line(header.key + header_separator(), header.value);
}

/// Splitting joined lines at the line breaks gives the lines back, followed
/// by the pieces of what was written after them.
pub proof fn lemma_split_join(lines: Seq<Seq<char>>, tail: Seq<char>)
    requires
        all_lines(lines),
    ensures
        spec_split(join_lines(lines) + tail, crlf()) == lines + spec_split(tail, crlf()),
    decreases lines.len(),
{
    if lines.len() == 0 {
        assert(join_lines(lines) + tail =~= tail);
        assert(lines + spec_split(tail, crlf()) =~= spec_split(tail, crlf()));
    } else {
        let rest = lines.drop_first();
        assert(all_lines(rest)) by {
            assert forall|i: int| 0 <= i < rest.len() implies is_line(#[trigger] rest[i]) by {
                assert(rest[i] == lines[i + 1]);
            }
        }
        lemma_split_join(rest, tail);
        assert(is_line(lines[0]));
        lemma_split_concat(lines[0], crlf(), join_lines(rest) + tail);
        assert(join_lines(lines) + tail =~= lines[0] + crlf() + (join_lines(rest) + tail));
        assert(lines =~= seq![lines[0]] + rest);
        assert(seq![lines[0]] + (rest + spec_split(tail, crlf())) =~= lines + spec_split(
            tail,
            crlf(),
        ));
    }
}

/// Cutting the line of a header at the separator gives its key and value
/// back, where the key is free of the separator.
pub proof fn lemma_split_header_line(header: HeaderView)
    requires
        !contains(header.key, header_separator()),
    ensures
        spec_split_once(header_line(header), header_separator()) == Some(
            (header.key, header.value),
        ),
{
    lemma_split_once_concat(header.key, header_separator(), header.value);
}

/// The UTF-8 bytes of two texts written one after the other are the bytes of
/// the first followed by the bytes of the second.
pub proof fn lemma_encode_concat(a: Seq<char>, b: Seq<char>)
    ensures
        encode_utf8(a + b) == encode_utf8(a) + encode_utf8(b),
    decreases a.len(),
{
    if a.len() == 0 {
        assert(a + b =~= b);
        assert(encode_utf8(a) + encode_utf8(b) =~= encode_utf8(b));
    } else {
        lemma_encode_concat(a.drop_first(), b);
        assert((a + b).drop_first() =~= a.drop_first() + b);
        assert((a + b)[0] == a[0]);
        assert(encode_utf8(a + b) =~= encode_utf8(a) + encode_utf8(b));
    }
}

} // verus!
