//! The request forwarder: the bytes that go to the origin for a request.
//!
//! The outbound request is origin-relative and always `HTTP/1.1`: the
//! request line `VERB /path HTTP/1.1`, the headers of the client in their
//! order, one `Connection: close` line and the empty line that ends the
//! header section. No body is written.
use crate::parser::{
    is_token, is_version, lemma_parse_request_text, lemma_parsed_is_well_formed, no_empty_line, request_text,
    spec_parse_text,
};
use crate::request::{all_lines, crlf, is_line, Request, RequestView};
use crate::text::{contains, lemma_split_concat, lemma_split_whole, spec_split};
use crate::wire::{
    header_line, header_lines, join_lines, lemma_concat_is_line, lemma_header_line_is_line,
    lemma_encode_concat, lemma_join_push, lemma_no_cr_is_line, lemma_split_join,
};
use vstd::prelude::*;
use vstd::string::{StrSliceExecFns, StringExecFns};
use vstd::utf8::{encode_utf8, is_ascii_chars, is_ascii_chars_encode_utf8};

verus! {

/// The outbound request line, without its line break.
pub open spec fn outbound_request_line(request: RequestView) -> Seq<char> {
    request.verb + " /"@ + request.path + " HTTP/1.1"@
}

/// The header line that the proxy adds: the connection to the origin is
/// never used again.
pub open spec fn connection_close() -> Seq<char> {
    "Connection: close"@
}

/// The lines of the outbound request, in order.
pub open spec fn outbound_lines(request: RequestView) -> Seq<Seq<char>> {
    seq![outbound_request_line(request)] + header_lines(request.headers) + seq![
        connection_close(),
    ]
}

/// The outbound request: its lines, each ended by a line break, and the
/// empty line that ends the header section.
pub open spec fn outbound_text(request: RequestView) -> Seq<char> {
    join_lines(outbound_lines(request)) + crlf()
}

/// The text that goes to the origin for `request`.
pub fn outbound(request: &Request) -> (text: String)
    ensures
        text@ == outbound_text(request@),
{
    proof {
        reveal_strlit("\r\n");
        assert("\r\n"@ =~= crlf());
    }
    let ghost view = request@;
    let mut text = String::new();
    text.append(request.verb.as_str());
    text.append(" /");
    text.append(request.path.as_str());
    text.append(" HTTP/1.1");
    text.append("\r\n");
    let ghost first = seq![outbound_request_line(view)];
    proof {
        lemma_join_push(Seq::empty(), outbound_request_line(view));
        assert(Seq::<Seq<char>>::empty().push(outbound_request_line(view)) =~= first);
        assert(text@ =~= join_lines(first));
    }
    let mut i: usize = 0;
    while i < request.headers.len()
        invariant
            i <= request.headers@.len(),
            view == request@,
            first == seq![outbound_request_line(view)],
            "\r\n"@ == crlf(),
            text@ == join_lines(first + header_lines(view.headers.take(i as int))),
        decreases request.headers@.len() - i,
    {
        let header = &request.headers[i];
        let ghost written = first + header_lines(view.headers.take(i as int));
        text.append(header.key.as_str());
        text.append(": ");
        text.append(header.value.as_str());
        text.append("\r\n");
        proof {
            reveal_strlit(": ");
            let line = header_line(view.headers[i as int]);
            assert(line =~= header.key@ + ": "@ + header.value@);
            lemma_join_push(written, line);
            assert(written.push(line) =~= first + header_lines(view.headers.take(i + 1)));
            assert(text@ =~= join_lines(written) + line + crlf());
        }
        i = i + 1;
    }
    text.append("Connection: close");
    text.append("\r\n");
    text.append("\r\n");
    proof {
        assert(view.headers.take(i as int) =~= view.headers);
        let written = first + header_lines(view.headers);
        lemma_join_push(written, connection_close());
        assert(written.push(connection_close()) =~= outbound_lines(view));
        assert(text@ =~= join_lines(written) + connection_close() + crlf() + crlf());
    }
    text
}

/// The bytes that go to the origin for `request`: the outbound text in UTF-8.
pub fn serialize(request: &Request) -> (bytes: Vec<u8>)
    ensures
        bytes@ == encode_utf8(outbound_text(request@)),
{
    let text = outbound(request);
    text.as_str().as_bytes_vec()
}

/// The outbound request line of a well-formed request is a line, and not an
/// empty one.
proof fn lemma_request_line_is_line(request: RequestView)
    requires
        is_line(request.verb),
        is_line(request.path),
    ensures
        is_line(outbound_request_line(request)),
        outbound_request_line(request).len() > 0,
{
    reveal_strlit(" /");
    reveal_strlit(" HTTP/1.1");
    lemma_no_cr_is_line(" /"@);
    lemma_no_cr_is_line(" HTTP/1.1"@);
    lemma_concat_is_line(request.verb, " /"@);
    lemma_concat_is_line(request.verb + " /"@, request.path);
    lemma_concat_is_line(request.verb + " /"@ + request.path, " HTTP/1.1"@);
}

/// The lines of the outbound request are lines, and none is empty.
proof fn lemma_outbound_lines_are_lines(request: RequestView)
    requires
        request.well_formed(),
    ensures
        all_lines(outbound_lines(request)),
        no_empty_line(outbound_lines(request)),
{
    let lines = outbound_lines(request);
    let n = request.headers.len() as int;
    lemma_request_line_is_line(request);
    reveal_strlit("Connection: close");
    lemma_no_cr_is_line(connection_close());
    assert forall|i: int| 0 <= i < lines.len() implies is_line(#[trigger] lines[i])
        && lines[i].len() > 0 by {
        if i == 0 {
            assert(lines[i] == outbound_request_line(request));
        } else if i <= n {
            assert(lines[i] == header_line(request.headers[i - 1]));
            lemma_header_line_is_line(request.headers[i - 1]);
        } else {
            assert(lines[i] == connection_close());
        }
    }
}

/// Read line by line, the outbound text of a well-formed request is the
/// request line `VERB /path HTTP/1.1`, the headers of the client in their
/// order, one `Connection: close` line, one empty line, and nothing after it.
/// No line before the empty one is empty: the header section ends where the
/// proxy ended it, whatever the client sent.
pub proof fn lemma_outbound_shape(request: RequestView)
    requires
        request.well_formed(),
    ensures
        spec_split(outbound_text(request), crlf()) == outbound_lines(request) + seq![
            Seq::<char>::empty(),
            Seq::<char>::empty(),
        ],
        no_empty_line(outbound_lines(request)),
        outbound_lines(request).last() == connection_close(),
        outbound_lines(request)[0] == request.verb + " /"@ + request.path + " HTTP/1.1"@,
{
    let lines = outbound_lines(request);
    let empty = Seq::<char>::empty();
    lemma_outbound_lines_are_lines(request);
    assert(outbound_text(request) =~= join_lines(lines) + (empty + crlf() + empty));
    lemma_split_join(lines, empty + crlf() + empty);
    assert(!contains(empty, crlf()));
    lemma_split_concat(empty, crlf(), empty);
    lemma_split_whole(empty, crlf());
    assert(seq![empty] + seq![empty] =~= seq![empty, empty]);
}

/// The outbound text of every parsed request has the shape that
/// [`lemma_outbound_shape`] states.
pub proof fn lemma_outbound_of_parsed(text: Seq<char>)
    ensures
        spec_parse_text(text) matches Ok(request) ==> {
            &&& spec_split(outbound_text(request), crlf()) == outbound_lines(request) + seq![
                Seq::<char>::empty(),
                Seq::<char>::empty(),
            ]
            &&& no_empty_line(outbound_lines(request))
            &&& outbound_lines(request).last() == connection_close()
        },
{
    lemma_parsed_is_well_formed(text);
    if let Ok(request) = spec_parse_text(text) {
        lemma_outbound_shape(request);
    }
}

/// The protocol version of the client is not forwarded: two requests that
/// differ in nothing but the version parse to the same result, and the
/// outbound request line of that result ends in `HTTP/1.1`.
pub proof fn lemma_outbound_version_is_fixed(
    verb: Seq<char>,
    target: Seq<char>,
    version: Seq<char>,
    other_version: Seq<char>,
    lines: Seq<Seq<char>>,
    rest: Seq<char>,
)
    requires
        is_token(verb),
        is_token(target),
        is_version(version),
        is_version(other_version),
        all_lines(lines),
        no_empty_line(lines),
    ensures
        spec_parse_text(request_text(verb, target, version, lines, rest)) == spec_parse_text(
            request_text(verb, target, other_version, lines, rest),
        ),
        spec_parse_text(request_text(verb, target, version, lines, rest)) matches Ok(request)
            ==> spec_split(outbound_text(request), crlf())[0] == verb + " /"@ + request.path
            + " HTTP/1.1"@,
{
    let text = request_text(verb, target, version, lines, rest);
    lemma_parse_request_text(verb, target, version, lines, rest);
    lemma_parse_request_text(verb, target, other_version, lines, rest);
    lemma_parsed_is_well_formed(text);
    if let Ok(request) = spec_parse_text(text) {
        lemma_outbound_shape(request);
    }
}

/// The end of every outbound request, as text.
pub open spec fn outbound_end() -> Seq<char> {
    "Connection: close\r\n\r\n"@
}

/// The bytes that go to the origin end with the bytes of
/// `Connection: close`, a line break and the line break of the empty line,
/// one byte for each character; before them stand the request line and the
/// headers of the client, whatever they hold.
pub proof fn lemma_serialized_end(request: RequestView)
    ensures
        encode_utf8(outbound_text(request)) == encode_utf8(
            join_lines(seq![outbound_request_line(request)] + header_lines(request.headers)),
        ) + encode_utf8(outbound_end()),
        encode_utf8(outbound_end()) == Seq::new(21, |i: int| outbound_end()[i] as u8),
{
    let head = seq![outbound_request_line(request)] + header_lines(request.headers);
    reveal_strlit("Connection: close");
    reveal_strlit("Connection: close\r\n\r\n");
    lemma_join_push(head, connection_close());
    assert(head.push(connection_close()) =~= outbound_lines(request));
    assert(outbound_text(request) =~= join_lines(head) + outbound_end());
    lemma_encode_concat(join_lines(head), outbound_end());
    assert(is_ascii_chars(outbound_end()));
    is_ascii_chars_encode_utf8(outbound_end());
    assert(encode_utf8(outbound_end()) =~= Seq::new(21, |i: int| outbound_end()[i] as u8));
}

} // verus!
