//! The request parser: from the bytes read off a client socket to a
//! [`Request`].
//!
//! The bytes are decoded leniently and split into lines at every CRLF. The
//! first line is the request line: its whitespace-delimited tokens are the
//! verb, the absolute-URI target and the protocol version. The lines that
//! follow, up to the first empty one, are header lines; one without the
//! separator `": "` is passed over.
use crate::request::{
    all_lines, crlf, headers_are_lines, is_line, result_view, Header, HeaderView, ProxyError,
    Request, RequestView,
};
use crate::text::{
    contains, first_occurrence, has_no_whitespace, is_part_of, is_whitespace,
    lemma_first_occurrence_none, lemma_first_occurrence_sound, lemma_part_contains,
    lemma_split_concat, lemma_split_nonempty, lemma_split_pieces, lemma_tokens_first,
    lemma_tokens_pieces, lemma_tokens_skip, spec_split, spec_split_once, spec_tokens, split,
    split_once, tokens,
};
use crate::uri::{lemma_split_target_within, spec_split_target, split_target};
use crate::wire::{
    header_line, header_lines, header_separator, join_lines, lemma_concat_is_line,
    lemma_header_line_is_line, lemma_no_cr_is_line, lemma_split_header_line, lemma_split_join, sp,
};
use vstd::prelude::*;
use vstd::slice::slice_subrange;
use vstd::utf8::{decode_utf8, valid_utf8};

verus! {

/// The text that `String::from_utf8_lossy` makes of `bytes`: their decoding
/// as UTF-8, with U+FFFD in place of every ill-formed run.
pub uninterp spec fn utf8_lossy(bytes: Seq<u8>) -> Seq<char>;

/// Calls `String::from_utf8_lossy` and takes the text as an owned string.
/// Trusted: the result is the named `utf8_lossy`; on valid UTF-8 it is the
/// plain decoding, as the documentation of the function says.
#[verifier::external_body]
fn decode_lossy(raw: &[u8]) -> (text: String)
    ensures
        text@ == utf8_lossy(raw@),
        valid_utf8(raw@) ==> text@ == decode_utf8(raw@),
{
    String::from_utf8_lossy(raw).into_owned()
}

/// The header that a line holds: key and value lie before and after the
/// leftmost separator. `None` for a line without the separator.
pub open spec fn spec_header(line: Seq<char>) -> Option<HeaderView> {
    match spec_split_once(line, header_separator()) {
        Some((key, value)) => Some(HeaderView { key, value }),
        None => None,
    }
}

/// The headers of the lines that follow the request line: the walk ends at
/// the first empty line, and a line without the separator adds nothing.
pub open spec fn spec_headers(lines: Seq<Seq<char>>) -> Seq<HeaderView>
    decreases lines.len(),
{
    if lines.len() == 0 || lines[0].len() == 0 {
        seq![]
    } else {
        match spec_header(lines[0]) {
            Some(header) => seq![header] + spec_headers(lines.drop_first()),
            None => spec_headers(lines.drop_first()),
        }
    }
}

/// The target of the request line of a text: its second token.
pub open spec fn spec_target(text: Seq<char>) -> Seq<char> {
    spec_tokens(spec_split(text, crlf())[0])[1]
}

/// The request that a decoded text holds, or `MalformedRequest` where the
/// request line has fewer than three whitespace-delimited tokens or its
/// target does not split into scheme, host and path.
pub open spec fn spec_parse_text(text: Seq<char>) -> Result<RequestView, ProxyError> {
    let lines = spec_split(text, crlf());
    let tokens = spec_tokens(lines[0]);
    if tokens.len() < 3 {
        Err(ProxyError::MalformedRequest)
    } else {
        match spec_split_target(tokens[1]) {
            Some(parts) => Ok(
                RequestView {
                    verb: tokens[0],
                    scheme: parts.scheme,
                    hostname: parts.hostname,
                    path: parts.path,
                    headers: spec_headers(lines.drop_first()),
                },
            ),
            None => Err(ProxyError::MalformedRequest),
        }
    }
}

/// A part of a line is a line.
pub proof fn lemma_part_is_line(part: Seq<char>, line: Seq<char>)
    requires
        is_part_of(part, line),
        is_line(line),
    ensures
        is_line(part),
{
    if contains(part, crlf()) {
        lemma_part_contains(part, line, crlf());
    }
}

/// Key and value of the header of a line are lines too.
pub proof fn lemma_header_is_line(line: Seq<char>)
    requires
        is_line(line),
    ensures
        spec_header(line) matches Some(header) ==> is_line(header.key) && is_line(header.value),
{
    lemma_first_occurrence_sound(line, header_separator());
    if let Some(at) = first_occurrence(line, header_separator()) {
        assert(is_part_of(line.subrange(0, at), line));
        assert(is_part_of(line.subrange(at + 2, line.len() as int), line));
        lemma_part_is_line(line.subrange(0, at), line);
        lemma_part_is_line(line.subrange(at + 2, line.len() as int), line);
    }
}

/// The headers of lines are made of lines.
pub proof fn lemma_headers_are_lines(lines: Seq<Seq<char>>)
    requires
        all_lines(lines),
    ensures
        headers_are_lines(spec_headers(lines)),
    decreases lines.len(),
{
    if lines.len() > 0 && lines[0].len() > 0 {
        let tail = lines.drop_first();
        assert(all_lines(tail)) by {
            assert forall|i: int| 0 <= i < tail.len() implies is_line(#[trigger] tail[i]) by {
                assert(tail[i] == lines[i + 1]);
            }
        }
        lemma_headers_are_lines(tail);
        assert(is_line(lines[0]));
        lemma_header_is_line(lines[0]);
    }
}

/// No field of a parsed request holds a line break, and scheme, host and
/// path stand in the target of the request line.
pub proof fn lemma_parsed_is_well_formed(text: Seq<char>)
    ensures
        spec_parse_text(text) matches Ok(request) ==> {
            &&& request.well_formed()
            &&& is_part_of(request.scheme, spec_target(text))
            &&& is_part_of(request.hostname, spec_target(text))
            &&& is_part_of(request.path, spec_target(text))
        },
{
    if let Ok(request) = spec_parse_text(text) {
        let lines = spec_split(text, crlf());
        let line = lines[0];
        let tokens = spec_tokens(line);
        let verb = tokens[0];
        let target = tokens[1];
        let tail = lines.drop_first();
        assert(lines.len() >= 1 && is_line(line) && all_lines(tail)) by {
            lemma_split_nonempty(text, crlf());
            lemma_split_pieces(text, crlf());
            assert forall|i: int| 0 <= i < tail.len() implies is_line(#[trigger] tail[i]) by {
                assert(tail[i] == lines[i + 1]);
            }
        }
        assert(is_part_of(verb, line) && is_part_of(target, line)) by {
            lemma_tokens_pieces(line);
        }
        assert(is_part_of(request.scheme, target) && is_part_of(request.hostname, target)
            && is_part_of(request.path, target)) by {
            lemma_split_target_within(target);
        }
        lemma_part_is_line(verb, line);
        lemma_part_is_line(target, line);
        lemma_part_is_line(request.scheme, target);
        lemma_part_is_line(request.hostname, target);
        lemma_part_is_line(request.path, target);
        lemma_headers_are_lines(tail);
    }
}

/// Reads the headers off the lines that follow the request line.
pub fn parse_headers(lines: &[String]) -> (headers: Vec<Header>)
    ensures
        headers.deep_view() == spec_headers(lines.deep_view()),
{
    let ghost all = lines.deep_view();
    let mut headers: Vec<Header> = Vec::new();
    let mut i: usize = 0;
    proof {
        reveal_strlit(": ");
        assert(": "@ =~= header_separator());
        assert(all.skip(0) =~= all);
        assert(headers.deep_view() + spec_headers(all) =~= spec_headers(all));
    }
    while i < lines.len()
        invariant_except_break
            i <= lines@.len(),
            spec_headers(all) == headers.deep_view() + spec_headers(all.skip(i as int)),
        invariant
            all == lines.deep_view(),
            ": "@ == header_separator(),
        ensures
            headers.deep_view() == spec_headers(all),
        decreases lines@.len() - i,
    {
        let line = lines[i].as_str();
        let ghost before = headers.deep_view();
        let ghost rest = all.skip(i as int);
        proof {
            assert(rest[0] == line@);
            assert(rest.drop_first() =~= all.skip(i + 1));
        }
        if line.is_empty() {
            proof {
                assert(before + spec_headers(rest) =~= before);
            }
            break ;
        }
        match split_once(line, ": ") {
            Some((key, value)) => {
                let header = Header { key, value };
                headers.push(header);
                proof {
                    assert(headers.deep_view() =~= before.push(header@));
                    assert(before.push(header@) + spec_headers(all.skip(i + 1)) =~= before + (
                    seq![header@] + spec_headers(all.skip(i + 1))));
                }
            },
            None => {},
        }
        i = i + 1;
    }
    proof {
        if i == lines@.len() {
            assert(headers.deep_view() + spec_headers(all.skip(i as int)) =~= headers.deep_view());
        }
    }
    headers
}

/// Parses a decoded request.
pub fn parse_text(text: &str) -> (r: Result<Request, ProxyError>)
    ensures
        result_view(r) == spec_parse_text(text@),
        r matches Ok(request) ==> request@.well_formed(),
        r matches Err(e) ==> e == ProxyError::MalformedRequest,
{
    proof {
        reveal_strlit("\r\n");
        assert("\r\n"@ =~= crlf());
        lemma_split_nonempty(text@, crlf());
        lemma_parsed_is_well_formed(text@);
    }
    let lines = split(text, "\r\n");
    let tokens = tokens(lines[0].as_str());
    if tokens.len() < 3 {
        return Err(ProxyError::MalformedRequest);
    }
    match split_target(tokens[1].as_str()) {
        Some(parts) => {
            let header_lines = slice_subrange(lines.as_slice(), 1, lines.len());
            let headers = parse_headers(header_lines);
            proof {
                assert(header_lines.deep_view() =~= lines.deep_view().drop_first());
            }
            Ok(
                Request {
                    verb: tokens[0].clone(),
                    scheme: parts.scheme,
                    hostname: parts.hostname,
                    path: parts.path,
                    headers,
                },
            )
        },
        None => Err(ProxyError::MalformedRequest),
    }
}

/// Parses the bytes read off a client socket. Bytes that are not valid UTF-8
/// are decoded leniently, so decoding never fails; the request is malformed
/// where its line has fewer than three whitespace-delimited tokens or its
/// target is no absolute URI.
pub fn parse(raw: &[u8]) -> (r: Result<Request, ProxyError>)
    ensures
        result_view(r) == spec_parse_text(utf8_lossy(raw@)),
        valid_utf8(raw@) ==> result_view(r) == spec_parse_text(decode_utf8(raw@)),
        r matches Ok(request) ==> request@.well_formed(),
        r matches Err(e) ==> e == ProxyError::MalformedRequest,
{
    let text = decode_lossy(raw);
    parse_text(text.as_str())
}

/// A token of the request line: it is not empty and holds no whitespace.
pub open spec fn is_token(text: Seq<char>) -> bool {
    text.len() > 0 && has_no_whitespace(text)
}

/// A protocol version as it stands at the end of a request line: a line with
/// one token at least.
pub open spec fn is_version(text: Seq<char>) -> bool {
    is_line(text) && spec_tokens(text).len() >= 1
}

/// None of the lines is empty.
pub open spec fn no_empty_line(lines: Seq<Seq<char>>) -> bool {
    forall|i: int| 0 <= i < lines.len() ==> (#[trigger] lines[i]).len() > 0
}

/// A token is a version.
pub proof fn lemma_token_is_version(token: Seq<char>)
    requires
        is_token(token),
    ensures
        is_version(token),
{
    lemma_token_is_line(token);
    lemma_tokens_first(token, Seq::empty());
    assert(token + Seq::<char>::empty() =~= token);
}

/// The text of a request as a client sends it: the request line with single
/// spaces between its tokens, the lines of the header section, the empty line
/// that ends it, and whatever follows.
pub open spec fn request_text(
    verb: Seq<char>,
    target: Seq<char>,
    version: Seq<char>,
    lines: Seq<Seq<char>>,
    rest: Seq<char>,
) -> Seq<char> {
    verb + sp() + target + sp() + version + crlf() + join_lines(lines) + crlf() + rest
}

/// The request that stands for a verb, a target and the headers, or
/// `MalformedRequest` where the target does not split.
pub open spec fn request_of(verb: Seq<char>, target: Seq<char>, headers: Seq<HeaderView>) -> Result<
    RequestView,
    ProxyError,
> {
    match spec_split_target(target) {
        Some(parts) => Ok(
            RequestView {
                verb,
                scheme: parts.scheme,
                hostname: parts.hostname,
                path: parts.path,
                headers,
            },
        ),
        None => Err(ProxyError::MalformedRequest),
    }
}

/// A token holds no line break.
pub proof fn lemma_token_is_line(token: Seq<char>)
    requires
        has_no_whitespace(token),
    ensures
        is_line(token),
{
    assert forall|i: int| 0 <= i < token.len() implies token[i] != '\r' by {
        assert(!is_whitespace(token[i]));
    }
    lemma_no_cr_is_line(token);
}

/// The first two tokens of a request line are the verb and the target.
proof fn lemma_request_line_tokens(verb: Seq<char>, target: Seq<char>, version: Seq<char>)
    requires
        is_token(verb),
        is_token(target),
    ensures
        spec_tokens(verb + sp() + target + sp() + version) == seq![verb, target] + spec_tokens(
            version,
        ),
{
    let line = verb + sp() + target + sp() + version;
    let after_verb = sp() + (target + (sp() + version));
    let after_target = sp() + version;
    assert(line =~= verb + after_verb);
    assert(after_verb[0] == ' ');
    lemma_tokens_first(verb, after_verb);
    assert(after_verb =~= seq![' '] + (target + after_target));
    lemma_tokens_skip(' ', target + after_target);
    assert(after_target[0] == ' ');
    lemma_tokens_first(target, after_target);
    assert(after_target =~= seq![' '] + version);
    lemma_tokens_skip(' ', version);
    assert(seq![verb] + (seq![target] + spec_tokens(version)) =~= seq![verb, target]
        + spec_tokens(version));
}

/// A request line made of lines is a line.
proof fn lemma_request_line_is_line(verb: Seq<char>, target: Seq<char>, version: Seq<char>)
    requires
        is_line(verb),
        is_line(target),
        is_line(version),
    ensures
        is_line(verb + sp() + target + sp() + version),
{
    lemma_no_cr_is_line(sp());
    lemma_concat_is_line(verb, sp());
    lemma_concat_is_line(verb + sp(), target);
    lemma_concat_is_line(verb + sp() + target, sp());
    lemma_concat_is_line(verb + sp() + target + sp(), version);
}

/// The header section ends at its first empty line: what follows that line
/// adds no header.
pub proof fn lemma_headers_end_at_empty_line(lines: Seq<Seq<char>>, rest: Seq<Seq<char>>)
    requires
        no_empty_line(lines),
    ensures
        spec_headers(lines + seq![Seq::<char>::empty()] + rest) == spec_headers(lines),
    decreases lines.len(),
{
    let all = lines + seq![Seq::<char>::empty()] + rest;
    if lines.len() == 0 {
        assert(all[0].len() == 0);
    } else {
        let tail = lines.drop_first();
        assert(no_empty_line(tail)) by {
            assert forall|i: int| 0 <= i < tail.len() implies (#[trigger] tail[i]).len() > 0 by {
                assert(tail[i] == lines[i + 1]);
            }
        }
        lemma_headers_end_at_empty_line(tail, rest);
        assert(all[0] == lines[0]);
        assert(all.drop_first() =~= tail + seq![Seq::<char>::empty()] + rest);
    }
}

/// The keys hold no separator, so each header line is cut where it was
/// joined.
pub open spec fn keys_are_plain(headers: Seq<HeaderView>) -> bool {
    forall|i: int|
        0 <= i < headers.len() ==> !contains((#[trigger] headers[i]).key, header_separator())
}

/// A line with a header, put before other lines, puts its header before
/// theirs.
proof fn lemma_headers_cons(line: Seq<char>, header: HeaderView, rest: Seq<Seq<char>>)
    requires
        line.len() > 0,
        spec_header(line) == Some(header),
    ensures
        spec_headers(seq![line] + rest) == seq![header] + spec_headers(rest),
{
    let lines = seq![line] + rest;
    assert(lines[0] == line);
    assert(lines.drop_first() =~= rest);
}

/// Header lines read back as the headers they were written from: the same
/// pairs in the same order and number, repeated keys too.
pub proof fn lemma_headers_of_lines(headers: Seq<HeaderView>)
    requires
        keys_are_plain(headers),
    ensures
        spec_headers(header_lines(headers)) == headers,
    decreases headers.len(),
{
    if headers.len() > 0 {
        let first = headers[0];
        let tail = headers.drop_first();
        assert(keys_are_plain(tail)) by {
            assert forall|i: int| 0 <= i < tail.len() implies !contains(
                (#[trigger] tail[i]).key,
                header_separator(),
            ) by {
                assert(tail[i] == headers[i + 1]);
            }
        }
        lemma_headers_of_lines(tail);
        assert(!contains(first.key, header_separator()));
        lemma_split_header_line(first);
        assert(header_line(first).len() > 0) by {
            assert(header_line(first).len() == first.key.len() + 2 + first.value.len());
        }
        lemma_headers_cons(header_line(first), first, header_lines(tail));
        assert(header_lines(headers) =~= seq![header_line(first)] + header_lines(tail));
        assert(seq![first] + tail =~= headers);
    } else {
        assert(header_lines(headers) =~= Seq::<Seq<char>>::empty());
        assert(headers =~= Seq::<HeaderView>::empty());
    }
}

/// A line without the separator adds no header, wherever it stands.
pub proof fn lemma_line_without_separator_dropped(
    before: Seq<Seq<char>>,
    line: Seq<char>,
    after: Seq<Seq<char>>,
)
    requires
        line.len() > 0,
        !contains(line, header_separator()),
    ensures
        spec_headers(before + seq![line] + after) == spec_headers(before + after),
    decreases before.len(),
{
    let with = before + seq![line] + after;
    let without = before + after;
    if before.len() == 0 {
        assert(with[0] == line);
        assert(with.drop_first() =~= after);
        assert(without =~= after);
        lemma_first_occurrence_none(line, header_separator());
    } else {
        let tail = before.drop_first();
        lemma_line_without_separator_dropped(tail, line, after);
        assert(with[0] == before[0] && without[0] == before[0]);
        assert(with.drop_first() =~= tail + seq![line] + after);
        assert(without.drop_first() =~= tail + after);
    }
}

/// What parsing makes of a request text: the verb and the target as they
/// stand in the request line, whatever the protocol version says, and the
/// headers of the lines of the header section.
pub proof fn lemma_parse_request_text(
    verb: Seq<char>,
    target: Seq<char>,
    version: Seq<char>,
    lines: Seq<Seq<char>>,
    rest: Seq<char>,
)
    requires
        is_token(verb),
        is_token(target),
        is_version(version),
        all_lines(lines),
        no_empty_line(lines),
    ensures
        spec_parse_text(request_text(verb, target, version, lines, rest)) == request_of(
            verb,
            target,
            spec_headers(lines),
        ),
{
    let text = request_text(verb, target, version, lines, rest);
    let request_line = verb + sp() + target + sp() + version;
    let empty = Seq::<char>::empty();
    lemma_token_is_line(verb);
    lemma_token_is_line(target);
    lemma_request_line_is_line(verb, target, version);
    assert(text =~= request_line + crlf() + (join_lines(lines) + (crlf() + rest)));
    lemma_split_concat(request_line, crlf(), join_lines(lines) + (crlf() + rest));
    lemma_split_join(lines, crlf() + rest);
    assert(crlf() + rest =~= empty + crlf() + rest);
    assert(!contains(empty, crlf()));
    lemma_split_concat(empty, crlf(), rest);
    let split_lines = spec_split(text, crlf());
    let after = spec_split(rest, crlf());
    assert(split_lines == seq![request_line] + (lines + (seq![empty] + after)));
    assert(split_lines[0] == request_line);
    assert(split_lines.drop_first() =~= lines + seq![empty] + after);
    lemma_headers_end_at_empty_line(lines, after);
    lemma_request_line_tokens(verb, target, version);
}

/// A request in the regular form, `VERB target VERSION` and header lines
/// `key: value`, parses to the verb as sent, the parts that the URI pattern
/// finds in the target, each of them a run of characters of the target, and
/// the headers as sent: the same pairs in the same order and number, repeated
/// keys too. It fails only where the pattern finds no parts in the target.
pub proof fn lemma_parse_recovers_request(
    verb: Seq<char>,
    target: Seq<char>,
    version: Seq<char>,
    headers: Seq<HeaderView>,
    rest: Seq<char>,
)
    requires
        is_token(verb),
        is_token(target),
        is_version(version),
        headers_are_lines(headers),
        keys_are_plain(headers),
    ensures
        spec_parse_text(request_text(verb, target, version, header_lines(headers), rest))
            == request_of(verb, target, headers),
        request_of(verb, target, headers) matches Ok(request) ==> {
            &&& request.verb == verb
            &&& request.headers == headers
            &&& is_part_of(request.scheme, target)
            &&& is_part_of(request.hostname, target)
            &&& is_part_of(request.path, target)
        },
{
    lemma_split_target_within(target);
    let lines = header_lines(headers);
    assert(all_lines(lines) && no_empty_line(lines)) by {
        assert forall|i: int| 0 <= i < lines.len() implies is_line(#[trigger] lines[i])
            && lines[i].len() > 0 by {
            lemma_header_line_is_line(headers[i]);
        }
    }
    lemma_parse_request_text(verb, target, version, lines, rest);
    lemma_headers_of_lines(headers);
}

/// A header line without the separator `": "` is passed over: the request
/// parses as it does without that line, to the same result.
pub proof fn lemma_parse_drops_line_without_separator(
    verb: Seq<char>,
    target: Seq<char>,
    version: Seq<char>,
    before: Seq<Seq<char>>,
    line: Seq<char>,
    after: Seq<Seq<char>>,
    rest: Seq<char>,
)
    requires
        is_token(verb),
        is_token(target),
        is_version(version),
        all_lines(before + after),
        no_empty_line(before + after),
        is_line(line),
        line.len() > 0,
        !contains(line, header_separator()),
    ensures
        spec_parse_text(request_text(verb, target, version, before + seq![line] + after, rest))
            == spec_parse_text(request_text(verb, target, version, before + after, rest)),
{
    let with = before + seq![line] + after;
    let without = before + after;
    assert(all_lines(with) && no_empty_line(with)) by {
        assert forall|i: int| 0 <= i < with.len() implies is_line(#[trigger] with[i])
            && with[i].len() > 0 by {
            if i < before.len() {
                assert(with[i] == without[i]);
            } else if i > before.len() {
                assert(with[i] == without[i - 1]);
            }
        }
    }
    lemma_parse_request_text(verb, target, version, with, rest);
    lemma_parse_request_text(verb, target, version, without, rest);
    lemma_line_without_separator_dropped(before, line, after);
}

} // verus!
