//! Searching and splitting of character sequences.
//!
//! Text is modelled as `Seq<char>`, the view of `str` and `String`. The
//! executable functions take and give strings; inside they walk a `Vec<char>`
//! so that every step takes constant time.
use vstd::prelude::*;

verus! {

/// `String::push` of std. Trusted: after the call the string is the old one
/// with `c` at its end.
pub assume_specification[ String::push ](s: &mut String, c: char)
    ensures
        final(s)@ == old(s)@.push(c),
;

/// `pattern` stands in `text` at index `at`.
pub open spec fn occurs_at(text: Seq<char>, pattern: Seq<char>, at: int) -> bool {
    &&& 0 <= at
    &&& at + pattern.len() <= text.len()
    &&& text.subrange(at, at + pattern.len()) == pattern
}

/// `pattern` stands somewhere in `text`.
pub open spec fn contains(text: Seq<char>, pattern: Seq<char>) -> bool {
    exists|at: int| occurs_at(text, pattern, at)
}

/// `part` is a run of consecutive characters of `text`.
pub open spec fn is_part_of(part: Seq<char>, text: Seq<char>) -> bool {
    exists|from: int, to: int| 0 <= from <= to <= text.len() && part == text.subrange(from, to)
}

/// `pattern` stands in `text` at `at` and nowhere before.
pub open spec fn is_first_occurrence(text: Seq<char>, pattern: Seq<char>, at: int) -> bool {
    &&& occurs_at(text, pattern, at)
    &&& forall|before: int| 0 <= before < at ==> !occurs_at(text, pattern, before)
}

/// The index of the leftmost occurrence of `pattern` in `text`, if there is one.
#[verifier::opaque]
pub open spec fn first_occurrence(text: Seq<char>, pattern: Seq<char>) -> Option<int> {
    if exists|at: int| is_first_occurrence(text, pattern, at) {
        Some(choose|at: int| is_first_occurrence(text, pattern, at))
    } else {
        None
    }
}

/// The pieces of `text` between the leftmost, non-overlapping occurrences of
/// `delim`, in order. There is always at least one piece; a text that ends in
/// the delimiter has an empty last piece. An empty delimiter splits nothing.
pub open spec fn spec_split(text: Seq<char>, delim: Seq<char>) -> Seq<Seq<char>>
    decreases text.len(),
{
    match first_occurrence(text, delim) {
        Some(at) if delim.len() > 0 && 0 <= at && at + delim.len() <= text.len() => seq![
            text.subrange(0, at),
        ] + spec_split(text.subrange(at + delim.len(), text.len() as int), delim),
        _ => seq![text],
    }
}

/// `text` cut in two at the leftmost occurrence of `delim`, which is left out;
/// `None` where `delim` does not occur.
pub open spec fn spec_split_once(text: Seq<char>, delim: Seq<char>) -> Option<
    (Seq<char>, Seq<char>),
> {
    match first_occurrence(text, delim) {
        Some(at) => Some(
            (text.subrange(0, at), text.subrange(at + delim.len(), text.len() as int)),
        ),
        None => None,
    }
}

/// A leftmost occurrence, once exhibited, is what `first_occurrence` gives.
pub proof fn lemma_first_occurrence_is(text: Seq<char>, pattern: Seq<char>, at: int)
    requires
        is_first_occurrence(text, pattern, at),
    ensures
        first_occurrence(text, pattern) == Some(at),
{
    reveal(first_occurrence);
    let chosen = choose|i: int| is_first_occurrence(text, pattern, i);
    assert(is_first_occurrence(text, pattern, chosen));
    if chosen < at {
        assert(!occurs_at(text, pattern, chosen));
    }
    if at < chosen {
        assert(!occurs_at(text, pattern, at));
    }
}

/// Where the pattern does not occur, `first_occurrence` gives `None`.
pub proof fn lemma_first_occurrence_none(text: Seq<char>, pattern: Seq<char>)
    requires
        !contains(text, pattern),
    ensures
        first_occurrence(text, pattern) is None,
{
    reveal(first_occurrence);
    if exists|at: int| is_first_occurrence(text, pattern, at) {
        let at = choose|at: int| is_first_occurrence(text, pattern, at);
        assert(occurs_at(text, pattern, at));
    }
}

/// What `first_occurrence` gives is a leftmost occurrence, and `None` means
/// that there is no occurrence at all.
pub proof fn lemma_first_occurrence_sound(text: Seq<char>, pattern: Seq<char>)
    ensures
        match first_occurrence(text, pattern) {
            Some(at) => is_first_occurrence(text, pattern, at),
            None => !contains(text, pattern),
        },
{
    reveal(first_occurrence);
    if first_occurrence(text, pattern) is None {
        if contains(text, pattern) {
            let at = choose|at: int| occurs_at(text, pattern, at);
            lemma_leftmost_exists(text, pattern, at);
        }
    }
}

/// Below any occurrence there is a leftmost one.
proof fn lemma_leftmost_exists(text: Seq<char>, pattern: Seq<char>, at: int)
    requires
        occurs_at(text, pattern, at),
    ensures
        exists|first: int| is_first_occurrence(text, pattern, first),
    decreases at,
{
    if exists|before: int| 0 <= before < at && occurs_at(text, pattern, before) {
        let before = choose|before: int| 0 <= before < at && occurs_at(text, pattern, before);
        lemma_leftmost_exists(text, pattern, before);
    } else {
        assert(is_first_occurrence(text, pattern, at));
    }
}

/// An occurrence in a suffix is an occurrence in the whole text, shifted.
pub proof fn lemma_occurs_at_suffix(text: Seq<char>, pattern: Seq<char>, from: int, at: int)
    requires
        0 <= from <= text.len(),
        0 <= at,
    ensures
        occurs_at(text.subrange(from, text.len() as int), pattern, at) == occurs_at(
            text,
            pattern,
            from + at,
        ),
{
    let suffix = text.subrange(from, text.len() as int);
    let n = pattern.len() as int;
    if at + n <= suffix.len() {
        assert(suffix.subrange(at, at + n) =~= text.subrange(from + at, from + at + n));
    }
}

/// One step of `spec_split`: the piece before the leftmost delimiter, then the
/// pieces of what follows it.
pub proof fn lemma_split_step(text: Seq<char>, delim: Seq<char>, at: int)
    requires
        delim.len() > 0,
        is_first_occurrence(text, delim, at),
    ensures
        spec_split(text, delim) == seq![text.subrange(0, at)] + spec_split(
            text.subrange(at + delim.len(), text.len() as int),
            delim,
        ),
{
    lemma_first_occurrence_is(text, delim, at);
}

/// A text without the delimiter is its own single piece.
pub proof fn lemma_split_whole(text: Seq<char>, delim: Seq<char>)
    requires
        delim.len() == 0 || !contains(text, delim),
    ensures
        spec_split(text, delim) == seq![text],
{
    if delim.len() > 0 {
        lemma_first_occurrence_none(text, delim);
    }
}

/// A part of a part of a text is a part of that text.
pub proof fn lemma_part_of_part(inner: Seq<char>, middle: Seq<char>, text: Seq<char>)
    requires
        is_part_of(inner, middle),
        is_part_of(middle, text),
    ensures
        is_part_of(inner, text),
{
    let (a, b) = choose|a: int, b: int| 0 <= a <= b <= middle.len() && inner == middle.subrange(a, b);
    let (c, d) = choose|c: int, d: int| 0 <= c <= d <= text.len() && middle == text.subrange(c, d);
    assert(inner =~= text.subrange(c + a, c + b));
}

/// A pattern that stands in a part of a text stands in that text.
pub proof fn lemma_part_contains(part: Seq<char>, text: Seq<char>, pattern: Seq<char>)
    requires
        is_part_of(part, text),
        contains(part, pattern),
    ensures
        contains(text, pattern),
{
    let (a, b) = choose|a: int, b: int| 0 <= a <= b <= text.len() && part == text.subrange(a, b);
    let at = choose|at: int| occurs_at(part, pattern, at);
    assert(part.subrange(at, at + pattern.len()) =~= text.subrange(
        a + at,
        a + at + pattern.len(),
    ));
    assert(occurs_at(text, pattern, a + at));
}

/// Every piece of a split is a part of the text, and none holds the
/// delimiter.
pub proof fn lemma_split_pieces(text: Seq<char>, delim: Seq<char>)
    ensures
        forall|i: int|
            0 <= i < spec_split(text, delim).len() ==> is_part_of(
                #[trigger] spec_split(text, delim)[i],
                text,
            ),
        delim.len() > 0 ==> forall|i: int|
            0 <= i < spec_split(text, delim).len() ==> !contains(
                #[trigger] spec_split(text, delim)[i],
                delim,
            ),
    decreases text.len(),
{
    let pieces = spec_split(text, delim);
    lemma_first_occurrence_sound(text, delim);
    match first_occurrence(text, delim) {
        Some(at) if delim.len() > 0 && 0 <= at && at + delim.len() <= text.len() => {
            let head = text.subrange(0, at);
            let rest = text.subrange(at + delim.len(), text.len() as int);
            lemma_split_pieces(rest, delim);
            assert(is_part_of(rest, text));
            assert(is_part_of(head, text));
            if contains(head, delim) {
                let j = choose|j: int| occurs_at(head, delim, j);
                assert(head.subrange(j, j + delim.len()) =~= text.subrange(j, j + delim.len()));
                assert(occurs_at(text, delim, j));
            }
            assert forall|i: int| 0 <= i < pieces.len() implies is_part_of(
                #[trigger] pieces[i],
                text,
            ) && !contains(pieces[i], delim) by {
                if i > 0 {
                    assert(pieces[i] == spec_split(rest, delim)[i - 1]);
                    lemma_part_of_part(pieces[i], rest, text);
                }
            }
        },
        _ => {
            assert(text =~= text.subrange(0, text.len() as int));
            assert(is_part_of(text, text));
        },
    }
}

/// A delimiter that cannot overlap itself: one character, or two different
/// ones.
pub open spec fn is_plain_delimiter(delim: Seq<char>) -> bool {
    delim.len() == 1 || (delim.len() == 2 && delim[0] != delim[1])
}

/// In `head + delim + tail`, where `head` is free of the delimiter, the
/// leftmost delimiter is the one written after `head`.
pub proof fn lemma_first_occurrence_after(head: Seq<char>, delim: Seq<char>, tail: Seq<char>)
    requires
        is_plain_delimiter(delim),
        !contains(head, delim),
    ensures
        is_first_occurrence(head + delim + tail, delim, head.len() as int),
{
    let text = head + delim + tail;
    let n = delim.len() as int;
    assert(text.subrange(head.len() as int, head.len() + n) =~= delim);
    assert forall|j: int| 0 <= j < head.len() implies !occurs_at(text, delim, j) by {
        if occurs_at(text, delim, j) {
            let window = text.subrange(j, j + n);
            assert(window[0] == delim[0]);
            if j + n <= head.len() {
                assert(head.subrange(j, j + n) =~= window);
                assert(occurs_at(head, delim, j));
            } else {
                assert(window[1] == delim[1]);
                assert(window[1] == text[j + 1]);
                assert(text[j + 1] == delim[0]);
            }
        }
    }
}

/// Splitting `head + delim + tail`, where `head` is free of the delimiter,
/// gives `head` and then the pieces of `tail`.
pub proof fn lemma_split_concat(head: Seq<char>, delim: Seq<char>, tail: Seq<char>)
    requires
        is_plain_delimiter(delim),
        !contains(head, delim),
    ensures
        spec_split(head + delim + tail, delim) == seq![head] + spec_split(tail, delim),
{
    let text = head + delim + tail;
    let n = delim.len() as int;
    lemma_first_occurrence_after(head, delim, tail);
    lemma_split_step(text, delim, head.len() as int);
    assert(text.subrange(0, head.len() as int) =~= head);
    assert(text.subrange(head.len() + n, text.len() as int) =~= tail);
}

/// Cutting `head + delim + tail` once, where `head` is free of the delimiter,
/// gives `head` and `tail`.
pub proof fn lemma_split_once_concat(head: Seq<char>, delim: Seq<char>, tail: Seq<char>)
    requires
        is_plain_delimiter(delim),
        !contains(head, delim),
    ensures
        spec_split_once(head + delim + tail, delim) == Some((head, tail)),
{
    let text = head + delim + tail;
    let n = delim.len() as int;
    lemma_first_occurrence_after(head, delim, tail);
    lemma_first_occurrence_is(text, delim, head.len() as int);
    assert(text.subrange(0, head.len() as int) =~= head);
    assert(text.subrange(head.len() + n, text.len() as int) =~= tail);
}

/// A whitespace character, as `char::is_whitespace` has it: the characters
/// with the Unicode property `White_Space`.
pub open spec fn is_whitespace(c: char) -> bool {
    let u = c as u32;
    ||| 0x09 <= u <= 0x0d
    ||| u == 0x20
    ||| u == 0x85
    ||| u == 0xa0
    ||| u == 0x1680
    ||| 0x2000 <= u <= 0x200a
    ||| u == 0x2028
    ||| u == 0x2029
    ||| u == 0x202f
    ||| u == 0x205f
    ||| u == 0x3000
}

/// `text` holds no whitespace character.
pub open spec fn has_no_whitespace(text: Seq<char>) -> bool {
    forall|i: int| 0 <= i < text.len() ==> !is_whitespace(#[trigger] text[i])
}

/// The number of characters before the first whitespace character of
/// `text`, or before its end.
pub open spec fn leading_run(text: Seq<char>) -> nat
    decreases text.len(),
{
    if text.len() == 0 || is_whitespace(text[0]) {
        0
    } else {
        1 + leading_run(text.drop_first())
    }
}

/// The whitespace-delimited tokens of `text`: its maximal runs of characters
/// that are not whitespace, in order. Whitespace at either end and runs of
/// several whitespace characters make no empty token.
#[verifier::opaque]
pub open spec fn spec_tokens(text: Seq<char>) -> Seq<Seq<char>>
    decreases text.len(),
{
    if text.len() == 0 {
        seq![]
    } else if is_whitespace(text[0]) {
        spec_tokens(text.drop_first())
    } else {
        let run = leading_run(text) as int;
        if run <= text.len() {
            seq![text.subrange(0, run)] + spec_tokens(text.subrange(run, text.len() as int))
        } else {
            seq![text]
        }
    }
}

/// The leading run ends within the text, holds no whitespace, and is
/// followed by a whitespace character or by the end.
pub proof fn lemma_leading_run(text: Seq<char>)
    ensures
        leading_run(text) <= text.len(),
        has_no_whitespace(text.subrange(0, leading_run(text) as int)),
        leading_run(text) < text.len() ==> is_whitespace(text[leading_run(text) as int]),
    decreases text.len(),
{
    if text.len() > 0 && !is_whitespace(text[0]) {
        let tail = text.drop_first();
        lemma_leading_run(tail);
        let run = leading_run(text) as int;
        assert forall|i: int| 0 <= i < run implies !is_whitespace(
            #[trigger] text.subrange(0, run)[i],
        ) by {
            if i > 0 {
                assert(text.subrange(0, run)[i] == tail.subrange(0, run - 1)[i - 1]);
            }
        }
        if run < text.len() {
            assert(text[run] == tail[run - 1]);
        }
    }
}

/// A run that holds no whitespace and is followed by a whitespace character,
/// or by the end, is the leading run.
pub proof fn lemma_leading_run_is(text: Seq<char>, run: int)
    requires
        0 <= run <= text.len(),
        has_no_whitespace(text.subrange(0, run)),
        run < text.len() ==> is_whitespace(text[run]),
    ensures
        leading_run(text) == run,
    decreases text.len(),
{
    if run == 0 {
    } else {
        let tail = text.drop_first();
        assert(text[0] == text.subrange(0, run)[0]);
        assert forall|i: int| 0 <= i < run - 1 implies !is_whitespace(
            #[trigger] tail.subrange(0, run - 1)[i],
        ) by {
            assert(tail.subrange(0, run - 1)[i] == text.subrange(0, run)[i + 1]);
        }
        if run - 1 < tail.len() {
            assert(tail[run - 1] == text[run]);
        }
        lemma_leading_run_is(tail, run - 1);
    }
}

/// A whitespace character at the front adds no token.
pub proof fn lemma_tokens_skip(gap: char, rest: Seq<char>)
    requires
        is_whitespace(gap),
    ensures
        spec_tokens(seq![gap] + rest) == spec_tokens(rest),
{
    reveal(spec_tokens);
    let text = seq![gap] + rest;
    assert(text[0] == gap);
    assert(text.drop_first() =~= rest);
}

/// A run without whitespace at the front, followed by a whitespace character
/// or by the end, is the first token.
pub proof fn lemma_tokens_first(token: Seq<char>, rest: Seq<char>)
    requires
        token.len() > 0,
        has_no_whitespace(token),
        rest.len() > 0 ==> is_whitespace(rest[0]),
    ensures
        spec_tokens(token + rest) == seq![token] + spec_tokens(rest),
{
    reveal(spec_tokens);
    let text = token + rest;
    let run = token.len() as int;
    assert(text.subrange(0, run) =~= token);
    assert(text.subrange(run, text.len() as int) =~= rest);
    assert(text[0] == token[0]);
    if run < text.len() {
        assert(text[run] == rest[0]);
    }
    lemma_leading_run_is(text, run);
}

/// Every token is a part of the text, is not empty and holds no whitespace.
pub proof fn lemma_tokens_pieces(text: Seq<char>)
    ensures
        forall|i: int|
            0 <= i < spec_tokens(text).len() ==> {
                &&& is_part_of(#[trigger] spec_tokens(text)[i], text)
                &&& spec_tokens(text)[i].len() > 0
                &&& has_no_whitespace(spec_tokens(text)[i])
            },
    decreases text.len(),
{
    reveal(spec_tokens);
    let tokens = spec_tokens(text);
    if text.len() == 0 {
    } else if is_whitespace(text[0]) {
        let rest = text.drop_first();
        lemma_tokens_pieces(rest);
        assert(rest =~= text.subrange(1, text.len() as int));
        assert(is_part_of(rest, text));
        assert forall|i: int| 0 <= i < tokens.len() implies is_part_of(
            #[trigger] tokens[i],
            text,
        ) && tokens[i].len() > 0 && has_no_whitespace(tokens[i]) by {
            assert(tokens[i] == spec_tokens(rest)[i]);
            lemma_part_of_part(tokens[i], rest, text);
        }
    } else {
        lemma_leading_run(text);
        let run = leading_run(text) as int;
        let head = text.subrange(0, run);
        let rest = text.subrange(run, text.len() as int);
        lemma_tokens_pieces(rest);
        assert(is_part_of(head, text));
        assert(is_part_of(rest, text));
        assert forall|i: int| 0 <= i < tokens.len() implies is_part_of(
            #[trigger] tokens[i],
            text,
        ) && tokens[i].len() > 0 && has_no_whitespace(tokens[i]) by {
            if i > 0 {
                assert(tokens[i] == spec_tokens(rest)[i - 1]);
                lemma_part_of_part(tokens[i], rest, text);
            } else {
                assert(tokens[i] == head);
                assert(run >= 1);
            }
        }
    }
}

/// Splitting gives at least one piece.
pub proof fn lemma_split_nonempty(text: Seq<char>, delim: Seq<char>)
    ensures
        spec_split(text, delim).len() >= 1,
{
}

/// The characters of a string, in order.
pub fn chars_of(s: &str) -> (chars: Vec<char>)
    ensures
        chars@ == s@,
{
    let mut chars: Vec<char> = Vec::new();
    for c in it: s.chars()
        invariant
            it.seq() == s@,
            chars@ == it.seq().take(it.index() as int),
    {
        chars.push(c);
    }
    chars
}

/// The string made of `chars[from..to]`.
pub fn string_of(chars: &[char], from: usize, to: usize) -> (s: String)
    requires
        from <= to <= chars@.len(),
    ensures
        s@ == chars@.subrange(from as int, to as int),
{
    let mut s = String::new();
    let mut i: usize = from;
    while i < to
        invariant
            from <= i <= to <= chars@.len(),
            s@ == chars@.subrange(from as int, i as int),
        decreases to - i,
    {
        s.push(chars[i]);
        i = i + 1;
    }
    s
}

/// Whether `pattern` stands in `text` at `at`.
fn matches_at(text: &[char], pattern: &[char], at: usize) -> (r: bool)
    requires
        at + pattern@.len() <= text@.len(),
    ensures
        r == occurs_at(text@, pattern@, at as int),
{
    let ghost window = text@.subrange(at as int, at + pattern@.len());
    let text_len: usize = text.len();
    let mut k: usize = 0;
    while k < pattern.len()
        invariant
            k <= pattern@.len(),
            at + pattern@.len() <= text@.len() == text_len,
            window == text@.subrange(at as int, at + pattern@.len()),
            forall|j: int| 0 <= j < k ==> window[j] == pattern@[j],
        decreases pattern@.len() - k,
    {
        if text[at + k] != pattern[k] {
            assert(window[k as int] != pattern@[k as int]);
            return false;
        }
        k = k + 1;
    }
    assert(window =~= pattern@);
    true
}

/// The leftmost index at or after `from` at which `pattern` stands in `text`.
pub fn find(text: &[char], pattern: &[char], from: usize) -> (r: Option<usize>)
    ensures
        match r {
            Some(at) => {
                &&& from <= at
                &&& occurs_at(text@, pattern@, at as int)
                &&& forall|j: int| from <= j < at ==> !occurs_at(text@, pattern@, j)
            },
            None => forall|j: int| from <= j ==> !occurs_at(text@, pattern@, j),
        },
{
    if pattern.len() > text.len() {
        return None;
    }
    let last: usize = text.len() - pattern.len();
    let mut at: usize = from;
    while at <= last
        invariant
            from <= at,
            last == text@.len() - pattern@.len(),
            forall|j: int| from <= j < at ==> !occurs_at(text@, pattern@, j),
        decreases last - at,
    {
        if matches_at(text, pattern, at) {
            return Some(at);
        }
        if at == last {
            return None;
        }
        at = at + 1;
    }
    None
}

/// Splits `text` at every occurrence of `delim`, as `str::split` does with a
/// string pattern that is not empty. An empty delimiter splits nothing.
pub fn split(text: &str, delim: &str) -> (pieces: Vec<String>)
    ensures
        pieces.deep_view() == spec_split(text@, delim@),
{
    let chars = chars_of(text);
    let pattern = chars_of(delim);
    let mut pieces: Vec<String> = Vec::new();
    if pattern.len() == 0 {
        pieces.push(string_of(chars.as_slice(), 0, chars.len()));
        proof {
            lemma_split_whole(text@, delim@);
            assert(chars@.subrange(0, chars@.len() as int) =~= chars@);
            assert(pieces.deep_view() =~= seq![text@]);
        }
        return pieces;
    }
    let chars_len: usize = chars.len();
    let mut start: usize = 0;
    proof {
        assert(chars@.subrange(0, chars@.len() as int) =~= chars@);
        assert(pieces.deep_view() + spec_split(text@, delim@) =~= spec_split(text@, delim@));
    }
    loop
        invariant_except_break
            start <= chars@.len(),
            spec_split(text@, delim@) == pieces.deep_view() + spec_split(
                chars@.subrange(start as int, chars@.len() as int),
                delim@,
            ),
        invariant
            chars@ == text@,
            chars@.len() == chars_len,
            pattern@ == delim@,
            delim@.len() > 0,
        ensures
            pieces.deep_view() == spec_split(text@, delim@),
        decreases chars@.len() - start,
    {
        let ghost rest = chars@.subrange(start as int, chars@.len() as int);
        let ghost before = pieces.deep_view();
        match find(chars.as_slice(), pattern.as_slice(), start) {
            Some(at) => {
                let piece = string_of(chars.as_slice(), start, at);
                proof {
                    assert forall|j: int| 0 <= j < at - start implies !occurs_at(
                        rest,
                        delim@,
                        j,
                    ) by {
                        lemma_occurs_at_suffix(chars@, delim@, start as int, j);
                    }
                    lemma_occurs_at_suffix(chars@, delim@, start as int, at - start);
                    lemma_split_step(rest, delim@, at - start);
                    assert(rest.subrange(0, at - start) =~= piece@);
                    assert(rest.subrange(at - start + delim@.len(), rest.len() as int)
                        =~= chars@.subrange(at + delim@.len(), chars@.len() as int));
                }
                pieces.push(piece);
                start = at + pattern.len();
                proof {
                    assert(pieces.deep_view() =~= before.push(piece@));
                    assert(before.push(piece@) + spec_split(
                        chars@.subrange(start as int, chars@.len() as int),
                        delim@,
                    ) =~= before + (seq![piece@] + spec_split(
                        chars@.subrange(start as int, chars@.len() as int),
                        delim@,
                    )));
                }
            },
            None => {
                let piece = string_of(chars.as_slice(), start, chars.len());
                proof {
                    assert forall|j: int| !occurs_at(rest, delim@, j) by {
                        if 0 <= j {
                            lemma_occurs_at_suffix(chars@, delim@, start as int, j);
                        }
                    }
                    lemma_split_whole(rest, delim@);
                }
                pieces.push(piece);
                proof {
                    assert(pieces.deep_view() =~= before.push(piece@));
                    assert(before.push(rest) =~= before + seq![rest]);
                }
                break ;
            },
        }
    }
    pieces
}

/// Whether `c` is a whitespace character, as `char::is_whitespace` says.
pub fn is_space(c: char) -> (r: bool)
    ensures
        r == is_whitespace(c),
{
    let u: u32 = c as u32;
    (0x09 <= u && u <= 0x0d) || u == 0x20 || u == 0x85 || u == 0xa0 || u == 0x1680 || (0x2000 <= u
        && u <= 0x200a) || u == 0x2028 || u == 0x2029 || u == 0x202f || u == 0x205f || u == 0x3000
}

/// The whitespace-delimited tokens of `text`, as `str::split_whitespace`
/// gives them.
pub fn tokens(text: &str) -> (pieces: Vec<String>)
    ensures
        pieces.deep_view() == spec_tokens(text@),
{
    let chars = chars_of(text);
    let n: usize = chars.len();
    let mut pieces: Vec<String> = Vec::new();
    let mut pos: usize = 0;
    proof {
        assert(chars@.subrange(0, n as int) =~= chars@);
        assert(pieces.deep_view() + spec_tokens(text@) =~= spec_tokens(text@));
    }
    while pos < n
        invariant
            pos <= n == chars@.len(),
            chars@ == text@,
            spec_tokens(text@) == pieces.deep_view() + spec_tokens(
                chars@.subrange(pos as int, n as int),
            ),
        decreases n - pos,
    {
        let ghost rest = chars@.subrange(pos as int, n as int);
        let ghost before = pieces.deep_view();
        if is_space(chars[pos]) {
            proof {
                let tail = chars@.subrange(pos + 1, n as int);
                assert(rest =~= seq![chars@[pos as int]] + tail);
                lemma_tokens_skip(chars@[pos as int], tail);
            }
            pos = pos + 1;
        } else {
            let mut end: usize = pos + 1;
            while end < n && !is_space(chars[end])
                invariant
                    pos < end <= n == chars@.len(),
                    forall|i: int| pos <= i < end ==> !is_whitespace(#[trigger] chars@[i]),
                decreases n - end,
            {
                end = end + 1;
            }
            let piece = string_of(chars.as_slice(), pos, end);
            proof {
                let tail = chars@.subrange(end as int, n as int);
                assert(rest =~= piece@ + tail);
                assert forall|i: int| 0 <= i < piece@.len() implies !is_whitespace(
                    #[trigger] piece@[i],
                ) by {
                    assert(piece@[i] == chars@[pos + i]);
                }
                if tail.len() > 0 {
                    assert(tail[0] == chars@[end as int]);
                }
                lemma_tokens_first(piece@, tail);
            }
            pieces.push(piece);
            proof {
                assert(pieces.deep_view() =~= before.push(piece@));
                assert(before.push(piece@) + spec_tokens(chars@.subrange(end as int, n as int))
                    =~= before + (seq![piece@] + spec_tokens(
                    chars@.subrange(end as int, n as int),
                )));
            }
            pos = end;
        }
    }
    proof {
        reveal(spec_tokens);
        assert(pieces.deep_view() + spec_tokens(chars@.subrange(pos as int, n as int))
            =~= pieces.deep_view());
    }
    pieces
}

/// Cuts `text` in two at the leftmost occurrence of `delim`, as
/// `str::splitn(2, ..)` does where it gives two pieces.
pub fn split_once(text: &str, delim: &str) -> (r: Option<(String, String)>)
    ensures
        r.deep_view() == spec_split_once(text@, delim@),
{
    let chars = chars_of(text);
    let pattern = chars_of(delim);
    let chars_len: usize = chars.len();
    match find(chars.as_slice(), pattern.as_slice(), 0) {
        Some(at) => {
            proof {
                lemma_first_occurrence_is(text@, delim@, at as int);
            }
            let head = string_of(chars.as_slice(), 0, at);
            let tail = string_of(chars.as_slice(), at + pattern.len(), chars_len);
            Some((head, tail))
        },
        None => {
            proof {
                lemma_first_occurrence_none(text@, delim@);
            }
            None
        },
    }
}

} // verus!
