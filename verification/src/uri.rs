//! The split of an absolute-URI target into scheme, host and path.
//!
//! The split is made by a regular expression. The regex engine is outside
//! code: its result has a name here, and nothing else is assumed of it but
//! that every group it gives is a part of the text searched.
use crate::text::is_part_of;
use regex::Regex;
use vstd::prelude::*;

verus! {

/// What `regex::Regex::new(pattern)` and then `Regex::captures(text)` give.
/// `None` where the pattern does not compile or matches nowhere in `text`;
/// else the groups of the leftmost match, group 0 being the whole match and a
/// group that took no part in the match being `None`.
pub uninterp spec fn regex_captures(pattern: Seq<char>, text: Seq<char>) -> Option<
    Seq<Option<Seq<char>>>,
>;

/// Every group that is present is a part of `text`.
pub open spec fn groups_within(groups: Seq<Option<Seq<char>>>, text: Seq<char>) -> bool {
    forall|i: int|
        0 <= i < groups.len() ==> (#[trigger] groups[i] matches Some(group) ==> is_part_of(
            group,
            text,
        ))
}

/// Calls `regex::Regex::new` on `pattern` and `Regex::captures` on `text`,
/// and copies each group out with `Captures::at`. Trusted: the result is the
/// named `regex_captures`, and each group is a slice of `text`, as the body
/// of `Captures::at` shows.
#[verifier::external_body]
fn captures(pattern: &str, text: &str) -> (groups: Option<Vec<Option<String>>>)
    ensures
        groups.deep_view() == regex_captures(pattern@, text@),
        groups matches Some(found) ==> groups_within(found.deep_view(), text@),
{
    match Regex::new(pattern) {
        Ok(re) => re.captures(text).map(
            |caps| (0..caps.len()).map(|i| caps.at(i).map(String::from)).collect(),
        ),
        Err(_) => None,
    }
}

/// The pattern of an absolute-URI target: a scheme of word characters, `://`,
/// a host up to the next slash, and the path after that slash.
pub const URI_PATTERN: &'static str = r"(\w*?)://(.*?)/(.*)";

/// Scheme, host and path of a target.
#[derive(Clone, Debug, PartialEq, Eq)]
pub struct UriParts {
    pub scheme: String,
    pub hostname: String,
    pub path: String,
}

/// The view of [`UriParts`].
pub struct UriPartsView {
    pub scheme: Seq<char>,
    pub hostname: Seq<char>,
    pub path: Seq<char>,
}

impl View for UriParts {
    type V = UriPartsView;

    open spec fn view(&self) -> UriPartsView {
        UriPartsView { scheme: self.scheme@, hostname: self.hostname@, path: self.path@ }
    }
}

impl DeepView for UriParts {
    type V = UriPartsView;

    open spec fn deep_view(&self) -> UriPartsView {
        self@
    }
}

/// The three parts that a match of [`URI_PATTERN`] holds in its groups 1 to
/// 3; `None` where there was no match or one of the three groups is missing.
pub open spec fn spec_uri_parts(groups: Option<Seq<Option<Seq<char>>>>) -> Option<UriPartsView> {
    match groups {
        Some(found) => if found.len() >= 4 && found[1] is Some && found[2] is Some
            && found[3] is Some {
            Some(
                UriPartsView {
                    scheme: found[1]->Some_0,
                    hostname: found[2]->Some_0,
                    path: found[3]->Some_0,
                },
            )
        } else {
            None
        },
        None => None,
    }
}

/// The parts of a target as [`URI_PATTERN`] splits it. The groups of a match
/// are always parts of the text searched; the guard lets proofs rely on it.
pub open spec fn spec_split_target(target: Seq<char>) -> Option<UriPartsView> {
    match regex_captures(URI_PATTERN@, target) {
        Some(found) if groups_within(found, target) => spec_uri_parts(Some(found)),
        _ => None,
    }
}

/// The parts of a target are parts of it: each stands in the target as a run
/// of consecutive characters.
pub proof fn lemma_split_target_within(target: Seq<char>)
    ensures
        spec_split_target(target) matches Some(parts) ==> is_part_of(parts.scheme, target)
            && is_part_of(parts.hostname, target) && is_part_of(parts.path, target),
{
    if let Some(parts) = spec_split_target(target) {
        let found = regex_captures(URI_PATTERN@, target)->Some_0;
        assert(found[1] is Some && found[2] is Some && found[3] is Some);
    }
}

/// Reads scheme, host and path out of the groups of a match.
pub fn uri_parts(groups: Option<Vec<Option<String>>>) -> (parts: Option<UriParts>)
    ensures
        parts.deep_view() == spec_uri_parts(groups.deep_view()),
{
    match groups {
        Some(found) => {
            if found.len() < 4 {
                return None;
            }
            match (&found[1], &found[2], &found[3]) {
                (Some(scheme), Some(hostname), Some(path)) => Some(
                    UriParts {
                        scheme: scheme.clone(),
                        hostname: hostname.clone(),
                        path: path.clone(),
                    },
                ),
                _ => None,
            }
        },
        None => None,
    }
}

/// Splits an absolute-URI target into scheme, host and path.
pub fn split_target(target: &str) -> (parts: Option<UriParts>)
    ensures
        parts.deep_view() == spec_split_target(target@),
{
    let groups = captures(URI_PATTERN, target);
    uri_parts(groups)
}

} // verus!
