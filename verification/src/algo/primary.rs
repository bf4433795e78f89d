//! Recognising the built-in laptop panel by its connector name.
use vstd::prelude::*;

verus! {

/// Connector names of built-in panels: `eDP-<n>`, `LVDS-<n>` or `DSI-<n>`,
/// case-insensitive.
pub const INTERNAL_CONNECTOR_PATTERN: &'static str = r"^(?i)(eDP|LVDS|DSI)-\d+$";

/// Whether the regular expression `pattern` (in the syntax of the `regex`
/// crate) matches somewhere in `haystack`.
pub uninterp spec fn regex_matches(pattern: Seq<char>, haystack: Seq<char>) -> bool;

/// Whether a connector name denotes a built-in panel.
pub open spec fn is_internal_name(name: Seq<char>) -> bool {
    regex_matches(INTERNAL_CONNECTOR_PATTERN@, name)
}

/// Compiles `INTERNAL_CONNECTOR_PATTERN` with `regex::Regex::new` and tests
/// `name` with `Regex::is_match`. The contract claims only that the answer
/// is the `regex` crate's verdict for that pattern and that name; the
/// pattern is a fixed valid one, so compilation does not fail.
#[verifier::external_body]
fn internal_pattern_is_match(name: &str) -> (b: bool)
    ensures
        b == regex_matches(INTERNAL_CONNECTOR_PATTERN@, name@),
{
    regex::Regex::new(INTERNAL_CONNECTOR_PATTERN).expect("static regex").is_match(name)
}

/// Whether `name` is the connector of a built-in panel (eDP, LVDS or DSI).
pub fn is_internal(name: &str) -> (b: bool)
    ensures
        b == is_internal_name(name@),
{
    internal_pattern_is_match(name)
}

} // verus!
