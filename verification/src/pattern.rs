//! Glob pattern handling, through the `globset` crate.
//!
//! Whether a name matches a glob pattern, and whether a pattern is accepted
//! at all, are decided by `globset`; both are pure functions of the strings
//! involved, so they are given names here and every contract above speaks of
//! those names. The matcher is built through `GlobSetBuilder`, whose `build`
//! reports a pattern whose compiled matcher would grow beyond `globset`'s
//! size limit as an error instead of panicking, so an over-large pattern is
//! rejected when the settings are made, like any other bad pattern.

use vstd::prelude::*;
use vstd::string::StringExecFns;
use crate::tree::Config;

verus! {

/// Whether `globset` accepts `pattern`: it parses as a glob and its matcher
/// can be built within `globset`'s size limit.
pub uninterp spec fn glob_valid(pattern: Seq<char>) -> bool;

/// Whether the glob `pattern` matches the path `name`, as `globset` decides
/// it.
pub uninterp spec fn glob_matches(pattern: Seq<char>, name: Seq<char>) -> bool;

/// Relies on globset::Glob::new, GlobSetBuilder::add and
/// GlobSetBuilder::build: parsing and building depend on the pattern alone;
/// `Ok` exactly when the pattern parses and its matcher builds, `Err` with a
/// description of the fault otherwise. Neither call panics: both report
/// failure in their `Result`.
#[verifier::external_body]
pub(crate) fn glob_check(pattern: &str) -> (r: Result<(), String>)
    ensures
        r is Ok <==> glob_valid(pattern@),
{
    match globset::Glob::new(pattern) {
        Ok(g) => match globset::GlobSetBuilder::new().add(g).build() {
            Ok(_) => Ok(()),
            Err(e) => Err(format!("{e}")),
        },
        Err(e) => Err(format!("{e}")),
    }
}

/// Relies on globset::Glob::new, GlobSetBuilder::add, GlobSetBuilder::build
/// and GlobSet::is_match: for a fixed pattern and candidate name the outcome
/// is a pure function of the two strings (a pattern that does not parse or
/// build matches nothing). `build` returns its failure instead of panicking.
#[verifier::external_body]
pub(crate) fn glob_match(pattern: &str, name: &str) -> (r: bool)
    ensures
        r == glob_matches(pattern@, name@),
{
    match globset::Glob::new(pattern) {
        Ok(g) => match globset::GlobSetBuilder::new().add(g).build() {
            Ok(set) => set.is_match(name),
            Err(_) => false,
        },
        Err(_) => false,
    }
}

impl Config {
    /// Builds the per-run settings from the raw flag values: color is on
    /// unless it is switched off without being forced on, and an include
    /// pattern is accepted exactly when `globset` accepts it; a rejected
    /// pattern yields an error message that opens with a fixed marker.
    pub fn from_flags(
        show_all: bool,
        color_on: bool,
        color_off: bool,
        max_level: usize,
        include_pattern: Option<String>,
    ) -> (r: Result<Config, String>)
        ensures
            match r {
                Result::Ok(c) => {
                    &&& c.use_color == (color_on || !color_off)
                    &&& c.show_hidden == show_all
                    &&& c.max_level == max_level
                    &&& c.include_pattern == include_pattern
                    &&& match include_pattern {
                        Option::Some(p) => glob_valid(p@),
                        Option::None => true,
                    }
                },
                Result::Err(m) => {
                    &&& match include_pattern {
                        Option::Some(p) => !glob_valid(p@),
                        Option::None => false,
                    }
                    &&& m@.len() >= "`include_pattern` is not valid: "@.len()
                    &&& m@.take("`include_pattern` is not valid: "@.len() as int)
                        == "`include_pattern` is not valid: "@
                },
            },
    {
        match include_pattern {
            Option::None => Ok(
                Config {
                    use_color: color_on || !color_off,
                    show_hidden: show_all,
                    max_level,
                    include_pattern: None,
                },
            ),
            Option::Some(p) => match glob_check(p.as_str()) {
                Ok(_) => Ok(
                    Config {
                        use_color: color_on || !color_off,
                        show_hidden: show_all,
                        max_level,
                        include_pattern: Some(p),
                    },
                ),
                Err(e) => {
                    let mut message = String::new();
                    message.append("`include_pattern` is not valid: ");
                    message.append(e.as_str());
                    proof {
                        let pfx = "`include_pattern` is not valid: "@;
                        assert(message@ =~= pfx + e@);
                        assert((pfx + e@).take(pfx.len() as int) =~= pfx);
                    }
                    Err(message)
                },
            },
        }
    }
}

} // verus!
