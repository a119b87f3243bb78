//! Configuration as the rest of the library consumes it: the parsed
//! threshold and the optional keep-pattern set, plus the errors that
//! configuration parsing can produce. A configuration error is detected
//! once at startup and is not recoverable.

use vstd::prelude::*;
use crate::keep::KeepSpec;
use crate::keep::patterns_valid;
use crate::threshold::Threshold;
use crate::threshold::parse_threshold;
use crate::threshold::spec_parse_threshold;

verus! {

/// An error in the configured settings.
#[derive(Clone, Copy, Debug, PartialEq, Eq, Structural)]
pub enum ConfigError {
    /// The threshold is neither a well-formed size nor a well-formed
    /// percentage.
    BadThreshold,
    /// A keep pattern is not valid regular-expression syntax.
    BadKeepPattern,
}

/// The settings the daemon runs with.
pub struct Settings {
    /// The configured size threshold for the image store.
    pub threshold: Threshold,
    /// The optional set of protected-name patterns.
    pub keep: Option<KeepSpec>,
}

impl Settings {
    /// Build the settings from the raw configuration values: the threshold
    /// text and the keep patterns, if any were given. Fails exactly when
    /// the threshold text is malformed or some keep pattern is not valid
    /// regular-expression syntax.
    pub fn from_config(threshold_text: &str, keep_patterns: Option<Vec<String>>) -> (r: Result<
        Settings,
        ConfigError,
    >)
        ensures
            match r {
                Ok(s) => {
                    &&& spec_parse_threshold(threshold_text@) == Ok::<Threshold, ConfigError>(
                        s.threshold,
                    )
                    &&& s.threshold.wf()
                    &&& (keep_patterns is Some <==> s.keep is Some)
                    &&& (keep_patterns is Some ==> patterns_valid(
                        keep_patterns.unwrap().deep_view(),
                    ) && s.keep.unwrap()@ == keep_patterns.unwrap().deep_view())
                },
                Err(e) => {
                    ||| (e == ConfigError::BadThreshold && spec_parse_threshold(
                        threshold_text@,
                    ) is Err)
                    ||| (e == ConfigError::BadKeepPattern && keep_patterns is Some
                        && !patterns_valid(keep_patterns.unwrap().deep_view()))
                },
            },
    {
        let threshold = match parse_threshold(threshold_text) {
            Ok(t) => t,
            Err(e) => {
                return Err(e);
            },
        };
        let keep = match keep_patterns {
            Some(patterns) => match KeepSpec::new(patterns) {
                Ok(set) => Some(set),
                Err(e) => {
                    return Err(e);
                },
            },
            None => None,
        };
        Ok(Settings { threshold, keep })
    }
}

} // verus!
