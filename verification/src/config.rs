//! What the configuration file sets.

use vstd::prelude::*;

verus! {

/// The settings of the configuration file.
#[derive(Clone, Copy, Debug, PartialEq, Eq)]
pub struct Config {
    /// Whether output is pretty-printed where nothing else is asked for.
    pub pretty: Option<bool>,
}

impl Config {
    /// The pretty-printing option after the configuration was applied to it:
    /// an option that was given stays, and one that was not takes the
    /// configured value, if there is one.
    pub fn apply_pretty(&self, option: Option<Option<bool>>) -> (r: Option<Option<bool>>)
        ensures
            r == (match (option, self.pretty) {
                (None, Some(pretty)) => Some(Some(pretty)),
                _ => option,
            }),
    {
        match self.pretty {
            Some(pretty) => if option.is_none() {
                Some(Some(pretty))
            } else {
                option
            },
            None => option,
        }
    }
}

/// Whether output is pretty-printed: not where the option was left out, and
/// where it was given, unless it was given as false.
pub fn pretty_enabled(option: Option<Option<bool>>) -> (r: bool)
    ensures
        r == (match option {
            None => false,
            Some(None) => true,
            Some(Some(pretty)) => pretty,
        }),
{
    match option {
        None => false,
        Some(None) => true,
        Some(Some(pretty)) => pretty,
    }
}

} // verus!
