//! Which lint rules apply, and how strictly.
use vstd::prelude::*;

verus! {

/// States of a rule that can only be allowed or denied.
#[derive(Clone, Copy, Debug, PartialEq, Eq, Structural)]
pub enum AllowDeny {
    Allow,
    Deny,
}

/// States of a rule that can be allowed, denied or required.
#[derive(Clone, Copy, Debug, PartialEq, Eq, Structural)]
pub enum AllowDenyRequire {
    Require,
    Allow,
    Deny,
}

/// Configuration for which lint rules to apply.
#[derive(Clone, Copy, Debug, PartialEq, Eq, Structural)]
pub struct Config {
    /// Whether to allow or deny trailing whitespace at the ends of lines.
    pub trailing_whitespace: AllowDeny,
    /// Whether to allow, deny, or require braces `{ ... }` around the whole document.
    pub root_braces: AllowDenyRequire,
    /// Whether to allow or deny members separated by a newline alone.
    pub missing_commas: AllowDeny,
    /// Whether to allow, deny, or require a comma after the final member of
    /// a map or array.
    pub trailing_commas: AllowDenyRequire,
    /// Whether to allow, deny, or require (where permitted) unquoted string values.
    pub unquoted_values: AllowDenyRequire,
    /// Whether to allow, deny, or require (where permitted) unquoted map keys.
    pub unquoted_keys: AllowDenyRequire,
}

/// Everything allowed but trailing whitespace.
pub open spec fn default_config() -> Config {
    Config {
        trailing_whitespace: AllowDeny::Deny,
        root_braces: AllowDenyRequire::Allow,
        missing_commas: AllowDeny::Allow,
        trailing_commas: AllowDenyRequire::Allow,
        unquoted_values: AllowDenyRequire::Allow,
        unquoted_keys: AllowDenyRequire::Allow,
    }
}

/// Every relaxation of JSON denied, and braces around the root required.
pub open spec fn strict_config() -> Config {
    Config {
        trailing_whitespace: AllowDeny::Deny,
        root_braces: AllowDenyRequire::Require,
        missing_commas: AllowDeny::Deny,
        trailing_commas: AllowDenyRequire::Deny,
        unquoted_values: AllowDenyRequire::Deny,
        unquoted_keys: AllowDenyRequire::Deny,
    }
}

impl Default for Config {
    /// All Hjson features allowed; only trailing whitespace denied.
    fn default() -> (r: Config)
        ensures
            r == default_config(),
    {
        Config {
            trailing_whitespace: AllowDeny::Deny,
            root_braces: AllowDenyRequire::Allow,
            missing_commas: AllowDeny::Allow,
            trailing_commas: AllowDenyRequire::Allow,
            unquoted_values: AllowDenyRequire::Allow,
            unquoted_keys: AllowDenyRequire::Allow,
        }
    }
}

impl Config {
    /// Strict configuration, which reflects vanilla JSON syntax.
    pub fn strict() -> (r: Config)
        ensures
            r == strict_config(),
    {
        Config {
            trailing_whitespace: AllowDeny::Deny,
            root_braces: AllowDenyRequire::Require,
            missing_commas: AllowDeny::Deny,
            trailing_commas: AllowDenyRequire::Deny,
            unquoted_values: AllowDenyRequire::Deny,
            unquoted_keys: AllowDenyRequire::Deny,
        }
    }
}

} // verus!
