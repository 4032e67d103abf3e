//! Parsing of a configuration source spec: either a bare path, or a path
//! behind the `configerator:` prefix.
use vstd::prelude::*;
use vstd::string::StrSliceExecFns;

verus! {

/// Why a configuration source spec was refused.
#[derive(Debug, Clone, Copy, PartialEq, Eq, Structural)]
pub enum ConfigSpecError {
    /// The spec holds a `:` but is not `configerator:<path>` with a path
    /// free of further colons.
    InvalidSpec,
}

/// The prefix that may stand before the path.
pub open spec fn configerator_prefix() -> Seq<char> {
    seq!['c', 'o', 'n', 'f', 'i', 'g', 'e', 'r', 'a', 't', 'o', 'r', ':']
}

pub open spec fn has_colon(s: Seq<char>) -> bool {
    exists|i: int| 0 <= i < s.len() && s[i] == ':'
}

/// The path a spec names, if the spec is valid: a spec without any colon is
/// the path itself; otherwise it must be the prefix followed by a path
/// without colons.
pub open spec fn config_spec_path(s: Seq<char>) -> Option<Seq<char>> {
    if !has_colon(s) {
        Some(s)
    } else if s.len() >= configerator_prefix().len() && s.subrange(
        0,
        configerator_prefix().len() as int,
    ) == configerator_prefix() && !has_colon(
        s.subrange(configerator_prefix().len() as int, s.len() as int),
    ) {
        Some(s.subrange(configerator_prefix().len() as int, s.len() as int))
    } else {
        None
    }
}

/// Whether `s` starts with `prefix`.
fn starts_with(s: &str, prefix: &str) -> (r: bool)
    ensures
        r == (prefix@.len() <= s@.len() && s@.subrange(0, prefix@.len() as int) == prefix@),
{
    let n = s.unicode_len();
    let m = prefix.unicode_len();
    if m > n {
        return false;
    }
    let mut i: usize = 0;
    while i < m
        invariant
            m == prefix@.len(),
            n == s@.len(),
            m <= n,
            i <= m,
            forall|j: int| 0 <= j < i ==> s@[j] == prefix@[j],
        decreases m - i,
    {
        if s.get_char(i) != prefix.get_char(i) {
            assert(s@.subrange(0, m as int)[i as int] != prefix@[i as int]);
            return false;
        }
        i += 1;
    }
    assert(s@.subrange(0, m as int) =~= prefix@);
    true
}

fn contains_colon(s: &str) -> (r: bool)
    ensures
        r == has_colon(s@),
{
    let mut found: bool = false;
    for c in it: s.chars()
        invariant
            it.seq() == s@,
            found == (exists|i: int| 0 <= i < it.index() && s@[i] == ':'),
    {
        if c == ':' {
            found = true;
        }
    }
    found
}

/// Turns a configuration source spec into the path it names.
pub fn parse_config_spec_to_path(source_spec: &str) -> (r: Result<String, ConfigSpecError>)
    ensures
        match config_spec_path(source_spec@) {
            Some(p) => r is Ok && r->Ok_0@ == p,
            None => r == Err::<String, ConfigSpecError>(ConfigSpecError::InvalidSpec),
        },
{
    if !contains_colon(source_spec) {
        return Ok(source_spec.to_owned());
    }
    let prefix = "configerator:";
    proof {
        reveal_strlit("configerator:");
        assert(prefix@ =~= configerator_prefix());
    }
    if !starts_with(source_spec, prefix) {
        return Err(ConfigSpecError::InvalidSpec);
    }
    let rest = source_spec.substring_char(prefix.unicode_len(), source_spec.unicode_len());
    if contains_colon(rest) {
        Err(ConfigSpecError::InvalidSpec)
    } else {
        Ok(rest.to_owned())
    }
}

} // verus!
