//! Minimal, composable configuration values.
//!
//! A configuration source is anything that can answer `get(key)` with an
//! optional string. Typed accessors (integers, booleans, durations,
//! datetimes, lists, maps) are derived from that single primitive, and an
//! ordered chain of sources answers lookups with first-match-wins
//! precedence.
//!
//! Accessors other than `get` demand that the key is present and (except
//! for the boolean accessor) that its value parses: absent or malformed
//! required configuration is a deployment error, not a recoverable one.

use vstd::prelude::*;

pub mod env;
pub mod multi;
pub mod numbers;
pub mod simple;
pub mod text;
pub mod time;
pub mod values;

pub use env::Environment;
pub use multi::MultiConfig;
pub use simple::{Error, Simple};

use crate::numbers::parse_int_spec;
use crate::numbers::parse_i64;
use crate::text::{lower_of, str_chars, str_eq, to_lower};
use crate::time::{rfc3339_utc, parse_rfc3339, DateTime, Duration};
use crate::values::{entries_of, list_of, lookup, parse_entries, parse_list, unique_keys};

verus! {

/// The truthy set, after lower-casing: `t`, `true`, `1`, `y`, `yes`.
pub open spec fn truthy(s: Seq<char>) -> bool {
    lower_of(s) == "t"@ || lower_of(s) == "true"@ || lower_of(s) == "1"@ || lower_of(s) == "y"@
        || lower_of(s) == "yes"@
}

/// A source of configuration values. Implementers provide `get` alone;
/// every typed accessor is derived from it.
pub trait Config {
    /// The value the source holds for `key`, if any. Verified sources
    /// give this a real body; the default stands for a source that holds
    /// nothing, and unverified sources outside this crate need not
    /// override it.
    open spec fn spec_get(&self, key: Seq<char>) -> Option<Seq<char>> {
        None
    }

    /// The raw string value for `key`, if present.
    fn get(&self, key: &str) -> (r: Option<String>)
        ensures
            r.deep_view() == self.spec_get(key@),
    ;

    /// The raw string value for `key`; the key must be present.
    fn must_get(&self, key: &str) -> (r: String)
        requires
            self.spec_get(key@) is Some,
        ensures
            Some(r@) == self.spec_get(key@),
    {
        self.get(key).unwrap()
    }

    /// The value for `key` as a string; the key must be present.
    fn string(&self, key: &str) -> (r: String)
        requires
            self.spec_get(key@) is Some,
        ensures
            Some(r@) == self.spec_get(key@),
    {
        self.get(key).unwrap()
    }

    /// The value for `key` as a signed 64-bit integer; the key must be
    /// present and its value must parse.
    fn int64(&self, key: &str) -> (r: i64)
        requires
            self.spec_get(key@) is Some,
            parse_int_spec(self.spec_get(key@)->0) is Some,
        ensures
            Some(r) == parse_int_spec(self.spec_get(key@)->0),
    {
        let v = self.must_get(key);
        let cs = str_chars(v.as_str());
        parse_i64(&cs).unwrap()
    }

    /// Whether the value for `key` is one of `t`, `true`, `1`, `y`, `yes`,
    /// compared after lower-casing; every other value, parseable or not,
    /// counts as false. The key must be present.
    fn bool(&self, key: &str) -> (r: bool)
        requires
            self.spec_get(key@) is Some,
        ensures
            r == truthy(self.spec_get(key@)->0),
    {
        let v = self.must_get(key);
        let lc = to_lower(v.as_str());
        let l = lc.as_str();
        str_eq(l, "t") || str_eq(l, "true") || str_eq(l, "1") || str_eq(l, "y") || str_eq(l, "yes")
    }

    /// The value for `key` read as an integer count of seconds; the key
    /// must be present and its value must parse. No unit suffixes.
    fn duration(&self, key: &str) -> (r: Duration)
        requires
            self.spec_get(key@) is Some,
            parse_int_spec(self.spec_get(key@)->0) is Some,
        ensures
            Some(r.secs) == parse_int_spec(self.spec_get(key@)->0),
    {
        Duration::seconds(self.int64(key))
    }

    /// The value for `key` parsed strictly as RFC 3339 and normalized to
    /// UTC; the key must be present and its value must parse.
    fn datetime(&self, key: &str) -> (r: DateTime)
        requires
            self.spec_get(key@) is Some,
            rfc3339_utc(self.spec_get(key@)->0) is Some,
        ensures
            Some(r) == rfc3339_utc(self.spec_get(key@)->0),
    {
        let v = self.must_get(key);
        match parse_rfc3339(v.as_str()) {
            Some(t) => t,
            None => {
                proof {
                    assert(false);
                }
                unreached()
            },
        }
    }

    /// The value for `key` parsed strictly as RFC 3339 and normalized to
    /// UTC, or nothing when the key is absent or its value does not parse.
    fn try_datetime(&self, key: &str) -> (r: Option<DateTime>)
        ensures
            r == match self.spec_get(key@) {
                Some(v) => rfc3339_utc(v),
                None => None::<DateTime>,
            },
    {
        match self.get(key) {
            None => None,
            Some(v) => match parse_rfc3339(v.as_str()) {
                None => None,
                Some(_) => Some(self.datetime(key)),
            },
        }
    }

    /// The value for `key` as a list: brackets optional, elements split
    /// on `,` and trimmed. The key must be present.
    fn list(&self, key: &str) -> (r: Vec<String>)
        requires
            self.spec_get(key@) is Some,
        ensures
            r.deep_view() == list_of(self.spec_get(key@)->0),
    {
        let v = self.must_get(key);
        parse_list(v.as_str())
    }

    /// The value for `key` as a key/value table: braces optional, entries
    /// split on `,`, each entry split on its first `=>`, keys unique with
    /// the last entry winning. The key must be present.
    fn map(&self, key: &str) -> (r: Vec<(String, String)>)
        requires
            self.spec_get(key@) is Some,
        ensures
            unique_keys(r.deep_view()),
            forall|k: Seq<char>| #[trigger] lookup(r.deep_view(), k) == lookup(
                entries_of(self.spec_get(key@)->0),
                k,
            ),
    {
        let v = self.must_get(key);
        parse_entries(v.as_str())
    }
}

} // verus!
