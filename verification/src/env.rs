//! Configuration keys as environment-variable names. The process
//! environment itself is shared mutable state read outside this library;
//! here lives the pure part of the adapter: how a configuration key is
//! turned into the variable name that is looked up.

use vstd::prelude::*;
use vstd::string::*;
use crate::text::{upper_of, chars_string, str_chars, to_upper};

verus! {

/// The stored prefix: the given one with `_` appended, or empty.
pub open spec fn env_prefix(p: Seq<char>) -> Seq<char> {
    if p.len() > 0 {
        p + seq!['_']
    } else {
        Seq::<char>::empty()
    }
}

/// `.` and `/` become `_`; every other character is kept.
pub open spec fn sep_replaced(c: char) -> char {
    if c == '.' || c == '/' {
        '_'
    } else {
        c
    }
}

/// The variable name a lookup uses: prefix and key joined, separators
/// replaced, and the whole upper-cased.
pub open spec fn env_lookup_key(prefix: Seq<char>, key: Seq<char>) -> Seq<char> {
    upper_of((prefix + key).map_values(|c: char| sep_replaced(c)))
}

/// A configuration source backed by the process environment, under an
/// optional prefix.
#[derive(Debug, PartialEq)]
pub struct Environment {
    pub prefix: String,
}

impl Environment {
    /// A source that prefixes keys with `prefix` and an underscore; an
    /// empty prefix prepends nothing.
    pub fn new(prefix: &str) -> (r: Self)
        ensures
            r.prefix@ == env_prefix(prefix@),
    {
        if prefix.unicode_len() > 0 {
            let mut p = prefix.to_owned();
            p.append("_");
            proof {
                reveal_strlit("_");
                assert(p@ =~= env_prefix(prefix@));
            }
            Environment { prefix: p }
        } else {
            proof {
                reveal_strlit("");
                assert(""@ =~= env_prefix(prefix@));
            }
            Environment { prefix: "".to_owned() }
        }
    }

    /// The environment-variable name a `get` for `key` looks up: the
    /// prefixed key with `.` and `/` replaced by `_`, upper-cased.
    pub fn lookup_key(&self, key: &str) -> (r: String)
        ensures
            r@ == env_lookup_key(self.prefix@, key@),
    {
        let mut joined = self.prefix.clone();
        joined.append(key);
        let cs = str_chars(joined.as_str());
        let n = cs.len();
        let mut out: Vec<char> = Vec::new();
        let mut i: usize = 0;
        while i < n
            invariant
                0 <= i <= n == cs@.len(),
                cs@ == self.prefix@ + key@,
                out@ == cs@.take(i as int).map_values(|c: char| sep_replaced(c)),
            decreases n - i,
        {
            let c = cs[i];
            if c == '.' || c == '/' {
                out.push('_');
            } else {
                out.push(c);
            }
            proof {
                assert(cs@.take(i + 1).map_values(|c: char| sep_replaced(c)) =~= cs@.take(
                    i as int,
                ).map_values(|c: char| sep_replaced(c)).push(sep_replaced(cs@[i as int])));
            }
            i += 1;
        }
        proof {
            assert(cs@.take(n as int) =~= cs@);
        }
        let joined_replaced = chars_string(&out);
        to_upper(joined_replaced.as_str())
    }
}

/// With a non-empty prefix free of `.` and `/`, the name looked up for
/// `key` is `UPPER(prefix + "_" + key-with-separators-replaced)`.
pub proof fn lemma_env_key_with_prefix(p: Seq<char>, k: Seq<char>)
    requires
        p.len() > 0,
        forall|i: int| 0 <= i < p.len() ==> p[i] != '.' && p[i] != '/',
    ensures
        env_lookup_key(env_prefix(p), k) == upper_of(
            p + seq!['_'] + k.map_values(|c: char| sep_replaced(c)),
        ),
{
    assert((env_prefix(p) + k).map_values(|c: char| sep_replaced(c)) =~= p + seq!['_']
        + k.map_values(|c: char| sep_replaced(c)));
}

/// With an empty prefix, the name looked up for `key` is
/// `UPPER(key-with-separators-replaced)`: no leading underscore.
pub proof fn lemma_env_key_no_prefix(k: Seq<char>)
    ensures
        env_lookup_key(env_prefix(Seq::<char>::empty()), k) == upper_of(
            k.map_values(|c: char| sep_replaced(c)),
        ),
{
    assert((env_prefix(Seq::<char>::empty()) + k).map_values(|c: char| sep_replaced(c))
        =~= k.map_values(|c: char| sep_replaced(c)));
}

} // verus!
