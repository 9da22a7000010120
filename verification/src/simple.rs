//! Extremely simplistic configuration from a string: one `key = value`
//! pair per line, `#` comments and blank lines ignored.

use vstd::prelude::*;
use crate::Config;
use crate::text::{find_spec, split_spec, trim_spec, chars_string, find_char, split_chars,
    str_chars, str_eq, subvec, trim_chars};
use crate::values::{lookup, unique_keys, table_insert, lemma_lookup_push};

verus! {

/// A flat table of configuration values parsed from text.
#[derive(Debug, PartialEq)]
pub struct Simple {
    values: Vec<(String, String)>,
}

/// How building a source can fail: the backing text could not be read, or
/// a line did not split into a key and a value on `=`.
#[derive(Debug, PartialEq)]
pub enum Error {
    File(String),
    InvalidKeyValuePair,
}

/// Whether a line is skipped: blank after trimming, or a `#` comment.
pub open spec fn line_is_skip(line: Seq<char>) -> bool {
    trim_spec(line).len() == 0 || trim_spec(line)[0] == '#'
}

/// Whether a line binds a key: not skipped, and holding an `=`.
pub open spec fn line_is_pair(line: Seq<char>) -> bool {
    !line_is_skip(line) && find_spec(trim_spec(line), '=') is Some
}

/// The binding a pair line makes: key and value split on the first `=`,
/// both trimmed.
pub open spec fn line_pair(line: Seq<char>) -> (Seq<char>, Seq<char>) {
    let t = trim_spec(line);
    let i = find_spec(t, '=')->0;
    (trim_spec(t.take(i)), trim_spec(t.skip(i + 1)))
}

/// Whether every line of `s` is a comment, blank, or a `key = value` pair.
pub open spec fn config_wf(s: Seq<char>) -> bool {
    forall|i: int|
        0 <= i < split_spec(s, '\n').len() ==> line_is_skip(#[trigger] split_spec(s, '\n')[i])
            || line_is_pair(split_spec(s, '\n')[i])
}

/// The bindings the given lines make, in order.
pub open spec fn bindings_of(lines: Seq<Seq<char>>) -> Seq<(Seq<char>, Seq<char>)>
    decreases lines.len(),
{
    if lines.len() == 0 {
        Seq::empty()
    } else {
        bindings_of(lines.drop_last()) + (if line_is_pair(lines.last()) {
            seq![line_pair(lines.last())]
        } else {
            Seq::empty()
        })
    }
}

/// The bindings `s` makes, line by line, in order.
pub open spec fn config_bindings(s: Seq<char>) -> Seq<(Seq<char>, Seq<char>)> {
    bindings_of(split_spec(s, '\n'))
}

/// Parse one line: a comment or blank line yields nothing, a line with an
/// `=` yields its trimmed key and value, and any other line is an error.
pub fn parse_line(line: &str) -> (r: Result<Option<(String, String)>, Error>)
    ensures
        match r {
            Ok(None) => line_is_skip(line@),
            Ok(Some(p)) => line_is_pair(line@) && p.0@ == line_pair(line@).0 && p.1@ == line_pair(
                line@,
            ).1,
            Err(e) => !line_is_skip(line@) && !line_is_pair(line@) && e is InvalidKeyValuePair,
        },
{
    let cs = str_chars(line);
    let t = trim_chars(&cs);
    let n = t.len();
    if n == 0 {
        return Ok(None);
    }
    if t[0] == '#' {
        return Ok(None);
    }
    match find_char(&t, '=') {
        None => Err(Error::InvalidKeyValuePair),
        Some(i) => {
            let k = trim_chars(&subvec(&t, 0, i));
            let v = trim_chars(&subvec(&t, i + 1, n));
            proof {
                assert(t@.take(i as int) =~= t@.subrange(0, i as int));
                assert(t@.skip(i + 1) =~= t@.subrange(i + 1, n as int));
            }
            Ok(Some((chars_string(&k), chars_string(&v))))
        },
    }
}

/// Parse a whole configuration text into a table with unique keys; on
/// duplicate keys the last line wins. Any malformed line is an error.
pub fn parse(s: &str) -> (r: Result<Vec<(String, String)>, Error>)
    ensures
        match r {
            Ok(t) => config_wf(s@) && unique_keys(t.deep_view()) && forall|k: Seq<char>|
                #[trigger] lookup(t.deep_view(), k) == lookup(config_bindings(s@), k),
            Err(e) => !config_wf(s@) && e is InvalidKeyValuePair,
        },
{
    let cs = str_chars(s);
    let lines = split_chars(&cs, '\n');
    let ghost ls = split_spec(s@, '\n');
    let mut out: Vec<(String, String)> = Vec::new();
    let n = lines.len();
    let mut i: usize = 0;
    proof {
        assert(out.deep_view() =~~= Seq::<(Seq<char>, Seq<char>)>::empty());
    }
    while i < n
        invariant
            0 <= i <= n == lines@.len(),
            lines.deep_view() == ls,
            ls == split_spec(s@, '\n'),
            forall|j: int| 0 <= j < i ==> line_is_skip(#[trigger] ls[j]) || line_is_pair(ls[j]),
            unique_keys(out.deep_view()),
            forall|k: Seq<char>| #[trigger] lookup(out.deep_view(), k) == lookup(
                bindings_of(ls.take(i as int)),
                k,
            ),
        decreases n - i,
    {
        let line = chars_string(&lines[i]);
        proof {
            assert(line@ == ls[i as int]);
            assert(ls.take(i + 1).drop_last() =~= ls.take(i as int));
            assert(ls.take(i + 1).last() == ls[i as int]);
        }
        match parse_line(line.as_str()) {
            Err(e) => {
                return Err(e);
            },
            Ok(None) => {
                proof {
                    assert(bindings_of(ls.take(i + 1)) =~= bindings_of(ls.take(i as int)));
                }
            },
            Ok(Some(p)) => {
                let ghost b = bindings_of(ls.take(i as int));
                table_insert(&mut out, p.0, p.1);
                proof {
                    assert(bindings_of(ls.take(i + 1)) =~= b.push(line_pair(ls[i as int])));
                    assert forall|k: Seq<char>| #[trigger] lookup(out.deep_view(), k) == lookup(
                        bindings_of(ls.take(i + 1)),
                        k,
                    ) by {
                        lemma_lookup_push(b, line_pair(ls[i as int]), k);
                    }
                }
            },
        }
        i += 1;
    }
    proof {
        assert(ls.take(n as int) =~= ls);
    }
    Ok(out)
}

impl Simple {
    /// Build a configuration from text: `key = value` pairs separated by
    /// `=`, keys and values trimmed, `#` comments and blank lines
    /// ignored. There is no hierarchy; dotted keys are just strings.
    pub fn from_str(s: &str) -> (r: Result<Self, Error>)
        ensures
            match r {
                Ok(cfg) => config_wf(s@) && forall|k: Seq<char>| #[trigger] cfg.spec_get(k)
                    == lookup(config_bindings(s@), k),
                Err(e) => !config_wf(s@) && e is InvalidKeyValuePair,
            },
    {
        match parse(s) {
            Ok(values) => Ok(Simple { values }),
            Err(e) => Err(e),
        }
    }

    /// Build an in-memory configuration from key/value pairs, with no
    /// syntax in between: any string can be a key or a value. On a
    /// repeated key the last pair wins.
    pub fn from_pairs(pairs: Vec<(String, String)>) -> (r: Self)
        ensures
            forall|k: Seq<char>| #[trigger] r.spec_get(k) == lookup(pairs.deep_view(), k),
    {
        let ghost ps = pairs.deep_view();
        let mut values: Vec<(String, String)> = Vec::new();
        let n = pairs.len();
        let mut i: usize = 0;
        proof {
            assert(values.deep_view() =~~= Seq::<(Seq<char>, Seq<char>)>::empty());
        }
        while i < n
            invariant
                0 <= i <= n == pairs@.len(),
                ps == pairs.deep_view(),
                unique_keys(values.deep_view()),
                forall|k: Seq<char>| #[trigger] lookup(values.deep_view(), k) == lookup(
                    ps.take(i as int),
                    k,
                ),
            decreases n - i,
        {
            let key = pairs[i].0.clone();
            let val = pairs[i].1.clone();
            let ghost b = ps.take(i as int);
            table_insert(&mut values, key, val);
            proof {
                assert(ps.take(i + 1).drop_last() =~= b);
                assert(ps.take(i + 1).last() == ps[i as int]);
                assert(ps.take(i + 1) =~= b.push(ps[i as int]));
                assert forall|k: Seq<char>| #[trigger] lookup(values.deep_view(), k) == lookup(
                    ps.take(i + 1),
                    k,
                ) by {
                    lemma_lookup_push(b, ps[i as int], k);
                }
            }
            i += 1;
        }
        proof {
            assert(ps.take(n as int) =~= ps);
        }
        Simple { values }
    }
}

impl Config for Simple {
    closed spec fn spec_get(&self, key: Seq<char>) -> Option<Seq<char>> {
        lookup(self.values.deep_view(), key)
    }

    fn get(&self, key: &str) -> (r: Option<String>) {
        let mut i = self.values.len();
        proof {
            assert(self.values.deep_view().take(i as int) =~= self.values.deep_view());
        }
        while i > 0
            invariant
                0 <= i <= self.values@.len(),
                lookup(self.values.deep_view(), key@) == lookup(
                    self.values.deep_view().take(i as int),
                    key@,
                ),
            decreases i,
        {
            i -= 1;
            let ghost t = self.values.deep_view().take(i + 1);
            proof {
                assert(t.drop_last() =~= self.values.deep_view().take(i as int));
                assert(t.last() == self.values.deep_view()[i as int]);
            }
            if str_eq(self.values[i].0.as_str(), key) {
                let v = self.values[i].1.clone();
                return Some(v);
            }
        }
        proof {
            assert(self.values.deep_view().take(0) =~= Seq::<(Seq<char>, Seq<char>)>::empty());
        }
        None
    }
}

/// Last write wins: when line `i` of the lines of `s` binds key `k` and no
/// later line binds `k` again, the parsed configuration answers `k` with
/// exactly the value of line `i`; and a key no line binds is absent.
pub proof fn lemma_round_trip(s: Seq<char>, i: int)
    requires
        0 <= i < split_spec(s, '\n').len(),
        line_is_pair(split_spec(s, '\n')[i]),
        forall|j: int|
            i < j < split_spec(s, '\n').len() ==> !(line_is_pair(#[trigger] split_spec(s, '\n')[j])
                && line_pair(split_spec(s, '\n')[j]).0 == line_pair(split_spec(s, '\n')[i]).0),
    ensures
        lookup(config_bindings(s), line_pair(split_spec(s, '\n')[i]).0) == Some(
            line_pair(split_spec(s, '\n')[i]).1,
        ),
{
    let ls = split_spec(s, '\n');
    let k = line_pair(ls[i]).0;
    lemma_bindings_last(ls, i, k);
}

/// A key that no line of `s` binds is absent from the parsed configuration.
pub proof fn lemma_absent_key(s: Seq<char>, k: Seq<char>)
    requires
        forall|j: int|
            0 <= j < split_spec(s, '\n').len() ==> !(line_is_pair(
                #[trigger] split_spec(s, '\n')[j],
            ) && line_pair(split_spec(s, '\n')[j]).0 == k),
    ensures
        lookup(config_bindings(s), k) is None,
{
    lemma_bindings_absent(split_spec(s, '\n'), k);
}

proof fn lemma_bindings_absent(lines: Seq<Seq<char>>, k: Seq<char>)
    requires
        forall|j: int|
            0 <= j < lines.len() ==> !(line_is_pair(#[trigger] lines[j]) && line_pair(lines[j]).0
                == k),
    ensures
        lookup(bindings_of(lines), k) is None,
    decreases lines.len(),
{
    if lines.len() > 0 {
        lemma_bindings_absent(lines.drop_last(), k);
        if line_is_pair(lines.last()) {
            lemma_lookup_push(bindings_of(lines.drop_last()), line_pair(lines.last()), k);
            assert(bindings_of(lines) =~= bindings_of(lines.drop_last()).push(
                line_pair(lines.last()),
            ));
        } else {
            assert(bindings_of(lines) =~= bindings_of(lines.drop_last()));
        }
    }
}

proof fn lemma_bindings_last(lines: Seq<Seq<char>>, i: int, k: Seq<char>)
    requires
        0 <= i < lines.len(),
        line_is_pair(lines[i]),
        line_pair(lines[i]).0 == k,
        forall|j: int|
            i < j < lines.len() ==> !(line_is_pair(#[trigger] lines[j]) && line_pair(lines[j]).0
                == k),
    ensures
        lookup(bindings_of(lines), k) == Some(line_pair(lines[i]).1),
    decreases lines.len(),
{
    if i == lines.len() - 1 {
        lemma_lookup_push(bindings_of(lines.drop_last()), line_pair(lines.last()), k);
        assert(bindings_of(lines) =~= bindings_of(lines.drop_last()).push(
            line_pair(lines.last()),
        ));
    } else {
        lemma_bindings_last(lines.drop_last(), i, k);
        if line_is_pair(lines.last()) {
            lemma_lookup_push(bindings_of(lines.drop_last()), line_pair(lines.last()), k);
            assert(bindings_of(lines) =~= bindings_of(lines.drop_last()).push(
                line_pair(lines.last()),
            ));
        } else {
            assert(bindings_of(lines) =~= bindings_of(lines.drop_last()));
        }
    }
}

} // verus!
