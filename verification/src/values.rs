//! The list and map micro-syntaxes, and the string table used for map
//! values and for parsed configuration sources.

use vstd::prelude::*;
use crate::text::{
    split_spec, trim_spec, chars_string, split_chars, str_chars, str_eq, subvec, trim_chars,
};

verus! {

/// Last-write-wins lookup in a sequence of key/value pairs.
pub open spec fn lookup(t: Seq<(Seq<char>, Seq<char>)>, k: Seq<char>) -> Option<Seq<char>>
    decreases t.len(),
{
    if t.len() == 0 {
        None
    } else if t.last().0 == k {
        Some(t.last().1)
    } else {
        lookup(t.drop_last(), k)
    }
}

/// No two pairs share a key.
pub open spec fn unique_keys(t: Seq<(Seq<char>, Seq<char>)>) -> bool {
    forall|i: int, j: int| 0 <= i < j < t.len() ==> t[i].0 != t[j].0
}

/// Looking up `k` yields the value of the last pair whose key is `k`.
pub proof fn lemma_lookup_last_binding(t: Seq<(Seq<char>, Seq<char>)>, k: Seq<char>, i: int)
    requires
        0 <= i < t.len(),
        t[i].0 == k,
        forall|j: int| i < j < t.len() ==> t[j].0 != k,
    ensures
        lookup(t, k) == Some(t[i].1),
    decreases t.len(),
{
    if i < t.len() - 1 {
        lemma_lookup_last_binding(t.drop_last(), k, i);
    }
}

/// Looking up a key that no pair has yields nothing.
pub proof fn lemma_lookup_absent(t: Seq<(Seq<char>, Seq<char>)>, k: Seq<char>)
    requires
        forall|j: int| 0 <= j < t.len() ==> t[j].0 != k,
    ensures
        lookup(t, k) is None,
    decreases t.len(),
{
    if t.len() > 0 {
        lemma_lookup_absent(t.drop_last(), k);
    }
}

/// Appending a pair binds its key and leaves every other key alone.
pub proof fn lemma_lookup_push(
    t: Seq<(Seq<char>, Seq<char>)>,
    p: (Seq<char>, Seq<char>),
    k: Seq<char>,
)
    ensures
        lookup(t.push(p), k) == if k == p.0 {
            Some(p.1)
        } else {
            lookup(t, k)
        },
{
    assert(t.push(p).drop_last() =~= t);
}

/// Removing a pair whose key is not `k` does not change what `k` maps to.
proof fn lemma_lookup_remove_other(t: Seq<(Seq<char>, Seq<char>)>, i: int, k: Seq<char>)
    requires
        0 <= i < t.len(),
        t[i].0 != k,
    ensures
        lookup(t.remove(i), k) == lookup(t, k),
    decreases t.len(),
{
    if i == t.len() - 1 {
        assert(t.remove(i) =~= t.drop_last());
    } else {
        assert(t.remove(i).drop_last() =~= t.drop_last().remove(i));
        assert(t.remove(i).last() == t.last());
        lemma_lookup_remove_other(t.drop_last(), i, k);
    }
}

/// The index of the pair holding `key`, if any.
fn find_key(t: &Vec<(String, String)>, key: &String) -> (r: Option<usize>)
    ensures
        match r {
            Some(i) => i < t@.len() && t.deep_view()[i as int].0 == key@,
            None => forall|j: int| 0 <= j < t@.len() ==> t.deep_view()[j].0 != key@,
        },
{
    let n = t.len();
    let mut i: usize = 0;
    while i < n
        invariant
            0 <= i <= n == t@.len(),
            forall|j: int| 0 <= j < i ==> t.deep_view()[j].0 != key@,
        decreases n - i,
    {
        if str_eq(t[i].0.as_str(), key.as_str()) {
            return Some(i);
        }
        i += 1;
    }
    None
}

/// Bind `key` to `val`, replacing any earlier binding of `key`.
pub fn table_insert(t: &mut Vec<(String, String)>, key: String, val: String)
    requires
        unique_keys(old(t).deep_view()),
    ensures
        unique_keys(final(t).deep_view()),
        forall|k: Seq<char>| #[trigger] lookup(final(t).deep_view(), k) == if k == key@ {
            Some(val@)
        } else {
            lookup(old(t).deep_view(), k)
        },
{
    let ghost t0 = t.deep_view();
    let ghost mut removed: Option<int> = None;
    match find_key(t, &key) {
        Some(i) => {
            t.remove(i);
            proof {
                removed = Some(i as int);
                assert(t.deep_view() =~~= t0.remove(i as int));
            }
        },
        None => {},
    }
    let ghost t1 = t.deep_view();
    proof {
        if let Some(i) = removed {
            t0.remove_ensures(i);
            assert forall|j: int| 0 <= j < t1.len() implies #[trigger] t1[j].0 != key@ by {
                if j < i {
                    assert(t1[j] == t0[j]);
                } else {
                    assert(t1[j] == t0[j + 1]);
                }
            }
            assert forall|a: int, b: int| 0 <= a < b < t1.len() implies t1[a].0 != t1[b].0 by {
                assert(t1[a] == if a < i {
                    t0[a]
                } else {
                    t0[a + 1]
                });
                assert(t1[b] == if b < i {
                    t0[b]
                } else {
                    t0[b + 1]
                });
            }
        }
    }
    t.push((key, val));
    proof {
        assert(t.deep_view() =~~= t1.push((key@, val@)));
        assert forall|k: Seq<char>| #[trigger] lookup(t.deep_view(), k) == (if k == key@ {
            Some(val@)
        } else {
            lookup(t0, k)
        }) by {
            lemma_lookup_push(t1, (key@, val@), k);
            if k != key@ {
                match removed {
                    Some(i) => {
                        lemma_lookup_remove_other(t0, i, k);
                    },
                    None => {},
                }
            }
        }
    }
}

/// `s` trimmed, with one surrounding `lb` `rb` pair removed when both are
/// present.
pub open spec fn strip_pair(s: Seq<char>, lb: char, rb: char) -> Seq<char> {
    let t = trim_spec(s);
    if t.len() >= 2 && t[0] == lb && t.last() == rb {
        t.subrange(1, t.len() - 1)
    } else {
        t
    }
}

/// The list micro-syntax: brackets optional, elements split on `,` and
/// trimmed. An empty value yields one empty element.
pub open spec fn list_of(v: Seq<char>) -> Seq<Seq<char>> {
    split_spec(strip_pair(v, '[', ']'), ',').map_values(|p: Seq<char>| trim_spec(p))
}

/// Index of the first `=>` in `s`.
pub open spec fn find_arrow(s: Seq<char>) -> Option<int>
    decreases s.len(),
{
    if s.len() < 2 {
        None
    } else if s[0] == '=' && s[1] == '>' {
        Some(0int)
    } else {
        match find_arrow(s.drop_first()) {
            Some(i) => Some(i + 1),
            None => None,
        }
    }
}

/// One map entry: key and value split on the first `=>` and trimmed; an
/// entry without `=>` maps its trimmed text to the empty value.
pub open spec fn entry_of(e: Seq<char>) -> (Seq<char>, Seq<char>) {
    match find_arrow(e) {
        Some(i) => (trim_spec(e.take(i)), trim_spec(e.skip(i + 2))),
        None => (trim_spec(e), Seq::<char>::empty()),
    }
}

/// The map micro-syntax: braces optional, entries split on `,`, each entry
/// split on its first `=>`.
pub open spec fn entries_of(v: Seq<char>) -> Seq<(Seq<char>, Seq<char>)> {
    split_spec(strip_pair(v, '{', '}'), ',').map_values(|e: Seq<char>| entry_of(e))
}

proof fn lemma_arrow_at(s: Seq<char>, i: int)
    requires
        0 <= i,
        i + 1 < s.len(),
        s[i] == '=',
        s[i + 1] == '>',
        forall|j: int| 0 <= j < i ==> !(#[trigger] s[j] == '=' && s[j + 1] == '>'),
    ensures
        find_arrow(s) == Some(i),
    decreases i,
{
    if i > 0 {
        lemma_arrow_at(s.drop_first(), i - 1);
    }
}

proof fn lemma_arrow_none(s: Seq<char>)
    requires
        forall|j: int| 0 <= j && j + 1 < s.len() ==> !(#[trigger] s[j] == '=' && s[j + 1] == '>'),
    ensures
        find_arrow(s) is None,
    decreases s.len(),
{
    if s.len() >= 2 {
        lemma_arrow_none(s.drop_first());
    }
}

/// Index of the first `=>` in `v`.
fn find_arrow_chars(v: &Vec<char>) -> (r: Option<usize>)
    ensures
        match r {
            Some(i) => i + 1 < v@.len() && find_arrow(v@) == Some(i as int),
            None => find_arrow(v@) is None,
        },
{
    let n = v.len();
    if n < 2 {
        proof {
            lemma_arrow_none(v@);
        }
        return None;
    }
    let mut i: usize = 0;
    while i < n - 1
        invariant
            0 <= i <= n == v@.len(),
            n >= 2,
            forall|j: int| 0 <= j < i ==> !(#[trigger] v@[j] == '=' && v@[j + 1] == '>'),
        decreases n - i,
    {
        if v[i] == '=' && v[i + 1] == '>' {
            proof {
                lemma_arrow_at(v@, i as int);
            }
            return Some(i);
        }
        i += 1;
    }
    proof {
        lemma_arrow_none(v@);
    }
    None
}

/// `v` trimmed, with one surrounding `lb` `rb` pair removed when both are
/// present.
fn strip_pair_chars(v: &Vec<char>, lb: char, rb: char) -> (r: Vec<char>)
    ensures
        r@ == strip_pair(v@, lb, rb),
{
    let t = trim_chars(v);
    let n = t.len();
    if n >= 2 && t[0] == lb && t[n - 1] == rb {
        subvec(&t, 1, n - 1)
    } else {
        t
    }
}

/// Parse the list micro-syntax: brackets optional, elements split on `,`
/// and trimmed.
pub fn parse_list(s: &str) -> (r: Vec<String>)
    ensures
        r.deep_view() == list_of(s@),
{
    let cs = str_chars(s);
    let inner = strip_pair_chars(&cs, '[', ']');
    let parts = split_chars(&inner, ',');
    let mut out: Vec<String> = Vec::new();
    let n = parts.len();
    let mut i: usize = 0;
    while i < n
        invariant
            0 <= i <= n == parts@.len(),
            parts.deep_view() == split_spec(strip_pair(s@, '[', ']'), ','),
            out.deep_view() == list_of(s@).take(i as int),
        decreases n - i,
    {
        let ghost prev = out.deep_view();
        let p = trim_chars(&parts[i]);
        out.push(chars_string(&p));
        proof {
            assert(parts.deep_view()[i as int] == parts@[i as int]@);
            assert(list_of(s@)[i as int] == trim_spec(parts.deep_view()[i as int]));
            assert(out.deep_view() =~~= prev.push(p@));
            assert(list_of(s@).take(i + 1) =~= list_of(s@).take(i as int).push(
                list_of(s@)[i as int],
            ));
            assert(out.deep_view() =~~= list_of(s@).take(i + 1));
        }
        i += 1;
    }
    proof {
        assert(list_of(s@).take(n as int) =~= list_of(s@));
    }
    out
}

/// Parse the map micro-syntax into a table with unique keys; on duplicate
/// keys the last entry wins.
pub fn parse_entries(s: &str) -> (r: Vec<(String, String)>)
    ensures
        unique_keys(r.deep_view()),
        forall|k: Seq<char>| #[trigger] lookup(r.deep_view(), k) == lookup(entries_of(s@), k),
{
    let cs = str_chars(s);
    let inner = strip_pair_chars(&cs, '{', '}');
    let parts = split_chars(&inner, ',');
    let ghost es = entries_of(s@);
    let mut out: Vec<(String, String)> = Vec::new();
    let n = parts.len();
    let mut i: usize = 0;
    proof {
        assert(out.deep_view() =~~= Seq::<(Seq<char>, Seq<char>)>::empty());
    }
    while i < n
        invariant
            0 <= i <= n == parts@.len(),
            parts.deep_view() == split_spec(strip_pair(s@, '{', '}'), ','),
            es == entries_of(s@),
            unique_keys(out.deep_view()),
            forall|k: Seq<char>| #[trigger] lookup(out.deep_view(), k) == lookup(
                es.take(i as int),
                k,
            ),
        decreases n - i,
    {
        let e = &parts[i];
        let m = e.len();
        let (kc, vc): (Vec<char>, Vec<char>) = match find_arrow_chars(e) {
            Some(p) => {
                let a = trim_chars(&subvec(e, 0, p));
                let b = trim_chars(&subvec(e, p + 2, m));
                proof {
                    assert(e@.take(p as int) =~= e@.subrange(0, p as int));
                    assert(e@.skip(p + 2) =~= e@.subrange(p + 2, m as int));
                }
                (a, b)
            },
            None => (trim_chars(e), Vec::new()),
        };
        proof {
            assert(parts.deep_view()[i as int] == e@);
            assert(es[i as int] == entry_of(e@));
            assert(kc@ == entry_of(e@).0);
            assert(vc@ == entry_of(e@).1);
        }
        table_insert(&mut out, chars_string(&kc), chars_string(&vc));
        proof {
            assert(es.take(i + 1).drop_last() =~= es.take(i as int));
            assert(es.take(i + 1).last() == es[i as int]);
            assert forall|k: Seq<char>| #[trigger] lookup(out.deep_view(), k) == lookup(
                es.take(i + 1),
                k,
            ) by {}
        }
        i += 1;
    }
    proof {
        assert(es.take(n as int) =~= es);
    }
    out
}

} // verus!
