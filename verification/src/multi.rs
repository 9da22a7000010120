//! Combine several configuration sources into one, probed in order:
//! the first source that holds a key answers for it.

use vstd::prelude::*;
use crate::Config;

verus! {

/// First-match-wins lookup over an ordered sequence of sources.
pub open spec fn chain_get<C: Config>(cs: Seq<C>, key: Seq<char>) -> Option<Seq<char>>
    decreases cs.len(),
{
    if cs.len() == 0 {
        None
    } else {
        match cs[0].spec_get(key) {
            Some(v) => Some(v),
            None => chain_get(cs.drop_first(), key),
        }
    }
}

/// An ordered chain of configuration sources. The first source listed has
/// the highest precedence, and the order never changes after construction.
pub struct MultiConfig<C: Config> {
    configs: Vec<C>,
}

impl<C: Config> MultiConfig<C> {
    /// The sources of the chain, in probing order.
    pub closed spec fn sources(&self) -> Seq<C> {
        self.configs@
    }

    /// Chain the given sources; earlier entries override later ones, so a
    /// list such as `[environment, instance file, defaults]` gives the
    /// usual layered-configuration behaviour.
    pub fn new(configs: Vec<C>) -> (r: Self)
        ensures
            r.sources() == configs@,
            forall|k: Seq<char>| #[trigger] r.spec_get(k) == chain_get(configs@, k),
    {
        MultiConfig { configs }
    }
}

impl<C: Config> Config for MultiConfig<C> {
    open spec fn spec_get(&self, key: Seq<char>) -> Option<Seq<char>> {
        chain_get(self.sources(), key)
    }

    fn get(&self, key: &str) -> (r: Option<String>) {
        let n = self.configs.len();
        let mut i: usize = 0;
        proof {
            assert(self.configs@.skip(0) =~= self.configs@);
        }
        while i < n
            invariant
                0 <= i <= n == self.configs@.len(),
                chain_get(self.configs@, key@) == chain_get(self.configs@.skip(i as int), key@),
            decreases n - i,
        {
            let c = &self.configs[i];
            let r = c.get(key);
            proof {
                let rest = self.configs@.skip(i as int);
                assert(rest[0] == self.configs@[i as int]);
                assert(rest.drop_first() =~= self.configs@.skip(i + 1));
            }
            match r {
                Some(v) => {
                    return Some(v);
                },
                None => {},
            }
            i += 1;
        }
        None
    }
}

/// Chain precedence: when the first source holds `key` its value wins
/// outright; when it does not, the rest of the chain answers; and an empty
/// chain holds nothing.
pub proof fn lemma_chain_precedence<C: Config>(cs: Seq<C>, key: Seq<char>)
    ensures
        cs.len() == 0 ==> chain_get(cs, key) is None,
        cs.len() > 0 && cs[0].spec_get(key) is Some ==> chain_get(cs, key) == cs[0].spec_get(key),
        cs.len() > 0 && cs[0].spec_get(key) is None ==> chain_get(cs, key) == chain_get(
            cs.drop_first(),
            key,
        ),
{
}

} // verus!
