//! The resolved formatter configuration the engine consumes: a mapping from
//! language identifier to an ordered chain of formatter stage strings.

use vstd::prelude::*;
use crate::utils::str_eq;

verus! {

/// A resolved configuration. Each entry pairs a language identifier with the
/// ordered list of formatter stages to run over codeblocks of that language.
pub struct Conf {
    pub languages: Vec<(String, Vec<String>)>,
}

/// The chain configured for `key`: the chain of the first entry whose
/// language equals `key`, if any.
pub open spec fn lookup_spec(langs: Seq<(String, Vec<String>)>, key: Seq<char>) -> Option<
    Seq<String>,
>
    decreases langs.len(),
{
    if langs.len() == 0 {
        None
    } else if langs[0].0@ == key {
        Some(langs[0].1@)
    } else {
        lookup_spec(langs.skip(1), key)
    }
}

impl Conf {
    /// The formatter chain for `language`, or `None` when the configuration
    /// has no entry for it (such a codeblock is skipped entirely).
    pub fn lookup(&self, language: &str) -> (r: Option<Vec<String>>)
        ensures
            (r is Some) == (lookup_spec(self.languages@, language@) is Some),
            r is Some ==> r.unwrap()@ == lookup_spec(self.languages@, language@).unwrap(),
    {
        let n = self.languages.len();
        proof {
            assert(self.languages@.skip(0) =~= self.languages@);
        }
        let mut i: usize = 0;
        while i < n
            invariant
                0 <= i <= n,
                n == self.languages@.len(),
                lookup_spec(self.languages@.skip(i as int), language@) == lookup_spec(
                    self.languages@,
                    language@,
                ),
            decreases n - i,
        {
            let entry = &self.languages[i];
            if str_eq(entry.0.as_str(), language) {
                let chain = clone_strings(&entry.1);
                proof {
                    assert(self.languages@.skip(i as int)[0] == self.languages@[i as int]);
                }
                return Some(chain);
            }
            proof {
                assert(self.languages@.skip(i as int).skip(1) =~= self.languages@.skip(
                    i as int + 1,
                ));
                assert(self.languages@.skip(i as int)[0] == self.languages@[i as int]);
            }
            i += 1;
        }
        proof {
            assert(self.languages@.skip(n as int) =~= Seq::<(String, Vec<String>)>::empty());
        }
        None
    }
}

/// An element-wise copy of a list of strings.
pub fn clone_strings(v: &Vec<String>) -> (r: Vec<String>)
    ensures
        r@ == v@,
{
    let mut r: Vec<String> = Vec::new();
    let mut i: usize = 0;
    while i < v.len()
        invariant
            0 <= i <= v@.len(),
            r@ == v@.take(i as int),
        decreases v@.len() - i,
    {
        r.push(v[i].clone());
        proof {
            assert(r@ =~= v@.take(i + 1 as int));
        }
        i += 1;
    }
    proof {
        assert(v@.take(v@.len() as int) =~= v@);
    }
    r
}

} // verus!
