//! The custom-element registry: tag names mapped to the index of their
//! registered constructor.

use vstd::prelude::*;
use vstd::string::StringExecFns;

verus! {

/// The index under the first entry whose key reads `k`.
pub open spec fn reg_lookup(s: Seq<(String, usize)>, k: Seq<char>) -> Option<usize>
    decreases s.len(),
{
    if s.len() == 0 {
        None
    } else if s[0].0@ == k {
        Some(s[0].1)
    } else {
        reg_lookup(s.drop_first(), k)
    }
}

/// A registry of custom-element definitions, keyed by tag name.
pub struct CustomElementRegistry {
    registry: Vec<(String, usize)>,
}

impl CustomElementRegistry {
    /// What the registry holds under `k`.
    pub closed spec fn view_lookup(&self, k: Seq<char>) -> Option<usize> {
        reg_lookup(self.registry@, k)
    }

    /// An empty registry.
    pub fn new() -> (r: CustomElementRegistry)
        ensures
            forall|k: Seq<char>| #[trigger] r.view_lookup(k) is None,
    {
        CustomElementRegistry { registry: Vec::new() }
    }

    /// Register `constructor_idx` under `tag_name`, replacing an earlier
    /// definition.
    pub fn define(&mut self, tag_name: &str, constructor_idx: usize)
        ensures
            forall|k: Seq<char>|
                #[trigger] final(self).view_lookup(k) == (if k == tag_name@ {
                    Some(constructor_idx)
                } else {
                    old(self).view_lookup(k)
                }),
    {
        let key = String::from_str(tag_name);
        let n = self.registry.len();
        let mut i: usize = 0;
        while i < n
            invariant
                i <= n,
                n == self.registry@.len(),
                key@ == tag_name@,
                forall|j: int| 0 <= j < i ==> #[trigger] self.registry@[j].0@ != tag_name@,
                self.registry@ == old(self).registry@,
            decreases n - i,
        {
            if self.registry[i].0 == key {
                let ghost before = self.registry@;
                self.registry[i] = (key, constructor_idx);
                proof {
                    lemma_reg_lookup_update(before, self.registry@, i as int, tag_name@, constructor_idx);
                }
                return ;
            }
            i = i + 1;
        }
        let ghost before = self.registry@;
        self.registry.push((key, constructor_idx));
        proof {
            lemma_reg_lookup_append(before, self.registry@, tag_name@, constructor_idx);
        }
    }

    /// The registered constructor index under `tag_name`.
    pub fn get(&self, tag_name: &str) -> (r: Option<&usize>)
        ensures
            (match r {
                Some(v) => self.view_lookup(tag_name@) == Some(*v),
                None => self.view_lookup(tag_name@) is None,
            }),
    {
        let key = String::from_str(tag_name);
        let n = self.registry.len();
        let mut i: usize = 0;
        while i < n
            invariant
                i <= n,
                n == self.registry@.len(),
                key@ == tag_name@,
                forall|j: int| 0 <= j < i ==> #[trigger] self.registry@[j].0@ != tag_name@,
            decreases n - i,
        {
            if self.registry[i].0 == key {
                proof {
                    lemma_reg_lookup_found(self.registry@, i as int, tag_name@);
                }
                return Some(&self.registry[i].1);
            }
            i = i + 1;
        }
        proof {
            lemma_reg_lookup_missing(self.registry@, tag_name@);
        }
        None
    }
}

proof fn lemma_reg_lookup_found(s: Seq<(String, usize)>, i: int, k: Seq<char>)
    requires
        0 <= i < s.len(),
        s[i].0@ == k,
        forall|j: int| 0 <= j < i ==> #[trigger] s[j].0@ != k,
    ensures
        reg_lookup(s, k) == Some(s[i].1),
    decreases i,
{
    if i > 0 {
        lemma_reg_lookup_found(s.drop_first(), i - 1, k);
    }
}

proof fn lemma_reg_lookup_missing(s: Seq<(String, usize)>, k: Seq<char>)
    requires
        forall|j: int| 0 <= j < s.len() ==> #[trigger] s[j].0@ != k,
    ensures
        reg_lookup(s, k) is None,
    decreases s.len(),
{
    if s.len() > 0 {
        lemma_reg_lookup_missing(s.drop_first(), k);
    }
}

proof fn lemma_reg_lookup_update(
    s0: Seq<(String, usize)>,
    s1: Seq<(String, usize)>,
    i: int,
    k: Seq<char>,
    v: usize,
)
    requires
        0 <= i < s0.len(),
        s1.len() == s0.len(),
        forall|j: int| 0 <= j < s0.len() && j != i ==> #[trigger] s1[j] == s0[j],
        forall|j: int| 0 <= j < i ==> #[trigger] s0[j].0@ != k,
        s0[i].0@ == k,
        s1[i].0@ == k,
        s1[i].1 == v,
    ensures
        forall|k2: Seq<char>|
            #[trigger] reg_lookup(s1, k2) == (if k2 == k {
                Some(v)
            } else {
                reg_lookup(s0, k2)
            }),
    decreases i,
{
    if i == 0 {
        assert forall|k2: Seq<char>|
            #[trigger] reg_lookup(s1, k2) == (if k2 == k {
                Some(v)
            } else {
                reg_lookup(s0, k2)
            }) by {
            if k2 != k {
                assert(s1.drop_first() =~= s0.drop_first());
            }
        }
    } else {
        lemma_reg_lookup_update(s0.drop_first(), s1.drop_first(), i - 1, k, v);
        assert forall|k2: Seq<char>|
            #[trigger] reg_lookup(s1, k2) == (if k2 == k {
                Some(v)
            } else {
                reg_lookup(s0, k2)
            }) by {
            assert(s1[0] == s0[0]);
            assert(s0[0].0@ != k);
            assert(reg_lookup(s1.drop_first(), k2) == (if k2 == k {
                Some(v)
            } else {
                reg_lookup(s0.drop_first(), k2)
            }));
        }
    }
}

proof fn lemma_reg_lookup_append(
    s0: Seq<(String, usize)>,
    s1: Seq<(String, usize)>,
    k: Seq<char>,
    v: usize,
)
    requires
        s1.len() == s0.len() + 1,
        forall|j: int| 0 <= j < s0.len() ==> #[trigger] s1[j] == s0[j],
        forall|j: int| 0 <= j < s0.len() ==> #[trigger] s0[j].0@ != k,
        s1[s0.len() as int].0@ == k,
        s1[s0.len() as int].1 == v,
    ensures
        forall|k2: Seq<char>|
            #[trigger] reg_lookup(s1, k2) == (if k2 == k {
                Some(v)
            } else {
                reg_lookup(s0, k2)
            }),
    decreases s0.len(),
{
    if s0.len() == 0 {
        assert forall|k2: Seq<char>|
            #[trigger] reg_lookup(s1, k2) == (if k2 == k {
                Some(v)
            } else {
                reg_lookup(s0, k2)
            }) by {
            if k2 != k {
                assert(reg_lookup(s1.drop_first(), k2) is None);
            }
        }
    } else {
        lemma_reg_lookup_append(s0.drop_first(), s1.drop_first(), k, v);
        assert forall|k2: Seq<char>|
            #[trigger] reg_lookup(s1, k2) == (if k2 == k {
                Some(v)
            } else {
                reg_lookup(s0, k2)
            }) by {
            assert(s1[0] == s0[0]);
            assert(s0[0].0@ != k);
            assert(reg_lookup(s1.drop_first(), k2) == (if k2 == k {
                Some(v)
            } else {
                reg_lookup(s0.drop_first(), k2)
            }));
        }
    }
}

} // verus!
