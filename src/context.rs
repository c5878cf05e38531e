//! The named values that a rule is evaluated against.

use crate::ast::{Atom, Value};
use vstd::prelude::*;

verus! {

/// The value bound last to `k` among the first `n` entries.
pub closed spec fn find_in(e: Seq<(String, Atom)>, k: Seq<char>, n: int) -> Option<Value>
    decreases n,
{
    if n <= 0 {
        None
    } else if e[n - 1].0@ == k {
        Some(e[n - 1].1@)
    } else {
        find_in(e, k, n - 1)
    }
}

/// A mapping from variable names to values.
pub struct Context {
    entries: Vec<(String, Atom)>,
}

impl View for Context {
    type V = Map<Seq<char>, Value>;

    closed spec fn view(&self) -> Map<Seq<char>, Value> {
        Map::new(
            |k: Seq<char>| find_in(self.entries@, k, self.entries@.len() as int) is Some,
            |k: Seq<char>| find_in(self.entries@, k, self.entries@.len() as int)->0,
        )
    }
}

impl Context {
    /// A context that binds no name.
    pub fn new() -> (r: Context)
        ensures
            r@ == Map::<Seq<char>, Value>::empty(),
    {
        let r = Context { entries: Vec::new() };
        assert(r@ =~= Map::<Seq<char>, Value>::empty());
        r
    }

    /// Binds `name` to `value`, in place of any earlier binding of it.
    pub fn insert(&mut self, name: &str, value: Atom)
        ensures
            final(self)@ == old(self)@.insert(name@, value@),
    {
        let ghost before = self.entries@;
        self.entries.push((name.to_owned(), value));
        proof {
            let after = self.entries@;
            assert forall|k: Seq<char>| #[trigger]
                find_in(after, k, after.len() as int) == if k == name@ {
                    Some(value@)
                } else {
                    find_in(before, k, before.len() as int)
                } by {
                if k != name@ {
                    assert forall|n: int| 0 <= n <= before.len() implies find_in(after, k, n)
                        == find_in(before, k, n) by {
                        lemma_find_prefix(before, after, k, n);
                    }
                }
            }
            assert(self@ =~= old(self)@.insert(name@, value@));
        }
    }

    /// The value bound to `name`, if any.
    pub fn get(&self, name: &str) -> (r: Option<&Atom>)
        ensures
            r is Some <==> self@.contains_key(name@),
            r matches Some(a) ==> self@[name@] == a@,
    {
        let key = name.to_owned();
        let mut i: usize = self.entries.len();
        while i > 0
            invariant
                i <= self.entries@.len(),
                key@ == name@,
                find_in(self.entries@, name@, self.entries@.len() as int) == find_in(
                    self.entries@,
                    name@,
                    i as int,
                ),
            decreases i,
        {
            if self.entries[i - 1].0.eq(&key) {
                return Some(&self.entries[i - 1].1);
            }
            i = i - 1;
        }
        None
    }
}

proof fn lemma_find_prefix(short: Seq<(String, Atom)>, long: Seq<(String, Atom)>, k: Seq<char>, n: int)
    requires
        short.len() <= long.len(),
        0 <= n <= short.len(),
        forall|j: int| 0 <= j < short.len() ==> short[j] == long[j],
    ensures
        find_in(long, k, n) == find_in(short, k, n),
    decreases n,
{
    if n > 0 {
        lemma_find_prefix(short, long, k, n - 1);
    }
}

} // verus!
