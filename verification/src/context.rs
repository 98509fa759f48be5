//! The variables of a rendering: a flat mapping from names to values.

use crate::text::{copy_chars, from_chars, same_chars, to_chars};
use vstd::prelude::*;

verus! {

/// The mapping that a list of bindings stands for: a later binding of a name
/// replaces an earlier one.
pub open spec fn bindings_map(bindings: Seq<(Seq<char>, Seq<char>)>) -> Map<Seq<char>, Seq<char>>
    decreases bindings.len(),
{
    if bindings.len() == 0 {
        Map::empty()
    } else {
        bindings_map(bindings.drop_last()).insert(bindings.last().0, bindings.last().1)
    }
}

/// The bindings that a list of pairs of character vectors holds.
pub open spec fn pairs_view(pairs: Seq<(Vec<char>, Vec<char>)>) -> Seq<(Seq<char>, Seq<char>)> {
    Seq::new(pairs.len(), |i: int| (pairs[i].0@, pairs[i].1@))
}

/// A mapping from variable names to values. Names are case-sensitive and
/// flat.
#[derive(Debug)]
pub struct VariableContext {
    bindings: Vec<(Vec<char>, Vec<char>)>,
}

impl VariableContext {
    /// The bindings in the order in which they were made.
    pub closed spec fn bindings(&self) -> Seq<(Seq<char>, Seq<char>)> {
        pairs_view(self.bindings@)
    }
}

impl View for VariableContext {
    type V = Map<Seq<char>, Seq<char>>;

    closed spec fn view(&self) -> Map<Seq<char>, Seq<char>> {
        bindings_map(self.bindings())
    }
}

impl VariableContext {
    /// A context without variables.
    pub fn new() -> (ctx: VariableContext)
        ensures
            ctx@ == Map::<Seq<char>, Seq<char>>::empty(),
    {
        VariableContext { bindings: Vec::new() }
    }

    /// Binds `name` to `value`; an earlier binding of `name` is replaced.
    pub fn insert_chars(&mut self, name: Vec<char>, value: Vec<char>)
        ensures
            final(self)@ == old(self)@.insert(name@, value@),
    {
        self.bindings.push((name, value));
        assert(self.bindings().drop_last() =~= old(self).bindings());
    }

    /// Binds `name` to `value`; an earlier binding of `name` is replaced.
    pub fn insert(&mut self, name: &str, value: &str)
        ensures
            final(self)@ == old(self)@.insert(name@, value@),
    {
        self.insert_chars(to_chars(name), to_chars(value));
    }

    /// The value of `name`, if it is bound.
    pub fn get_chars(&self, name: &Vec<char>) -> (r: Option<&Vec<char>>)
        ensures
            match r {
                Some(value) => self@.contains_key(name@) && self@[name@] == value@,
                None => !self@.contains_key(name@),
            },
    {
        let mut i: usize = self.bindings.len();
        assert(self.bindings().take(i as int) =~= self.bindings());
        while i > 0
            invariant
                i <= self.bindings.len(),
                self@.contains_key(name@) <==> bindings_map(
                    self.bindings().take(i as int),
                ).contains_key(name@),
                self@.contains_key(name@) ==> self@[name@] == bindings_map(
                    self.bindings().take(i as int),
                )[name@],
            decreases i,
        {
            proof {
                let cur = self.bindings().take(i as int);
                assert(cur.drop_last() =~= self.bindings().take(i - 1));
                assert(cur.last() == self.bindings()[i - 1]);
            }
            i -= 1;
            if same_chars(&self.bindings[i].0, name) {
                return Some(&self.bindings[i].1);
            }
        }
        assert(self.bindings().take(0).len() == 0);
        None
    }

    /// The value of `name`, if it is bound.
    pub fn get(&self, name: &str) -> (r: Option<String>)
        ensures
            match r {
                Some(value) => self@.contains_key(name@) && self@[name@] == value@,
                None => !self@.contains_key(name@),
            },
    {
        let key = to_chars(name);
        match self.get_chars(&key) {
            Some(value) => Some(from_chars(value)),
            None => None,
        }
    }

    /// Whether `name` is bound.
    pub fn contains_key(&self, name: &str) -> (b: bool)
        ensures
            b == self@.contains_key(name@),
    {
        let key = to_chars(name);
        self.get_chars(&key).is_some()
    }
}

impl Clone for VariableContext {
    fn clone(&self) -> (out: VariableContext)
        ensures
            out@ == self@,
    {
        let mut list: Vec<(Vec<char>, Vec<char>)> = Vec::new();
        let mut i: usize = 0;
        while i < self.bindings.len()
            invariant
                i <= self.bindings.len(),
                pairs_view(list@) =~= self.bindings().take(i as int),
            decreases self.bindings.len() - i,
        {
            let name = copy_chars(&self.bindings[i].0);
            let value = copy_chars(&self.bindings[i].1);
            let ghost before = pairs_view(list@);
            list.push((name, value));
            i += 1;
            assert(pairs_view(list@) =~= before.push((name@, value@)));
            assert(self.bindings().take(i as int) =~= self.bindings().take(i - 1).push(
                self.bindings()[i - 1],
            ));
        }
        assert(self.bindings().take(self.bindings().len() as int) == self.bindings());
        VariableContext { bindings: list }
    }
}

} // verus!
