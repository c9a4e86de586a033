//! Variable environments: finite maps from names to values.

use vstd::prelude::*;

use crate::text;

verus! {

/// A map from names to values, without an order of its own.
///
/// The bindings are kept in a list in which no name occurs twice.
#[derive(Debug)]
pub struct Scope<V> {
    entries: Vec<(String, V)>,
}

/// The map that a list of bindings stands for.
pub closed spec fn bindings<V>(s: Seq<(String, V)>) -> Map<Seq<char>, V>
    decreases s.len(),
{
    if s.len() == 0 {
        Map::empty()
    } else {
        bindings(s.drop_last()).insert(s.last().0@, s.last().1)
    }
}

/// No name is bound twice.
pub closed spec fn distinct<V>(s: Seq<(String, V)>) -> bool {
    forall|i: int, j: int| 0 <= i < j < s.len() ==> (#[trigger] s[i]).0@ != (#[trigger] s[j]).0@
}

proof fn lemma_bindings<V>(s: Seq<(String, V)>)
    ensures
        forall|k: Seq<char>|
            #![trigger bindings(s).dom().contains(k)]
            bindings(s).dom().contains(k) <==> exists|i: int|
                0 <= i < s.len() && (#[trigger] s[i]).0@ == k,
        distinct(s) ==> forall|i: int|
            0 <= i < s.len() ==> bindings(s)[(#[trigger] s[i]).0@] == s[i].1,
    decreases s.len(),
{
    if s.len() > 0 {
        let t = s.drop_last();
        lemma_bindings(t);
        assert forall|k: Seq<char>|
            #![trigger bindings(s).dom().contains(k)]
            bindings(s).dom().contains(k) <==> exists|i: int|
                0 <= i < s.len() && (#[trigger] s[i]).0@ == k by {
            if bindings(t).dom().contains(k) {
                let i = choose|i: int| 0 <= i < t.len() && (#[trigger] t[i]).0@ == k;
                assert(s[i].0@ == k);
            }
            if s.last().0@ == k {
                assert(s[s.len() - 1].0@ == k);
            }
            if exists|i: int| 0 <= i < s.len() && (#[trigger] s[i]).0@ == k {
                let i = choose|i: int| 0 <= i < s.len() && (#[trigger] s[i]).0@ == k;
                if i < s.len() - 1 {
                    assert(t[i].0@ == k);
                }
            }
        }
        if distinct(s) {
            assert(distinct(t)) by {
                assert forall|i: int, j: int| 0 <= i < j < t.len() implies (#[trigger] t[i]).0@ != (
                #[trigger] t[j]).0@ by {
                    assert(s[i].0@ != s[j].0@);
                }
            }
            assert forall|i: int| 0 <= i < s.len() implies bindings(s)[(#[trigger] s[i]).0@]
                == s[i].1 by {
                if i < s.len() - 1 {
                    assert(t[i] == s[i]);
                    assert(s[i].0@ != s[s.len() - 1].0@);
                }
            }
        }
    }
}

/// Replacing the value of the only binding of a name inserts it.
proof fn lemma_bindings_update<V>(s: Seq<(String, V)>, i: int, e: (String, V))
    requires
        0 <= i < s.len(),
        s[i].0@ == e.0@,
        distinct(s),
    ensures
        bindings(s.update(i, e)) == bindings(s).insert(e.0@, e.1),
    decreases s.len(),
{
    let t = s.drop_last();
    let u = s.update(i, e);
    if i == s.len() - 1 {
        assert(u.drop_last() =~= t);
        assert(bindings(u) =~= bindings(s).insert(e.0@, e.1));
    } else {
        assert(u.drop_last() =~= t.update(i, e));
        assert(distinct(t)) by {
            assert forall|a: int, b: int| 0 <= a < b < t.len() implies (#[trigger] t[a]).0@ != (
            #[trigger] t[b]).0@ by {
                assert(s[a].0@ != s[b].0@);
            }
        }
        assert(t[i] == s[i]);
        lemma_bindings_update(t, i, e);
        assert(s[i].0@ != s[s.len() - 1].0@);
        assert(bindings(u) =~= bindings(s).insert(e.0@, e.1));
    }
}

/// Putting the last binding in place of another unbinds that other name.
proof fn lemma_bindings_remove<V>(s: Seq<(String, V)>, i: int)
    requires
        0 <= i < s.len(),
        distinct(s),
    ensures
        bindings(s.update(i, s.last()).drop_last()) == bindings(s).remove(s[i].0@),
        distinct(s.update(i, s.last()).drop_last()),
{
    let t = s.update(i, s.last()).drop_last();
    let k = s[i].0@;
    assert forall|a: int, b: int| 0 <= a < b < t.len() implies (#[trigger] t[a]).0@ != (
    #[trigger] t[b]).0@ by {
        let x = if a == i {
            s.len() - 1
        } else {
            a
        };
        let y = if b == i {
            s.len() - 1
        } else {
            b
        };
        assert(t[a] == s[x] && t[b] == s[y]);
        if x < y {
            assert(s[x].0@ != s[y].0@);
        } else {
            assert(s[y].0@ != s[x].0@);
        }
    }
    lemma_bindings(s);
    lemma_bindings(t);
    let left = bindings(t);
    let right = bindings(s).remove(k);
    assert forall|n: Seq<char>| #[trigger] left.dom().contains(n) == right.dom().contains(n) by {
        if left.dom().contains(n) {
            let j = choose|j: int| 0 <= j < t.len() && (#[trigger] t[j]).0@ == n;
            let x = if j == i {
                s.len() - 1
            } else {
                j
            };
            assert(s[x].0@ == n);
            if x < i {
                assert(s[x].0@ != s[i].0@);
            } else {
                assert(s[i].0@ != s[x].0@);
            }
        }
        if right.dom().contains(n) {
            let x = choose|x: int| 0 <= x < s.len() && (#[trigger] s[x]).0@ == n;
            let j = if x == s.len() - 1 {
                i
            } else {
                x
            };
            assert(t[j].0@ == n);
        }
    }
    assert forall|n: Seq<char>| left.dom().contains(n) implies #[trigger] left[n] == right[n] by {
        let j = choose|j: int| 0 <= j < t.len() && (#[trigger] t[j]).0@ == n;
        let x = if j == i {
            s.len() - 1
        } else {
            j
        };
        assert(t[j] == s[x]);
        assert(left[t[j].0@] == t[j].1);
        assert(bindings(s)[s[x].0@] == s[x].1);
    }
    assert(left =~= right);
}

impl<V> View for Scope<V> {
    type V = Map<Seq<char>, V>;

    closed spec fn view(&self) -> Map<Seq<char>, V> {
        bindings(self.entries@)
    }
}

impl<V> Scope<V> {
    #[verifier::type_invariant]
    spec fn inv(self) -> bool {
        distinct(self.entries@)
    }

    /// The empty environment.
    pub fn new() -> (r: Self)
        ensures
            r@ == Map::<Seq<char>, V>::empty(),
    {
        Scope { entries: Vec::new() }
    }

    /// The position of the binding of `name`.
    fn position(&self, name: &str) -> (r: Option<usize>)
        ensures
            match r {
                Some(i) => i < self.entries@.len() && self.entries@[i as int].0@ == name@,
                None => forall|j: int|
                    0 <= j < self.entries@.len() ==> (#[trigger] self.entries@[j]).0@ != name@,
            },
    {
        let mut i: usize = 0;
        while i < self.entries.len()
            invariant
                i <= self.entries@.len(),
                forall|j: int| 0 <= j < i ==> (#[trigger] self.entries@[j]).0@ != name@,
            decreases self.entries@.len() - i,
        {
            if text::str_eq(self.entries[i].0.as_str(), name) {
                return Some(i);
            }
            i += 1;
        }
        None
    }

    /// The value bound to `name`.
    pub fn get(&self, name: &str) -> (r: Option<&V>)
        ensures
            match r {
                Some(v) => self@.dom().contains(name@) && *v == self@[name@],
                None => !self@.dom().contains(name@),
            },
    {
        proof {
            use_type_invariant(self);
            lemma_bindings(self.entries@);
        }
        match self.position(name) {
            Some(i) => Some(&self.entries[i].1),
            None => None,
        }
    }

    /// Whether `name` is bound.
    pub fn contains_key(&self, name: &str) -> (b: bool)
        ensures
            b == self@.dom().contains(name@),
    {
        self.get(name).is_some()
    }

    /// Bind `name` to `value`, in place of what it was bound to.
    pub fn insert(&mut self, name: String, value: V)
        ensures
            final(self)@ == old(self)@.insert(name@, value),
    {
        proof {
            use_type_invariant(&*self);
        }
        let mut entries: Vec<(String, V)> = Vec::new();
        let at = self.position(name.as_str());
        std::mem::swap(&mut entries, &mut self.entries);
        let ghost before = entries@;
        match at {
            Some(i) => {
                proof {
                    lemma_bindings_update(before, i as int, (name, value));
                }
                entries.set(i, (name, value));
            },
            None => {
                entries.push((name, value));
                assert(entries@.drop_last() =~= before);
            },
        }
        proof {
            assert forall|a: int, b: int| 0 <= a < b < entries@.len() implies (#[trigger] entries@[a]).0@
                != (#[trigger] entries@[b]).0@ by {
                if a < before.len() && b < before.len() {
                    assert(before[a].0@ != before[b].0@);
                }
            }
        }
        self.entries = entries;
    }

    /// Unbind `name`; returns what it was bound to.
    pub fn remove(&mut self, name: &str) -> (r: Option<V>)
        ensures
            final(self)@ == old(self)@.remove(name@),
            match r {
                Some(v) => old(self)@.dom().contains(name@) && v == old(self)@[name@],
                None => !old(self)@.dom().contains(name@),
            },
    {
        proof {
            use_type_invariant(&*self);
            lemma_bindings(self.entries@);
        }
        let at = self.position(name);
        let mut entries: Vec<(String, V)> = Vec::new();
        std::mem::swap(&mut entries, &mut self.entries);
        let ghost before = entries@;
        let r = match at {
            Some(i) => {
                proof {
                    lemma_bindings_remove(before, i as int);
                }
                let (_, v) = entries.swap_remove(i);
                Some(v)
            },
            None => {
                assert(bindings(before) =~= bindings(before).remove(name@));
                None
            },
        };
        self.entries = entries;
        r
    }

    /// The number of bindings.
    pub(crate) fn size(&self) -> (n: usize)
        ensures
            n == self.entry_count(),
    {
        self.entries.len()
    }

    /// The number of bindings.
    pub(crate) closed spec fn entry_count(&self) -> nat {
        self.entries@.len()
    }

    /// The name of the binding at a position of the list.
    pub(crate) closed spec fn name_at(&self, i: int) -> Seq<char> {
        self.entries@[i].0@
    }

    /// The binding at a position of the list.
    pub(crate) fn entry(&self, i: usize) -> (r: (&str, &V))
        requires
            i < self.entry_count(),
        ensures
            r.0@ == self.name_at(i as int),
            self@.dom().contains(r.0@),
            *r.1 == self@[r.0@],
    {
        proof {
            use_type_invariant(self);
            lemma_bindings(self.entries@);
        }
        (self.entries[i].0.as_str(), &self.entries[i].1)
    }

    /// Every bound name stands at some position of the list.
    pub(crate) proof fn lemma_entries_cover(&self)
        ensures
            forall|k: Seq<char>|
                #![trigger self@.dom().contains(k)]
                self@.dom().contains(k) ==> exists|i: int|
                    0 <= i < self.entry_count() && #[trigger] self.name_at(i) == k,
    {
        lemma_bindings(self.entries@);
        assert forall|k: Seq<char>|
            #![trigger self@.dom().contains(k)]
            self@.dom().contains(k) implies exists|i: int|
            0 <= i < self.entry_count() && #[trigger] self.name_at(i) == k by {
            let i = choose|i: int|
                0 <= i < self.entries@.len() && (#[trigger] self.entries@[i]).0@ == k;
            assert(self.name_at(i) == k);
        }
    }
}

} // verus!
