//! Name-to-matrix bindings.
//!
//! Execution resolves named leaves from such a mapping and records named
//! taps into another. The mapping is a small association list with
//! pairwise-distinct names, viewed as a mathematical map from character
//! sequences to matrix models.

use vstd::prelude::*;

use crate::matrix::{MatV, Matrix};
use crate::scalar::Scalar;

verus! {

/// The mathematical map described by an entry sequence: later entries win,
/// though the container keeps its names pairwise distinct.
pub open spec fn map_of<S>(s: Seq<(String, Matrix<S>)>) -> Map<Seq<char>, MatV<S>>
    decreases s.len(),
{
    if s.len() == 0 {
        Map::empty()
    } else {
        map_of(s.drop_last()).insert(s.last().0@, s.last().1@)
    }
}

/// Whether some entry of `s` carries the name `k`.
pub open spec fn has_name<S>(s: Seq<(String, Matrix<S>)>, k: Seq<char>) -> bool {
    exists|i: int| 0 <= i < s.len() && (#[trigger] s[i].0)@ == k
}

/// A mapping from names to matrices, supplied to an execution for its
/// named leaves and returned by it holding the captured taps.
pub struct MatrixMap<S> {
    entries: Vec<(String, Matrix<S>)>,
}

impl<S> View for MatrixMap<S> {
    type V = Map<Seq<char>, MatV<S>>;

    closed spec fn view(&self) -> Map<Seq<char>, MatV<S>> {
        map_of(self.entries@)
    }
}

impl<S: Scalar> MatrixMap<S> {
    /// The names are pairwise distinct and every held matrix is well
    /// formed.
    pub closed spec fn wf(&self) -> bool {
        (forall|i: int, j: int|
            0 <= i < j < self.entries@.len() ==> self.entries@[i].0@ != self.entries@[j].0@)
            && (forall|i: int| 0 <= i < self.entries@.len() ==> (#[trigger] self.entries@[i].1@).wf())
    }

    /// An empty mapping.
    pub fn new() -> (r: Self)
        ensures
            r@ == Map::<Seq<char>, MatV<S>>::empty(),
            r.wf(),
    {
        let r = MatrixMap { entries: Vec::new() };
        proof {
            assert(r.entries@.len() == 0);
        }
        r
    }

    /// The number of bound names.
    pub fn len(&self) -> (r: usize)
        requires
            self.wf(),
        ensures
            r == self@.dom().len(),
    {
        proof {
            lemma_map_of_len(self.entries@);
        }
        self.entries.len()
    }

    /// The matrix bound to `name`, if any.
    pub fn get(&self, name: &str) -> (r: Option<&Matrix<S>>)
        requires
            self.wf(),
        ensures
            match r {
                Some(m) => self@.contains_key(name@) && m@ == self@[name@] && m@.wf(),
                None => !self@.contains_key(name@),
            },
    {
        proof {
            lemma_map_of_key(self.entries@, name@);
        }
        let owned: String = name.to_owned();
        let n = self.entries.len();
        let mut i: usize = 0;
        while i < n
            invariant
                self.wf(),
                owned@ == name@,
                n == self.entries@.len(),
                i <= n,
                forall|j: int| 0 <= j < i ==> self.entries@[j].0@ != name@,
            decreases n - i,
        {
            if self.entries[i].0 == owned {
                proof {
                    lemma_map_of_key(self.entries@, name@);
                    assert((self.entries@[i as int].0)@ == name@);
                    assert(has_name(self.entries@, name@));
                    assert(self@[name@] == self.entries@[i as int].1@);
                }
                return Some(&self.entries[i].1);
            }
            i = i + 1;
        }
        proof {
            lemma_map_of_key(self.entries@, name@);
            if self@.contains_key(name@) {
                assert(has_name(self.entries@, name@));
                let w = choose|j: int|
                    0 <= j < self.entries@.len() && (#[trigger] self.entries@[j].0)@ == name@;
                assert(false);
            }
        }
        None
    }

    /// Whether `name` is bound.
    pub fn contains(&self, name: &str) -> (r: bool)
        requires
            self.wf(),
        ensures
            r == self@.contains_key(name@),
    {
        match self.get(name) {
            Some(_) => true,
            None => false,
        }
    }

    /// Binds `name` to `matrix`, replacing any earlier binding.
    pub fn insert(&mut self, name: String, matrix: Matrix<S>)
        requires
            old(self).wf(),
            matrix@.wf(),
        ensures
            final(self).wf(),
            final(self)@ == old(self)@.insert(name@, matrix@),
    {
        let n = self.entries.len();
        let mut i: usize = 0;
        while i < n
            invariant
                self.wf(),
                *self == *old(self),
                matrix@.wf(),
                n == self.entries@.len(),
                i <= n,
                forall|j: int| 0 <= j < i ==> self.entries@[j].0@ != name@,
            decreases n - i,
        {
            if self.entries[i].0 == name {
                let ghost olds = self.entries@;
                self.entries.set(i, (name, matrix));
                proof {
                    assert((olds[i as int].0)@ == name@);
                    lemma_map_of_update(olds, i as int, self.entries@[i as int]);
                    assert(olds == old(self).entries@);
                    assert(self@ == old(self)@.insert(name@, matrix@));
                    assert forall|a: int, b: int|
                        0 <= a < b < self.entries@.len() implies (self.entries@[a].0)@
                        != (self.entries@[b].0)@ by {
                        assert((olds[a].0)@ != (olds[b].0)@);
                    }
                }
                return ;
            }
            i = i + 1;
        }
        let ghost olds = self.entries@;
        self.entries.push((name, matrix));
        proof {
            assert(self.entries@.drop_last() =~= olds);
            assert(self.entries@.drop_last() == olds);
            assert((self.entries@.last().0)@ == name@);
            assert(self@ == old(self)@.insert(name@, matrix@));
            assert forall|a: int, b: int|
                0 <= a < b < self.entries@.len() implies (self.entries@[a].0)@
                != (self.entries@[b].0)@ by {
                if b < self.entries@.len() - 1 {
                    assert((olds[a].0)@ != (olds[b].0)@);
                } else {
                    assert((self.entries@[a].0)@ == (olds[a].0)@);
                    assert((olds[a].0)@ != name@);
                }
            }
        }
    }
}

/// With pairwise-distinct names, the described map binds the name `k`
/// exactly when some entry carries it, and then to that entry's matrix.
proof fn lemma_map_of_key<S>(s: Seq<(String, Matrix<S>)>, k: Seq<char>)
    requires
        forall|i: int, j: int| 0 <= i < j < s.len() ==> s[i].0@ != s[j].0@,
    ensures
        map_of(s).contains_key(k) <==> has_name(s, k),
        forall|i: int| 0 <= i < s.len() && (#[trigger] s[i].0)@ == k ==> map_of(s)[k] == s[i].1@,
    decreases s.len(),
{
    if s.len() > 0 {
        let t = s.drop_last();
        lemma_map_of_key(t, k);
        if k == s.last().0@ {
            assert((s[s.len() - 1].0)@ == k);
            assert(has_name(s, k));
            assert(map_of(s)[k] == s.last().1@);
            assert forall|i: int| 0 <= i < s.len() && (#[trigger] s[i].0)@ == k implies map_of(
                s,
            )[k] == s[i].1@ by {
                if i < s.len() - 1 {
                    assert(s[i].0@ != s[s.len() - 1].0@);
                    assert(false);
                }
            }
        } else {
            assert(map_of(s).contains_key(k) == map_of(t).contains_key(k));
            if has_name(s, k) {
                let w = choose|i: int| 0 <= i < s.len() && (#[trigger] s[i].0)@ == k;
                assert(w < s.len() - 1);
                assert(t[w] == s[w]);
                assert((t[w].0)@ == k);
                assert(has_name(t, k));
            }
            if has_name(t, k) {
                let w = choose|i: int| 0 <= i < t.len() && (#[trigger] t[i].0)@ == k;
                assert(t[w] == s[w]);
                assert((s[w].0)@ == k);
                assert(has_name(s, k));
            }
            assert forall|i: int| 0 <= i < s.len() && (#[trigger] s[i].0)@ == k implies map_of(
                s,
            )[k] == s[i].1@ by {
                assert(i < s.len() - 1);
                assert(t[i] == s[i]);
                assert(map_of(t)[k] == t[i].1@);
            }
        }
    }
}

/// The number of bound names equals the number of entries.
proof fn lemma_map_of_len<S>(s: Seq<(String, Matrix<S>)>)
    requires
        forall|i: int, j: int| 0 <= i < j < s.len() ==> s[i].0@ != s[j].0@,
    ensures
        map_of(s).dom().len() == s.len(),
        map_of(s).dom().finite(),
    decreases s.len(),
{
    if s.len() > 0 {
        lemma_map_of_len(s.drop_last());
        lemma_map_of_key(s.drop_last(), s.last().0@);
        let t = s.drop_last();
        if map_of(t).contains_key(s.last().0@) {
            assert(has_name(t, s.last().0@));
            let w = choose|i: int| 0 <= i < t.len() && (#[trigger] t[i].0)@ == s.last().0@;
            assert(t[w] == s[w]);
            assert((s[w].0)@ != (s[s.len() - 1].0)@);
            assert(false);
        }
        assert(map_of(s).dom() =~= map_of(t).dom().insert(s.last().0@));
    }
}

/// Replacing the entry that holds a name describes the same map as
/// inserting over it.
proof fn lemma_map_of_update<S>(s: Seq<(String, Matrix<S>)>, p: int, e: (String, Matrix<S>))
    requires
        forall|i: int, j: int| 0 <= i < j < s.len() ==> s[i].0@ != s[j].0@,
        0 <= p < s.len(),
        e.0@ == s[p].0@,
    ensures
        map_of(s.update(p, e)) == map_of(s).insert(e.0@, e.1@),
    decreases s.len(),
{
    let t = s.update(p, e);
    if p == s.len() - 1 {
        assert(t.drop_last() =~= s.drop_last());
        assert(map_of(t) =~= map_of(s).insert(e.0@, e.1@));
    } else {
        lemma_map_of_update(s.drop_last(), p, e);
        assert(t.drop_last() =~= s.drop_last().update(p, e));
        assert(t.last() == s.last());
        assert(map_of(t) == map_of(s.drop_last().update(p, e)).insert(s.last().0@, s.last().1@));
        assert(map_of(t) =~= map_of(s).insert(e.0@, e.1@));
    }
}

} // verus!
