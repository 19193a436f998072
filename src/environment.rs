use vstd::prelude::*;
use crate::expression::{EvalError, Expression};

verus! {

/// Bindings from variable names to expressions. A name has at most one
/// binding; defining it again replaces the earlier one.
pub struct Environment<N> {
    names: Vec<String>,
    values: Vec<Expression<N>>,
    bindings: Ghost<Map<Seq<char>, Expression<N>>>,
}

impl<N> View for Environment<N> {
    type V = Map<Seq<char>, Expression<N>>;

    closed spec fn view(&self) -> Map<Seq<char>, Expression<N>> {
        self.bindings@
    }
}

impl<N> Environment<N> {
    /// The names are pairwise distinct, the `i`-th name is bound to the
    /// `i`-th value, and nothing else is bound.
    pub closed spec fn wf(&self) -> bool {
        &&& self.names@.len() == self.values@.len()
        &&& self.bindings@.dom().finite()
        &&& self.bindings@.dom().len() == self.names@.len()
        &&& forall|i: int, j: int|
            0 <= i < j < self.names@.len() ==> #[trigger] self.names@[i]@ != #[trigger] self.names@[j]@
        &&& forall|i: int|
            0 <= i < self.names@.len() ==> #[trigger] self.bindings@.contains_key(self.names@[i]@)
                && self.bindings@[self.names@[i]@] == self.values@[i]
        &&& forall|k: Seq<char>|
            #[trigger] self.bindings@.contains_key(k) ==> exists|i: int|
                0 <= i < self.names@.len() && #[trigger] self.names@[i]@ == k
    }

    /// The number of bindings.
    pub open spec fn size(&self) -> nat {
        self@.dom().len()
    }

    /// An environment with no bindings.
    pub fn new() -> (r: Self)
        ensures
            r.wf(),
            r@ == Map::<Seq<char>, Expression<N>>::empty(),
    {
        Environment { names: Vec::new(), values: Vec::new(), bindings: Ghost(Map::empty()) }
    }

    /// Where `name` stands among the names, if it is bound.
    fn position(&self, name: &String) -> (r: Option<usize>)
        requires
            self.wf(),
        ensures
            match r {
                Some(i) => i < self.names@.len() && self.names@[i as int]@ == name@,
                None => !self@.contains_key(name@),
            },
    {
        let mut i: usize = 0;
        while i < self.names.len()
            invariant
                self.wf(),
                i <= self.names@.len(),
                forall|j: int| 0 <= j < i ==> self.names@[j]@ != name@,
            decreases self.names@.len() - i,
        {
            if self.names[i] == *name {
                return Some(i);
            }
            i = i + 1;
        }
        None
    }

    /// Binds `name` to `value`, replacing any earlier binding of `name`.
    pub fn define(&mut self, name: String, value: Expression<N>)
        requires
            old(self).wf(),
        ensures
            final(self).wf(),
            final(self)@ == old(self)@.insert(name@, value),
    {
        match self.position(&name) {
            Some(i) => {
                self.values.set(i, value);
                self.bindings = Ghost(self.bindings@.insert(name@, value));
                proof {
                    assert(self.bindings@.dom() =~= old(self).bindings@.dom());
                    assert forall|j: int| 0 <= j < self.names@.len() implies #[trigger] self.bindings@.contains_key(self.names@[j]@)
                        && self.bindings@[self.names@[j]@] == self.values@[j] by {
                        if j != i {
                            if j < i {
                                assert(self.names@[j]@ != self.names@[i as int]@);
                            } else {
                                assert(self.names@[i as int]@ != self.names@[j]@);
                            }
                        }
                    }
                }
            },
            None => {
                proof {
                    assert(old(self).bindings@.dom().insert(name@).len() == old(self).bindings@.dom().len() + 1);
                }
                self.bindings = Ghost(self.bindings@.insert(name@, value));
                let ghost n = old(self).names@.len() as int;
                self.names.push(name);
                self.values.push(value);
                proof {
                    assert forall|j: int| 0 <= j < n implies #[trigger] self.names@[j]@ != name@ by {
                        assert(old(self).bindings@.contains_key(old(self).names@[j]@));
                    }
                    assert forall|j: int, k: int| 0 <= j < k < self.names@.len() implies #[trigger] self.names@[j]@ != #[trigger] self.names@[k]@ by {
                        if k < n {
                            assert(old(self).names@[j]@ != old(self).names@[k]@);
                        }
                    }
                    assert forall|j: int| 0 <= j < self.names@.len() implies #[trigger] self.bindings@.contains_key(self.names@[j]@)
                        && self.bindings@[self.names@[j]@] == self.values@[j] by {
                        if j < n {
                            assert(old(self).bindings@.contains_key(old(self).names@[j]@));
                        }
                    }
                    assert forall|k: Seq<char>| #[trigger] self.bindings@.contains_key(k) implies exists|j: int|
                        0 <= j < self.names@.len() && #[trigger] self.names@[j]@ == k by {
                        if k == name@ {
                            assert(self.names@[n]@ == k);
                        } else {
                            let j = choose|j: int| 0 <= j < n && #[trigger] old(self).names@[j]@ == k;
                            assert(self.names@[j]@ == k);
                        }
                    }
                }
            },
        }
    }

    /// The expression bound to `name`, unevaluated.
    pub fn resolve(&self, name: &String) -> (r: Result<&Expression<N>, EvalError>)
        requires
            self.wf(),
        ensures
            self@.contains_key(name@) <==> r is Ok,
            r matches Ok(e) ==> *e == self@[name@],
            r matches Err(err) ==> err == EvalError::UndefinedVariable,
    {
        match self.position(name) {
            Some(i) => {
                proof {
                    assert(self.bindings@.contains_key(self.names@[i as int]@));
                }
                Ok(&self.values[i])
            },
            None => Err(EvalError::UndefinedVariable),
        }
    }

    /// Finitely many names are bound.
    pub proof fn lemma_finite(&self)
        requires
            self.wf(),
        ensures
            self@.dom().finite(),
    {
    }

    /// The number of bindings.
    pub fn len(&self) -> (r: usize)
        requires
            self.wf(),
        ensures
            r == self.size(),
    {
        self.names.len()
    }
}


impl<N> Default for Environment<N> {
    /// An environment with no bindings.
    fn default() -> (r: Self)
        ensures
            r.wf(),
            r@ == Map::<Seq<char>, Expression<N>>::empty(),
    {
        Environment::new()
    }
}

/// Defining a name with `a` and then with `b` leaves the same bindings as
/// defining it with `b` alone: the name resolves to `b`, never to `a`.
pub proof fn lemma_redefinition<N>(environment: Environment<N>, name: Seq<char>, a: Expression<N>, b: Expression<N>)
    ensures
        environment@.insert(name, a).insert(name, b) == environment@.insert(name, b),
        environment@.insert(name, a).insert(name, b)[name] == b,
{
    assert(environment@.insert(name, a).insert(name, b) =~= environment@.insert(name, b));
}

} // verus!
