use vstd::prelude::*;
use crate::environment::Environment;
use crate::expression::{same_all, EvalError, Expression, Resolved};

verus! {

/// The first failure met when resolving `e` under `env`, depth first and left
/// to right, with at most `depth` variable lookups nested below this point;
/// `None` when resolution succeeds.
pub open spec fn failure<N>(e: Expression<N>, env: Map<Seq<char>, Expression<N>>, depth: nat) -> Option<EvalError>
    decreases depth, e,
{
    match e {
        Expression::Add(cs) => failure_of_all(cs@, env, depth),
        Expression::Multiply(cs) => failure_of_all(cs@, env, depth),
        Expression::Subtract(cs) => if cs@.len() == 0 {
            Some(EvalError::MalformedExpression)
        } else {
            failure_of_all(cs@, env, depth)
        },
        Expression::Variable(name) => if !env.contains_key(name@) {
            Some(EvalError::UndefinedVariable)
        } else if depth == 0 {
            Some(EvalError::ResolutionCycle)
        } else {
            failure(env[name@], env, (depth - 1) as nat)
        },
        Expression::Number(_) => None,
    }
}

/// The first failure met when resolving the expressions of `es` in order.
pub open spec fn failure_of_all<N>(es: Seq<Expression<N>>, env: Map<Seq<char>, Expression<N>>, depth: nat) -> Option<EvalError>
    decreases depth, es,
{
    if es.len() == 0 {
        None
    } else {
        match failure(es[0], env, depth) {
            Some(err) => Some(err),
            None => failure_of_all(es.drop_first(), env, depth),
        }
    }
}

/// `r` is `e` with each variable replaced, recursively, by its binding in
/// `env`, with at most `depth` lookups nested below this point.
pub open spec fn resolves_to<N>(e: Expression<N>, env: Map<Seq<char>, Expression<N>>, depth: nat, r: Resolved<N>) -> bool
    decreases depth, e,
{
    match e {
        Expression::Add(cs) => r matches Resolved::Add(rs) && all_resolve_to(cs@, env, depth, rs@),
        Expression::Multiply(cs) => r matches Resolved::Multiply(rs) && all_resolve_to(cs@, env, depth, rs@),
        Expression::Subtract(cs) => {
            &&& cs@.len() > 0
            &&& r matches Resolved::Subtract(first, rest)
            &&& resolves_to(cs@[0], env, depth, *first)
            &&& all_resolve_to(cs@.drop_first(), env, depth, rest@)
        },
        Expression::Variable(name) => {
            &&& env.contains_key(name@)
            &&& depth > 0
            &&& resolves_to(env[name@], env, (depth - 1) as nat, r)
        },
        Expression::Number(v) => r == Resolved::Number(v),
    }
}

/// Each expression of `es` resolves to the tree at the same place in `rs`.
pub open spec fn all_resolve_to<N>(es: Seq<Expression<N>>, env: Map<Seq<char>, Expression<N>>, depth: nat, rs: Seq<Resolved<N>>) -> bool
    decreases depth, es,
{
    &&& es.len() == rs.len()
    &&& forall|i: int| 0 <= i < es.len() ==> resolves_to(#[trigger] es[i], env, depth, rs[i])
}

/// `r` is the outcome of resolving `e` under `env` with `depth` lookups left:
/// the first failure if there is one, else the resolved tree.
pub open spec fn resolution<N>(e: Expression<N>, env: Map<Seq<char>, Expression<N>>, depth: nat, r: Result<Resolved<N>, EvalError>) -> bool {
    match r {
        Ok(t) => failure(e, env, depth) is None && resolves_to(e, env, depth, t),
        Err(err) => failure(e, env, depth) == Some(err),
    }
}


/// Resolves the expressions of `cs` from index `start` on, in order, stopping
/// at the first failure.
fn resolve_all<N: Copy>(cs: &Vec<Expression<N>>, start: usize, env: &Environment<N>, depth: usize) -> (r: Result<Vec<Resolved<N>>, EvalError>)
    requires
        env.wf(),
        start <= cs@.len(),
    ensures
        match r {
            Ok(rs) => failure_of_all(cs@.subrange(start as int, cs@.len() as int), env@, depth as nat) is None
                && all_resolve_to(cs@.subrange(start as int, cs@.len() as int), env@, depth as nat, rs@),
            Err(err) => failure_of_all(cs@.subrange(start as int, cs@.len() as int), env@, depth as nat) == Some(err),
        },
    decreases depth, *cs, 0nat,
{
    let ghost whole = cs@.subrange(start as int, cs@.len() as int);
    let mut rs: Vec<Resolved<N>> = Vec::new();
    let mut i: usize = start;
    while i < cs.len()
        invariant
            env.wf(),
            start <= i <= cs@.len(),
            whole == cs@.subrange(start as int, cs@.len() as int),
            failure_of_all(whole, env@, depth as nat) == failure_of_all(cs@.subrange(i as int, cs@.len() as int), env@, depth as nat),
            rs@.len() == i - start,
            forall|j: int| 0 <= j < i - start ==> resolves_to(#[trigger] whole[j], env@, depth as nat, rs@[j]),
        decreases cs@.len() - i,
    {
        let ghost rest = cs@.subrange(i as int, cs@.len() as int);
        assert(rest[0] == cs@[i as int]);
        assert(rest.drop_first() =~= cs@.subrange(i + 1, cs@.len() as int));
        match resolve_at(&cs[i], env, depth) {
            Ok(t) => {
                rs.push(t);
            },
            Err(err) => {
                return Err(err);
            },
        }
        i = i + 1;
    }
    assert(cs@.subrange(i as int, cs@.len() as int).len() == 0);
    Ok(rs)
}

/// Resolves `e` with at most `depth` variable lookups nested below it.
fn resolve_at<N: Copy>(e: &Expression<N>, env: &Environment<N>, depth: usize) -> (r: Result<Resolved<N>, EvalError>)
    requires
        env.wf(),
    ensures
        resolution(*e, env@, depth as nat, r),
    decreases depth, *e, 1nat,
{
    match e {
        Expression::Add(cs) => {
            let r = resolve_all(cs, 0, env, depth);
            assert(cs@.subrange(0, cs@.len() as int) =~= cs@);
            match r {
                Ok(rs) => Ok(Resolved::Add(rs)),
                Err(err) => Err(err),
            }
        },
        Expression::Multiply(cs) => {
            let r = resolve_all(cs, 0, env, depth);
            assert(cs@.subrange(0, cs@.len() as int) =~= cs@);
            match r {
                Ok(rs) => Ok(Resolved::Multiply(rs)),
                Err(err) => Err(err),
            }
        },
        Expression::Subtract(cs) => {
            if cs.len() == 0 {
                return Err(EvalError::MalformedExpression);
            }
            assert(cs@.subrange(1, cs@.len() as int) =~= cs@.drop_first());
            assert(failure(*e, env@, depth as nat) == failure_of_all(cs@, env@, depth as nat));
            match resolve_at(&cs[0], env, depth) {
                Ok(first) => {
                    match resolve_all(cs, 1, env, depth) {
                        Ok(rest) => Ok(Resolved::Subtract(Box::new(first), rest)),
                        Err(err) => Err(err),
                    }
                },
                Err(err) => Err(err),
            }
        },
        Expression::Variable(name) => {
            match env.resolve(name) {
                Ok(bound) => {
                    if depth == 0 {
                        Err(EvalError::ResolutionCycle)
                    } else {
                        resolve_at(bound, env, depth - 1)
                    }
                },
                Err(err) => Err(err),
            }
        },
        Expression::Number(v) => Ok(Resolved::Number(*v)),
    }
}


/// Resolves `expression` under `environment`: every variable is replaced by
/// its binding, recursively, and every subtraction is checked to have a first
/// operand. Lookups nested deeper than the number of bindings can only come
/// from a name bound, directly or through others, to itself; they fail with
/// `ResolutionCycle`. The first failure met, depth first and left to right,
/// is returned.
pub fn resolve_expression<N: Copy>(expression: &Expression<N>, environment: &Environment<N>) -> (r: Result<Resolved<N>, EvalError>)
    requires
        environment.wf(),
    ensures
        resolution(*expression, environment@, environment.size(), r),
{
    resolve_at(expression, environment, environment.len())
}

/// Resolves an addition; any other kind of expression is malformed here.
pub fn resolve_addition<N: Copy>(add: &Expression<N>, environment: &Environment<N>) -> (r: Result<Resolved<N>, EvalError>)
    requires
        environment.wf(),
    ensures
        add is Add ==> resolution(*add, environment@, environment.size(), r),
        !(add is Add) ==> r == Err::<Resolved<N>, EvalError>(EvalError::MalformedExpression),
{
    match add {
        Expression::Add(_) => resolve_expression(add, environment),
        _ => Err(EvalError::MalformedExpression),
    }
}

/// Resolves a multiplication; any other kind of expression is malformed here.
pub fn resolve_multiplication<N: Copy>(mult: &Expression<N>, environment: &Environment<N>) -> (r: Result<Resolved<N>, EvalError>)
    requires
        environment.wf(),
    ensures
        mult is Multiply ==> resolution(*mult, environment@, environment.size(), r),
        !(mult is Multiply) ==> r == Err::<Resolved<N>, EvalError>(EvalError::MalformedExpression),
{
    match mult {
        Expression::Multiply(_) => resolve_expression(mult, environment),
        _ => Err(EvalError::MalformedExpression),
    }
}

/// Resolves a subtraction; any other kind of expression, or a subtraction
/// without operands, is malformed here.
pub fn resolve_subtraction<N: Copy>(sub: &Expression<N>, environment: &Environment<N>) -> (r: Result<Resolved<N>, EvalError>)
    requires
        environment.wf(),
    ensures
        sub is Subtract ==> resolution(*sub, environment@, environment.size(), r),
        !(sub is Subtract) ==> r == Err::<Resolved<N>, EvalError>(EvalError::MalformedExpression),
{
    match sub {
        Expression::Subtract(_) => resolve_expression(sub, environment),
        _ => Err(EvalError::MalformedExpression),
    }
}


/// A subtraction with a single operand `x` fails exactly when `x` does, and
/// otherwise resolves to the tree of `x` with nothing subtracted from it.
pub proof fn lemma_single_operand_subtraction<N>(e: Expression<N>, x: Expression<N>, environment: Environment<N>)
    requires
        e matches Expression::Subtract(cs) && cs@ == seq![x],
    ensures
        failure(e, environment@, environment.size()) == failure(x, environment@, environment.size()),
        forall|t: Resolved<N>|
            resolves_to(e, environment@, environment.size(), t) <==> (t matches Resolved::Subtract(first, rest)
                && rest@.len() == 0 && resolves_to(x, environment@, environment.size(), *first)),
{
    let env = environment@;
    let depth = environment.size();
    let cs = e->Subtract_0@;
    assert(cs[0] == x);
    assert(cs.drop_first() =~= Seq::<Expression<N>>::empty());
    assert(failure_of_all(cs.drop_first(), env, depth) is None);
    assert(failure_of_all(cs, env, depth) == failure(x, env, depth));
    assert(failure(e, env, depth) == failure_of_all(cs, env, depth));
    assert forall|t: Resolved<N>|
        resolves_to(e, env, depth, t) <==> (t matches Resolved::Subtract(first, rest) && rest@.len() == 0
            && resolves_to(x, env, depth, *first)) by {
        if t is Subtract {
            let rest = t->Subtract_1@;
            if rest.len() == 0 {
                assert(all_resolve_to(cs.drop_first(), env, depth, rest));
            }
            assert(resolves_to(e, env, depth, t) == (resolves_to(x, env, depth, *t->Subtract_0)
                && all_resolve_to(cs.drop_first(), env, depth, rest)));
        } else {
            assert(!resolves_to(e, env, depth, t));
        }
    }
}


/// `e` mentions the variable `x` somewhere in its tree.
pub open spec fn mentions<N>(e: Expression<N>, x: Seq<char>) -> bool
    decreases e,
{
    match e {
        Expression::Add(cs) => exists|i: int| 0 <= i < cs@.len() && mentions(#[trigger] cs@[i], x),
        Expression::Multiply(cs) => exists|i: int| 0 <= i < cs@.len() && mentions(#[trigger] cs@[i], x),
        Expression::Subtract(cs) => exists|i: int| 0 <= i < cs@.len() && mentions(#[trigger] cs@[i], x),
        Expression::Variable(name) => name@ == x,
        Expression::Number(_) => false,
    }
}

/// Each name of `p` is bound in `env`, and the binding of each mentions the
/// next one.
pub open spec fn is_lookup_chain<N>(env: Map<Seq<char>, Expression<N>>, p: Seq<Seq<char>>) -> bool {
    &&& forall|i: int| 0 <= i < p.len() ==> env.contains_key(#[trigger] p[i])
    &&& forall|i: int| 0 <= i < p.len() - 1 ==> mentions(env[#[trigger] p[i]], p[i + 1])
}

/// Some name of `env` leads back to itself through the bindings.
pub open spec fn has_cycle<N>(env: Map<Seq<char>, Expression<N>>) -> bool {
    exists|p: Seq<Seq<char>>, i: int, j: int|
        is_lookup_chain(env, p) && 0 <= i < j < p.len() && #[trigger] p[i] == #[trigger] p[j]
}

proof fn lemma_first_failure_is_some_child<N>(es: Seq<Expression<N>>, env: Map<Seq<char>, Expression<N>>, depth: nat)
    requires
        failure_of_all(es, env, depth) is Some,
    ensures
        exists|i: int| 0 <= i < es.len() && failure(#[trigger] es[i], env, depth) == failure_of_all(es, env, depth),
    decreases es.len(),
{
    if failure(es[0], env, depth) is None {
        lemma_first_failure_is_some_child(es.drop_first(), env, depth);
        let i = choose|i: int| 0 <= i < es.drop_first().len()
            && failure(#[trigger] es.drop_first()[i], env, depth) == failure_of_all(es.drop_first(), env, depth);
        assert(es[i + 1] == es.drop_first()[i]);
    }
}

proof fn lemma_cycle_along<N>(e: Expression<N>, env: Map<Seq<char>, Expression<N>>, depth: nat, p: Seq<Seq<char>>)
    requires
        env.dom().finite(),
        failure(e, env, depth) == Some(EvalError::ResolutionCycle),
        p.len() + depth == env.dom().len(),
        is_lookup_chain(env, p),
        p.len() > 0 ==> forall|x: Seq<char>| mentions(e, x) ==> mentions(env[p.last()], x),
    ensures
        has_cycle(env),
    decreases depth, e, 1nat,
{
    match e {
        Expression::Add(cs) => lemma_cycle_in_children(e, cs@, env, depth, p),
        Expression::Multiply(cs) => lemma_cycle_in_children(e, cs@, env, depth, p),
        Expression::Subtract(cs) => lemma_cycle_in_children(e, cs@, env, depth, p),
        Expression::Variable(name) => {
            let x = name@;
            let q = p.push(x);
            assert(mentions(e, x));
            assert(is_lookup_chain(env, q)) by {
                assert forall|i: int| 0 <= i < q.len() - 1 implies mentions(env[#[trigger] q[i]], q[i + 1]) by {
                    if i < p.len() - 1 {
                        assert(q[i] == p[i] && q[i + 1] == p[i + 1]);
                    } else {
                        assert(q[i] == p.last());
                    }
                }
            }
            if depth == 0 {
                if q.no_duplicates() {
                    q.unique_seq_to_set();
                    assert(q.to_set().subset_of(env.dom()));
                    vstd::set_lib::lemma_len_subset(q.to_set(), env.dom());
                }
                let (i, j) = choose|i: int, j: int| 0 <= i < q.len() && 0 <= j < q.len() && i != j && q[i] == q[j];
                if i < j {
                    assert(is_lookup_chain(env, q) && 0 <= i < j < q.len() && q[i] == q[j]);
                } else {
                    assert(is_lookup_chain(env, q) && 0 <= j < i < q.len() && q[j] == q[i]);
                }
            } else {
                lemma_cycle_along(env[x], env, (depth - 1) as nat, q);
            }
        },
        Expression::Number(_) => {},
    }
}

proof fn lemma_cycle_in_children<N>(e: Expression<N>, cs: Seq<Expression<N>>, env: Map<Seq<char>, Expression<N>>, depth: nat, p: Seq<Seq<char>>)
    requires
        env.dom().finite(),
        (e matches Expression::Add(v) && v@ == cs) || (e matches Expression::Multiply(v) && v@ == cs)
            || (e matches Expression::Subtract(v) && v@ == cs),
        failure_of_all(cs, env, depth) == Some(EvalError::ResolutionCycle),
        p.len() + depth == env.dom().len(),
        is_lookup_chain(env, p),
        p.len() > 0 ==> forall|x: Seq<char>| mentions(e, x) ==> mentions(env[p.last()], x),
    ensures
        has_cycle(env),
    decreases depth, e, 0nat,
{
    lemma_first_failure_is_some_child(cs, env, depth);
    let i = choose|i: int| 0 <= i < cs.len() && failure(#[trigger] cs[i], env, depth) == failure_of_all(cs, env, depth);
    if p.len() > 0 {
        assert forall|x: Seq<char>| mentions(cs[i], x) implies mentions(env[p.last()], x) by {
            assert(mentions(e, x));
        }
    }
    lemma_cycle_along(cs[i], env, depth, p);
}

/// Resolution fails with `ResolutionCycle` only where the environment truly
/// holds a cycle: a chain of bindings, each mentioning the next, that comes
/// back to a name it has passed.
pub proof fn lemma_cycle_error_means_cycle<N>(e: Expression<N>, environment: Environment<N>)
    requires
        environment.wf(),
        failure(e, environment@, environment.size()) == Some(EvalError::ResolutionCycle),
    ensures
        has_cycle(environment@),
{
    environment.lemma_finite();
    lemma_cycle_along(e, environment@, environment.size(), Seq::empty());
}


/// Two copies of one tree resolve alike: the same failure, or the same
/// resolved trees.
pub proof fn lemma_same_tree_resolves_alike<N>(a: Expression<N>, b: Expression<N>, env: Map<Seq<char>, Expression<N>>, depth: nat)
    requires
        a.same_as(&b),
    ensures
        failure(a, env, depth) == failure(b, env, depth),
        forall|t: Resolved<N>| resolves_to(a, env, depth, t) <==> resolves_to(b, env, depth, t),
    decreases depth, a, 1nat,
{
    match a {
        Expression::Add(cs) => {
            lemma_same_trees_resolve_alike(cs@, b->Add_0@, env, depth);
            assert forall|t: Resolved<N>| resolves_to(a, env, depth, t) <==> resolves_to(b, env, depth, t) by {
                if t is Add {
                    assert(all_resolve_to(cs@, env, depth, t->Add_0@) <==> all_resolve_to(b->Add_0@, env, depth, t->Add_0@));
                }
            }
        },
        Expression::Multiply(cs) => {
            lemma_same_trees_resolve_alike(cs@, b->Multiply_0@, env, depth);
            assert forall|t: Resolved<N>| resolves_to(a, env, depth, t) <==> resolves_to(b, env, depth, t) by {
                if t is Multiply {
                    assert(all_resolve_to(cs@, env, depth, t->Multiply_0@) <==> all_resolve_to(b->Multiply_0@, env, depth, t->Multiply_0@));
                }
            }
        },
        Expression::Subtract(cs) => {
            let ds = b->Subtract_0@;
            lemma_same_trees_resolve_alike(cs@, ds, env, depth);
            if cs@.len() > 0 {
                lemma_same_tree_resolves_alike(cs@[0], ds[0], env, depth);
                lemma_same_trees_resolve_alike(cs@.drop_first(), ds.drop_first(), env, depth);
                assert forall|t: Resolved<N>| resolves_to(a, env, depth, t) <==> resolves_to(b, env, depth, t) by {
                    if t is Subtract {
                        assert(resolves_to(cs@[0], env, depth, *t->Subtract_0) <==> resolves_to(ds[0], env, depth, *t->Subtract_0));
                        assert(all_resolve_to(cs@.drop_first(), env, depth, t->Subtract_1@)
                            <==> all_resolve_to(ds.drop_first(), env, depth, t->Subtract_1@));
                    }
                }
            }
        },
        Expression::Variable(name) => {
            assert(b == Expression::<N>::Variable(b->Variable_0));
        },
        Expression::Number(_) => {},
    }
}

/// Pairwise copies of trees resolve alike, one after another.
pub proof fn lemma_same_trees_resolve_alike<N>(cs: Seq<Expression<N>>, ds: Seq<Expression<N>>, env: Map<Seq<char>, Expression<N>>, depth: nat)
    requires
        same_all(cs, ds),
    ensures
        failure_of_all(cs, env, depth) == failure_of_all(ds, env, depth),
        forall|rs: Seq<Resolved<N>>| all_resolve_to(cs, env, depth, rs) <==> all_resolve_to(ds, env, depth, rs),
    decreases depth, cs, 0nat,
{
    if cs.len() > 0 {
        assert(cs[0].same_as(&ds[0]));
        lemma_same_tree_resolves_alike(cs[0], ds[0], env, depth);
        assert(same_all(cs.drop_first(), ds.drop_first())) by {
            assert forall|i: int| 0 <= i < cs.drop_first().len() implies (#[trigger] cs.drop_first()[i]).same_as(&ds.drop_first()[i]) by {
                assert(cs[i + 1].same_as(&ds[i + 1]));
            }
        }
        lemma_same_trees_resolve_alike(cs.drop_first(), ds.drop_first(), env, depth);
    }
    assert forall|rs: Seq<Resolved<N>>| all_resolve_to(cs, env, depth, rs) <==> all_resolve_to(ds, env, depth, rs) by {
        if all_resolve_to(ds, env, depth, rs) {
            assert forall|i: int| 0 <= i < cs.len() implies resolves_to(#[trigger] cs[i], env, depth, rs[i]) by {
                assert(resolves_to(ds[i], env, depth, rs[i]));
                assert(cs[i].same_as(&ds[i]));
                lemma_same_tree_resolves_alike(cs[i], ds[i], env, depth);
            }
        }
        if all_resolve_to(cs, env, depth, rs) {
            assert forall|i: int| 0 <= i < ds.len() implies resolves_to(#[trigger] ds[i], env, depth, rs[i]) by {
                assert(resolves_to(cs[i], env, depth, rs[i]));
                assert(cs[i].same_as(&ds[i]));
                lemma_same_tree_resolves_alike(cs[i], ds[i], env, depth);
            }
        }
    }
}

} // verus!
