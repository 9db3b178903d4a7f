use vstd::prelude::*;

verus! {

/// The traversal sequence after a push at the back: the new value is met first.
pub open spec fn pushed_back<A>(s: Seq<A>, v: A) -> Seq<A> {
    seq![v] + s
}

/// The traversal sequence after a push at the front: the new value is met last.
pub open spec fn pushed_front<A>(s: Seq<A>, v: A) -> Seq<A> {
    s.push(v)
}

/// What stands at the back of a traversal sequence: the item met first.
pub open spec fn back<A>(s: Seq<A>) -> Option<A> {
    if s.len() == 0 {
        None
    } else {
        Some(s.first())
    }
}

/// What stands at the front of a traversal sequence: the item met last.
pub open spec fn front<A>(s: Seq<A>) -> Option<A> {
    if s.len() == 0 {
        None
    } else {
        Some(s.last())
    }
}

/// The traversal sequence after a pop at the back; an empty one stays empty.
pub open spec fn popped_back<A>(s: Seq<A>) -> Seq<A> {
    if s.len() == 0 {
        s
    } else {
        s.drop_first()
    }
}

/// The traversal sequence after a pop at the front; an empty one stays empty.
pub open spec fn popped_front<A>(s: Seq<A>) -> Seq<A> {
    if s.len() == 0 {
        s
    } else {
        s.drop_last()
    }
}

/// The traversal sequence after the values of `vs` were pushed at the back one
/// by one, `vs[0]` first.
pub open spec fn pushed_back_all<A>(s: Seq<A>, vs: Seq<A>) -> Seq<A>
    decreases vs.len(),
{
    if vs.len() == 0 {
        s
    } else {
        pushed_back(pushed_back_all(s, vs.drop_last()), vs.last())
    }
}

/// The traversal sequence after the values of `vs` were pushed at the front
/// one by one, `vs[0]` first.
pub open spec fn pushed_front_all<A>(s: Seq<A>, vs: Seq<A>) -> Seq<A>
    decreases vs.len(),
{
    if vs.len() == 0 {
        s
    } else {
        pushed_front(pushed_front_all(s, vs.drop_last()), vs.last())
    }
}

/// The values that `n` pops at the back hand out, in the order in which they
/// come; the pops that find nothing add nothing.
pub open spec fn backs<A>(s: Seq<A>, n: nat) -> Seq<A>
    decreases n,
{
    if n == 0 || s.len() == 0 {
        Seq::empty()
    } else {
        seq![s.first()] + backs(popped_back(s), (n - 1) as nat)
    }
}

/// The values that `n` pops at the front hand out, in the order in which they
/// come; the pops that find nothing add nothing.
pub open spec fn fronts<A>(s: Seq<A>, n: nat) -> Seq<A>
    decreases n,
{
    if n == 0 || s.len() == 0 {
        Seq::empty()
    } else {
        seq![s.last()] + fronts(popped_front(s), (n - 1) as nat)
    }
}

/// The traversal sequence after `n` pops at the back.
pub open spec fn popped_back_times<A>(s: Seq<A>, n: nat) -> Seq<A>
    decreases n,
{
    if n == 0 {
        s
    } else {
        popped_back_times(popped_back(s), (n - 1) as nat)
    }
}

/// The traversal sequence after `n` pops at the front.
pub open spec fn popped_front_times<A>(s: Seq<A>, n: nat) -> Seq<A>
    decreases n,
{
    if n == 0 {
        s
    } else {
        popped_front_times(popped_front(s), (n - 1) as nat)
    }
}

/// A push at the back followed at once by a pop at the back hands the pushed
/// value out again and leaves the sequence as it was.
pub proof fn push_back_then_pop_back<A>(s: Seq<A>, v: A)
    ensures
        back(pushed_back(s, v)) == Some(v),
        popped_back(pushed_back(s, v)) == s,
{
    assert(pushed_back(s, v).drop_first() =~= s);
}

/// A push at the front followed at once by a pop at the front hands the
/// pushed value out again and leaves the sequence as it was.
pub proof fn push_front_then_pop_front<A>(s: Seq<A>, v: A)
    ensures
        front(pushed_front(s, v)) == Some(v),
        popped_front(pushed_front(s, v)) == s,
{
    assert(pushed_front(s, v).drop_last() =~= s);
}

/// The back is a stack: after the values of `vs` were pushed there, as many
/// pops at the back hand them out last pushed first, and leave the sequence as
/// it was before the pushes.
pub proof fn back_is_last_in_first_out<A>(s: Seq<A>, vs: Seq<A>)
    ensures
        backs(pushed_back_all(s, vs), vs.len()) == vs.reverse(),
        popped_back_times(pushed_back_all(s, vs), vs.len()) == s,
    decreases vs.len(),
{
    if vs.len() == 0 {
        assert(vs.reverse() =~= Seq::<A>::empty());
    } else {
        let rest = vs.drop_last();
        let inner = pushed_back_all(s, rest);
        back_is_last_in_first_out(s, rest);
        push_back_then_pop_back(inner, vs.last());
        assert(vs.reverse() =~= seq![vs.last()] + rest.reverse());
    }
}

/// The front is a stack: after the values of `vs` were pushed there, as many
/// pops at the front hand them out last pushed first, and leave the sequence
/// as it was before the pushes.
pub proof fn front_is_last_in_first_out<A>(s: Seq<A>, vs: Seq<A>)
    ensures
        fronts(pushed_front_all(s, vs), vs.len()) == vs.reverse(),
        popped_front_times(pushed_front_all(s, vs), vs.len()) == s,
    decreases vs.len(),
{
    if vs.len() == 0 {
        assert(vs.reverse() =~= Seq::<A>::empty());
    } else {
        let rest = vs.drop_last();
        let inner = pushed_front_all(s, rest);
        front_is_last_in_first_out(s, rest);
        push_front_then_pop_front(inner, vs.last());
        assert(vs.reverse() =~= seq![vs.last()] + rest.reverse());
    }
}

/// Pushes and pops at the two ends do not disturb each other: done in either
/// order they leave the same sequence, so a walk cannot tell which came first.
/// A pop commutes with a push at the other end only where it finds a value
/// that was there before the push.
pub proof fn ends_commute<A>(s: Seq<A>, a: A, b: A)
    ensures
        pushed_back(pushed_front(s, a), b) == pushed_front(pushed_back(s, b), a),
        popped_back(popped_front(s)) == popped_front(popped_back(s)),
        s.len() > 0 ==> popped_back(pushed_front(s, a)) == pushed_front(popped_back(s), a),
        s.len() > 0 ==> back(pushed_front(s, a)) == back(s),
        s.len() > 0 ==> popped_front(pushed_back(s, b)) == pushed_back(popped_front(s), b),
        s.len() > 0 ==> front(pushed_back(s, b)) == front(s),
{
    assert(pushed_back(pushed_front(s, a), b) =~= pushed_front(pushed_back(s, b), a));
    assert(popped_back(popped_front(s)) =~= popped_front(popped_back(s)));
    if s.len() > 0 {
        assert(popped_back(pushed_front(s, a)) =~= pushed_front(popped_back(s), a));
        assert(popped_front(pushed_back(s, b)) =~= pushed_back(popped_front(s), b));
    }
}

} // verus!
