//! Items that actors can carry: an attack, a defense, a passive effect and
//! an effect on use, each optional.
use vstd::prelude::*;

verus! {

pub trait Effect {

}

pub trait Attack {

}

pub trait Defense {

}

pub struct Item<A, D, P, U> where A: Attack, D: Defense + Effect, P: Effect {
    attack: Option<A>,
    defense: Option<D>,
    passive: Option<P>,
    use_effect: Option<U>,
}

} // verus!
