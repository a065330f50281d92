//! Lists of things that may be there.
use vstd::prelude::*;

verus! {

/// What is there among things that may be there, in their order.
pub open spec fn present<T>(things: Seq<Option<T>>) -> Seq<T>
    decreases things.len(),
{
    if things.len() == 0 {
        Seq::empty()
    } else {
        match things.last() {
            Some(thing) => present(things.drop_last()).push(thing),
            None => present(things.drop_last()),
        }
    }
}

/// A list that begins with a thing gives the thing and then the rest.
pub proof fn lemma_present_front<T>(first: Option<T>, rest: Seq<Option<T>>)
    ensures
        present(seq![first] + rest) == (match first {
            Some(thing) => seq![thing] + present(rest),
            None => present(rest),
        }),
    decreases rest.len(),
{
    reveal_with_fuel(present, 2);
    let all = seq![first] + rest;
    if rest.len() == 0 {
        assert(all.drop_last() =~= Seq::<Option<T>>::empty());
        assert(present(all) =~= (match first {
            Some(thing) => seq![thing] + present(rest),
            None => present(rest),
        }));
    } else {
        assert(all.drop_last() =~= seq![first] + rest.drop_last());
        assert(all.last() == rest.last());
        lemma_present_front(first, rest.drop_last());
        assert(present(all) =~= (match first {
            Some(thing) => seq![thing] + present(rest),
            None => present(rest),
        }));
    }
}

} // verus!
