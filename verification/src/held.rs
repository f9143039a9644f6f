use vstd::prelude::*;
use vstd::multiset::Multiset;

verus! {

/// The values in the filled slots of `slots`.
pub open spec fn held<T>(slots: Seq<Option<T>>) -> Multiset<T>
    decreases slots.len(),
{
    if slots.len() == 0 {
        Multiset::empty()
    } else {
        match slots.last() {
            Some(value) => held(slots.drop_last()).insert(value),
            None => held(slots.drop_last()),
        }
    }
}

/// Adding a slot at the back adds its value, if it has one.
pub proof fn lemma_held_push<T>(slots: Seq<Option<T>>, slot: Option<T>)
    ensures
        held(slots.push(slot)) == (match slot {
            Some(value) => held(slots).insert(value),
            None => held(slots),
        }),
{
    assert(slots.push(slot).drop_last() =~= slots);
}

/// What two runs of slots hold together is what each holds.
pub proof fn lemma_held_concat<T>(front: Seq<Option<T>>, back: Seq<Option<T>>)
    ensures
        held(front + back) == held(front).add(held(back)),
    decreases back.len(),
{
    if back.len() == 0 {
        assert(front + back =~= front);
        assert(held(front).add(held(back)) =~= held(front));
    } else {
        lemma_held_concat(front, back.drop_last());
        assert((front + back).drop_last() =~= front + back.drop_last());
        assert((front + back).last() == back.last());
        match back.last() {
            Some(value) => {
                assert(held(front).add(held(back.drop_last())).insert(value) =~= held(front).add(
                    held(back.drop_last()).insert(value),
                ));
            },
            None => {},
        }
    }
}

/// What a single slot holds.
pub proof fn lemma_held_one<T>(slot: Option<T>)
    ensures
        held(seq![slot]) == (match slot {
            Some(value) => Multiset::empty().insert(value),
            None => Multiset::empty(),
        }),
{
    reveal_with_fuel(held, 3);
    assert(seq![slot].drop_last() =~= Seq::<Option<T>>::empty());
    assert(seq![slot].last() == slot);
}

/// Two sums of multisets that are equal count every value alike.
pub proof fn lemma_sums_agree<T>(a: Multiset<T>, b: Multiset<T>, c: Multiset<T>, d: Multiset<T>)
    requires
        a.add(b) == c.add(d),
    ensures
        forall|x: T|
            #![trigger a.count(x)]
            #![trigger b.count(x)]
            #![trigger c.count(x)]
            #![trigger d.count(x)]
            a.count(x) + b.count(x) == c.count(x) + d.count(x),
{
    assert forall|x: T|
        #![trigger a.count(x)]
        #![trigger b.count(x)]
        #![trigger c.count(x)]
        #![trigger d.count(x)]
        a.count(x) + b.count(x) == c.count(x) + d.count(x) by {
        assert(a.add(b).count(x) == a.count(x) + b.count(x));
        assert(c.add(d).count(x) == c.count(x) + d.count(x));
    }
}

/// Emptying a slot takes its value, if it has one, out of what is held.
pub proof fn lemma_held_emptied<T>(slots: Seq<Option<T>>, i: int)
    requires
        0 <= i < slots.len(),
    ensures
        held(slots.update(i, None)) == (match slots[i] {
            Some(value) => held(slots).remove(value),
            None => held(slots),
        }),
        slots[i] matches Some(value) ==> held(slots).count(value) > 0,
{
    let front = slots.subrange(0, i);
    let back = slots.subrange(i + 1, slots.len() as int);
    assert(slots =~= front + seq![slots[i]] + back);
    assert(slots.update(i, None) =~= front + seq![None] + back);
    lemma_held_concat(front, seq![slots[i]]);
    lemma_held_concat(front + seq![slots[i]], back);
    lemma_held_concat(front, seq![None]);
    lemma_held_concat(front + seq![None], back);
    lemma_held_one(slots[i]);
    lemma_held_one(None::<T>);
    match slots[i] {
        Some(value) => {
            assert(held(slots.update(i, None)) =~= held(slots).remove(value));
        },
        None => {
            assert(held(slots.update(i, None)) =~= held(slots));
        },
    }
}

/// Slots that are all empty hold nothing.
pub proof fn lemma_held_nothing<T>(slots: Seq<Option<T>>)
    requires
        forall|i: int| 0 <= i < slots.len() ==> (#[trigger] slots[i]) is None,
    ensures
        held(slots) == Multiset::<T>::empty(),
    decreases slots.len(),
{
    if slots.len() > 0 {
        assert(slots.last() is None);
        lemma_held_nothing(slots.drop_last());
    }
}

} // verus!
