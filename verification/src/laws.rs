use vstd::prelude::*;
use vstd::multiset::Multiset;
use crate::calls::{
    appends, call, filled, inserted, prepends, removals, replay, result, results, Call,
};
use crate::action::{Action, Event};
use crate::memory::Memory;
use crate::held::{held, lemma_held_concat, lemma_held_one, lemma_held_push, lemma_sums_agree};

verus! {

/// What `n` removals leave and hand out.
proof fn lemma_removals<T>(before: Seq<T>, n: nat)
    ensures
        replay(before, removals(n)) == (if n < before.len() {
            before.subrange(n as int, before.len() as int)
        } else {
            Seq::empty()
        }),
        results(before, removals(n)) == Seq::new(
            n,
            |i: int|
                if i < before.len() {
                    Some(before[i])
                } else {
                    None
                },
        ),
    decreases n,
{
    let expected = Seq::new(
        n,
        |i: int|
            if i < before.len() {
                Some(before[i])
            } else {
                None
            },
    );
    if n == 0 {
        assert(replay(before, removals::<T>(n)) =~= before.subrange(0, before.len() as int));
        assert(results(before, removals::<T>(n)) =~= expected);
    } else {
        let less = (n - 1) as nat;
        lemma_removals(before, less);
        assert(removals::<T>(n).drop_last() =~= removals::<T>(less));
        assert(removals::<T>(n).last() == Call::<T>::PopFront);
        let left = replay(before, removals(less));
        assert(replay(before, removals(n)) == call(left, Call::PopFront));
        if less < before.len() {
            assert(left.drop_first() =~= (if n < before.len() {
                before.subrange(n as int, before.len() as int)
            } else {
                Seq::empty()
            }));
        }
        assert(results(before, removals(n)) =~= expected);
    }
}

/// What appends leave.
proof fn lemma_appends<T>(before: Seq<T>, values: Seq<T>)
    ensures
        replay(before, appends(values)) == before + values,
    decreases values.len(),
{
    if values.len() == 0 {
        assert(before + values =~= before);
    } else {
        lemma_appends(before, values.drop_last());
        assert(appends(values).drop_last() =~= appends(values.drop_last()));
        assert(appends(values).last() == Call::PushBack(values.last()));
        assert((before + values.drop_last()).push(values.last()) =~= before + values);
    }
}

/// What insertions at the front leave.
proof fn lemma_prepends<T>(before: Seq<T>, values: Seq<T>)
    ensures
        replay(before, prepends(values)) == values.reverse() + before,
    decreases values.len(),
{
    if values.len() == 0 {
        assert(values.reverse() + before =~= before);
    } else {
        lemma_prepends(before, values.drop_last());
        assert(prepends(values).drop_last() =~= prepends(values.drop_last()));
        assert(prepends(values).last() == Call::PushFront(values.last()));
        assert(seq![values.last()] + (values.drop_last().reverse() + before) =~= values.reverse()
            + before);
    }
}

/// First in, first out: values appended to an empty list come out of as
/// many removals in the order in which they went in, and the list is empty
/// again.
pub proof fn law_first_in_first_out<T>(values: Seq<T>)
    ensures
        results(replay(Seq::empty(), appends(values)), removals(values.len())) == filled(values),
        replay(replay(Seq::empty(), appends(values)), removals(values.len())) == Seq::<T>::empty(),
{
    lemma_appends(Seq::empty(), values);
    assert(Seq::<T>::empty() + values =~= values);
    lemma_removals(values, values.len());
    assert(results(values, removals(values.len())) =~= filled(values));
}

/// Last in, first out at the front: values put in front stand in front of
/// what the list held, the latest first, and come out in that order; when
/// the list was empty, one more removal hands out nothing.
pub proof fn law_last_in_first_out_at_head<T>(before: Seq<T>, values: Seq<T>)
    ensures
        replay(before, prepends(values)) == values.reverse() + before,
        results(replay(before, prepends(values)), removals(values.len())) == filled(
            values.reverse(),
        ),
        results(replay(Seq::empty(), prepends(values)), removals(values.len() + 1)) == filled(
            values.reverse(),
        ).push(None),
{
    lemma_prepends(before, values);
    lemma_prepends(Seq::empty(), values);
    lemma_removals(values.reverse() + before, values.len());
    assert(values.reverse() + Seq::<T>::empty() =~= values.reverse());
    lemma_removals(values.reverse(), values.len() + 1);
    assert(results(values.reverse() + before, removals(values.len())) =~= filled(
        values.reverse(),
    ));
    assert(results(values.reverse(), removals(values.len() + 1)) =~= filled(
        values.reverse(),
    ).push(None));
}

/// Removal undoes insertion at the front: it hands out the value just put
/// in and leaves what the list held before.
pub proof fn law_removal_undoes_insertion_at_head<T>(before: Seq<T>, value: T)
    ensures
        result(call(before, Call::PushFront(value)), Call::PopFront) == Some(value),
        call(call(before, Call::PushFront(value)), Call::PopFront) == before,
{
    assert((seq![value] + before).drop_first() =~= before);
}

/// A new list holds nothing: removal hands out nothing and changes nothing.
pub proof fn law_new_list_is_empty<T>()
    ensures
        result(Seq::<T>::empty(), Call::PopFront) is None,
        call(Seq::<T>::empty(), Call::PopFront) == Seq::<T>::empty(),
{
}

/// Nothing is lost and nothing is handed out twice: after any calls, in any
/// order, the values still held together with the values handed out are
/// the values held before together with the values inserted. A removal
/// hands out nothing exactly when nothing is held.
pub proof fn law_nothing_lost_or_duplicated<T>(before: Seq<T>, calls: Seq<Call<T>>)
    ensures
        held(filled(replay(before, calls))).add(held(results(before, calls))) == held(
            filled(before),
        ).add(inserted(calls)),
        held(filled(replay(before, calls))).len() == replay(before, calls).len(),
    decreases calls.len(),
{
    lemma_filled_all(replay(before, calls));
    if calls.len() == 0 {
        assert(held(filled(before)).add(held(Seq::<Option<T>>::empty())) =~= held(
            filled(before),
        ).add(inserted(calls)));
    } else {
        let less = calls.drop_last();
        law_nothing_lost_or_duplicated(before, less);
        let left = replay(before, less);
        let after = replay(before, calls);
        lemma_held_push(results(before, less), result(left, calls.last()));
        lemma_sums_agree(
            held(filled(left)),
            held(results(before, less)),
            held(filled(before)),
            inserted(less),
        );
        match calls.last() {
            Call::PushBack(value) => {
                assert(filled(after) =~= filled(left).push(Some(value)));
                lemma_held_push(filled(left), Some(value));
            },
            Call::PushFront(value) => {
                assert(filled(after) =~= seq![Some(value)] + filled(left));
                lemma_held_concat(seq![Some(value)], filled(left));
                lemma_held_one(Some(value));
            },
            Call::PopFront => {
                if left.len() > 0 {
                    assert(filled(left) =~= seq![Some(left[0])] + filled(after));
                    lemma_held_concat(seq![Some(left[0])], filled(after));
                    lemma_held_one(Some(left[0]));
                }
            },
        }
        assert(held(filled(after)).add(held(results(before, calls))) =~= held(
            filled(before),
        ).add(inserted(calls)));
    }
}

/// Filled slots hold as many values as there are slots.
proof fn lemma_filled_all<T>(values: Seq<T>)
    ensures
        held(filled(values)).len() == values.len(),
    decreases values.len(),
{
    if values.len() > 0 {
        lemma_filled_all(values.drop_last());
        assert(filled(values) =~= filled(values.drop_last()).push(Some(values.last())));
        lemma_held_push(filled(values.drop_last()), Some(values.last()));
    }
}

/// After any calls on a new list, in any order, the number of values held,
/// which is what `len` returns, is the number of values inserted less the
/// number of values handed out.
pub proof fn law_length_at_rest<T>(calls: Seq<Call<T>>)
    ensures
        replay(Seq::<T>::empty(), calls).len() == inserted(calls).len() - held(
            results(Seq::<T>::empty(), calls),
        ).len(),
{
    let empty = Seq::<T>::empty();
    law_nothing_lost_or_duplicated(empty, calls);
    assert(held(filled(empty)) =~= Multiset::empty());
    let a = held(filled(replay(empty, calls)));
    let b = held(results(empty, calls));
    assert(a.add(b) =~= inserted(calls)) by {
        lemma_sums_agree(a, b, held(filled(empty)), inserted(calls));
    }
    assert(a.add(b).len() == a.len() + b.len());
}

/// A list that has been drained has handed out exactly the values that
/// were inserted: where nothing is held after any calls on a new list, the
/// values handed out are the values inserted.
pub proof fn law_drained_list_gave_all<T>(calls: Seq<Call<T>>)
    requires
        replay(Seq::<T>::empty(), calls).len() == 0,
    ensures
        held(results(Seq::<T>::empty(), calls)) == inserted(calls),
{
    let empty = Seq::<T>::empty();
    law_nothing_lost_or_duplicated(empty, calls);
    assert(filled(replay(empty, calls)) =~= Seq::<Option<T>>::empty());
    assert(filled(empty) =~= Seq::<Option<T>>::empty());
    lemma_sums_agree(
        held(filled(replay(empty, calls))),
        held(results(empty, calls)),
        held(filled(empty)),
        inserted(calls),
    );
    assert(held(results(empty, calls)) =~= inserted(calls));
}

/// A compare-and-swap that fails changes nothing: the attempt of an
/// operation that loses a race leaves the list, and what it holds, as it
/// was.
pub proof fn law_failed_swap_changes_nothing<T>(memory: Memory<T>, action: Action)
    requires
        memory.answer(action) == Event::Exchanged(false),
    ensures
        memory.apply(action) == memory,
{
}

} // verus!
