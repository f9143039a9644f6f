use vstd::prelude::*;
use vstd::multiset::Multiset;

verus! {

/// A call of one of the three operations of a list.
pub enum Call<T> {
    /// Append the value at the back.
    PushBack(T),
    /// Put the value in front.
    PushFront(T),
    /// Remove from the front.
    PopFront,
}

/// The values that the insertions among `calls` bring in.
pub open spec fn inserted<T>(calls: Seq<Call<T>>) -> Multiset<T>
    decreases calls.len(),
{
    if calls.len() == 0 {
        Multiset::empty()
    } else {
        match calls.last() {
            Call::PushBack(value) | Call::PushFront(value) => inserted(calls.drop_last()).insert(
                value,
            ),
            Call::PopFront => inserted(calls.drop_last()),
        }
    }
}

/// One append for each of `values`, in their order.
pub open spec fn appends<T>(values: Seq<T>) -> Seq<Call<T>> {
    Seq::new(values.len(), |i: int| Call::PushBack(values[i]))
}

/// One insertion at the front for each of `values`, in their order.
pub open spec fn prepends<T>(values: Seq<T>) -> Seq<Call<T>> {
    Seq::new(values.len(), |i: int| Call::PushFront(values[i]))
}

/// `n` removals.
pub open spec fn removals<T>(n: nat) -> Seq<Call<T>> {
    Seq::new(n, |i: int| Call::PopFront)
}

/// Each of `values` as the content of a filled slot.
pub open spec fn filled<T>(values: Seq<T>) -> Seq<Option<T>> {
    Seq::new(values.len(), |i: int| Some(values[i]))
}

/// The values held after `call` on a list that holds `held`.
pub open spec fn call<T>(held: Seq<T>, call: Call<T>) -> Seq<T> {
    match call {
        Call::PushBack(value) => held.push(value),
        Call::PushFront(value) => seq![value] + held,
        Call::PopFront => if held.len() > 0 {
            held.drop_first()
        } else {
            held
        },
    }
}

/// What `call` returns on a list that holds `held`: the first value for a
/// removal, if there is one; nothing otherwise.
pub open spec fn result<T>(held: Seq<T>, call: Call<T>) -> Option<T> {
    match call {
        Call::PopFront => if held.len() > 0 {
            Some(held[0])
        } else {
            None
        },
        _ => None,
    }
}

/// The values held after `calls`, one after the other.
pub open spec fn replay<T>(held: Seq<T>, calls: Seq<Call<T>>) -> Seq<T>
    decreases calls.len(),
{
    if calls.len() == 0 {
        held
    } else {
        call(replay(held, calls.drop_last()), calls.last())
    }
}

/// What each of `calls` returns when they are made one after the other.
pub open spec fn results<T>(held: Seq<T>, calls: Seq<Call<T>>) -> Seq<Option<T>>
    decreases calls.len(),
{
    if calls.len() == 0 {
        Seq::empty()
    } else {
        results(held, calls.drop_last()).push(
            result(replay(held, calls.drop_last()), calls.last()),
        )
    }
}

} // verus!
