//! What a request to notify listeners asks for, however it is put together.

use crate::laws::{additional_reaches_more, plain_reaches_enough};
use crate::notify::{
    carried_out, Additional, GenericNotify, IntoNotification, Notification, OneTag, Relaxed, Tag,
    TagProducer, TagWith,
};
use crate::roster::{notified_count, pending_count, Roster};
use vstd::prelude::*;

verus! {

/// A number stands for a plain notification of that many listeners.
pub proof fn number_asks_for_that_many(n: usize)
    ensures
        n.is_valid(),
        n.notification().asks() == n,
        !n.notification().wants_additional(),
        n.notification().wants_fence(),
{
}

/// An integer stands for a plain notification of that many listeners, unless it
/// is negative: then it stands for none.
pub proof fn integer_asks_for_that_many(n: i32)
    ensures
        n.is_valid() <==> 0 <= n,
        n.is_valid() ==> n.notification().asks() == n,
        n.is_valid() ==> !n.notification().wants_additional(),
        n.is_valid() ==> n.notification().wants_fence(),
{
}

/// To notify `n` of at least so many listeners, none of which is notified, leaves
/// `n` notified.
pub proof fn number_of_listeners_is_notified(n: usize, before: Roster<()>, after: Roster<()>)
    requires
        n <= before.len(),
        notified_count(before) == 0,
        carried_out(before, n.notification(), after),
    ensures
        notified_count(after) == n,
{
    plain_reaches_enough(before, n.notification(), after);
}

/// The same, with the number given as a signed integer.
pub proof fn integer_of_listeners_is_notified(n: i32, before: Roster<()>, after: Roster<()>)
    requires
        0 <= n <= before.len(),
        notified_count(before) == 0,
        carried_out(before, n.notification(), after),
    ensures
        notified_count(after) == n,
{
    plain_reaches_enough(before, n.notification(), after);
}

/// To make a notification an additional one changes nothing else of it.
pub proof fn additional_changes_the_kind_only<N: Notification>(inner: N)
    ensures
        (Additional { inner }).wants_additional(),
        (Additional { inner }).asks() == inner.asks(),
        (Additional { inner }).wants_fence() == inner.wants_fence(),
        forall|n: nat| (Additional { inner }).supplies(n) == #[trigger] inner.supplies(n),
        forall|tag: N::Tag, after: N|
            (Additional { inner }).yields(tag, Additional { inner: after })
                == #[trigger] inner.yields(tag, after),
{
}

/// To relax a notification takes the fence away and nothing else.
pub proof fn relaxed_changes_the_fence_only<N: Notification>(inner: N)
    ensures
        !(Relaxed { inner }).wants_fence(),
        (Relaxed { inner }).asks() == inner.asks(),
        (Relaxed { inner }).wants_additional() == inner.wants_additional(),
        forall|n: nat| (Relaxed { inner }).supplies(n) == #[trigger] inner.supplies(n),
        forall|tag: N::Tag, after: N|
            (Relaxed { inner }).yields(tag, Relaxed { inner: after }) == #[trigger] inner.yields(
                tag,
                after,
            ),
{
}

/// To add a tag changes neither the number nor the kind, and every tag that is
/// handed out is a copy of it.
pub proof fn tag_changes_the_tag_only<N: Notification, T: Clone>(inner: N, tag: T)
    ensures
        (Tag { inner, tag }).asks() == inner.asks(),
        (Tag { inner, tag }).wants_additional() == inner.wants_additional(),
        (Tag { inner, tag }).wants_fence() == inner.wants_fence(),
        forall|n: nat| #[trigger] (Tag { inner, tag }).supplies(n),
        forall|t: T, after: Tag<N, T>| #[trigger]
            (Tag { inner, tag }).yields(t, after) ==> cloned(tag, t),
{
}

/// To add a function that makes the tags changes neither the number nor the
/// kind, and every tag that is handed out is one that the function returned.
pub proof fn tag_with_changes_the_tag_only<N: Notification, T, F: FnMut() -> T>(inner: N, tag: F)
    ensures
        (TagWith { inner, tag }).asks() == inner.asks(),
        (TagWith { inner, tag }).wants_additional() == inner.wants_additional(),
        (TagWith { inner, tag }).wants_fence() == inner.wants_fence(),
        forall|t: T, after: TagWith<N, F>| #[trigger]
            (TagWith { inner, tag }).yields(t, after) ==> call_ensures(tag, (), t),
{
}

/// Whatever an additional notification is given afterwards, a tag, a function
/// that makes tags or no fence, it stays an additional one for as many listeners.
pub proof fn additional_stays_additional<V: IntoNotification, T: Clone, U, F: FnMut() -> U>(
    value: V,
    tag: T,
    function: F,
)
    requires
        value.is_valid(),
    ensures
        ({
            let asked = value.notification().asks();
            let additional = Additional { inner: value.notification() };
            let tagged = Tag { inner: additional, tag };
            let made = TagWith { inner: additional, tag: function };
            let relaxed = Relaxed { inner: additional };
            &&& tagged.wants_additional() && tagged.asks() == asked
            &&& made.wants_additional() && made.asks() == asked
            &&& relaxed.wants_additional() && relaxed.asks() == asked
        }),
{
}

/// A notification that is not made additional is as plain as what it is made of.
pub proof fn plain_stays_plain<V: IntoNotification, T: Clone, U, F: FnMut() -> U>(
    value: V,
    tag: T,
    function: F,
)
    requires
        value.is_valid(),
    ensures
        ({
            let inner = value.notification();
            let tagged = Tag { inner, tag };
            let made = TagWith { inner, tag: function };
            let relaxed = Relaxed { inner };
            &&& tagged.wants_additional() == inner.wants_additional()
            &&& made.wants_additional() == inner.wants_additional()
            &&& relaxed.wants_additional() == inner.wants_additional()
            &&& tagged.asks() == inner.asks()
            &&& made.asks() == inner.asks()
            &&& relaxed.asks() == inner.asks()
        }),
{
}

/// A notification put together by hand asks for what it was put together of.
pub proof fn parts_are_asked_for<P: TagProducer>(count: usize, additional: bool, tags: P)
    ensures
        (GenericNotify { count, additional, tags }).asks() == count,
        (GenericNotify { count, additional, tags }).wants_additional() == additional,
        !(GenericNotify { count, additional, tags }).wants_fence(),
        forall|n: nat|
            (GenericNotify { count, additional, tags }).supplies(n) == #[trigger] tags.holds(n),
{
}

/// A producer of one tag hands out that tag, and no other one after it.
pub proof fn one_tag_is_handed_out_once<T>(tag: T)
    ensures
        ({
            let full = OneTag { tag: Some(tag) };
            let spent = OneTag::<T> { tag: None };
            &&& full.holds(1)
            &&& !full.holds(2)
            &&& !spent.holds(1)
            &&& forall|t: T, after: OneTag<T>| #[trigger]
                full.produces(t, after) <==> t == tag && after == spent
        }),
{
}

/// A function that can be called makes as many tags as are asked for.
pub proof fn function_makes_any_number<N: Notification, T, F: FnMut() -> T>(
    inner: N,
    tag: F,
    n: nat,
)
    requires
        call_requires(tag, ()),
    ensures
        (TagWith { inner, tag }).supplies(n),
{
}

/// Two additional notifications, tagged or not, reach as many listeners one after
/// the other as they ask for together, as long as there are so many.
pub proof fn additional_adds_up<N: Notification, M: Notification<Tag = N::Tag>>(
    before: Roster<N::Tag>,
    first: N,
    between: Roster<N::Tag>,
    second: M,
    after: Roster<N::Tag>,
)
    requires
        first.wants_additional(),
        second.wants_additional(),
        carried_out(before, first, between),
        carried_out(between, second, after),
        first.asks() + second.asks() <= pending_count(before),
    ensures
        notified_count(after) == notified_count(before) + first.asks() + second.asks(),
{
    additional_reaches_more(before, first, between);
    additional_reaches_more(between, second, after);
}

} // verus!
