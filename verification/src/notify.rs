//! Notifications: how many listeners to notify, in which way, with which tags.

use crate::roster::{granted, lemma_notified_none, with_notified, Roster};
use vstd::prelude::*;

verus! {

/// A notification that can be sent to the listeners of an event.
pub trait Notification: Sized {
    /// The type of the tags that the listeners receive.
    type Tag;

    /// The number of listeners asked for.
    spec fn asks(&self) -> usize;

    /// Whether only listeners without a notification count.
    spec fn wants_additional(&self) -> bool;

    /// Whether a full memory fence goes before the notification.
    spec fn wants_fence(&self) -> bool;

    /// Whether at least `n` more tags can be had.
    spec fn supplies(&self, n: nat) -> bool;

    /// Whether `tag` can be the next tag, with `after` left to send.
    spec fn yields(&self, tag: Self::Tag, after: Self) -> bool;

    /// The number of listeners to notify.
    fn count(&self) -> (n: usize)
        ensures
            n == self.asks(),
    ;

    /// Whether to notify listeners in addition to those already notified.
    fn is_additional(&self) -> (b: bool)
        ensures
            b == self.wants_additional(),
    ;

    /// Whether the sender emits a sequentially consistent fence first.
    fn fence(&self) -> (b: bool)
        ensures
            b == self.wants_fence(),
    ;

    /// The tag for the next listener.
    fn next_tag(&mut self) -> (tag: Self::Tag)
        requires
            exists|n: nat| n > 0 && #[trigger] old(self).supplies(n),
        ensures
            old(self).yields(tag, *final(self)),
            final(self).asks() == old(self).asks(),
            final(self).wants_additional() == old(self).wants_additional(),
            forall|n: nat| old(self).supplies(n + 1) ==> #[trigger] final(self).supplies(n),
    ;
}

/// Each notification of `steps` hands out one tag of `tags` and becomes the next.
pub open spec fn is_run<N: Notification>(steps: Seq<N>, tags: Seq<N::Tag>) -> bool {
    &&& steps.len() == tags.len() + 1
    &&& forall|i: int|
        0 <= i < tags.len() ==> steps[i].yields(#[trigger] tags[i], steps[i + 1])
}

/// `tags` can come out of `notify`, one after the other.
pub open spec fn can_deliver<N: Notification>(notify: N, tags: Seq<N::Tag>) -> bool {
    exists|steps: Seq<N>| #[trigger] is_run(steps, tags) && steps[0] == notify
}

/// One tag after another.
pub proof fn lemma_run_step<N: Notification>(
    steps: Seq<N>,
    tags: Seq<N::Tag>,
    tag: N::Tag,
    after: N,
)
    requires
        is_run(steps, tags),
        steps.last().yields(tag, after),
    ensures
        is_run(steps.push(after), tags.push(tag)),
{
    let grown = steps.push(after);
    let more = tags.push(tag);
    assert forall|i: int| 0 <= i < more.len() implies grown[i].yields(#[trigger] more[i], grown[i + 1]) by {
        if i < tags.len() {
            assert(steps[i].yields(tags[i], steps[i + 1]));
        }
    }
}

/// `after` is `before` with `notify` carried out: the granted number of listeners
/// have received tags that `notify` handed out.
pub open spec fn carried_out<N: Notification>(
    before: Roster<N::Tag>,
    notify: N,
    after: Roster<N::Tag>,
) -> bool {
    exists|tags: Seq<N::Tag>|
        {
            &&& #[trigger] can_deliver(notify, tags)
            &&& tags.len() == granted(before, notify.asks(), notify.wants_additional())
            &&& after == with_notified(before, notify.wants_additional(), tags)
        }
}

/// `notify` has a tag for every listener that it is going to notify.
pub open spec fn has_tags<N: Notification>(before: Roster<N::Tag>, notify: N) -> bool {
    notify.supplies(granted(before, notify.asks(), notify.wants_additional()))
}

/// The roster after a notification without a tag, of `count` listeners.
pub open spec fn untagged(before: Roster<()>, count: usize, additional: bool) -> Roster<()> {
    with_notified(before, additional, Seq::new(granted(before, count, additional), |i: int| ()))
}

/// Without tags, what a notification does is fixed.
pub proof fn lemma_untagged<N: Notification<Tag = ()>>(
    before: Roster<()>,
    notify: N,
    after: Roster<()>,
)
    requires
        carried_out(before, notify, after),
    ensures
        after == untagged(before, notify.asks(), notify.wants_additional()),
{
    let tags = choose|tags: Seq<()>|
        {
            &&& #[trigger] can_deliver(notify, tags)
            &&& tags.len() == granted(before, notify.asks(), notify.wants_additional())
            &&& after == with_notified(before, notify.wants_additional(), tags)
        };
    assert(tags =~= Seq::new(
        granted(before, notify.asks(), notify.wants_additional()),
        |i: int| (),
    ));
}

/// A notification that would reach nobody changes nothing.
pub proof fn lemma_nothing_to_do<N: Notification>(before: Roster<N::Tag>, notify: N)
    ensures
        granted(before, notify.asks(), notify.wants_additional()) == 0 ==> carried_out(
            before,
            notify,
            before,
        ),
{
    lemma_notified_none(before, notify.wants_additional());
    assert(is_run(seq![notify], Seq::<N::Tag>::empty()));
    assert(can_deliver(notify, Seq::<N::Tag>::empty()));
}

/// What a value converts to before it is sent.
pub trait IntoNotification: Sized {
    /// The type of the tags that the listeners receive.
    type Tag;

    /// The notification that the value stands for.
    type Notify: Notification<Tag = Self::Tag>;

    /// Whether the value stands for a notification at all.
    spec fn is_valid(self) -> bool;

    /// The notification that the value stands for.
    spec fn notification(self) -> Self::Notify;

    /// Tells whether the value stands for a notification.
    fn stands_for_one(&self) -> (b: bool)
        ensures
            b == self.is_valid(),
    ;

    /// Converts the value into a notification.
    fn into_notification(self) -> (notify: Self::Notify)
        requires
            self.is_valid(),
        ensures
            notify == self.notification(),
    ;

    /// Notifies listeners in addition to those already notified.
    fn additional(self) -> (notify: Additional<Self::Notify>)
        requires
            self.is_valid(),
        ensures
            notify == (Additional { inner: self.notification() }),
            notify.wants_additional(),
            notify.asks() == self.notification().asks(),
            notify.wants_fence() == self.notification().wants_fence(),
    {
        Additional { inner: self.into_notification() }
    }

    /// Sends no fence before the notification.
    fn relaxed(self) -> (notify: Relaxed<Self::Notify>)
        requires
            self.is_valid(),
        ensures
            notify == (Relaxed { inner: self.notification() }),
            notify.wants_additional() == self.notification().wants_additional(),
            notify.asks() == self.notification().asks(),
            !notify.wants_fence(),
    {
        Relaxed { inner: self.into_notification() }
    }

    /// Hands a copy of `tag` to every listener.
    fn tag<T: Clone>(self, tag: T) -> (notify: Tag<Self::Notify, T>)
        requires
            self.is_valid(),
        ensures
            notify == (Tag { inner: self.notification(), tag }),
            notify.wants_additional() == self.notification().wants_additional(),
            notify.asks() == self.notification().asks(),
            notify.wants_fence() == self.notification().wants_fence(),
    {
        Tag { inner: self.into_notification(), tag }
    }

    /// Hands every listener what `tag` returns for it.
    fn tag_with<T, F: FnMut() -> T>(self, tag: F) -> (notify: TagWith<Self::Notify, F>)
        requires
            self.is_valid(),
        ensures
            notify == (TagWith { inner: self.notification(), tag }),
            notify.wants_additional() == self.notification().wants_additional(),
            notify.asks() == self.notification().asks(),
            notify.wants_fence() == self.notification().wants_fence(),
    {
        TagWith { inner: self.into_notification(), tag }
    }
}

/// Notifies a number of listeners, without a tag.
#[derive(Clone, Copy, Debug, PartialEq, Eq)]
pub struct Notify {
    /// The number of listeners.
    pub count: usize,
}

/// Makes a notification an additional one.
#[derive(Debug)]
pub struct Additional<N> {
    /// The notification.
    pub inner: N,
}

/// Takes the fence away from a notification.
#[derive(Debug)]
pub struct Relaxed<N> {
    /// The notification.
    pub inner: N,
}

/// Adds a tag to a notification.
#[derive(Debug)]
pub struct Tag<N, T> {
    /// The notification.
    pub inner: N,
    /// The tag that every listener gets a copy of.
    pub tag: T,
}

/// Adds tags to a notification that a function makes.
pub struct TagWith<N, F> {
    /// The notification.
    pub inner: N,
    /// The function that makes the tags.
    pub tag: F,
}

impl Notification for Notify {
    type Tag = ();

    open spec fn asks(&self) -> usize {
        self.count
    }

    open spec fn wants_additional(&self) -> bool {
        false
    }

    open spec fn wants_fence(&self) -> bool {
        true
    }

    open spec fn supplies(&self, n: nat) -> bool {
        true
    }

    open spec fn yields(&self, tag: (), after: Self) -> bool {
        *self == after
    }

    fn count(&self) -> usize {
        self.count
    }

    fn is_additional(&self) -> bool {
        false
    }

    fn fence(&self) -> bool {
        true
    }

    fn next_tag(&mut self) {
    }
}

impl<N: Notification> Notification for Additional<N> {
    type Tag = N::Tag;

    open spec fn asks(&self) -> usize {
        self.inner.asks()
    }

    open spec fn wants_additional(&self) -> bool {
        true
    }

    open spec fn wants_fence(&self) -> bool {
        self.inner.wants_fence()
    }

    open spec fn supplies(&self, n: nat) -> bool {
        self.inner.supplies(n)
    }

    open spec fn yields(&self, tag: N::Tag, after: Self) -> bool {
        self.inner.yields(tag, after.inner)
    }

    fn count(&self) -> usize {
        self.inner.count()
    }

    fn is_additional(&self) -> bool {
        true
    }

    fn fence(&self) -> bool {
        self.inner.fence()
    }

    fn next_tag(&mut self) -> N::Tag {
        self.inner.next_tag()
    }
}

impl<N: Notification> Notification for Relaxed<N> {
    type Tag = N::Tag;

    open spec fn asks(&self) -> usize {
        self.inner.asks()
    }

    open spec fn wants_additional(&self) -> bool {
        self.inner.wants_additional()
    }

    open spec fn wants_fence(&self) -> bool {
        false
    }

    open spec fn supplies(&self, n: nat) -> bool {
        self.inner.supplies(n)
    }

    open spec fn yields(&self, tag: N::Tag, after: Self) -> bool {
        self.inner.yields(tag, after.inner)
    }

    fn count(&self) -> usize {
        self.inner.count()
    }

    fn is_additional(&self) -> bool {
        self.inner.is_additional()
    }

    fn fence(&self) -> bool {
        false
    }

    fn next_tag(&mut self) -> N::Tag {
        self.inner.next_tag()
    }
}

impl<N: Notification, T: Clone> Notification for Tag<N, T> {
    type Tag = T;

    open spec fn asks(&self) -> usize {
        self.inner.asks()
    }

    open spec fn wants_additional(&self) -> bool {
        self.inner.wants_additional()
    }

    open spec fn wants_fence(&self) -> bool {
        self.inner.wants_fence()
    }

    open spec fn supplies(&self, n: nat) -> bool {
        true
    }

    open spec fn yields(&self, tag: T, after: Self) -> bool {
        cloned(self.tag, tag) && *self == after
    }

    fn count(&self) -> usize {
        self.inner.count()
    }

    fn is_additional(&self) -> bool {
        self.inner.is_additional()
    }

    fn fence(&self) -> bool {
        self.inner.fence()
    }

    fn next_tag(&mut self) -> T {
        self.tag.clone()
    }
}

impl<N: Notification, T, F: FnMut() -> T> Notification for TagWith<N, F> {
    type Tag = T;

    open spec fn asks(&self) -> usize {
        self.inner.asks()
    }

    open spec fn wants_additional(&self) -> bool {
        self.inner.wants_additional()
    }

    open spec fn wants_fence(&self) -> bool {
        self.inner.wants_fence()
    }

    open spec fn supplies(&self, n: nat) -> bool {
        n > 0 ==> call_requires(self.tag, ())
    }

    /// The function stays as it is: one that changes what it has captured cannot
    /// be passed from verified code.
    open spec fn yields(&self, tag: T, after: Self) -> bool {
        call_ensures(self.tag, (), tag) && *self == after
    }

    fn count(&self) -> usize {
        self.inner.count()
    }

    fn is_additional(&self) -> bool {
        self.inner.is_additional()
    }

    fn fence(&self) -> bool {
        self.inner.fence()
    }

    fn next_tag(&mut self) -> T {
        (self.tag)()
    }
}

impl<N: Notification> IntoNotification for N {
    type Tag = N::Tag;

    type Notify = N;

    open spec fn is_valid(self) -> bool {
        true
    }

    open spec fn notification(self) -> N {
        self
    }

    fn stands_for_one(&self) -> bool {
        true
    }

    fn into_notification(self) -> N {
        self
    }
}

impl IntoNotification for usize {
    type Tag = ();

    type Notify = Notify;

    open spec fn is_valid(self) -> bool {
        true
    }

    open spec fn notification(self) -> Notify {
        Notify { count: self }
    }

    fn stands_for_one(&self) -> bool {
        true
    }

    fn into_notification(self) -> Notify {
        Notify { count: self }
    }
}

impl IntoNotification for i32 {
    type Tag = ();

    type Notify = Notify;

    /// A negative number of listeners stands for nothing.
    open spec fn is_valid(self) -> bool {
        0 <= self
    }

    open spec fn notification(self) -> Notify {
        Notify { count: self as usize }
    }

    fn stands_for_one(&self) -> bool {
        0 <= *self
    }

    fn into_notification(self) -> Notify {
        Notify { count: self as usize }
    }
}

/// A source of tags.
pub trait TagProducer: Sized {
    /// The type of the tags.
    type Tag;

    /// Whether at least `n` more tags can be had.
    spec fn holds(&self, n: nat) -> bool;

    /// Whether `tag` can be the next tag, with `after` left.
    spec fn produces(&self, tag: Self::Tag, after: Self) -> bool;

    /// The next tag.
    fn next_tag(&mut self) -> (tag: Self::Tag)
        requires
            exists|n: nat| n > 0 && #[trigger] old(self).holds(n),
        ensures
            old(self).produces(tag, *final(self)),
            forall|n: nat| old(self).holds(n + 1) ==> #[trigger] final(self).holds(n),
    ;
}

/// A notification made of its parts.
pub struct GenericNotify<P> {
    /// The number of listeners.
    pub count: usize,
    /// Whether only listeners without a notification count.
    pub additional: bool,
    /// Where the tags come from.
    pub tags: P,
}

impl<P: TagProducer> GenericNotify<P> {
    /// Puts a notification together.
    pub fn new(count: usize, additional: bool, tags: P) -> (notify: Self)
        ensures
            notify == (GenericNotify { count, additional, tags }),
    {
        GenericNotify { count, additional, tags }
    }
}

impl<P: TagProducer> Notification for GenericNotify<P> {
    type Tag = P::Tag;

    open spec fn asks(&self) -> usize {
        self.count
    }

    open spec fn wants_additional(&self) -> bool {
        self.additional
    }

    open spec fn wants_fence(&self) -> bool {
        false
    }

    open spec fn supplies(&self, n: nat) -> bool {
        self.tags.holds(n)
    }

    open spec fn yields(&self, tag: P::Tag, after: Self) -> bool {
        self.tags.produces(tag, after.tags)
    }

    fn count(&self) -> usize {
        self.count
    }

    fn is_additional(&self) -> bool {
        self.additional
    }

    fn fence(&self) -> bool {
        false
    }

    fn next_tag(&mut self) -> P::Tag {
        self.tags.next_tag()
    }
}

/// A producer of a single tag.
pub struct OneTag<T> {
    /// The tag, until it is handed out.
    pub tag: Option<T>,
}

impl<T> TagProducer for OneTag<T> {
    type Tag = T;

    open spec fn holds(&self, n: nat) -> bool {
        n == 0 || n == 1 && self.tag is Some
    }

    open spec fn produces(&self, tag: T, after: Self) -> bool {
        self.tag == Some(tag) && after.tag is None
    }

    fn next_tag(&mut self) -> T {
        self.tag.take().unwrap()
    }
}

/// A producer for events without tags.
#[derive(Clone, Copy, Debug, Default, PartialEq, Eq)]
pub struct NothingProducer;

impl TagProducer for NothingProducer {
    type Tag = ();

    open spec fn holds(&self, n: nat) -> bool {
        true
    }

    open spec fn produces(&self, tag: (), after: Self) -> bool {
        *self == after
    }

    fn next_tag(&mut self) {
    }
}

} // verus!
