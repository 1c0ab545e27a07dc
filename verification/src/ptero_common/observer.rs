//! The observer pattern: an [EventNotifier] sends events to the [Observer]s subscribed to it.
//! Subscribers are held by weak references; those whose observer was dropped are removed
//! on the next notification. The notifier keeps, as ghost state, the events it was asked
//! to send and the subscribers each one was handed to.
use std::cell::RefCell;
use std::sync::{Arc, Weak};

use vstd::prelude::*;

verus! {

#[verifier::external_type_specification]
#[verifier::external_body]
#[verifier::reject_recursive_types(T)]
pub struct ExRefCell<T: ?Sized>(RefCell<T>);


/// A listener of events of type `Ev`.
pub trait Observer<Ev> {
    fn on_notify(&mut self, event: &Ev);
}

/// Something observers can subscribe to.
pub trait Observable {
    type Event;

    fn subscribe(&mut self, listener: Arc<RefCell<dyn Observer<Self::Event>>>);
}

/// A weak reference to a subscribed observer. `std::sync::Weak` cannot be declared to
/// the verifier (its allocator parameter), so the reference is held here, opaque.
#[verifier::external_body]
#[verifier::reject_recursive_types(Ev)]
pub struct Subscriber<Ev> {
    listener: Weak<RefCell<dyn Observer<Ev>>>,
}

/// Sends events of type `Ev` to its subscribers.
#[verifier::reject_recursive_types(Ev)]
pub struct EventNotifier<Ev> {
    subscribers: Vec<Subscriber<Ev>>,
    sent: Ghost<Seq<Ev>>,
    handed: Ghost<Seq<(Subscriber<Ev>, Ev)>>,
}

/// What subscribing does: one more subscriber, after the others, and nothing sent.
pub open spec fn subscribed<Ev>(before: EventNotifier<Ev>, after: EventNotifier<Ev>) -> bool {
    &&& after.subscribers_of().len() == before.subscribers_of().len() + 1
    &&& after.subscribers_of().take(before.subscribers_of().len() as int) == before.subscribers_of()
    &&& after.events_of() == before.events_of()
    &&& after.deliveries_of() == before.deliveries_of()
}

/// Subscribing `k` times to a notifier with no subscriber, with no notification in
/// between, gives `k` subscribers, those whose observer was dropped meanwhile included.
pub proof fn lemma_subscriptions_count<Ev>(ns: Seq<EventNotifier<Ev>>)
    requires
        ns.len() > 0,
        ns[0].subscribers_of().len() == 0,
        forall|i: int| 0 <= i < ns.len() - 1 ==> subscribed(#[trigger] ns[i], ns[i + 1]),
    ensures
        ns.last().subscribers_of().len() == ns.len() - 1,
    decreases ns.len(),
{
    if ns.len() > 1 {
        let p = ns.drop_last();
        assert forall|i: int| 0 <= i < p.len() - 1 implies subscribed(#[trigger] p[i], p[i + 1]) by {
            assert(p[i] == ns[i] && p[i + 1] == ns[i + 1]);
        }
        lemma_subscriptions_count(p);
        assert(subscribed(ns[ns.len() - 2], ns[ns.len() - 1]));
    }
}

/// `event` handed to each of `subs`, in order.
pub open spec fn handed_to<Ev>(subs: Seq<Subscriber<Ev>>, event: Ev) -> Seq<(Subscriber<Ev>, Ev)> {
    subs.map_values(|s: Subscriber<Ev>| (s, event))
}

/// What one notification of `event` does to the subscribers `subs` and the deliveries
/// `handed` made so far: `alive` flags the subscribers whose observer was still alive,
/// which are kept, in order, and the others dropped; `took` flags those, among the live
/// ones, that were not in use and handled the event, each once, in order.
pub open spec fn notified<Ev>(
    subs: Seq<Subscriber<Ev>>,
    handed: Seq<(Subscriber<Ev>, Ev)>,
    subs_after: Seq<Subscriber<Ev>>,
    handed_after: Seq<(Subscriber<Ev>, Ev)>,
    event: Ev,
) -> bool {
    exists|alive: Seq<bool>, took: Seq<bool>|
        #![trigger filter_by(subs, alive), filter_by(subs, took)]
        alive.len() == subs.len() && took.len() == subs.len() && (forall|k: int|
            0 <= k < subs.len() && #[trigger] took[k] ==> alive[k]) && subs_after == filter_by(
            subs,
            alive,
        ) && handed_after == handed + handed_to(filter_by(subs, took), event)
}

/// The items of `s` whose flag in `keep` is set, in order.
pub open spec fn filter_by<T>(s: Seq<T>, keep: Seq<bool>) -> Seq<T>
    decreases s.len(),
{
    if s.len() == 0 {
        seq![]
    } else if keep[s.len() - 1] {
        filter_by(s.drop_last(), keep).push(s.last())
    } else {
        filter_by(s.drop_last(), keep)
    }
}

/// `after` holds some of the items of `before`, in their order.
pub open spec fn kept_in_order<T>(before: Seq<T>, after: Seq<T>) -> bool {
    exists|keep: Seq<bool>| keep.len() == before.len() && after == #[trigger] filter_by(before, keep)
}

/// The observer behind `sub`, if it is still alive (`Weak::upgrade`). Whether it is
/// depends on what the rest of the program has dropped, so nothing is stated of it.
#[verifier::external_body]
fn upgrade<Ev>(sub: &Subscriber<Ev>) -> (res: Option<Arc<RefCell<dyn Observer<Ev>>>>) {
    sub.listener.upgrade()
}

/// Lets `listener` handle `event` if its observer is not in use: `RefCell::try_borrow_mut`,
/// then, when the borrow was granted, the observer's own `on_notify`. An observer that is
/// already borrowed (one notifying its own notifier from `on_notify`, or one a caller
/// holds borrowed) is skipped, and `false` returned. Whether it is in use depends on the
/// rest of the program, and what `on_notify` does is the observer's own code, so nothing
/// is stated of the result.
#[verifier::external_body]
fn notify_listener<Ev>(listener: &Arc<RefCell<dyn Observer<Ev>>>, event: &Ev) -> (handled: bool) {
    match listener.try_borrow_mut() {
        Ok(mut observer) => {
            observer.on_notify(event);
            true
        },
        Err(_) => false,
    }
}

/// A weak reference to the observer of `listener` (`Arc::downgrade`).
#[verifier::external_body]
fn downgrade<Ev>(listener: &Arc<RefCell<dyn Observer<Ev>>>) -> (res: Subscriber<Ev>) {
    Subscriber { listener: Arc::downgrade(listener) }
}

impl<Ev> EventNotifier<Ev> {
    /// The weak references to the subscribers, in order of subscription.
    pub closed spec fn subscribers_of(&self) -> Seq<Subscriber<Ev>> {
        self.subscribers@
    }

    /// The events this notifier was asked to send, in order.
    pub closed spec fn events_of(&self) -> Seq<Ev> {
        self.sent@
    }

    /// Each event handed to a subscriber, with that subscriber, in order.
    pub closed spec fn deliveries_of(&self) -> Seq<(Subscriber<Ev>, Ev)> {
        self.handed@
    }

    /// A notifier with no subscriber, that has sent nothing.
    pub fn new() -> (res: EventNotifier<Ev>)
        ensures
            res.subscribers_of().len() == 0,
            res.events_of().len() == 0,
            res.deliveries_of().len() == 0,
    {
        EventNotifier { subscribers: Vec::new(), sent: Ghost(Seq::empty()), handed: Ghost(Seq::empty()) }
    }

    /// Sends an event to all valid subscribers: each live one that is not in use handles
    /// it, in order. If a subscriber's observer was dropped, proceeds to clean up the
    /// invalid subscribers: the live ones are kept, in their order. Without subscribers,
    /// no observer is called.
    pub fn notify(&mut self, event: &Ev)
        ensures
            final(self).events_of() == old(self).events_of().push(*event),
            notified(
                old(self).subscribers_of(),
                old(self).deliveries_of(),
                final(self).subscribers_of(),
                final(self).deliveries_of(),
                *event,
            ),
            old(self).subscribers_of().len() == 0 ==> final(self).deliveries_of() == old(
                self,
            ).deliveries_of() && final(self).subscribers_of().len() == 0,
    {
        let ghost subs = self.subscribers@;
        let mut alive: Vec<bool> = Vec::new();
        let ghost mut took: Seq<bool> = seq![];
        let mut i: usize = 0;
        assert(subs.take(0) =~= Seq::<Subscriber<Ev>>::empty());
        assert(handed_to(Seq::<Subscriber<Ev>>::empty(), *event) =~= Seq::<(Subscriber<Ev>, Ev)>::empty());
        assert(self.handed@ + Seq::<(Subscriber<Ev>, Ev)>::empty() =~= self.handed@);
        while i < self.subscribers.len()
            invariant
                i <= self.subscribers.len(),
                self.subscribers@ == subs,
                subs == old(self).subscribers@,
                self.sent == old(self).sent,
                alive@.len() == i,
                took.len() == i,
                forall|k: int| 0 <= k < i && #[trigger] took[k] ==> alive@[k],
                self.handed@ == old(self).handed@ + handed_to(
                    filter_by(subs.take(i as int), took),
                    *event,
                ),
            decreases self.subscribers.len() - i,
        {
            let ghost n = i as int;
            let ghost before = filter_by(subs.take(n), took);
            proof {
                lemma_filter_prefix(subs.take(n), took, n);
                assert(subs.take(n + 1).drop_last() =~= subs.take(n));
            }
            match upgrade(&self.subscribers[i]) {
                Some(listener) => {
                    let handled = notify_listener(&listener, event);
                    alive.push(true);
                    proof {
                        let old_took = took;
                        took = took.push(handled);
                        assert(filter_by(subs.take(n), took) == filter_by(subs.take(n), old_took));
                        assert(subs.take(n + 1).last() == subs[n]);
                    }
                    if handled {
                        self.handed = Ghost(self.handed@.push((subs[n], *event)));
                        assert(filter_by(subs.take(n + 1), took) == before.push(subs[n]));
                        assert(handed_to(before.push(subs[n]), *event) =~= handed_to(before, *event).push(
                            (subs[n], *event),
                        ));
                    } else {
                        assert(filter_by(subs.take(n + 1), took) == before);
                    }
                },
                None => {
                    alive.push(false);
                    proof {
                        let old_took = took;
                        took = took.push(false);
                        assert(filter_by(subs.take(n), took) == filter_by(subs.take(n), old_took));
                    }
                    assert(filter_by(subs.take(n + 1), took) == before);
                },
            }
            i += 1;
        }
        assert(subs.take(i as int) =~= subs);
        let no_subscribers = i == 0;
        let ghost took_all = took;
        self.cleanup_subscribers(&alive);
        self.sent = Ghost(self.sent@.push(*event));
        assert(alive@.len() == subs.len() && took_all.len() == subs.len());
        assert(self.subscribers@ == filter_by(subs, alive@));
        assert(self.handed@ == old(self).handed@ + handed_to(filter_by(subs, took_all), *event));
        if no_subscribers {
            assert(handed_to(filter_by(subs, took_all), *event) =~= Seq::<(Subscriber<Ev>, Ev)>::empty());
            assert(old(self).handed@ + Seq::<(Subscriber<Ev>, Ev)>::empty() =~= old(self).handed@);
        }
    }

    /// Adds a new subscriber, after the others.
    pub fn add_subscriber(&mut self, listener: &Arc<RefCell<dyn Observer<Ev>>>)
        ensures
            subscribed(*old(self), *final(self)),
    {
        let w = downgrade(listener);
        let ghost before = self.subscribers@;
        self.subscribers.push(w);
        assert(self.subscribers@.take(before.len() as int) =~= before);
    }

    pub fn count_subscribers(&self) -> (res: usize)
        ensures
            res == self.subscribers_of().len(),
    {
        self.subscribers.len()
    }

    /// Removes the subscribers whose observer was found dropped: those whose flag in
    /// `alive` is not set.
    fn cleanup_subscribers(&mut self, alive: &Vec<bool>)
        requires
            alive@.len() == old(self).subscribers@.len(),
        ensures
            final(self).subscribers@ == filter_by(old(self).subscribers@, alive@),
            final(self).sent == old(self).sent,
            final(self).handed == old(self).handed,
    {
        let mut rest = Vec::new();
        std::mem::swap(&mut rest, &mut self.subscribers);
        let ghost all = rest@;
        let mut j: usize = 0;
        let mut kept: Vec<Subscriber<Ev>> = Vec::new();
        assert(all.take(0) =~= Seq::<Subscriber<Ev>>::empty());
        while rest.len() > 0
            invariant
                all == old(self).subscribers@,
                alive@.len() == all.len(),
                j + rest@.len() == all.len(),
                rest@ == all.skip(j as int),
                kept@ == filter_by(all.take(j as int), alive@),
                self.sent == old(self).sent,
                self.handed == old(self).handed,
            decreases rest.len(),
        {
            let ghost n = j as int;
            let sub = rest.remove(0);
            assert(all.take(n + 1).drop_last() =~= all.take(n));
            assert(all.skip(n + 1) =~= all.skip(n).drop_first());
            proof {
                lemma_filter_flags(all.take(n), alive@, alive@.take(n));
                lemma_filter_flags(all.take(n + 1).drop_last(), alive@, alive@);
            }
            assert(j < alive.len());
            if alive[j] {
                kept.push(sub);
            }
            j += 1;
        }
        assert(all.take(j as int) =~= all);
        self.subscribers = kept;
    }
}

/// Only the first `s.len()` flags matter.
proof fn lemma_filter_prefix<T>(s: Seq<T>, keep: Seq<bool>, n: int)
    requires
        s.len() == n,
        keep.len() == n,
    ensures
        forall|b: bool| #[trigger] filter_by(s, keep.push(b)) == filter_by(s, keep),
    decreases s.len(),
{
    assert forall|b: bool| #[trigger] filter_by(s, keep.push(b)) == filter_by(s, keep) by {
        lemma_filter_flags(s, keep.push(b), keep);
    }
}

/// Two flag sequences that agree on the positions of `s` filter it alike.
proof fn lemma_filter_flags<T>(s: Seq<T>, a: Seq<bool>, b: Seq<bool>)
    requires
        forall|k: int| 0 <= k < s.len() ==> a[k] == b[k],
    ensures
        filter_by(s, a) == filter_by(s, b),
    decreases s.len(),
{
    if s.len() > 0 {
        lemma_filter_flags(s.drop_last(), a, b);
    }
}

impl<Ev> Default for EventNotifier<Ev> {
    fn default() -> (res: Self)
        ensures
            res.subscribers_of().len() == 0,
            res.events_of().len() == 0,
            res.deliveries_of().len() == 0,
    {
        EventNotifier::new()
    }
}

impl<Ev> Observable for EventNotifier<Ev> {
    type Event = Ev;

    /// Adds a new subscriber, after the others.
    fn subscribe(&mut self, listener: Arc<RefCell<dyn Observer<Ev>>>)
        ensures
            subscribed(*old(self), *final(self)),
    {
        self.add_subscriber(&listener);
    }
}

} // verus!
