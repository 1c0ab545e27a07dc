//! Callbacks registered under names and called on every event.
use vstd::prelude::*;

use crate::chars::{chars_of, push_str, string_of};

verus! {

/// A callback taking events of type `E`, held as a boxed closure. A closure's type cannot
/// be named to the verifier, so the box is held here, opaque.
#[verifier::external_body]
#[verifier::reject_recursive_types(E)]
pub struct Callback<E> {
    f: Box<dyn Fn(&E)>,
}

/// Boxes `callback`.
#[verifier::external_body]
fn boxed_callback<E, F: Fn(&E) + 'static>(callback: F) -> Callback<E> {
    Callback { f: Box::new(callback) }
}

/// Calls the callback of registration `i` of `notifier` with `event`: the closure's own
/// code runs, and nothing is stated of what it does. The call is entered in the notifier's
/// call log (ghost state, which this function is the only one to extend): one entry, the
/// serial of the registration called and the event. The registrations and their count
/// stay as they were; the closure cannot reach the notifier, which is borrowed here.
#[verifier::external_body]
fn call_callback<E>(notifier: &mut EventNotifier<E>, i: usize, event: &E)
    requires
        i < old(notifier).subscribers@.len(),
    ensures
        final(notifier).subscribers@ == old(notifier).subscribers@,
        final(notifier).made == old(notifier).made,
        final(notifier).calls@ == old(notifier).calls@.push(
            (old(notifier).subscribers@[i as int].serial@, *event),
        ),
{
    (notifier.subscribers[i].callback.f)(event)
}

/// A callback with the name it is registered under, and (as ghost state) the serial
/// number of the registration that put it there.
#[verifier::reject_recursive_types(E)]
pub struct Registration<E> {
    name: String,
    callback: Callback<E>,
    serial: Ghost<nat>,
}

/// Notifies the callbacks registered under names. The registrations are kept in a
/// vector, each name at most once (`well_formed`), and notified in order of
/// registration. As ghost state, it counts the registrations made, and logs each
/// callback call with the serial of its registration.
#[verifier::reject_recursive_types(E)]
pub struct EventNotifier<E> {
    subscribers: Vec<Registration<E>>,
    made: Ghost<nat>,
    calls: Ghost<Seq<(nat, E)>>,
}

/// Errors of registering a callback.
#[derive(Debug, PartialEq)]
pub enum EventNotifierError {
    /// Cannot register under `key`, as this name is already occupied.
    KeyAlreadyPresent { key: String },
}

impl EventNotifierError {
    /// The message describing the error.
    pub fn message(&self) -> (res: String)
        ensures
            res@ == match self {
                EventNotifierError::KeyAlreadyPresent { key } => "Cannot register under '"@ + key@
                    + "' as this name is already occupied"@,
            },
    {
        match self {
            EventNotifierError::KeyAlreadyPresent { key } => {
                let mut res = String::new();
                push_str(&mut res, "Cannot register under '");
                push_str(&mut res, key.as_str());
                push_str(&mut res, "' as this name is already occupied");
                res
            },
        }
    }
}

/// The names of registrations.
pub closed spec fn registration_names<E>(regs: Seq<Registration<E>>) -> Seq<Seq<char>> {
    regs.map_values(|r: Registration<E>| r.name@)
}

/// The serial numbers of registrations.
pub closed spec fn registration_serials<E>(regs: Seq<Registration<E>>) -> Seq<nat> {
    regs.map_values(|r: Registration<E>| r.serial@)
}

/// One call of each of the callbacks with serials `serials`, in order, with `event`.
pub open spec fn calls_with<E>(serials: Seq<nat>, event: E) -> Seq<(nat, E)> {
    serials.map_values(|s: nat| (s, event))
}

/// Whether two strings have the same characters.
fn same_text(a: &str, b: &str) -> (res: bool)
    ensures
        res == (a@ == b@),
{
    let x = chars_of(a);
    let y = chars_of(b);
    if x.len() != y.len() {
        assert(a@.len() != b@.len());
        return false;
    }
    let mut i: usize = 0;
    while i < x.len()
        invariant
            i <= x.len(),
            x.len() == y.len(),
            x@ == a@,
            y@ == b@,
            forall|j: int| 0 <= j < i ==> x@[j] == y@[j],
        decreases x.len() - i,
    {
        if x[i] != y[i] {
            assert(a@[i as int] != b@[i as int]);
            return false;
        }
        i += 1;
    }
    assert(x@ =~= y@);
    true
}

impl<E> EventNotifier<E> {
    /// The names callbacks are registered under, in order of registration.
    pub closed spec fn names_of(&self) -> Seq<Seq<char>> {
        registration_names(self.subscribers@)
    }

    /// The serial numbers of the registrations, in the same order as the names.
    pub closed spec fn serials_of(&self) -> Seq<nat> {
        registration_serials(self.subscribers@)
    }

    /// How many registrations were made; the next one gets this number as its serial.
    pub closed spec fn registrations_made(&self) -> nat {
        self.made@
    }

    /// Each callback call made so far: the serial of the registration called, and the
    /// event, in order.
    pub closed spec fn calls_of(&self) -> Seq<(nat, E)> {
        self.calls@
    }

    /// Each name is registered at most once, each registration has its own serial, and
    /// every serial was given by an earlier registration.
    pub open spec fn well_formed(&self) -> bool {
        &&& self.names_of().no_duplicates()
        &&& self.serials_of().no_duplicates()
        &&& self.serials_of().len() == self.names_of().len()
        &&& forall|i: int| 0 <= i < self.serials_of().len() ==> #[trigger] self.serials_of()[i] < self.registrations_made()
    }

    /// A notifier with no callback.
    pub fn new() -> (res: EventNotifier<E>)
        ensures
            res.well_formed(),
            res.names_of().len() == 0,
            res.calls_of().len() == 0,
    {
        let res = EventNotifier { subscribers: Vec::new(), made: Ghost(0), calls: Ghost(Seq::empty()) };
        assert(res.names_of() =~= Seq::<Seq<char>>::empty());
        assert(res.serials_of() =~= Seq::<nat>::empty());
        res
    }

    /// Position of the first registration under `name`, if any.
    fn find(&self, name: &str) -> (res: Option<usize>)
        ensures
            res is None <==> !self.names_of().contains(name@),
            res matches Some(i) ==> i < self.names_of().len() && self.names_of()[i as int] == name@
                && !self.names_of().take(i as int).contains(name@),
    {
        let mut i: usize = 0;
        while i < self.subscribers.len()
            invariant
                i <= self.subscribers@.len(),
                forall|j: int| 0 <= j < i ==> self.names_of()[j] != name@,
            decreases self.subscribers.len() - i,
        {
            if same_text(self.subscribers[i].name.as_str(), name) {
                assert(self.names_of()[i as int] == name@);
                assert(!self.names_of().take(i as int).contains(name@)) by {
                    if self.names_of().take(i as int).contains(name@) {
                        let k = choose|k: int| 0 <= k < i && self.names_of().take(i as int)[k] == name@;
                        assert(self.names_of()[k] == name@);
                    }
                }
                return Some(i);
            }
            i += 1;
        }
        assert(!self.names_of().contains(name@)) by {
            if self.names_of().contains(name@) {
                let k = choose|k: int| 0 <= k < self.names_of().len() && self.names_of()[k] == name@;
                assert(self.names_of()[k] != name@);
            }
        }
        None
    }

    /// Registers `callback` under `name`, after the other registrations, with a new
    /// serial. Registering never replaces a callback: a name that is already occupied is
    /// refused with `KeyAlreadyPresent`, as the error's name and message say, and
    /// nothing changes.
    pub fn register<F: Fn(&E) + 'static>(&mut self, name: &str, callback: F) -> (res: Result<
        (),
        EventNotifierError,
    >)
        requires
            old(self).well_formed(),
        ensures
            final(self).well_formed(),
            res is Ok <==> !old(self).names_of().contains(name@),
            final(self).calls_of() == old(self).calls_of(),
            res is Ok ==> registered(*old(self), *final(self), name@),
            res is Err ==> *final(self) == *old(self),
            res matches Err(e) ==> e == (EventNotifierError::KeyAlreadyPresent { key: e->key })
                && e->key@ == name@,
    {
        match self.find(name) {
            None => {
                let ghost serial = self.made@;
                let registration = Registration {
                    name: string_of(&chars_of(name)),
                    callback: boxed_callback(callback),
                    serial: Ghost(serial),
                };
                let ghost before = self.names_of();
                let ghost serials = self.serials_of();
                self.made = Ghost(serial + 1);
                self.subscribers.push(registration);
                assert(self.names_of() =~= before.push(name@));
                assert(self.serials_of() =~= serials.push(serial));
                assert forall|j: int| 0 <= j < self.serials_of().len() implies #[trigger] self.serials_of()[j]
                    < self.registrations_made() by {
                    if j < serials.len() {
                        assert(self.serials_of()[j] == serials[j]);
                    }
                }
                assert(self.serials_of().no_duplicates()) by {
                    assert forall|j: int, k: int|
                        0 <= j < self.serials_of().len() && 0 <= k < self.serials_of().len() && j != k
                            implies self.serials_of()[j] != self.serials_of()[k] by {
                        if j < serials.len() && k < serials.len() {
                            assert(serials[j] != serials[k]);
                        } else if j < serials.len() {
                            assert(serials[j] < serial);
                        } else {
                            assert(serials[k] < serial);
                        }
                    }
                }
                assert(self.names_of().no_duplicates()) by {
                    assert forall|j: int, k: int|
                        0 <= j < self.names_of().len() && 0 <= k < self.names_of().len() && j != k
                            implies self.names_of()[j] != self.names_of()[k] by {
                        if j < before.len() && k < before.len() {
                            assert(before[j] != before[k]);
                        } else if j < before.len() {
                            assert(before.contains(before[j]));
                        } else {
                            assert(before.contains(before[k]));
                        }
                    }
                }
                Ok(())
            },
            Some(_) => Err(EventNotifierError::KeyAlreadyPresent { key: string_of(&chars_of(name)) }),
        }
    }

    /// Removes the registration under `name`, if any.
    pub fn unregister(&mut self, name: &str)
        requires
            old(self).well_formed(),
        ensures
            final(self).well_formed(),
            unregistered(*old(self), *final(self), name@),
    {
        match self.find(name) {
            Some(i) => {
                let ghost before = self.names_of();
                let ghost serials = self.serials_of();
                self.subscribers.remove(i);
                assert(self.names_of() =~= before.remove(i as int));
                assert(self.serials_of() =~= serials.remove(i as int));
                assert(forall|j: int| 0 <= j < self.serials_of().len() ==> #[trigger] self.serials_of()[j]
                    == serials[if j < i { j } else { j + 1 }]);
                assert(forall|j: int| 0 <= j < self.names_of().len() ==> #[trigger] self.names_of()[j]
                    == before[if j < i { j } else { j + 1 }]);
                assert(!self.names_of().contains(name@)) by {
                    if self.names_of().contains(name@) {
                        let k = choose|k: int| 0 <= k < self.names_of().len() && self.names_of()[k] == name@;
                        assert(self.names_of()[k] == before[if k < i { k } else { k + 1 }]);
                    }
                }
                assert(final_unregistered_at(*old(self), *self, i as int));
            },
            None => {},
        }
    }

    /// Calls every registered callback with `event`, in order of registration.
    pub fn notify(&mut self, event: E)
        requires
            old(self).well_formed(),
        ensures
            final(self).well_formed(),
            notified_all(*old(self), *final(self), event),
    {
        let ghost serials = self.serials_of();
        let ghost calls0 = self.calls@;
        let mut i: usize = 0;
        assert(serials.take(0) =~= Seq::<nat>::empty());
        assert(calls0 + calls_with(Seq::<nat>::empty(), event) =~= calls0);
        while i < self.subscribers.len()
            invariant
                i <= self.subscribers@.len(),
                self.subscribers@ == old(self).subscribers@,
                self.made == old(self).made,
                serials == self.serials_of(),
                serials.len() == self.subscribers@.len(),
                calls0 == old(self).calls@,
                self.calls@ == calls0 + calls_with(serials.take(i as int), event),
            decreases self.subscribers.len() - i,
        {
            call_callback(self, i, &event);
            assert(serials.take(i + 1) =~= serials.take(i as int).push(serials[i as int]));
            assert(calls_with(serials.take(i + 1), event) =~= calls_with(serials.take(i as int), event).push(
                (serials[i as int], event),
            ));
            assert(self.calls@ =~= calls0 + calls_with(serials.take(i + 1), event));
            i += 1;
        }
        assert(serials.take(i as int) =~= serials);
    }
}

/// What registering under the fresh name `name` does: a registration under it comes
/// after the others, with the next serial.
pub open spec fn registered<E>(before: EventNotifier<E>, after: EventNotifier<E>, name: Seq<char>) -> bool {
    &&& after.names_of() == before.names_of().push(name)
    &&& after.serials_of() == before.serials_of().push(before.registrations_made())
    &&& after.registrations_made() == before.registrations_made() + 1
    &&& after.calls_of() == before.calls_of()
}

/// After a callback is registered under a fresh name, a notification calls it, last,
/// once, with the event.
pub proof fn lemma_register_then_notify<E>(
    a: EventNotifier<E>,
    b: EventNotifier<E>,
    c: EventNotifier<E>,
    name: Seq<char>,
    event: E,
)
    requires
        a.well_formed(),
        registered(a, b, name),
        notified_all(b, c, event),
    ensures
        c.calls_of().len() == a.calls_of().len() + a.names_of().len() + 1,
        c.calls_of().last() == (a.registrations_made(), event),
        forall|k: int|
            a.calls_of().len() <= k < c.calls_of().len() - 1 ==> (#[trigger] c.calls_of()[k]).0
                != a.registrations_made(),
{
    let n = a.calls_of().len();
    assert forall|k: int| n <= k < c.calls_of().len() - 1 implies (#[trigger] c.calls_of()[k]).0
        != a.registrations_made() by {
        assert(c.calls_of()[k] == calls_with(b.serials_of(), event)[k - n]);
        assert(b.serials_of()[k - n] == a.serials_of()[k - n]);
    }
    assert(c.calls_of().last() == calls_with(b.serials_of(), event)[a.names_of().len() as int]);
}

/// What unregistering `name` does: when a registration is under `name`, it is removed,
/// the others staying in their order; otherwise nothing changes. No call is made.
pub open spec fn unregistered<E>(before: EventNotifier<E>, after: EventNotifier<E>, name: Seq<char>) -> bool {
    &&& after.calls_of() == before.calls_of()
    &&& after.registrations_made() == before.registrations_made()
    &&& !after.names_of().contains(name)
    &&& !before.names_of().contains(name) ==> after.names_of() == before.names_of()
        && after.serials_of() == before.serials_of()
    &&& before.names_of().contains(name) ==> exists|i: int|
        0 <= i < before.names_of().len() && before.names_of()[i] == name && #[trigger] final_unregistered_at(
            before,
            after,
            i,
        )
}

/// The registration at position `i` of `before` is gone from `after`.
pub open spec fn final_unregistered_at<E>(before: EventNotifier<E>, after: EventNotifier<E>, i: int) -> bool {
    &&& after.names_of() == before.names_of().remove(i)
    &&& after.serials_of() == before.serials_of().remove(i)
}

/// What notifying `event` does: every registered callback is called once, in order of
/// registration, and the registrations stay.
pub open spec fn notified_all<E>(before: EventNotifier<E>, after: EventNotifier<E>, event: E) -> bool {
    &&& after.names_of() == before.names_of()
    &&& after.serials_of() == before.serials_of()
    &&& after.registrations_made() == before.registrations_made()
    &&& after.calls_of() == before.calls_of() + calls_with(before.serials_of(), event)
}

/// Whether the registration with serial `serial` is in `n`, under a name other than `name`.
pub open spec fn registered_elsewhere<E>(n: EventNotifier<E>, serial: nat, name: Seq<char>) -> bool {
    exists|j: int| 0 <= j < n.names_of().len() && n.names_of()[j] != name && n.serials_of()[j] == serial
}

/// After `name` is unregistered, a notification calls no callback that was registered
/// under `name`: every call it makes is of a registration under another name.
pub proof fn lemma_unregister_then_notify<E>(
    a: EventNotifier<E>,
    b: EventNotifier<E>,
    c: EventNotifier<E>,
    name: Seq<char>,
    event: E,
)
    requires
        a.well_formed(),
        unregistered(a, b, name),
        notified_all(b, c, event),
    ensures
        forall|k: int|
            b.calls_of().len() <= k < c.calls_of().len() ==> !(exists|i: int|
                0 <= i < a.names_of().len() && a.names_of()[i] == name && a.serials_of()[i]
                    == (#[trigger] c.calls_of()[k]).0),
        forall|k: int|
            b.calls_of().len() <= k < c.calls_of().len() ==> registered_elsewhere(
                b,
                (#[trigger] c.calls_of()[k]).0,
                name,
            ),
{
    assert forall|k: int| b.calls_of().len() <= k < c.calls_of().len() implies registered_elsewhere(
        b,
        (#[trigger] c.calls_of()[k]).0,
        name,
    ) by {
        let j = k - b.calls_of().len();
        assert(c.calls_of()[k] == calls_with(b.serials_of(), event)[j]);
        assert(b.serials_of().len() == b.names_of().len()) by {
            if a.names_of().contains(name) {
                let i0 = choose|i0: int|
                    0 <= i0 < a.names_of().len() && a.names_of()[i0] == name && #[trigger] final_unregistered_at(a, b, i0);
            }
        }
        assert(b.names_of()[j] != name) by {
            assert(b.names_of().contains(b.names_of()[j]));
        }
        assert(0 <= j < b.names_of().len() && b.names_of()[j] != name && b.serials_of()[j] == c.calls_of()[k].0);
    }
    assert forall|k: int| b.calls_of().len() <= k < c.calls_of().len() implies !(exists|i: int|
        0 <= i < a.names_of().len() && a.names_of()[i] == name && a.serials_of()[i]
            == (#[trigger] c.calls_of()[k]).0) by {
        let j = k - b.calls_of().len();
        assert(c.calls_of()[k] == calls_with(b.serials_of(), event)[j]);
        if exists|i: int|
            0 <= i < a.names_of().len() && a.names_of()[i] == name && a.serials_of()[i] == c.calls_of()[k].0 {
            let i = choose|i: int|
                0 <= i < a.names_of().len() && a.names_of()[i] == name && a.serials_of()[i] == c.calls_of()[k].0;
            let i0 = choose|i0: int|
                0 <= i0 < a.names_of().len() && a.names_of()[i0] == name && #[trigger] final_unregistered_at(a, b, i0);
            assert(i == i0);
            let src = if j < i0 { j } else { j + 1 };
            assert(b.serials_of()[j] == a.serials_of()[src]);
            assert(src != i0);
        }
    }
}

impl<E> Default for EventNotifier<E> {
    fn default() -> (res: Self)
        ensures
            res.well_formed(),
            res.names_of().len() == 0,
            res.calls_of().len() == 0,
    {
        EventNotifier::new()
    }
}

} // verus!
