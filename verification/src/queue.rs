//! The readiness queue: the records that wait on one kernel queue, and the
//! matching of the kernel's notifications against them.

use crate::kernel::{EventIdentity, Timespec};
use crate::record::GeneralEvent;
use vstd::multiset::{lemma_multiset_empty_len, Multiset};
use vstd::prelude::*;
use vstd::seq_lib::{to_multiset_build, to_multiset_remove};

verus! {

/// The context in which requests are served: the root of the served directory.
pub struct Directory {
    pub root: String,
}

impl Clone for Directory {
    fn clone(&self) -> (copy: Directory)
        ensures
            copy == *self,
    {
        Directory { root: self.root.clone() }
    }
}

/// Whether a record registered under `id` waits in `pending`.
pub open spec fn is_pending<T: GeneralEvent>(pending: Seq<T>, id: EventIdentity) -> bool {
    exists|i: int| 0 <= i < pending.len() && (#[trigger] pending[i]).identity() == id
}

/// Whether `i` is the place of the first record in `pending` that is
/// registered under `id`.
pub open spec fn waits_at<T: GeneralEvent>(pending: Seq<T>, id: EventIdentity, i: int) -> bool {
    &&& 0 <= i < pending.len()
    &&& pending[i].identity() == id
    &&& forall|j: int| 0 <= j < i ==> (#[trigger] pending[j]).identity() != id
}

/// The place of the first record in `pending` that is registered under `id`.
pub open spec fn first_match<T: GeneralEvent>(pending: Seq<T>, id: EventIdentity) -> Option<int> {
    if is_pending(pending, id) {
        Some(choose|i: int| waits_at(pending, id, i))
    } else {
        None
    }
}

/// The records that still wait after the notifications `ready` have been
/// served one after the other: each notification takes out the first record
/// registered under it, and one that finds no record changes nothing.
pub open spec fn remaining<T: GeneralEvent>(pending: Seq<T>, ready: Seq<EventIdentity>) -> Seq<T>
    decreases ready.len(),
{
    if ready.len() == 0 {
        pending
    } else {
        let before = remaining(pending, ready.drop_last());
        match first_match(before, ready.last()) {
            Some(i) => before.remove(i),
            None => before,
        }
    }
}

/// The records that the notifications `ready` take out of `pending`, in the
/// order of the notifications.
pub open spec fn delivered<T: GeneralEvent>(pending: Seq<T>, ready: Seq<EventIdentity>) -> Seq<T>
    decreases ready.len(),
{
    if ready.len() == 0 {
        Seq::empty()
    } else {
        let before = remaining(pending, ready.drop_last());
        let earlier = delivered(pending, ready.drop_last());
        match first_match(before, ready.last()) {
            Some(i) => earlier.push(before[i]),
            None => earlier,
        }
    }
}

/// Whether no two records in `pending` share an identity.
pub open spec fn distinct_identities<T: GeneralEvent>(pending: Seq<T>) -> bool {
    forall|i: int, j: int|
        0 <= i < j < pending.len() ==> (#[trigger] pending[i]).identity() != (
        #[trigger] pending[j]).identity()
}

/// What a poll hands back.
pub enum Polled<T> {
    /// The kernel reported nothing: wait on the kernel queue once more.
    Again,
    /// The records whose interest fired, taken out of the queue.
    Ready(Vec<T>),
}

/// One kernel queue and the records that wait on it.
pub struct Queue<T: GeneralEvent> {
    /// The waiting records, oldest registration first.
    pub events: Vec<T>,
    /// Timeout of one wait on the kernel queue.
    pub wait_timeout: Timespec,
    /// The serving context.
    pub dir: Directory,
    /// Descriptor of the kernel queue.
    pub fd: i32,
}

impl<T: GeneralEvent> Queue<T> {
    /// Whether only the waiting records differ between `self` and `other`.
    pub open spec fn same_kernel_queue(&self, other: &Queue<T>) -> bool {
        &&& self.wait_timeout == other.wait_timeout
        &&& self.dir == other.dir
        &&& self.fd == other.fd
    }

    /// Whether `self` is a queue as `new` makes it around the kernel queue
    /// `fd`: nothing waits, and a wait returns at once.
    pub open spec fn is_new(&self, dir: Directory, fd: i32) -> bool {
        &&& self.events@ == Seq::<T>::empty()
        &&& self.wait_timeout == (Timespec { tv_sec: 0, tv_nsec: 0 })
        &&& self.dir == dir
        &&& self.fd == fd
    }

    /// Builds the queue around a kernel queue, given what the kernel
    /// answered to the request to create one: its descriptor, or why there
    /// is none.
    pub fn new(dir: Directory, created: Result<i32, String>) -> (res: Result<Queue<T>, String>)
        ensures
            match created {
                Ok(fd) => res matches Ok(queue) && queue.is_new(dir, fd),
                Err(reason) => res == Err::<Queue<T>, String>(reason),
            },
    {
        match created {
            Ok(fd) => Ok(
                Queue { events: Vec::new(), wait_timeout: Timespec::zero(), dir, fd },
            ),
            Err(reason) => Err(reason),
        }
    }

    /// Takes `event` into the queue, given what the kernel answered to the
    /// registration of its interest. A record whose registration failed is
    /// dropped, and the kernel's reason is handed on.
    pub fn add(&mut self, event: T, registered: Result<(), String>) -> (res: Result<(), String>)
        ensures
            final(self).same_kernel_queue(old(self)),
            match registered {
                Ok(_) => res is Ok && final(self).events@ == old(self).events@.push(event),
                Err(reason) => res == Err::<(), String>(reason) && final(self).events@ == old(
                    self,
                ).events@,
            },
            distinct_identities(old(self).events@) && !is_pending(
                old(self).events@,
                event.identity(),
            ) ==> distinct_identities(final(self).events@),
    {
        proof {
            if distinct_identities(self.events@) && !is_pending(self.events@, event.identity()) {
                lemma_add_keeps_distinct(self.events@, event);
            }
        }
        match registered {
            Ok(_) => {
                self.events.push(event);
                Ok(())
            },
            Err(reason) => Err(reason),
        }
    }

    /// Whether any record waits.
    pub fn has_pending(&self) -> (waiting: bool)
        ensures
            waiting == (self.events@.len() > 0),
    {
        self.events.len() > 0
    }

    /// The place of the first waiting record that is registered under `id`.
    pub fn position(&self, id: &EventIdentity) -> (place: Option<usize>)
        ensures
            match place {
                Some(i) => first_match(self.events@, *id) == Some(i as int) && i
                    < self.events@.len(),
                None => first_match(self.events@, *id) is None,
            },
    {
        let mut i: usize = 0;
        while i < self.events.len()
            invariant
                i <= self.events@.len(),
                forall|j: int| 0 <= j < i ==> (#[trigger] self.events@[j]).identity() != *id,
            decreases self.events@.len() - i,
        {
            let kevent: EventIdentity = self.events[i].get_kevent();
            if kevent.matches(id) {
                proof {
                    lemma_first_match_is(self.events@, *id, i as int);
                }
                return Some(i);
            }
            i = i + 1;
        }
        None
    }

    /// Serves the notifications `ready` one after the other: each takes the
    /// first record registered under it out of the queue. The records taken
    /// are returned in the order of the notifications. A notification that
    /// finds no record, because an earlier one took it already or because
    /// none was ever registered, is passed over.
    pub fn take_ready(&mut self, ready: &Vec<EventIdentity>) -> (out: Vec<T>)
        ensures
            final(self).same_kernel_queue(old(self)),
            final(self).events@ == remaining(old(self).events@, ready@),
            out@ == delivered(old(self).events@, ready@),
            final(self).events@.to_multiset().add(out@.to_multiset()) == old(
                self,
            ).events@.to_multiset(),
            distinct_identities(old(self).events@) ==> distinct_identities(final(self).events@)
                && distinct_identities(out@),
    {
        let mut out: Vec<T> = Vec::new();
        let mut k: usize = 0;
        while k < ready.len()
            invariant
                k <= ready@.len(),
                self.same_kernel_queue(old(self)),
                self.events@ == remaining(old(self).events@, ready@.take(k as int)),
                out@ == delivered(old(self).events@, ready@.take(k as int)),
            decreases ready@.len() - k,
        {
            let id: EventIdentity = ready[k];
            proof {
                let served = ready@.take(k + 1);
                assert(served.drop_last() == ready@.take(k as int));
                assert(served.last() == id);
            }
            match self.position(&id) {
                Some(i) => {
                    let event: T = self.events.remove(i);
                    out.push(event);
                },
                None => {},
            }
            k = k + 1;
        }
        proof {
            assert(ready@.take(k as int) == ready@);
            lemma_poll_conserves(old(self).events@, ready@);
            if distinct_identities(old(self).events@) {
                lemma_delivered_once(old(self).events@, ready@);
            }
        }
        out
    }

    /// Decides what follows a wait on the kernel queue. A failed wait is
    /// handed on. An empty set of notifications asks for another wait and
    /// leaves the queue as it is. Any other set is served as `take_ready`
    /// serves it.
    pub fn poll(&mut self, waited: Result<Vec<EventIdentity>, String>) -> (res: Result<
        Polled<T>,
        String,
    >)
        ensures
            final(self).same_kernel_queue(old(self)),
            match waited {
                Err(reason) => res == Err::<Polled<T>, String>(reason) && final(self).events@
                    == old(self).events@,
                Ok(ready) => if ready@.len() == 0 {
                    res == Ok::<Polled<T>, String>(Polled::Again) && final(self).events@ == old(
                        self,
                    ).events@
                } else {
                    &&& res matches Ok(Polled::Ready(out))
                    &&& out@ == delivered(old(self).events@, ready@)
                    &&& final(self).events@ == remaining(old(self).events@, ready@)
                    &&& final(self).events@.to_multiset().add(out@.to_multiset()) == old(
                        self,
                    ).events@.to_multiset()
                    &&& distinct_identities(old(self).events@) ==> distinct_identities(out@)
                },
            },
            distinct_identities(old(self).events@) ==> distinct_identities(final(self).events@),
    {
        match waited {
            Err(reason) => Err(reason),
            Ok(ready) => {
                if ready.len() == 0 {
                    Ok(Polled::Again)
                } else {
                    let out: Vec<T> = self.take_ready(&ready);
                    Ok(Polled::Ready(out))
                }
            },
        }
    }
}

/// The first place at which `id` is found in `pending` is the one that
/// `first_match` names.
pub proof fn lemma_first_match_is<T: GeneralEvent>(pending: Seq<T>, id: EventIdentity, i: int)
    requires
        waits_at(pending, id, i),
    ensures
        first_match(pending, id) == Some(i),
{
    assert(is_pending(pending, id));
    let chosen = choose|k: int| waits_at(pending, id, k);
    assert(waits_at(pending, id, chosen));
    if chosen < i {
        assert(pending[chosen].identity() != id);
    }
    if i < chosen {
        assert(pending[i].identity() != id);
    }
}

/// Where `first_match` names a place, that place holds the first record
/// registered under `id`.
pub proof fn lemma_first_match_some<T: GeneralEvent>(pending: Seq<T>, id: EventIdentity)
    requires
        is_pending(pending, id),
    ensures
        first_match(pending, id) matches Some(i) && waits_at(pending, id, i),
{
    let some = choose|i: int| 0 <= i < pending.len() && (#[trigger] pending[i]).identity() == id;
    lemma_least_match(pending, id, some);
}

proof fn lemma_least_match<T: GeneralEvent>(pending: Seq<T>, id: EventIdentity, upto: int)
    requires
        0 <= upto < pending.len(),
        pending[upto].identity() == id,
    ensures
        exists|i: int| waits_at(pending, id, i),
    decreases upto,
{
    if exists|j: int| 0 <= j < upto && (#[trigger] pending[j]).identity() == id {
        let j = choose|j: int| 0 <= j < upto && (#[trigger] pending[j]).identity() == id;
        lemma_least_match(pending, id, j);
    } else {
        assert(waits_at(pending, id, upto));
    }
}

/// A poll neither loses a record nor makes one twice: the records that still
/// wait and the records handed out are together exactly the records that
/// waited before, each as often as it waited.
pub proof fn lemma_poll_conserves<T: GeneralEvent>(pending: Seq<T>, ready: Seq<EventIdentity>)
    ensures
        remaining(pending, ready).to_multiset().add(delivered(pending, ready).to_multiset())
            == pending.to_multiset(),
        remaining(pending, ready).len() + delivered(pending, ready).len() == pending.len(),
    decreases ready.len(),
{
    broadcast use vstd::multiset::group_multiset_axioms;

    if ready.len() == 0 {
        assert(delivered(pending, ready).to_multiset() =~= Multiset::<T>::empty()) by {
            delivered(pending, ready).to_multiset_ensures();
            lemma_multiset_empty_len(delivered(pending, ready).to_multiset());
        }
        assert(remaining(pending, ready).to_multiset().add(
            delivered(pending, ready).to_multiset(),
        ) =~= pending.to_multiset());
    } else {
        lemma_poll_conserves(pending, ready.drop_last());
        let before = remaining(pending, ready.drop_last());
        let earlier = delivered(pending, ready.drop_last());
        if is_pending(before, ready.last()) {
            lemma_first_match_some(before, ready.last());
            let i = first_match(before, ready.last())->0;
            to_multiset_remove(before, i);
            to_multiset_build(earlier, before[i]);
            assert(before.to_multiset().count(before[i]) > 0) by {
                before.to_multiset_ensures();
                assert(before.contains(before[i]));
            }
            assert(before.remove(i).to_multiset().add(earlier.push(before[i]).to_multiset())
                =~= before.to_multiset().add(earlier.to_multiset()));
        }
    }
}

/// A record whose identity no waiting record has may join them: the
/// identities stay distinct.
pub proof fn lemma_add_keeps_distinct<T: GeneralEvent>(pending: Seq<T>, event: T)
    requires
        distinct_identities(pending),
        !is_pending(pending, event.identity()),
    ensures
        distinct_identities(pending.push(event)),
{
    let after = pending.push(event);
    assert forall|i: int, j: int| 0 <= i < j < after.len() implies (#[trigger] after[i]).identity()
        != (#[trigger] after[j]).identity() by {
        assert(after[i] == pending[i]);
        if j < pending.len() {
            assert(after[j] == pending[j]);
        }
    }
}

/// Taking a record out of a sequence brings no new identity into it and keeps
/// the identities distinct.
proof fn lemma_remove_keeps<T: GeneralEvent>(pending: Seq<T>, i: int)
    requires
        0 <= i < pending.len(),
    ensures
        forall|id: EventIdentity|
            is_pending(pending.remove(i), id) ==> #[trigger] is_pending(pending, id),
        distinct_identities(pending) ==> distinct_identities(pending.remove(i)),
        distinct_identities(pending) ==> !is_pending(pending.remove(i), pending[i].identity()),
{
    pending.remove_ensures(i);
    let rest = pending.remove(i);
    assert forall|id: EventIdentity| is_pending(rest, id) implies #[trigger] is_pending(
        pending,
        id,
    ) by {
        let a = choose|a: int| 0 <= a < rest.len() && (#[trigger] rest[a]).identity() == id;
        if a < i {
            assert(pending[a].identity() == id);
        } else {
            assert(pending[a + 1].identity() == id);
        }
    }
    if distinct_identities(pending) {
        assert forall|a: int, b: int| 0 <= a < b < rest.len() implies (#[trigger] rest[a]).identity()
            != (#[trigger] rest[b]).identity() by {
            let from_a = if a < i {
                a
            } else {
                a + 1
            };
            let from_b = if b < i {
                b
            } else {
                b + 1
            };
            assert(rest[a] == pending[from_a]);
            assert(rest[b] == pending[from_b]);
        }
        if is_pending(rest, pending[i].identity()) {
            let a = choose|a: int|
                0 <= a < rest.len() && (#[trigger] rest[a]).identity() == pending[i].identity();
            let from_a = if a < i {
                a
            } else {
                a + 1
            };
            assert(rest[a] == pending[from_a]);
            assert(pending[from_a].identity() != pending[i].identity());
        }
    }
}

/// No duplicate delivery within one poll. Where no two waiting records share
/// an identity, the same holds of the records that a poll leaves and of the
/// records that it hands out, however often the kernel repeats a
/// notification; and no record that was handed out still waits.
pub proof fn lemma_delivered_once<T: GeneralEvent>(pending: Seq<T>, ready: Seq<EventIdentity>)
    requires
        distinct_identities(pending),
    ensures
        distinct_identities(remaining(pending, ready)),
        distinct_identities(delivered(pending, ready)),
        forall|k: int|
            0 <= k < delivered(pending, ready).len() ==> !is_pending(
                remaining(pending, ready),
                (#[trigger] delivered(pending, ready)[k]).identity(),
            ),
    decreases ready.len(),
{
    if ready.len() > 0 {
        lemma_delivered_once(pending, ready.drop_last());
        let before = remaining(pending, ready.drop_last());
        let earlier = delivered(pending, ready.drop_last());
        if is_pending(before, ready.last()) {
            lemma_first_match_some(before, ready.last());
            let i = first_match(before, ready.last())->0;
            let taken = before[i];
            let rest = before.remove(i);
            let out = earlier.push(taken);
            lemma_remove_keeps(before, i);
            assert forall|k: int| 0 <= k < out.len() implies !is_pending(
                rest,
                (#[trigger] out[k]).identity(),
            ) by {
                if k < earlier.len() {
                    assert(out[k] == earlier[k]);
                    assert(!is_pending(before, earlier[k].identity()));
                }
            }
            assert forall|a: int, b: int| 0 <= a < b < out.len() implies (#[trigger] out[a]).identity()
                != (#[trigger] out[b]).identity() by {
                if b == earlier.len() {
                    assert(out[a] == earlier[a]);
                    assert(!is_pending(before, earlier[a].identity()));
                } else {
                    assert(out[a] == earlier[a]);
                    assert(out[b] == earlier[b]);
                }
            }
        }
    }
}

/// Every record that a poll hands out was asked for by a notification and
/// waited before the poll; every record that it leaves waited before.
pub proof fn lemma_delivered_were_ready<T: GeneralEvent>(
    pending: Seq<T>,
    ready: Seq<EventIdentity>,
)
    ensures
        forall|k: int|
            0 <= k < delivered(pending, ready).len() ==> ready.contains(
                (#[trigger] delivered(pending, ready)[k]).identity(),
            ) && pending.contains(delivered(pending, ready)[k]),
        forall|k: int|
            0 <= k < remaining(pending, ready).len() ==> pending.contains(
                #[trigger] remaining(pending, ready)[k],
            ),
    decreases ready.len(),
{
    if ready.len() > 0 {
        let init = ready.drop_last();
        lemma_delivered_were_ready(pending, init);
        let before = remaining(pending, init);
        let earlier = delivered(pending, init);
        assert forall|id: EventIdentity| init.contains(id) implies ready.contains(id) by {
            let j = choose|j: int| 0 <= j < init.len() && init[j] == id;
            assert(ready[j] == id);
        }
        assert(ready.contains(ready.last())) by {
            assert(ready[ready.len() - 1] == ready.last());
        }
        if is_pending(before, ready.last()) {
            lemma_first_match_some(before, ready.last());
            let i = first_match(before, ready.last())->0;
            before.remove_ensures(i);
            let rest = before.remove(i);
            let out = earlier.push(before[i]);
            assert(pending.contains(before[i]));
            assert forall|k: int| 0 <= k < out.len() implies ready.contains(
                (#[trigger] out[k]).identity(),
            ) && pending.contains(out[k]) by {
                if k < earlier.len() {
                    assert(out[k] == earlier[k]);
                }
            }
            assert forall|k: int| 0 <= k < rest.len() implies pending.contains(
                #[trigger] rest[k],
            ) by {
                if k < i {
                    assert(rest[k] == before[k]);
                } else {
                    assert(rest[k] == before[k + 1]);
                }
            }
        }
    }
}

/// No duplicate delivery across polls. Where no two waiting records share an
/// identity, a record that one poll has handed out is not handed out by a
/// later poll, whatever the kernel reports then, unless it was registered
/// again in between.
pub proof fn lemma_no_second_delivery<T: GeneralEvent>(
    pending: Seq<T>,
    first: Seq<EventIdentity>,
    second: Seq<EventIdentity>,
)
    requires
        distinct_identities(pending),
    ensures
        forall|i: int, j: int|
            0 <= i < delivered(pending, first).len() && 0 <= j < delivered(
                remaining(pending, first),
                second,
            ).len() ==> (#[trigger] delivered(pending, first)[i]).identity() != (
            #[trigger] delivered(remaining(pending, first), second)[j]).identity(),
{
    let left = remaining(pending, first);
    let once = delivered(pending, first);
    let again = delivered(left, second);
    lemma_delivered_once(pending, first);
    lemma_delivered_were_ready(left, second);
    assert forall|i: int, j: int| 0 <= i < once.len() && 0 <= j < again.len() implies (
    #[trigger] once[i]).identity() != (#[trigger] again[j]).identity() by {
        assert(left.contains(again[j]));
        let at = choose|at: int| 0 <= at < left.len() && left[at] == again[j];
        assert(left[at].identity() == again[j].identity());
        assert(is_pending(left, again[j].identity()));
        assert(!is_pending(left, once[i].identity()));
    }
}

/// A record that waited is, after a poll, either still waiting or handed out.
pub proof fn lemma_poll_keeps_or_delivers<T: GeneralEvent>(
    pending: Seq<T>,
    ready: Seq<EventIdentity>,
)
    ensures
        forall|i: int|
            0 <= i < pending.len() ==> remaining(pending, ready).contains(#[trigger] pending[i])
                || delivered(pending, ready).contains(pending[i]),
{
    broadcast use vstd::multiset::group_multiset_axioms;

    let left = remaining(pending, ready);
    let out = delivered(pending, ready);
    lemma_poll_conserves(pending, ready);
    pending.to_multiset_ensures();
    left.to_multiset_ensures();
    out.to_multiset_ensures();
    assert forall|i: int| 0 <= i < pending.len() implies left.contains(#[trigger] pending[i])
        || out.contains(pending[i]) by {
        assert(pending.contains(pending[i]));
        assert(pending.to_multiset().count(pending[i]) > 0);
        assert(left.to_multiset().add(out.to_multiset()).count(pending[i]) > 0);
    }
}

/// What a poll does, said without the order of the notifications. Where no
/// two waiting records share an identity: no record that still waits was
/// named by a notification; every record that was named by none still waits;
/// and every notification that names a waiting record has that record
/// handed out.
pub proof fn lemma_poll_serves_all<T: GeneralEvent>(pending: Seq<T>, ready: Seq<EventIdentity>)
    requires
        distinct_identities(pending),
    ensures
        forall|k: int|
            0 <= k < remaining(pending, ready).len() ==> !ready.contains(
                (#[trigger] remaining(pending, ready)[k]).identity(),
            ),
        forall|i: int|
            0 <= i < pending.len() && !ready.contains((#[trigger] pending[i]).identity())
                ==> remaining(pending, ready).contains(pending[i]),
        forall|j: int|
            0 <= j < ready.len() && is_pending(pending, #[trigger] ready[j]) ==> is_pending(
                delivered(pending, ready),
                ready[j],
            ),
{
    let left = remaining(pending, ready);
    let out = delivered(pending, ready);
    lemma_still_waiting_unnamed(pending, ready);
    lemma_poll_keeps_or_delivers(pending, ready);
    lemma_delivered_were_ready(pending, ready);
    assert forall|i: int|
        0 <= i < pending.len() && !ready.contains(
            (#[trigger] pending[i]).identity(),
        ) implies left.contains(pending[i]) by {
        if out.contains(pending[i]) {
            let k = choose|k: int| 0 <= k < out.len() && out[k] == pending[i];
            assert(ready.contains(out[k].identity()));
        }
    }
    assert forall|j: int| 0 <= j < ready.len() && is_pending(
        pending,
        #[trigger] ready[j],
    ) implies is_pending(out, ready[j]) by {
        let i = choose|i: int| 0 <= i < pending.len() && (#[trigger] pending[i]).identity() == ready[j];
        if left.contains(pending[i]) {
            let k = choose|k: int| 0 <= k < left.len() && left[k] == pending[i];
            assert(!ready.contains(left[k].identity()));
            assert(ready.contains(ready[j]));
        } else {
            let k = choose|k: int| 0 <= k < out.len() && out[k] == pending[i];
            assert(out[k].identity() == ready[j]);
        }
    }
}

proof fn lemma_still_waiting_unnamed<T: GeneralEvent>(pending: Seq<T>, ready: Seq<EventIdentity>)
    requires
        distinct_identities(pending),
    ensures
        forall|k: int|
            0 <= k < remaining(pending, ready).len() ==> !ready.contains(
                (#[trigger] remaining(pending, ready)[k]).identity(),
            ),
    decreases ready.len(),
{
    if ready.len() > 0 {
        let init = ready.drop_last();
        lemma_still_waiting_unnamed(pending, init);
        lemma_delivered_once(pending, init);
        let before = remaining(pending, init);
        let left = remaining(pending, ready);
        if is_pending(before, ready.last()) {
            lemma_first_match_some(before, ready.last());
            let i = first_match(before, ready.last())->0;
            before.remove_ensures(i);
            lemma_remove_keeps(before, i);
        }
        assert forall|k: int| 0 <= k < left.len() implies !ready.contains(
            (#[trigger] left[k]).identity(),
        ) by {
            let id = left[k].identity();
            assert(is_pending(left, id));
            assert(is_pending(before, id));
            let at = choose|at: int| 0 <= at < before.len() && (#[trigger] before[at]).identity() == id;
            assert(!init.contains(before[at].identity()));
            if ready.contains(id) {
                let j = choose|j: int| 0 <= j < ready.len() && ready[j] == id;
                if j < init.len() {
                    assert(init[j] == id);
                    assert(init.contains(id));
                } else {
                    assert(id == ready.last());
                }
            }
        }
    }
}

} // verus!
