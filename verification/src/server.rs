//! What is done with each message: the requests in flight, and the answer that a
//! message gets.
//!
//! A request in flight has a slot of its own for as long as it is worked off. The
//! id that the host gave it leads to its slot, so that a cancel finds it. When two
//! requests in flight have the same id, the id leads to the later one, and it leads
//! nowhere once either has ended.
use vstd::prelude::*;

use crate::evaluation::{ErrorReply, EvalMethod, ReplyCode};
#[allow(unused_imports)]
use crate::evaluation::ReplyView;
use crate::text::{quoted, same_text};
#[allow(unused_imports)]
use crate::text::quoted_text;

verus! {

// Requests in flight

/// A request in flight.
#[derive(Debug)]
pub struct InFlight {
    pub id: String,
    /// Whether a cancel has come for it.
    pub cancelled: bool,
    /// Its engine, by its place in the pool, once that is known.
    pub handle: Option<usize>,
}

/// A request in flight, with its id as a sequence of characters.
pub struct FlightView {
    pub id: Seq<char>,
    pub cancelled: bool,
    pub handle: Option<usize>,
}

impl View for InFlight {
    type V = FlightView;

    open spec fn view(&self) -> FlightView {
        FlightView { id: self.id@, cancelled: self.cancelled, handle: self.handle }
    }
}

/// The requests in flight, by slot, and where each id leads.
#[derive(Debug)]
pub struct InFlightMap {
    by_id: Vec<(String, usize)>,
    slots: Vec<Option<InFlight>>,
}

/// The requests in flight as two maps.
#[verifier::ext_equal]
pub struct TableView {
    pub ids: Map<Seq<char>, int>,
    pub slots: Map<int, FlightView>,
}

spec fn ids_in(list: Seq<(String, usize)>) -> Map<Seq<char>, int>
    decreases list.len(),
{
    if list.len() == 0 {
        Map::empty()
    } else {
        ids_in(list.drop_last()).insert(list.last().0@, list.last().1 as int)
    }
}

spec fn slots_in(list: Seq<Option<InFlight>>) -> Map<int, FlightView> {
    Map::new(|i: int| 0 <= i < list.len() && list[i] is Some, |i: int| list[i]->0@)
}

impl View for InFlightMap {
    type V = TableView;

    closed spec fn view(&self) -> TableView {
        TableView { ids: ids_in(self.by_id@), slots: slots_in(self.slots@) }
    }
}

/// Every id leads to a request in flight that has it.
pub open spec fn leads_right(t: TableView) -> bool {
    forall|id: Seq<char>| #[trigger]
        t.ids.dom().contains(id) ==> t.slots.dom().contains(t.ids[id]) && t.slots[t.ids[id]].id == id
}

/// A request that has just come in.
pub open spec fn fresh(id: Seq<char>) -> FlightView {
    FlightView { id, cancelled: false, handle: None }
}

/// The table with a request put in a slot.
pub open spec fn begun(t: TableView, id: Seq<char>, slot: int) -> TableView {
    TableView { ids: t.ids.insert(id, slot), slots: t.slots.insert(slot, fresh(id)) }
}

/// The table after a cancel for an id.
pub open spec fn cancelled(t: TableView, id: Seq<char>) -> TableView {
    if t.ids.dom().contains(id) {
        let slot = t.ids[id];
        TableView {
            slots: t.slots.insert(slot, FlightView { cancelled: true, ..t.slots[slot] }),
            ..t
        }
    } else {
        t
    }
}

/// The table with the engine of a request noted.
pub open spec fn attached(t: TableView, slot: int, handle: usize) -> TableView {
    TableView {
        slots: t.slots.insert(slot, FlightView { handle: Some(handle), ..t.slots[slot] }),
        ..t
    }
}

/// A cancel has come for the request in a slot.
pub open spec fn sees_cancel(t: TableView, slot: int) -> bool {
    t.slots[slot].cancelled
}

/// The table after a request has ended.
pub open spec fn ended(t: TableView, slot: int) -> TableView {
    TableView { ids: t.ids.remove(t.slots[slot].id), slots: t.slots.remove(slot) }
}

impl InFlightMap {
    /// Every id leads to a request in flight that has it.
    pub open spec fn wf(&self) -> bool {
        leads_right(self@)
    }

    /// No request in flight.
    pub fn new() -> (r: InFlightMap)
        ensures
            r.wf(),
            r@ == (TableView { ids: Map::empty(), slots: Map::empty() }),
    {
        let r = InFlightMap { by_id: Vec::new(), slots: Vec::new() };
        assert(r@.slots == Map::<int, FlightView>::empty());
        r
    }

    /// The entries of the id list without one id.
    fn without_id(&self, id: &str) -> (r: Vec<(String, usize)>)
        ensures
            ids_in(r@) == ids_in(self.by_id@).remove(id@),
    {
        let mut r: Vec<(String, usize)> = Vec::new();
        let mut i: usize = 0;
        assert(ids_in(r@) == ids_in(self.by_id@.take(0)).remove(id@));
        while i < self.by_id.len()
            invariant
                i <= self.by_id.len(),
                ids_in(r@) == ids_in(self.by_id@.take(i as int)).remove(id@),
            decreases self.by_id.len() - i,
        {
            proof {
                let next = self.by_id@.take(i + 1);
                assert(next.drop_last() == self.by_id@.take(i as int));
                assert(next.last() == self.by_id@[i as int]);
            }
            if !same_text(self.by_id[i].0.as_str(), id) {
                let ghost before = r@;
                r.push((self.by_id[i].0.clone(), self.by_id[i].1));
                assert(r@.drop_last() == before);
            }
            i = i + 1;
            assert(ids_in(r@) == ids_in(self.by_id@.take(i as int)).remove(id@));
        }
        assert(self.by_id@.take(i as int) == self.by_id@);
        r
    }

    /// The slot that an id leads to.
    fn slot_of(&self, id: &str) -> (r: Option<usize>)
        ensures
            match r {
                Some(slot) => self@.ids.dom().contains(id@) && self@.ids[id@] == slot,
                None => !self@.ids.dom().contains(id@),
            },
    {
        let mut found: Option<usize> = None;
        let mut i: usize = 0;
        while i < self.by_id.len()
            invariant
                i <= self.by_id.len(),
                ({
                    let m = ids_in(self.by_id@.take(i as int));
                    match found {
                        Some(slot) => m.dom().contains(id@) && m[id@] == slot,
                        None => !m.dom().contains(id@),
                    }
                }),
            decreases self.by_id.len() - i,
        {
            proof {
                let next = self.by_id@.take(i + 1);
                assert(next.drop_last() == self.by_id@.take(i as int));
                assert(next.last() == self.by_id@[i as int]);
            }
            if same_text(self.by_id[i].0.as_str(), id) {
                found = Some(self.by_id[i].1);
            }
            i = i + 1;
        }
        assert(self.by_id@.take(i as int) == self.by_id@);
        found
    }

    /// Puts a new request in a slot that no request in flight has.
    pub fn begin(&mut self, id: &str) -> (slot: usize)
        requires
            old(self).wf(),
        ensures
            final(self).wf(),
            !old(self)@.slots.dom().contains(slot as int),
            final(self)@ == begun(old(self)@, id@, slot as int),
    {
        let ghost t = self@;
        let mut slot: usize = 0;
        while slot < self.slots.len() && self.slots[slot].is_some()
            invariant
                slot <= self.slots.len(),
                *self == *old(self),
            decreases self.slots.len() - slot,
        {
            slot = slot + 1;
        }
        let entry = InFlight { id: id.to_owned(), cancelled: false, handle: None };
        let ghost view = entry@;
        if slot < self.slots.len() {
            self.slots.set(slot, Some(entry));
        } else {
            self.slots.push(Some(entry));
        }
        proof {
            assert(view == fresh(id@));
            assert(slots_in(self.slots@) == t.slots.insert(slot as int, fresh(id@)));
        }
        let mut list = self.without_id(id);
        let ghost before = list@;
        list.push((id.to_owned(), slot));
        self.by_id = list;
        proof {
            assert(list@.drop_last() == before);
            assert(ids_in(list@) == t.ids.insert(id@, slot as int));
            assert(self@ == begun(t, id@, slot as int));
        }
        slot
    }

    /// Notes a cancel for an id: the engine to be interrupted, if the request has
    /// one yet; nothing where no request in flight has the id.
    pub fn cancel(&mut self, id: &str) -> (r: Option<Option<usize>>)
        requires
            old(self).wf(),
        ensures
            final(self).wf(),
            final(self)@ == cancelled(old(self)@, id@),
            r == (if old(self)@.ids.dom().contains(id@) {
                Some(old(self)@.slots[old(self)@.ids[id@]].handle)
            } else {
                None
            }),
    {
        let ghost t = self@;
        match self.slot_of(id) {
            None => None,
            Some(slot) => {
                assert(t.ids.dom().contains(id@));
                assert(t.slots.dom().contains(slot as int));
                let handle = self.change(slot, true, None);
                assert(self@ == cancelled(t, id@));
                Some(handle)
            },
        }
    }

    /// Changes the request in a slot: sets its cancel flag where `cancel` says so,
    /// and its engine where one is given. Gives the engine that it had.
    fn change(&mut self, slot: usize, cancel: bool, handle: Option<usize>) -> (r: Option<usize>)
        requires
            old(self)@.slots.dom().contains(slot as int),
        ensures
            r == old(self)@.slots[slot as int].handle,
            final(self)@.ids == old(self)@.ids,
            final(self)@.slots == old(self)@.slots.insert(
                slot as int,
                FlightView {
                    id: old(self)@.slots[slot as int].id,
                    cancelled: old(self)@.slots[slot as int].cancelled || cancel,
                    handle: match handle {
                        Some(h) => Some(h),
                        None => old(self)@.slots[slot as int].handle,
                    },
                },
            ),
    {
        let ghost t = self@;
        let mut r: Option<usize> = None;
        let mut next: Option<InFlight> = None;
        match &self.slots[slot] {
            Some(flight) => {
                r = flight.handle;
                next = Some(
                    InFlight {
                        id: flight.id.clone(),
                        cancelled: flight.cancelled || cancel,
                        handle: match handle {
                            Some(h) => Some(h),
                            None => flight.handle,
                        },
                    },
                );
            },
            None => {},
        }
        self.slots.set(slot, next);
        proof {
            let f = t.slots[slot as int];
            assert(self@.slots == t.slots.insert(
                slot as int,
                FlightView {
                    id: f.id,
                    cancelled: f.cancelled || cancel,
                    handle: match handle {
                        Some(h) => Some(h),
                        None => f.handle,
                    },
                },
            ));
        }
        r
    }

    /// Notes the engine of a request; says whether a cancel has come for it.
    pub fn attach(&mut self, slot: usize, handle: usize) -> (r: bool)
        requires
            old(self).wf(),
            old(self)@.slots.dom().contains(slot as int),
        ensures
            final(self).wf(),
            final(self)@ == attached(old(self)@, slot as int, handle),
            r == sees_cancel(old(self)@, slot as int),
    {
        let ghost t = self@;
        let r = match &self.slots[slot] {
            Some(flight) => flight.cancelled,
            None => false,
        };
        self.change(slot, false, Some(handle));
        assert(self@ == attached(t, slot as int, handle));
        r
    }

    /// Takes a request that has ended out of its slot. Its id leads nowhere after
    /// that.
    pub fn finish(&mut self, slot: usize)
        requires
            old(self).wf(),
            old(self)@.slots.dom().contains(slot as int),
        ensures
            final(self).wf(),
            final(self)@ == ended(old(self)@, slot as int),
    {
        let ghost t = self@;
        let id = match &self.slots[slot] {
            Some(flight) => flight.id.clone(),
            None => String::new(),
        };
        let list = self.without_id(id.as_str());
        self.by_id = list;
        self.slots.set(slot, None);
        proof {
            assert(self@.slots == t.slots.remove(slot as int));
            assert(self@ == ended(t, slot as int));
            assert forall|other: Seq<char>| #[trigger] self@.ids.dom().contains(other) implies self@.slots.dom().contains(
                self@.ids[other],
            ) && self@.slots[self@.ids[other]].id == other by {
                assert(t.ids.dom().contains(other));
            }
        }
    }
}

// What holds of the table

/// A cancel is never lost between a request and its engine: if the engine is noted
/// first, the cancel gets it to interrupt; if the cancel comes first, noting the
/// engine shows it.
pub proof fn law_cancel_not_lost(t: TableView, id: Seq<char>, handle: usize)
    requires
        leads_right(t),
        t.ids.dom().contains(id),
    ensures
        ({
            let slot = t.ids[id];
            let noted = attached(t, slot, handle);
            &&& noted.slots[noted.ids[id]].handle == Some(handle)
            &&& cancelled(t, id).slots[slot].cancelled
            &&& cancelled(noted, id) == attached(cancelled(t, id), slot, handle)
        }),
{
    let slot = t.ids[id];
    let noted = attached(t, slot, handle);
    assert(cancelled(noted, id).slots == attached(cancelled(t, id), slot, handle).slots);
}

/// A cancel touches no request but the one that its id leads to.
pub proof fn law_cancel_touches_one(t: TableView, id: Seq<char>, slot: int)
    requires
        leads_right(t),
        t.slots.dom().contains(slot),
        t.slots[slot].id != id,
    ensures
        cancelled(t, id).slots.dom().contains(slot),
        cancelled(t, id).slots[slot] == t.slots[slot],
{
}

/// A request that came in and ended leaves the other requests as they were, and a
/// cancel for its id finds nothing.
pub proof fn law_ended_request_gone(t: TableView, id: Seq<char>, slot: int)
    requires
        leads_right(t),
        !t.slots.dom().contains(slot),
    ensures
        ended(begun(t, id, slot), slot).slots == t.slots,
        !ended(begun(t, id, slot), slot).ids.dom().contains(id),
        forall|other: Seq<char>|
            other != id && #[trigger] t.ids.dom().contains(other) ==> ended(
                begun(t, id, slot),
                slot,
            ).ids.dom().contains(other) && ended(begun(t, id, slot), slot).ids[other] == t.ids[other],
{
    assert(ended(begun(t, id, slot), slot).slots == t.slots);
}

// Messages

/// What a message asks for, as far as it could be read.
#[derive(Debug)]
pub enum Call {
    Describe,
    Shutdown,
    /// A cancel, with the id of the request that it is for.
    Cancel(Result<String, String>),
    /// An evaluation, and whether its parameters can be read.
    Evaluate(EvalMethod, Result<(), String>),
    /// A method that is not known.
    Other(String),
}

/// A message from the host. One without an id is not answered.
#[derive(Debug)]
pub struct Message {
    pub id: Option<String>,
    pub call: Call,
}

/// Why a message is passed over.
#[derive(Debug)]
pub enum Ignored {
    /// An evaluation with no id to answer to.
    NoId,
    /// A cancel for a request that is not in flight.
    UnknownRequest,
    /// A cancel that cannot be read.
    MalformedCancel(String),
    /// An unknown method that nobody waits for, or a description that nobody asked
    /// to get.
    Unanswered,
}

/// What is done with a message.
#[derive(Debug)]
pub enum Action {
    /// Answer with the engine's description.
    Describe,
    /// Answer with nothing to say where an answer is expected, and exit.
    Exit(bool),
    /// Answer with an error.
    Reply(ErrorReply),
    /// Work off the request in this slot, and answer it when it has ended.
    Start(usize),
    /// Interrupt this engine, if there is one.
    Interrupt(Option<usize>),
    /// Do nothing.
    Ignore(Ignored),
}

/// What is done with a message, with its texts as sequences of characters.
pub enum ActionView {
    Describe,
    Exit(bool),
    Reply(ReplyView),
    Start(int),
    Interrupt(Option<usize>),
    IgnoreNoId,
    IgnoreUnknownRequest,
    IgnoreMalformedCancel(Seq<char>),
    IgnoreUnanswered,
}

impl View for Action {
    type V = ActionView;

    open spec fn view(&self) -> ActionView {
        match self {
            Action::Describe => ActionView::Describe,
            Action::Exit(answer) => ActionView::Exit(*answer),
            Action::Reply(e) => ActionView::Reply(e@),
            Action::Start(slot) => ActionView::Start(*slot as int),
            Action::Interrupt(handle) => ActionView::Interrupt(*handle),
            Action::Ignore(Ignored::NoId) => ActionView::IgnoreNoId,
            Action::Ignore(Ignored::UnknownRequest) => ActionView::IgnoreUnknownRequest,
            Action::Ignore(Ignored::MalformedCancel(m)) => ActionView::IgnoreMalformedCancel(m@),
            Action::Ignore(Ignored::Unanswered) => ActionView::IgnoreUnanswered,
        }
    }
}

/// What is done with a message, given the requests in flight; `slot` is where an
/// evaluation that it starts is put.
pub open spec fn action_on(t: TableView, message: Message, slot: int) -> ActionView {
    match message.call {
        Call::Describe => if message.id is Some {
            ActionView::Describe
        } else {
            ActionView::IgnoreUnanswered
        },
        Call::Shutdown => ActionView::Exit(message.id is Some),
        Call::Cancel(Ok(id)) => if t.ids.dom().contains(id@) {
            ActionView::Interrupt(t.slots[t.ids[id@]].handle)
        } else {
            ActionView::IgnoreUnknownRequest
        },
        Call::Cancel(Err(m)) => ActionView::IgnoreMalformedCancel(m@),
        Call::Evaluate(_, read) => if message.id is None {
            ActionView::IgnoreNoId
        } else {
            match read {
                Ok(()) => ActionView::Start(slot),
                Err(m) => ActionView::Reply(
                    ReplyView { code: ReplyCode::InvalidParams, message: m@ },
                ),
            }
        },
        Call::Other(method) => if message.id is Some {
            ActionView::Reply(
                ReplyView {
                    code: ReplyCode::MethodNotFound,
                    message: "unknown method "@ + quoted_text(method@),
                },
            )
        } else {
            ActionView::IgnoreUnanswered
        },
    }
}

/// The requests in flight after a message; `slot` is where an evaluation that it
/// starts is put.
pub open spec fn table_after(t: TableView, message: Message, slot: int) -> TableView {
    match message.call {
        Call::Cancel(Ok(id)) => cancelled(t, id@),
        Call::Evaluate(_, Ok(())) => match message.id {
            Some(id) => begun(t, id@, slot),
            None => t,
        },
        _ => t,
    }
}

/// Does what can be done at once with a message, and says what else is to be done.
pub fn dispatch(in_flight: &mut InFlightMap, message: Message) -> (r: Action)
    requires
        old(in_flight).wf(),
    ensures
        final(in_flight).wf(),
        match r {
            Action::Start(slot) => !old(in_flight)@.slots.dom().contains(slot as int) && r@
                == action_on(old(in_flight)@, message, slot as int) && final(in_flight)@ == table_after(
                old(in_flight)@,
                message,
                slot as int,
            ),
            _ => r@ == action_on(old(in_flight)@, message, 0) && final(in_flight)@ == table_after(
                old(in_flight)@,
                message,
                0,
            ),
        },
{
    match message.call {
        Call::Describe => {
            if message.id.is_some() {
                Action::Describe
            } else {
                Action::Ignore(Ignored::Unanswered)
            }
        },
        Call::Shutdown => Action::Exit(message.id.is_some()),
        Call::Cancel(Ok(id)) => match in_flight.cancel(id.as_str()) {
            Some(handle) => Action::Interrupt(handle),
            None => Action::Ignore(Ignored::UnknownRequest),
        },
        Call::Cancel(Err(e)) => Action::Ignore(Ignored::MalformedCancel(e)),
        Call::Evaluate(_, read) => match message.id {
            None => Action::Ignore(Ignored::NoId),
            Some(id) => match read {
                Ok(()) => Action::Start(in_flight.begin(id.as_str())),
                Err(m) => Action::Reply(ErrorReply { code: ReplyCode::InvalidParams, message: m }),
            },
        },
        Call::Other(method) => {
            if message.id.is_some() {
                let mut m = String::from_str("unknown method ");
                m.append(quoted(method.as_str()).as_str());
                Action::Reply(ErrorReply { code: ReplyCode::MethodNotFound, message: m })
            } else {
                Action::Ignore(Ignored::Unanswered)
            }
        },
    }
}

/// The message is answered at once.
pub open spec fn answers_now(action: ActionView) -> bool {
    action is Describe || action == ActionView::Exit(true) || action is Reply
}

/// The message is answered when its evaluation has ended.
pub open spec fn answers_later(action: ActionView) -> bool {
    action is Start
}

/// A message with an id is answered exactly once, at once or when its evaluation
/// has ended, unless it is a cancel; a cancel, and a message without an id, is never
/// answered.
pub proof fn law_one_answer(t: TableView, message: Message, slot: int)
    ensures
        message.id is Some && !(message.call is Cancel) ==> (answers_now(action_on(t, message, slot))
            <==> !answers_later(action_on(t, message, slot))),
        message.id is None || message.call is Cancel ==> !answers_now(action_on(t, message, slot))
            && !answers_later(action_on(t, message, slot)),
{
}

/// A request that comes in has its slot, is found under its id, is not cancelled and has
/// no engine yet; every other request stays as it was.
pub proof fn law_request_comes_in(t: TableView, id: Seq<char>, slot: int)
    requires
        leads_right(t),
        !t.slots.dom().contains(slot),
    ensures
        ({
            let next = begun(t, id, slot);
            &&& leads_right(next)
            &&& next.slots.dom().contains(slot)
            &&& next.slots[slot].id == id
            &&& !next.slots[slot].cancelled
            &&& next.slots[slot].handle is None
            &&& next.ids.dom().contains(id) && next.ids[id] == slot
            &&& forall|other: int| #[trigger]
                t.slots.dom().contains(other) ==> next.slots.dom().contains(other) && next.slots[other]
                    == t.slots[other]
            &&& forall|other: Seq<char>|
                other != id ==> (#[trigger] next.ids.dom().contains(other) <==> t.ids.dom().contains(other))
                    && (t.ids.dom().contains(other) ==> next.ids[other] == t.ids[other])
        }),
{
}

/// Noting an engine changes nothing but the engine of that request, and a cancel that
/// had come, or had not, stays as it was.
pub proof fn law_attach_changes_one(t: TableView, slot: int, handle: usize, other: int)
    requires
        t.slots.dom().contains(slot),
        t.slots.dom().contains(other),
    ensures
        ({
            let next = attached(t, slot, handle);
            &&& next.ids == t.ids
            &&& next.slots.dom() == t.slots.dom()
            &&& next.slots[slot].handle == Some(handle)
            &&& next.slots[slot].cancelled == t.slots[slot].cancelled
            &&& next.slots[slot].id == t.slots[slot].id
            &&& other != slot ==> next.slots[other] == t.slots[other]
        }),
{
    assert(attached(t, slot, handle).slots.dom() =~= t.slots.dom());
}

/// A cancel marks its request and nothing else of it, and marking it again changes
/// nothing; a cancel for an id that leads nowhere changes nothing at all.
pub proof fn law_cancel_marks(t: TableView, id: Seq<char>)
    requires
        leads_right(t),
    ensures
        t.ids.dom().contains(id) ==> {
            let next = cancelled(t, id);
            &&& next.slots[t.ids[id]].cancelled
            &&& next.slots[t.ids[id]].handle == t.slots[t.ids[id]].handle
            &&& next.slots[t.ids[id]].id == t.slots[t.ids[id]].id
            &&& next.slots.dom() == t.slots.dom()
            &&& next.ids == t.ids
            &&& cancelled(next, id) == next
        },
        !t.ids.dom().contains(id) ==> cancelled(t, id) == t,
{
    if t.ids.dom().contains(id) {
        let next = cancelled(t, id);
        assert(next.slots.dom() =~= t.slots.dom());
        assert(cancelled(next, id).slots =~= next.slots);
    }
}

/// What each message comes to, where somebody waits for the answer: a description is
/// given, an evaluation that can be read is started and one that cannot is answered with
/// what is wrong with it, a method that is not known is answered as such, and a shutdown
/// is answered before the exit. A cancel interrupts the engine of the request that its id
/// leads to, whether somebody waits for an answer or not.
pub proof fn law_message_acted_on(t: TableView, message: Message, slot: int)
    ensures
        ({
            let action = action_on(t, message, slot);
            let waits = message.id is Some;
            &&& message.call is Describe ==> (action is Describe <==> waits)
            &&& message.call is Shutdown ==> action == ActionView::Exit(waits)
            &&& message.call matches Call::Evaluate(_, Ok(())) ==> {
                &&& waits ==> action == ActionView::Start(slot)
                &&& !waits ==> action is IgnoreNoId
            }
            &&& message.call matches Call::Evaluate(_, Err(m)) ==> {
                &&& waits ==> (action matches ActionView::Reply(e) && e.code == ReplyCode::InvalidParams
                    && e.message == m@)
                &&& !waits ==> action is IgnoreNoId
            }
            &&& message.call matches Call::Other(_) ==> {
                &&& waits ==> (action matches ActionView::Reply(e) && e.code == ReplyCode::MethodNotFound)
                &&& !waits ==> action is IgnoreUnanswered
            }
            &&& message.call matches Call::Cancel(Ok(id)) ==> {
                &&& t.ids.dom().contains(id@) ==> action == ActionView::Interrupt(
                    t.slots[t.ids[id@]].handle,
                )
                &&& !t.ids.dom().contains(id@) ==> action is IgnoreUnknownRequest
            }
            &&& message.call matches Call::Cancel(Err(m)) ==> action == ActionView::IgnoreMalformedCancel(
                m@,
            )
        }),
{
}

/// Only an evaluation that is started and a cancel that finds its request change what is
/// in flight; a started evaluation has its slot from then on, under its id.
pub proof fn law_message_in_flight(t: TableView, message: Message, slot: int)
    requires
        leads_right(t),
        !t.slots.dom().contains(slot),
    ensures
        ({
            let action = action_on(t, message, slot);
            let next = table_after(t, message, slot);
            &&& action is Start ==> next.slots.dom().contains(slot) && next.slots[slot].id
                == message.id->0@ && next.ids[message.id->0@] == slot && !next.slots[slot].cancelled
            &&& action is Interrupt ==> (message.call matches Call::Cancel(Ok(id))
                && next.slots[t.ids[id@]].cancelled)
            &&& !(action is Start) && !(action is Interrupt) ==> next == t
        }),
{
}

/// A cancel that comes while a request waits for its engine is seen when the engine is
/// noted, and one that comes after is given the engine to interrupt: from the message
/// that starts a request on, its cancel never goes unheard.
pub proof fn law_started_request_cancelled(
    t: TableView,
    start: Message,
    cancel: Message,
    id: Seq<char>,
    slot: int,
    handle: usize,
)
    requires
        leads_right(t),
        !t.slots.dom().contains(slot),
        start.id matches Some(s) && s@ == id,
        start.call matches Call::Evaluate(_, Ok(())),
        cancel.call matches Call::Cancel(Ok(s)) && s@ == id,
    ensures
        ({
            let begun_table = table_after(t, start, slot);
            let noted = attached(begun_table, slot, handle);
            &&& table_after(begun_table, cancel, 0).slots[slot].cancelled
            &&& action_on(begun_table, cancel, 0) == ActionView::Interrupt(None)
            &&& action_on(noted, cancel, 0) == ActionView::Interrupt(Some(handle))
        }),
{
}

/// A request sees a cancel exactly if one came for its id since it came in: none when it
/// has just come in, none of one for another id, and one of its own.
pub proof fn law_cancel_seen(t: TableView, id: Seq<char>, slot: int, other: Seq<char>)
    requires
        leads_right(t),
        !t.slots.dom().contains(slot),
        other != id,
    ensures
        !sees_cancel(begun(t, id, slot), slot),
        !sees_cancel(cancelled(begun(t, id, slot), other), slot),
        sees_cancel(cancelled(begun(t, id, slot), id), slot),
        sees_cancel(cancelled(cancelled(begun(t, id, slot), id), other), slot),
{
}

/// When a request has ended its slot is free and its id leads nowhere, even where the id
/// had come to lead to a later request; every other request and every other id stay as
/// they were.
pub proof fn law_ended_id_leads_nowhere(t: TableView, slot: int, other: int, id: Seq<char>)
    requires
        leads_right(t),
        t.slots.dom().contains(slot),
        t.slots.dom().contains(other),
        other != slot,
        id != t.slots[slot].id,
    ensures
        leads_right(ended(t, slot)),
        !ended(t, slot).slots.dom().contains(slot),
        !ended(t, slot).ids.dom().contains(t.slots[slot].id),
        ended(t, slot).slots.dom().contains(other),
        ended(t, slot).slots[other] == t.slots[other],
        ended(t, slot).ids.dom().contains(id) <==> t.ids.dom().contains(id),
        t.ids.dom().contains(id) ==> ended(t, slot).ids[id] == t.ids[id],
{
}

} // verus!
