//! Bounded model checking: the decisions of the incremental solving loop.
//!
//! The engine is a state machine. Its driver performs the solver work that an
//! action asks for and feeds the outcome back as the next input, so that every
//! decision (which properties are live, what is asked of the solver, what is
//! reported, when to stop) is made here.

use vstd::prelude::*;
use crate::offset::MAX_OFFSET;
use crate::operator::Operator;
use crate::sym::Sym;
use crate::term::{Shape, Term, TermStore};

verus! {

/// An activation literal: a fresh boolean that enables a constraint when assumed.
#[derive(Debug, Clone, Copy, PartialEq, Eq, Structural, Hash)]
pub struct Actlit {
    pub id: u64,
}

/// A live property and its permanent activation literal.
#[derive(Debug, Clone, Copy, PartialEq, Eq, Structural, Hash)]
pub struct LiveProp {
    pub sym: Sym,
    pub actlit: Actlit,
}

/// A control message for the engine.
#[derive(Debug, Clone)]
pub enum MsgDown {
    /// Stop checking these properties.
    Forget(Vec<Sym>),
    /// Invariants found by another technique; this engine does not use them.
    Invariants,
    /// A message the engine does not know.
    Unknown,
}

/// Where the engine stands in a step.
#[derive(Debug, Clone, Copy, PartialEq, Eq, Structural)]
pub enum Phase {
    /// Waiting for the solver to be set up.
    Setup,
    /// Waiting for the pending control messages.
    Recv,
    /// Waiting for the result of the check-sat query.
    Check,
    /// Waiting for the properties the model falsifies.
    Falsified,
    /// Waiting for the model.
    Model,
    /// Waiting for the next step of the transition relation to be asserted.
    Unroll,
    /// The run is over.
    Over,
}

/// A solver operation that failed.
#[derive(Debug, Clone, Copy, PartialEq, Eq, Structural)]
pub enum Failure {
    /// Creating the solver, declaring the system, or asserting its initial states.
    Setup,
    /// Asserting the step's constraint or checking satisfiability.
    Query,
    /// Asking which properties the model falsifies.
    Falsified,
    /// Asking for the model.
    Model,
    /// Asserting the next step of the transition relation.
    Unroll,
    /// The engine has no fresh literal or depth left.
    Exhausted,
    /// An input that the current phase does not expect.
    Protocol,
}

/// The outcome of the driver's last action, fed to the engine.
#[derive(Debug, Clone)]
pub enum Input {
    /// The solver is set up: functions declared and initial states asserted at depth 0.
    Ready,
    /// The pending control messages, all of them.
    Messages(Vec<MsgDown>),
    /// The control channel is closed.
    Closed,
    /// The check-sat query answered: satisfiable or not.
    Sat(bool),
    /// The properties the model falsifies.
    Falsified(Vec<Sym>),
    /// The model was retrieved.
    Model,
    /// The next step of the transition relation is asserted.
    Unrolled,
    /// The last solver operation failed.
    Failed(Failure),
}

/// What the engine reports.
#[derive(Debug, Clone, PartialEq, Eq)]
pub enum Event {
    /// An unused message was received.
    IgnoredInvariants,
    /// An unknown message was received (not fatal).
    UnknownMessage,
    /// A fatal error.
    Error(Failure),
    /// The run ended on an error.
    DoneError,
    /// No counterexample of length up to `depth` exists for these properties.
    KTrue(Vec<Sym>, u16),
    /// These properties are falsified at `depth` by the model the driver holds.
    DisprovedAt(Vec<Sym>, u16),
    /// The run ended at `depth`.
    DoneAt(u16),
}

/// What the driver must do next. No action takes an assertion back: the solver only
/// ever receives new constraints, each one guarded by a fresh activation literal.
#[derive(Debug, Clone, PartialEq, Eq)]
pub enum Action {
    /// Drain the pending control messages without blocking.
    Recv,
    /// Assert at `depth` that `lit` implies that one of the properties `props` is false,
    /// then check satisfiability assuming `assumptions`.
    Query { lit: Actlit, props: Vec<Sym>, assumptions: Vec<Actlit>, depth: u16 },
    /// Ask which of the live properties the model falsifies at `depth`.
    GetFalsified { depth: u16 },
    /// Ask for the model.
    GetModel,
    /// Assert the transition relation from `depth` to the next depth.
    Unroll { depth: u16 },
    /// Stop.
    Stop,
}

/// The reply of the engine to one input.
#[derive(Debug, Clone)]
pub struct Reply {
    pub events: Vec<Event>,
    pub action: Action,
}

/// The symbols of a sequence of live properties.
pub open spec fn syms(live: Seq<LiveProp>) -> Seq<Sym> {
    live.map_values(|p: LiveProp| p.sym)
}

/// The activation literals of a sequence of live properties.
pub open spec fn actlits(live: Seq<LiveProp>) -> Seq<Actlit> {
    live.map_values(|p: LiveProp| p.actlit)
}

/// The live properties whose symbol is not in `ids`.
pub open spec fn without(live: Seq<LiveProp>, ids: Seq<Sym>) -> Seq<LiveProp> {
    live.filter(|p: LiveProp| !ids.contains(p.sym))
}

/// The live properties left after the first `n` messages of `msgs`.
pub open spec fn after_msgs(live: Seq<LiveProp>, msgs: Seq<MsgDown>, n: int) -> Seq<LiveProp>
    decreases n,
{
    if n <= 0 {
        live
    } else {
        let l = after_msgs(live, msgs, n - 1);
        match msgs[n - 1] {
            MsgDown::Forget(ids) => without(l, ids@),
            _ => l,
        }
    }
}

/// The events for the first `n` messages of `msgs`.
pub open spec fn msg_events(msgs: Seq<MsgDown>, n: int) -> Seq<Event>
    decreases n,
{
    if n <= 0 {
        Seq::empty()
    } else {
        let e = msg_events(msgs, n - 1);
        match msgs[n - 1] {
            MsgDown::Forget(_) => e,
            MsgDown::Invariants => e.push(Event::IgnoredInvariants),
            MsgDown::Unknown => e.push(Event::UnknownMessage),
        }
    }
}

/// The engine.
pub struct Bmc {
    phase: Phase,
    depth: u16,
    max: Option<u16>,
    live: Vec<LiveProp>,
    falsified: Vec<Sym>,
    next_lit: u64,
}

impl Bmc {
    pub closed spec fn phase(&self) -> Phase {
        self.phase
    }

    pub closed spec fn depth(&self) -> nat {
        self.depth as nat
    }

    pub closed spec fn max(&self) -> Option<u16> {
        self.max
    }

    /// The properties still checked, with their activation literals.
    pub closed spec fn live(&self) -> Seq<LiveProp> {
        self.live@
    }

    /// The properties found false by the last satisfiable query.
    pub closed spec fn falsified(&self) -> Seq<Sym> {
        self.falsified@
    }

    /// The next fresh activation literal.
    pub closed spec fn next_lit(&self) -> nat {
        self.next_lit as nat
    }

    /// Activation literals in use are below the next fresh one.
    pub open spec fn wf(&self) -> bool {
        &&& forall|k: int| 0 <= k < self.live().len() ==> (#[trigger] self.live()[k]).actlit.id < self.next_lit()
        &&& self.phase() == Phase::Unroll ==> self.depth() + 2 <= MAX_OFFSET
        &&& self.phase() == Phase::Model ==> forall|k: int|
            0 <= k < self.falsified().len() ==> syms(self.live()).contains(#[trigger] self.falsified()[k])
    }

    /// A new engine over the properties `props`, which get the activation literals
    /// `0 .. props.len()`, bounded by depth `max` if given.
    pub fn mk(props: Vec<Sym>, max: Option<u16>) -> (r: Bmc)
        requires
            props@.len() < u64::MAX,
        ensures
            r.wf(),
            r.phase() == Phase::Setup,
            r.depth() == 0,
            r.max() == max,
            syms(r.live()) == props@,
            forall|k: int| 0 <= k < props@.len() ==> (#[trigger] r.live()[k]).actlit.id == k,
            r.next_lit() == props@.len(),
            r.falsified() == Seq::<Sym>::empty(),
    {
        let mut live: Vec<LiveProp> = Vec::new();
        let mut i: usize = 0;
        while i < props.len()
            invariant
                i <= props@.len() < u64::MAX,
                live@.len() == i,
                forall|k: int| 0 <= k < i ==> (#[trigger] live@[k]).sym == props@[k] && live@[k].actlit.id == k,
            decreases props@.len() - i,
        {
            live.push(LiveProp { sym: props[i], actlit: Actlit { id: i as u64 } });
            i = i + 1;
        }
        assert(syms(live@) =~= props@);
        Bmc { phase: Phase::Setup, depth: 0, max, live, falsified: Vec::new(), next_lit: props.len() as u64 }
    }

    /// The symbols of the live properties.
    pub fn live_syms(&self) -> (r: Vec<Sym>)
        ensures
            r@ == syms(self.live()),
    {
        let mut r: Vec<Sym> = Vec::new();
        let mut i: usize = 0;
        while i < self.live.len()
            invariant
                i <= self.live@.len(),
                r@ == syms(self.live@.take(i as int)),
            decreases self.live@.len() - i,
        {
            assert(self.live@.take(i as int + 1) =~= self.live@.take(i as int).push(self.live@[i as int]));
            r.push(self.live[i].sym);
            assert(syms(self.live@.take(i as int + 1)) =~= syms(self.live@.take(i as int)).push(self.live@[i as int].sym));
            i = i + 1;
        }
        assert(self.live@.take(self.live@.len() as int) =~= self.live@);
        r
    }

    fn live_actlits(&self) -> (r: Vec<Actlit>)
        ensures
            r@ == actlits(self.live()),
    {
        let mut r: Vec<Actlit> = Vec::new();
        let mut i: usize = 0;
        while i < self.live.len()
            invariant
                i <= self.live@.len(),
                r@ == actlits(self.live@.take(i as int)),
            decreases self.live@.len() - i,
        {
            assert(self.live@.take(i as int + 1) =~= self.live@.take(i as int).push(self.live@[i as int]));
            r.push(self.live[i].actlit);
            assert(actlits(self.live@.take(i as int + 1)) =~= actlits(self.live@.take(i as int)).push(self.live@[i as int].actlit));
            i = i + 1;
        }
        assert(self.live@.take(self.live@.len() as int) =~= self.live@);
        r
    }

    /// The ids of `ids` that name live properties, in order.
    fn live_only(&self, ids: &Vec<Sym>) -> (r: Vec<Sym>)
        ensures
            r@ == ids@.filter(|s: Sym| syms(self.live()).contains(s)),
    {
        let ghost pred = |s: Sym| syms(self.live()).contains(s);
        let names = self.live_syms();
        let mut kept: Vec<Sym> = Vec::new();
        let mut i: usize = 0;
        while i < ids.len()
            invariant
                i <= ids@.len(),
                names@ == syms(self.live()),
                kept@ == ids@.take(i as int).filter(pred),
                pred == (|s: Sym| syms(self.live()).contains(s)),
            decreases ids@.len() - i,
        {
            let x = ids[i];
            let mut found = false;
            let mut j: usize = 0;
            while j < names.len()
                invariant
                    j <= names@.len(),
                    found <==> exists|m: int| 0 <= m < j && names@[m] == x,
                decreases names@.len() - j,
            {
                if names[j] == x {
                    found = true;
                }
                j = j + 1;
            }
            let ghost t = ids@.take(i as int + 1);
            assert(t.drop_last() =~= ids@.take(i as int));
            assert(t.last() == x);
            assert(found == names@.contains(x));
            assert(t.filter(pred) == t.drop_last().filter(pred) + (if pred(x) {
                seq![x]
            } else {
                Seq::<Sym>::empty()
            })) by {
                reveal_with_fuel(Seq::filter, 1);
            }
            if found {
                kept.push(x);
            }
            i = i + 1;
        }
        assert(ids@.take(ids@.len() as int) =~= ids@);
        kept
    }

    /// Removes the properties named in `ids` from the live ones.
    pub fn forget(&mut self, ids: &Vec<Sym>)
        requires
            old(self).wf(),
            old(self).phase() != Phase::Model,
        ensures
            final(self).wf(),
            final(self).live() == without(old(self).live(), ids@),
            final(self).phase() == old(self).phase(),
            final(self).depth() == old(self).depth(),
            final(self).max() == old(self).max(),
            final(self).falsified() == old(self).falsified(),
            final(self).next_lit() == old(self).next_lit(),
    {
        let ghost pred = |p: LiveProp| !ids@.contains(p.sym);
        let mut kept: Vec<LiveProp> = Vec::new();
        let mut i: usize = 0;
        while i < self.live.len()
            invariant
                i <= self.live@.len(),
                kept@ == self.live@.take(i as int).filter(pred),
                pred == (|p: LiveProp| !ids@.contains(p.sym)),
            decreases self.live@.len() - i,
        {
            let p = self.live[i];
            let mut found = false;
            let mut j: usize = 0;
            while j < ids.len()
                invariant
                    j <= ids@.len(),
                    found <==> exists|m: int| 0 <= m < j && ids@[m] == p.sym,
                decreases ids@.len() - j,
            {
                if ids[j] == p.sym {
                    found = true;
                }
                j = j + 1;
            }
            let ghost s = self.live@.take(i as int + 1);
            assert(s.drop_last() =~= self.live@.take(i as int));
            assert(s.last() == p);
            assert(found == ids@.contains(p.sym));
            assert(s.filter(pred) == s.drop_last().filter(pred) + (if pred(p) {
                seq![p]
            } else {
                Seq::<LiveProp>::empty()
            })) by {
                reveal_with_fuel(Seq::filter, 1);
            }
            if !found {
                kept.push(p);
            }
            i = i + 1;
        }
        assert(self.live@.take(self.live@.len() as int) =~= self.live@);
        proof {
            let l = self.live@;
            assert forall|k: int| 0 <= k < kept@.len() implies (#[trigger] kept@[k]).actlit.id < self.next_lit by {
                assert(kept@ == l.filter(pred));
                assert(l.filter(pred)[k] == kept@[k]);
                assert(l.filter(pred).contains(kept@[k]));
                l.lemma_filter_contains_rev(pred, kept@[k]);
                let m = choose|m: int| 0 <= m < l.len() && l[m] == kept@[k];
                assert(old(self).live()[m] == l[m]);
            }
        }
        self.live = kept;
    }

    /// The fields other than the live properties and the phase are unchanged.
    pub open spec fn same_but_live_phase(&self, old: &Bmc) -> bool {
        &&& self.depth() == old.depth()
        &&& self.max() == old.max()
        &&& self.falsified() == old.falsified()
        &&& self.next_lit() == old.next_lit()
    }

    /// Whether the run stops after the step at the current depth.
    pub open spec fn stops_after_step(&self) -> bool {
        self.live().len() == 0 || (self.max() matches Some(m) && self.depth() >= m)
    }

    /// Stops the run on a fatal failure.
    fn fail(&mut self, events: Vec<Event>, f: Failure) -> (r: Reply)
        requires
            old(self).wf(),
        ensures
            final(self).wf(),
            final(self).phase() == Phase::Over,
            final(self).live() == old(self).live(),
            final(self).same_but_live_phase(old(self)),
            r.events@ == events@.push(Event::Error(f)).push(Event::DoneError),
            r.action == Action::Stop,
    {
        let mut events = events;
        events.push(Event::Error(f));
        events.push(Event::DoneError);
        self.phase = Phase::Over;
        assert(forall|k: int| 0 <= k < self.live().len() ==> #[trigger] self.live()[k] == old(self).live()[k]);
        Reply { events, action: Action::Stop }
    }

    /// Ends a step: stops when no property is live or the maximal depth is reached,
    /// and unrolls the transition relation otherwise.
    fn end_step(&mut self, events: Vec<Event>) -> (r: Reply)
        requires
            old(self).wf(),
        ensures
            final(self).wf(),
            final(self).live() == old(self).live(),
            final(self).same_but_live_phase(old(self)),
            old(self).stops_after_step() ==> {
                &&& r.events@ == events@.push(Event::DoneAt(old(self).depth() as u16))
                &&& r.action == Action::Stop
                &&& final(self).phase() == Phase::Over
            },
            !old(self).stops_after_step() && old(self).depth() + 2 > MAX_OFFSET ==> {
                &&& r.events@ == events@.push(Event::Error(Failure::Exhausted)).push(Event::DoneError)
                &&& r.action == Action::Stop
                &&& final(self).phase() == Phase::Over
            },
            !old(self).stops_after_step() && old(self).depth() + 2 <= MAX_OFFSET ==> {
                &&& r.events@ == events@
                &&& r.action == (Action::Unroll { depth: old(self).depth() as u16 })
                &&& final(self).phase() == Phase::Unroll
            },
    {
        let at_max = match self.max {
            Some(m) => self.depth >= m,
            None => false,
        };
        if self.live.len() == 0 || at_max {
            let mut events = events;
            events.push(Event::DoneAt(self.depth));
            self.phase = Phase::Over;
            assert(forall|k: int| 0 <= k < self.live().len() ==> #[trigger] self.live()[k] == old(self).live()[k]);
            Reply { events, action: Action::Stop }
        } else if self.depth > MAX_OFFSET - 2 {
            self.fail(events, Failure::Exhausted)
        } else {
            self.phase = Phase::Unroll;
            assert(forall|k: int| 0 <= k < self.live().len() ==> #[trigger] self.live()[k] == old(self).live()[k]);
            Reply { events, action: Action::Unroll { depth: self.depth } }
        }
    }

    /// Handles the control messages, then poses the step's query.
    fn on_messages(&mut self, msgs: &Vec<MsgDown>) -> (r: Reply)
        requires
            old(self).wf(),
            old(self).phase() == Phase::Recv,
        ensures
            final(self).wf(),
            ({
                let live = after_msgs(old(self).live(), msgs@, msgs@.len() as int);
                let evs = msg_events(msgs@, msgs@.len() as int);
                &&& final(self).live() == live
                &&& final(self).depth() == old(self).depth()
                &&& final(self).max() == old(self).max()
                &&& final(self).falsified() == old(self).falsified()
                &&& !(r.action is Query) ==> final(self).next_lit() == old(self).next_lit()
                &&& live.len() == 0 ==> {
                    &&& r.events@ == evs.push(Event::DoneAt(old(self).depth() as u16))
                    &&& r.action == Action::Stop
                    &&& final(self).phase() == Phase::Over
                }
                &&& live.len() > 0 && old(self).next_lit() == u64::MAX ==> {
                    &&& r.events@ == evs.push(Event::Error(Failure::Exhausted)).push(Event::DoneError)
                    &&& r.action == Action::Stop
                    &&& final(self).phase() == Phase::Over
                }
                &&& live.len() > 0 && old(self).next_lit() < u64::MAX ==> {
                    &&& r.events@ == evs
                    &&& r.action matches Action::Query { lit, props, assumptions, depth }
                    &&& lit.id == old(self).next_lit()
                    &&& props@ == syms(live)
                    &&& assumptions@ == actlits(live).push(lit)
                    &&& depth == old(self).depth()
                    &&& final(self).next_lit() == old(self).next_lit() + 1
                    &&& final(self).phase() == Phase::Check
                }
            }),
    {
        let mut events: Vec<Event> = Vec::new();
        let mut i: usize = 0;
        while i < msgs.len()
            invariant
                self.wf(),
                i <= msgs@.len(),
                self.live() == after_msgs(old(self).live(), msgs@, i as int),
                events@ == msg_events(msgs@, i as int),
                self.phase() == old(self).phase(),
                self.phase() == Phase::Recv,
                self.same_but_live_phase(old(self)),
            decreases msgs@.len() - i,
        {
            match &msgs[i] {
                MsgDown::Forget(ids) => {
                    self.forget(ids);
                },
                MsgDown::Invariants => {
                    events.push(Event::IgnoredInvariants);
                },
                MsgDown::Unknown => {
                    events.push(Event::UnknownMessage);
                },
            }
            i = i + 1;
        }
        if self.live.len() == 0 {
            events.push(Event::DoneAt(self.depth));
            self.phase = Phase::Over;
            return Reply { events, action: Action::Stop };
        }
        if self.next_lit == u64::MAX {
            return self.fail(events, Failure::Exhausted);
        }
        let lit = Actlit { id: self.next_lit };
        self.next_lit = self.next_lit + 1;
        let props = self.live_syms();
        let mut assumptions = self.live_actlits();
        assumptions.push(lit);
        self.phase = Phase::Check;
        Reply { events, action: Action::Query { lit, props, assumptions, depth: self.depth } }
    }

    /// The engine's reply to one input, with the state it moves to.
    ///
    /// A failure in any phase is fatal. After set-up the engine asks for the control
    /// messages; they forget properties, and with properties still live it asks for one
    /// query at the current depth over all of them. An unsatisfiable query makes all
    /// live properties hold at this depth; a satisfiable one leads to asking which
    /// properties are falsified and for the model, and then to reporting and dropping
    /// those properties. The step then ends: the run stops when no property is live or
    /// the maximal depth is reached, and goes on at the next depth otherwise.
    pub fn next(&mut self, input: Input) -> (r: Reply)
        requires
            old(self).wf(),
        ensures
            final(self).wf(),
            forall|p: LiveProp| #[trigger] final(self).live().contains(p) ==> old(self).live().contains(p),
            final(self).max() == old(self).max(),
            r.action is Query ==> final(self).next_lit() == old(self).next_lit() + 1,
            !(r.action is Query) ==> final(self).next_lit() == old(self).next_lit(),
            r.action matches Action::Query { lit, .. } ==> lit.id == old(self).next_lit() && forall|k: int|
                0 <= k < old(self).live().len() ==> (#[trigger] old(self).live()[k]).actlit.id < lit.id,
            !(old(self).phase() == Phase::Unroll && input is Unrolled) ==> final(self).depth()
                == old(self).depth(),
            old(self).phase() == Phase::Over ==> r.events@.len() == 0 && r.action == Action::Stop
                && *final(self) == *old(self),
            old(self).phase() != Phase::Over ==> match input {
                Input::Failed(f) => {
                    &&& r.events@ == seq![Event::Error(f), Event::DoneError]
                    &&& r.action == Action::Stop
                    &&& final(self).phase() == Phase::Over
                },
                Input::Ready => if old(self).phase() == Phase::Setup {
                    &&& r.events@.len() == 0
                    &&& r.action == Action::Recv
                    &&& final(self).phase() == Phase::Recv
                    &&& final(self).live() == old(self).live()
                    &&& final(self).same_but_live_phase(old(self))
                } else {
                    r.events@ == seq![Event::Error(Failure::Protocol), Event::DoneError]
                },
                Input::Closed => if old(self).phase() == Phase::Recv {
                    &&& r.events@.len() == 0
                    &&& r.action == Action::Stop
                    &&& final(self).phase() == Phase::Over
                } else {
                    r.events@ == seq![Event::Error(Failure::Protocol), Event::DoneError]
                },
                Input::Messages(msgs) => if old(self).phase() == Phase::Recv {
                    let live = after_msgs(old(self).live(), msgs@, msgs@.len() as int);
                    let evs = msg_events(msgs@, msgs@.len() as int);
                    &&& final(self).live() == live
                    &&& final(self).depth() == old(self).depth()
                    &&& live.len() == 0 ==> {
                        &&& r.events@ == evs.push(Event::DoneAt(old(self).depth() as u16))
                        &&& r.action == Action::Stop
                        &&& final(self).phase() == Phase::Over
                    }
                    &&& live.len() > 0 && old(self).next_lit() == u64::MAX ==> {
                        &&& r.events@ == evs.push(Event::Error(Failure::Exhausted)).push(Event::DoneError)
                        &&& r.action == Action::Stop
                    }
                    &&& live.len() > 0 && old(self).next_lit() < u64::MAX ==> {
                        &&& r.events@ == evs
                        &&& r.action matches Action::Query { lit, props, assumptions, depth }
                        &&& lit.id == old(self).next_lit()
                        &&& props@ == syms(live)
                        &&& assumptions@ == actlits(live).push(lit)
                        &&& depth == old(self).depth()
                        &&& final(self).phase() == Phase::Check
                    }
                } else {
                    r.events@ == seq![Event::Error(Failure::Protocol), Event::DoneError]
                },
                Input::Sat(true) => if old(self).phase() == Phase::Check {
                    &&& r.events@.len() == 0
                    &&& r.action == (Action::GetFalsified { depth: old(self).depth() as u16 })
                    &&& final(self).phase() == Phase::Falsified
                    &&& final(self).live() == old(self).live()
                    &&& final(self).same_but_live_phase(old(self))
                } else {
                    r.events@ == seq![Event::Error(Failure::Protocol), Event::DoneError]
                },
                Input::Sat(false) => if old(self).phase() == Phase::Check {
                    &&& r.events@.len() >= 1
                    &&& r.events@[0] matches Event::KTrue(ps, d)
                    &&& ps@ == syms(old(self).live())
                    &&& d == old(self).depth()
                    &&& final(self).live() == old(self).live()
                    &&& final(self).same_but_live_phase(old(self))
                    &&& old(self).stops_after_step() ==> {
                        &&& r.events@.len() == 2
                        &&& r.events@[1] == Event::DoneAt(old(self).depth() as u16)
                        &&& r.action == Action::Stop
                        &&& final(self).phase() == Phase::Over
                    }
                    &&& !old(self).stops_after_step() && old(self).depth() + 2 <= MAX_OFFSET ==> {
                        &&& r.events@.len() == 1
                        &&& r.action == (Action::Unroll { depth: old(self).depth() as u16 })
                        &&& final(self).phase() == Phase::Unroll
                    }
                    &&& !old(self).stops_after_step() && old(self).depth() + 2 > MAX_OFFSET ==> {
                        &&& r.events@.len() == 3
                        &&& r.events@[1] == Event::Error(Failure::Exhausted)
                        &&& r.events@[2] == Event::DoneError
                        &&& r.action == Action::Stop
                        &&& final(self).phase() == Phase::Over
                    }
                } else {
                    r.events@ == seq![Event::Error(Failure::Protocol), Event::DoneError]
                },
                Input::Falsified(ids) => if old(self).phase() == Phase::Falsified {
                    &&& r.events@.len() == 0
                    &&& r.action == Action::GetModel
                    &&& final(self).phase() == Phase::Model
                    &&& final(self).falsified() == ids@.filter(|s: Sym| syms(old(self).live()).contains(s))
                    &&& final(self).live() == old(self).live()
                    &&& final(self).depth() == old(self).depth()
                } else {
                    r.events@ == seq![Event::Error(Failure::Protocol), Event::DoneError]
                },
                Input::Model => if old(self).phase() == Phase::Model {
                    let live = without(old(self).live(), old(self).falsified());
                    &&& r.events@.len() >= 1
                    &&& r.events@[0] matches Event::DisprovedAt(ps, d)
                    &&& ps@ == old(self).falsified()
                    &&& forall|k: int| 0 <= k < ps@.len() ==> syms(old(self).live()).contains(#[trigger] ps@[k])
                    &&& d == old(self).depth()
                    &&& final(self).live() == live
                    &&& final(self).depth() == old(self).depth()
                    &&& (live.len() == 0 || (old(self).max() matches Some(m) && old(self).depth() >= m))
                        ==> {
                        &&& r.events@.len() == 2
                        &&& r.events@[1] == Event::DoneAt(old(self).depth() as u16)
                        &&& r.action == Action::Stop
                        &&& final(self).phase() == Phase::Over
                    }
                    &&& !(live.len() == 0 || (old(self).max() matches Some(m) && old(self).depth() >= m))
                        && old(self).depth() + 2 <= MAX_OFFSET ==> {
                        &&& r.events@.len() == 1
                        &&& r.action == (Action::Unroll { depth: old(self).depth() as u16 })
                        &&& final(self).phase() == Phase::Unroll
                    }
                    &&& !(live.len() == 0 || (old(self).max() matches Some(m) && old(self).depth() >= m))
                        && old(self).depth() + 2 > MAX_OFFSET ==> {
                        &&& r.events@.len() == 3
                        &&& r.events@[1] == Event::Error(Failure::Exhausted)
                        &&& r.events@[2] == Event::DoneError
                        &&& r.action == Action::Stop
                        &&& final(self).phase() == Phase::Over
                    }
                } else {
                    r.events@ == seq![Event::Error(Failure::Protocol), Event::DoneError]
                },
                Input::Unrolled => if old(self).phase() == Phase::Unroll {
                    &&& r.events@.len() == 0
                    &&& r.action == Action::Recv
                    &&& final(self).phase() == Phase::Recv
                    &&& final(self).depth() == old(self).depth() + 1
                    &&& final(self).live() == old(self).live()
                } else {
                    r.events@ == seq![Event::Error(Failure::Protocol), Event::DoneError]
                },
            },
    {
        if self.phase == Phase::Over {
            return Reply { events: Vec::new(), action: Action::Stop };
        }
        let ghost before = self.live();
        let r = match input {
            Input::Failed(f) => self.fail(Vec::new(), f),
            Input::Ready => if self.phase == Phase::Setup {
                self.phase = Phase::Recv;
                assert(forall|k: int| 0 <= k < self.live().len() ==> #[trigger] self.live()[k] == old(self).live()[k]);
                Reply { events: Vec::new(), action: Action::Recv }
            } else {
                self.fail(Vec::new(), Failure::Protocol)
            },
            Input::Closed => if self.phase == Phase::Recv {
                self.phase = Phase::Over;
                assert(forall|k: int| 0 <= k < self.live().len() ==> #[trigger] self.live()[k] == old(self).live()[k]);
                Reply { events: Vec::new(), action: Action::Stop }
            } else {
                self.fail(Vec::new(), Failure::Protocol)
            },
            Input::Messages(msgs) => if self.phase == Phase::Recv {
                let r = self.on_messages(&msgs);
                proof {
                    lemma_after_msgs_sub(before, msgs@, msgs@.len() as int);
                }
                r
            } else {
                self.fail(Vec::new(), Failure::Protocol)
            },
            Input::Sat(sat) => if self.phase == Phase::Check {
                if sat {
                    self.phase = Phase::Falsified;
                    assert(forall|k: int| 0 <= k < self.live().len() ==> #[trigger] self.live()[k] == old(self).live()[k]);
                    Reply { events: Vec::new(), action: Action::GetFalsified { depth: self.depth } }
                } else {
                    let mut events = Vec::new();
                    events.push(Event::KTrue(self.live_syms(), self.depth));
                    self.end_step(events)
                }
            } else {
                self.fail(Vec::new(), Failure::Protocol)
            },
            Input::Falsified(ids) => if self.phase == Phase::Falsified {
                let kept = self.live_only(&ids);
                proof {
                    let pred = |s: Sym| syms(self.live()).contains(s);
                    assert forall|k: int| 0 <= k < kept@.len() implies syms(self.live()).contains(#[trigger] kept@[k]) by {
                        assert(kept@.filter(pred).len() >= 0);
                        ids@.lemma_filter_pred(pred, k);
                    }
                }
                self.falsified = kept;
                self.phase = Phase::Model;
                assert(forall|k: int| 0 <= k < self.live().len() ==> #[trigger] self.live()[k] == old(self).live()[k]);
                Reply { events: Vec::new(), action: Action::GetModel }
            } else {
                self.fail(Vec::new(), Failure::Protocol)
            },
            Input::Model => if self.phase == Phase::Model {
                let ids = self.falsified.clone();
                let mut events = Vec::new();
                events.push(Event::DisprovedAt(ids, self.depth));
                let gone = self.falsified.clone();
                self.phase = Phase::Recv;
                self.forget(&gone);
                proof {
                    lemma_without_sub(before, old(self).falsified());
                }
                self.end_step(events)
            } else {
                self.fail(Vec::new(), Failure::Protocol)
            },
            Input::Unrolled => if self.phase == Phase::Unroll {
                self.depth = self.depth + 1;
                self.phase = Phase::Recv;
                assert(forall|k: int| 0 <= k < self.live().len() ==> #[trigger] self.live()[k] == old(self).live()[k]);
                Reply { events: Vec::new(), action: Action::Recv }
            } else {
                self.fail(Vec::new(), Failure::Protocol)
            },
        };
        r
    }
}

/// Forgetting keeps only properties that were live.
pub proof fn lemma_without_sub(live: Seq<LiveProp>, ids: Seq<Sym>)
    ensures
        forall|p: LiveProp| #[trigger] without(live, ids).contains(p) ==> live.contains(p) && !ids.contains(p.sym),
{
    let pred = |p: LiveProp| !ids.contains(p.sym);
    assert forall|p: LiveProp| #[trigger] without(live, ids).contains(p) implies live.contains(p) && !ids.contains(p.sym) by {
        live.lemma_filter_contains_rev(pred, p);
        let k = choose|k: int| 0 <= k < live.filter(pred).len() && live.filter(pred)[k] == p;
        live.lemma_filter_pred(pred, k);
    }
}

/// Handling messages keeps only properties that were live.
pub proof fn lemma_after_msgs_sub(live: Seq<LiveProp>, msgs: Seq<MsgDown>, n: int)
    ensures
        forall|p: LiveProp| #[trigger] after_msgs(live, msgs, n).contains(p) ==> live.contains(p),
    decreases n,
{
    if n > 0 {
        lemma_after_msgs_sub(live, msgs, n - 1);
        let l = after_msgs(live, msgs, n - 1);
        match msgs[n - 1] {
            MsgDown::Forget(ids) => {
                lemma_without_sub(l, ids@);
            },
            _ => {},
        }
    }
}

/// A forget message removes its properties: after the messages of a step, no live
/// property is named in any of their forget messages.
pub proof fn lemma_forget_removes(live: Seq<LiveProp>, msgs: Seq<MsgDown>, k: int, id: Sym)
    requires
        0 <= k < msgs.len(),
        msgs[k] matches MsgDown::Forget(ids) && ids@.contains(id),
    ensures
        forall|p: LiveProp| #[trigger] after_msgs(live, msgs, msgs.len() as int).contains(p) ==> p.sym != id,
{
    lemma_forget_removes_upto(live, msgs, k, id, msgs.len() as int);
}

proof fn lemma_forget_removes_upto(live: Seq<LiveProp>, msgs: Seq<MsgDown>, k: int, id: Sym, n: int)
    requires
        0 <= k < n <= msgs.len(),
        msgs[k] matches MsgDown::Forget(ids) && ids@.contains(id),
    ensures
        forall|p: LiveProp| #[trigger] after_msgs(live, msgs, n).contains(p) ==> p.sym != id,
    decreases n,
{
    let l = after_msgs(live, msgs, n - 1);
    if n - 1 > k {
        lemma_forget_removes_upto(live, msgs, k, id, n - 1);
    }
    match msgs[n - 1] {
        MsgDown::Forget(ids) => {
            lemma_without_sub(l, ids@);
        },
        _ => {},
    }
}

/// Forgetting is permanent: along a run, where each state's live properties are among
/// those of the state before (as every reply of the engine ensures), a property that
/// is not live at some point is live at no later point, so no later query names it
/// or assumes its activation literal.
pub proof fn lemma_forget_permanent(run: Seq<Bmc>, id: Sym)
    requires
        run.len() > 0,
        forall|i: int, p: LiveProp|
            0 <= i < run.len() - 1 && #[trigger] run[i + 1].live().contains(p) ==> run[i].live().contains(p),
        forall|p: LiveProp| #[trigger] run[0].live().contains(p) ==> p.sym != id,
    ensures
        forall|i: int, p: LiveProp|
            0 <= i < run.len() && #[trigger] run[i].live().contains(p) ==> p.sym != id,
{
    assert forall|i: int, p: LiveProp|
        0 <= i < run.len() && #[trigger] run[i].live().contains(p) implies p.sym != id by {
        lemma_run_prefix(run, id, i, p);
    }
}

proof fn lemma_run_prefix(run: Seq<Bmc>, id: Sym, i: int, p: LiveProp)
    requires
        0 <= i < run.len(),
        forall|j: int, q: LiveProp|
            0 <= j < run.len() - 1 && #[trigger] run[j + 1].live().contains(q) ==> run[j].live().contains(q),
        forall|q: LiveProp| #[trigger] run[0].live().contains(q) ==> q.sym != id,
        run[i].live().contains(p),
    ensures
        p.sym != id,
    decreases i,
{
    if i > 0 {
        assert(run[(i - 1) + 1].live().contains(p));
        lemma_run_prefix(run, id, i - 1, p);
    }
}

/// The formula "some property is violated": the disjunction of the negations of `bodies`.
pub fn one_false(store: &mut TermStore, bodies: &Vec<Term>) -> (r: Term)
    requires
        old(store).wf(),
        bodies@.len() > 0,
        forall|k: int| 0 <= k < bodies@.len() ==> old(store).valid(#[trigger] bodies@[k]),
    ensures
        final(store).wf(),
        crate::term::extends(final(store).shapes(), old(store).shapes()),
        final(store).valid(r),
        final(store).shape(r) matches Shape::Op(Operator::Or, nots) && nots.len() == bodies@.len()
            && forall|k: int|
            0 <= k < nots.len() ==> final(store).valid(#[trigger] nots[k]) && final(store).shape(nots[k])
                == Shape::Op(Operator::Not, seq![bodies@[k]]),
{
    let mut nots: Vec<Term> = Vec::new();
    let mut i: usize = 0;
    while i < bodies.len()
        invariant
            store.wf(),
            crate::term::extends(store.shapes(), old(store).shapes()),
            i <= bodies@.len(),
            forall|k: int| 0 <= k < bodies@.len() ==> old(store).valid(#[trigger] bodies@[k]),
            nots@.len() == i,
            forall|k: int|
                0 <= k < i ==> store.valid(#[trigger] nots@[k]) && store.shape(nots@[k]) == Shape::Op(
                    Operator::Not,
                    seq![bodies@[k]],
                ),
        decreases bodies@.len() - i,
    {
        let mut arg: Vec<Term> = Vec::new();
        arg.push(bodies[i]);
        assert(arg@ =~= seq![bodies@[i as int]]);
        let ghost before = store.shapes();
        let n = store.op(Operator::Not, arg);
        assert forall|k: int| 0 <= k < i implies store.valid(#[trigger] nots@[k]) && store.shape(nots@[k])
            == Shape::Op(Operator::Not, seq![bodies@[k]]) by {
            assert(store.shapes()[nots@[k].id as int] == before[nots@[k].id as int]);
        }
        nots.push(n);
        i = i + 1;
    }
    let ghost before = store.shapes();
    let ghost ns = nots@;
    let r = store.op(Operator::Or, nots);
    assert forall|k: int| 0 <= k < ns.len() implies store.valid(#[trigger] ns[k]) && store.shape(ns[k])
        == Shape::Op(Operator::Not, seq![bodies@[k]]) by {
        assert(store.shapes()[ns[k].id as int] == before[ns[k].id as int]);
    }
    r
}

/// Every query of a run gets a fresh literal: along a run where the counter of literals
/// never goes down (as every reply of the engine ensures), a step that hands out a
/// literal leaves the counter above it, so every later literal is a different one.
pub proof fn lemma_literals_fresh(run: Seq<Bmc>, i: int, j: int)
    requires
        0 <= i < j < run.len(),
        forall|k: int| 0 <= k < run.len() - 1 ==> (#[trigger] run[k + 1]).next_lit() >= run[k].next_lit(),
        run[i + 1].next_lit() == run[i].next_lit() + 1,
    ensures
        run[i].next_lit() < run[j].next_lit(),
    decreases j - i,
{
    if j > i + 1 {
        lemma_literals_fresh(run, i, j - 1);
        assert(run[(j - 1) + 1].next_lit() >= run[j - 1].next_lit());
    }
}

} // verus!
