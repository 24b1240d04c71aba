use kino::bmc::{Action, Bmc, Event, Failure, Input, MsgDown};
use kino::cst::Value;
use kino::eval::eval;
use kino::operator::Operator;
use kino::sym::Sym;
use kino::term::{Term, TermStore};
use kino::var::{State, Var};

/// The system `x = 0`, `x' = x + 1`: at depth `k` the only state has `x = k`. A query
/// is satisfiable when some property is false at that state.
struct Counter {
    store: TermStore,
    props: Vec<(Sym, Term)>,
}

fn x() -> Var {
    Var::SVar(Sym::mk(0), State::Curr)
}

impl Counter {
    fn new() -> Counter {
        Counter { store: TermStore::new(), props: vec![] }
    }

    fn prop(&mut self, id: u64, op: Operator, bound: i64) -> Sym {
        let xt = self.store.var(x());
        let c = self.store.cst(Value::of_i64(bound));
        let body = self.store.op(op, vec![xt, c]);
        self.props.push((Sym::mk(id), body));
        Sym::mk(id)
    }

    fn holds(&self, p: Sym, depth: u16) -> bool {
        let body = self.props.iter().find(|(s, _)| *s == p).unwrap().1;
        let model = vec![(x(), Value::of_i64(depth as i64))];
        eval(&self.store, body, &model, &vec![]) == Ok(Value::Bool(true))
    }

    /// Runs the engine to the end; `forget` gives the messages to hand over at a depth.
    fn run(
        &self,
        mut bmc: Bmc,
        forget: &dyn Fn(u16) -> Vec<MsgDown>,
    ) -> (Vec<Event>, Vec<Vec<Sym>>) {
        let mut events = vec![];
        let mut queried = vec![];
        let mut input = Input::Ready;
        let mut depth: u16 = 0;
        let mut last_props: Vec<Sym> = vec![];
        for _ in 0..1000 {
            let reply = bmc.next(input);
            events.extend(reply.events);
            input = match reply.action {
                Action::Recv => Input::Messages(forget(depth)),
                Action::Query { props, assumptions, depth: d, lit } => {
                    assert_eq!(assumptions.len(), props.len() + 1);
                    assert_eq!(*assumptions.last().unwrap(), lit);
                    depth = d;
                    queried.push(props.clone());
                    last_props = props.clone();
                    Input::Sat(props.iter().any(|p| !self.holds(*p, d)))
                },
                Action::GetFalsified { depth: d } => Input::Falsified(
                    last_props.iter().cloned().filter(|p| !self.holds(*p, d)).collect(),
                ),
                Action::GetModel => Input::Model,
                Action::Unroll { depth: d } => {
                    depth = d + 1;
                    Input::Unrolled
                },
                Action::Stop => return (events, queried),
            };
        }
        panic!("the engine did not stop")
    }
}

fn no_messages(_: u16) -> Vec<MsgDown> {
    vec![]
}

#[test]
fn counter_exceeds_bound() {
    let mut c = Counter::new();
    let p = c.prop(1, Operator::Lt, 3);
    let (events, _) = c.run(Bmc::mk(vec![p], None), &no_messages);
    assert_eq!(
        events,
        vec![
            Event::KTrue(vec![p], 0),
            Event::KTrue(vec![p], 1),
            Event::KTrue(vec![p], 2),
            Event::DisprovedAt(vec![p], 3),
            Event::DoneAt(3),
        ]
    );
}

#[test]
fn invariant_holds_up_to_max_depth() {
    let mut c = Counter::new();
    let p = c.prop(1, Operator::Ge, 0);
    let (events, _) = c.run(Bmc::mk(vec![p], Some(5)), &no_messages);
    let mut expected: Vec<Event> = (0..=5).map(|k| Event::KTrue(vec![p], k)).collect();
    expected.push(Event::DoneAt(5));
    assert_eq!(events, expected);
}

#[test]
fn disproved_property_leaves_the_live_set() {
    let mut c = Counter::new();
    let fails = c.prop(1, Operator::Lt, 1);
    let sound = c.prop(2, Operator::Ge, 0);
    let (events, queried) = c.run(Bmc::mk(vec![fails, sound], Some(5)), &no_messages);
    let mut expected = vec![Event::KTrue(vec![fails, sound], 0), Event::DisprovedAt(vec![fails], 1)];
    for k in 2..=5 {
        expected.push(Event::KTrue(vec![sound], k));
    }
    expected.push(Event::DoneAt(5));
    assert_eq!(events, expected);
    assert_eq!(queried[0], vec![fails, sound]);
    assert_eq!(queried[1], vec![fails, sound]);
    for q in &queried[2..] {
        assert_eq!(q, &vec![sound]);
    }
}

#[test]
fn forgotten_property_is_never_checked_again() {
    let mut c = Counter::new();
    let dropped = c.prop(1, Operator::Ge, 0);
    let sound = c.prop(2, Operator::Lt, 100);
    let forget = move |d: u16| if d == 2 { vec![MsgDown::Forget(vec![dropped])] } else { vec![] };
    let (events, queried) = c.run(Bmc::mk(vec![dropped, sound], Some(4)), &forget);
    assert_eq!(queried.len(), 5);
    assert_eq!(queried[0], vec![dropped, sound]);
    assert_eq!(queried[1], vec![dropped, sound]);
    for q in &queried[2..] {
        assert_eq!(q, &vec![sound]);
    }
    assert_eq!(events[2], Event::KTrue(vec![sound], 2));
    assert_eq!(*events.last().unwrap(), Event::DoneAt(4));
}

#[test]
fn forgetting_every_property_ends_the_run() {
    let mut c = Counter::new();
    let p = c.prop(1, Operator::Ge, 0);
    let forget = move |d: u16| if d == 1 { vec![MsgDown::Forget(vec![p])] } else { vec![] };
    let (events, queried) = c.run(Bmc::mk(vec![p], None), &forget);
    assert_eq!(queried.len(), 1);
    assert_eq!(events, vec![Event::KTrue(vec![p], 0), Event::DoneAt(1)]);
}

#[test]
fn unknown_messages_are_not_fatal() {
    let mut bmc = Bmc::mk(vec![Sym::mk(1)], None);
    let r = bmc.next(Input::Ready);
    assert_eq!(r.action, Action::Recv);
    let r = bmc.next(Input::Messages(vec![MsgDown::Unknown, MsgDown::Invariants]));
    assert_eq!(r.events, vec![Event::UnknownMessage, Event::IgnoredInvariants]);
    match r.action {
        Action::Query { lit, props, assumptions, depth } => {
            assert_eq!(lit.id, 1);
            assert_eq!(props, vec![Sym::mk(1)]);
            assert_eq!(assumptions.iter().map(|a| a.id).collect::<Vec<u64>>(), vec![0, 1]);
            assert_eq!(depth, 0);
        },
        other => panic!("unexpected action {:?}", other),
    }
}

#[test]
fn solver_failures_are_fatal() {
    let mut bmc = Bmc::mk(vec![Sym::mk(1)], None);
    bmc.next(Input::Ready);
    bmc.next(Input::Messages(vec![]));
    let r = bmc.next(Input::Failed(Failure::Query));
    assert_eq!(r.events, vec![Event::Error(Failure::Query), Event::DoneError]);
    assert_eq!(r.action, Action::Stop);
    let r = bmc.next(Input::Unrolled);
    assert!(r.events.is_empty());
    assert_eq!(r.action, Action::Stop);
}

#[test]
fn setup_failure_is_fatal() {
    let mut bmc = Bmc::mk(vec![Sym::mk(1)], None);
    let r = bmc.next(Input::Failed(Failure::Setup));
    assert_eq!(r.events, vec![Event::Error(Failure::Setup), Event::DoneError]);
}

#[test]
fn unexpected_input_is_a_protocol_error() {
    let mut bmc = Bmc::mk(vec![Sym::mk(1)], None);
    let r = bmc.next(Input::Model);
    assert_eq!(r.events, vec![Event::Error(Failure::Protocol), Event::DoneError]);
}

#[test]
fn closed_channel_stops_silently() {
    let mut bmc = Bmc::mk(vec![Sym::mk(1)], None);
    bmc.next(Input::Ready);
    let r = bmc.next(Input::Closed);
    assert!(r.events.is_empty());
    assert_eq!(r.action, Action::Stop);
}

#[test]
fn live_properties_are_listed() {
    let bmc = Bmc::mk(vec![Sym::mk(3), Sym::mk(4)], None);
    assert_eq!(bmc.live_syms(), vec![Sym::mk(3), Sym::mk(4)]);
}
