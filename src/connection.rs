use vstd::prelude::*;
use crate::command::{Command, Request};

verus! {

/// Where a connection stands between requests.
pub enum ConnState {
    Normal,
    /// Inside `MULTI`: the commands queued so far.
    Queuing(Vec<Command>),
}

/// What the connection does with one request.
pub enum ConnAction {
    /// Reply `+OK`.
    ReplyOk,
    /// Reply `+QUEUED`.
    Queued,
    /// Reply an error: `EXEC` outside a transaction.
    ExecWithoutMulti,
    /// Reply an error: `DISCARD` outside a transaction.
    DiscardWithoutMulti,
    /// Reply an error: `MULTI` inside a transaction.
    NestedMulti,
    /// Run the command and reply with its response.
    Dispatch(Command),
    /// Run the commands as one unit, with nothing in between, and reply with the array
    /// of their responses.
    DispatchTransaction(Vec<Command>),
    /// Enter the subscribed mode on this channel.
    Subscribe(Vec<u8>),
    /// Run `PSYNC`, then hand the connection over to replication.
    HandOff(Command),
}

pub enum StateView {
    Normal,
    Queuing(Seq<Request>),
}

pub enum ActionView {
    ReplyOk,
    Queued,
    ExecWithoutMulti,
    DiscardWithoutMulti,
    NestedMulti,
    Dispatch(Request),
    DispatchTransaction(Seq<Request>),
    Subscribe(Seq<u8>),
    HandOff(Request),
}

pub open spec fn requests(v: Seq<Command>) -> Seq<Request> {
    v.map_values(|c: Command| c@)
}

impl ConnState {
    pub fn is_normal(&self) -> (r: bool)
        ensures
            r == (self@ is Normal),
    {
        match self {
            ConnState::Normal => true,
            _ => false,
        }
    }

    pub open spec fn view(&self) -> StateView {
        match self {
            ConnState::Normal => StateView::Normal,
            ConnState::Queuing(q) => StateView::Queuing(requests(q@)),
        }
    }
}

impl ConnAction {
    pub open spec fn view(&self) -> ActionView {
        match self {
            ConnAction::ReplyOk => ActionView::ReplyOk,
            ConnAction::Queued => ActionView::Queued,
            ConnAction::ExecWithoutMulti => ActionView::ExecWithoutMulti,
            ConnAction::DiscardWithoutMulti => ActionView::DiscardWithoutMulti,
            ConnAction::NestedMulti => ActionView::NestedMulti,
            ConnAction::Dispatch(c) => ActionView::Dispatch(c@),
            ConnAction::DispatchTransaction(q) => ActionView::DispatchTransaction(requests(q@)),
            ConnAction::Subscribe(c) => ActionView::Subscribe(c@),
            ConnAction::HandOff(c) => ActionView::HandOff(c@),
        }
    }
}

/// The step a connection takes on one request.
pub open spec fn step(s: StateView, c: Request) -> (StateView, ActionView) {
    match c {
        Request::Psync(_, _) if s is Normal => (StateView::Normal, ActionView::HandOff(c)),
        Request::Subscribe(ch) if s is Normal => (StateView::Normal, ActionView::Subscribe(ch)),
        Request::Multi => match s {
            StateView::Normal => (StateView::Queuing(seq![]), ActionView::ReplyOk),
            StateView::Queuing(q) => (StateView::Queuing(q), ActionView::NestedMulti),
        },
        Request::Exec => match s {
            StateView::Normal => (StateView::Normal, ActionView::ExecWithoutMulti),
            StateView::Queuing(q) => (StateView::Normal, ActionView::DispatchTransaction(q)),
        },
        Request::Discard => match s {
            StateView::Normal => (StateView::Normal, ActionView::DiscardWithoutMulti),
            StateView::Queuing(_) => (StateView::Normal, ActionView::ReplyOk),
        },
        _ => match s {
            StateView::Normal => (StateView::Normal, ActionView::Dispatch(c)),
            StateView::Queuing(q) => (StateView::Queuing(q.push(c)), ActionView::Queued),
        },
    }
}

/// Handles one request on a connection in state `state`.
pub fn handle_transaction(state: ConnState, command: Command) -> (r: (ConnState, ConnAction))
    ensures
        (r.0@, r.1@) == step(state@, command@),
{
    match command {
        Command::Psync(a, b) if state.is_normal() => (ConnState::Normal, ConnAction::HandOff(Command::Psync(a, b))),
        Command::Subscribe(ch) if state.is_normal() => (ConnState::Normal, ConnAction::Subscribe(ch)),
        Command::Multi => match state {
            ConnState::Normal => {
                let q: Vec<Command> = Vec::new();
                assert(requests(q@) =~= seq![]);
                (ConnState::Queuing(q), ConnAction::ReplyOk)
            },
            ConnState::Queuing(q) => (ConnState::Queuing(q), ConnAction::NestedMulti),
        },
        Command::Exec => match state {
            ConnState::Normal => (ConnState::Normal, ConnAction::ExecWithoutMulti),
            ConnState::Queuing(q) => (ConnState::Normal, ConnAction::DispatchTransaction(q)),
        },
        Command::Discard => match state {
            ConnState::Normal => (ConnState::Normal, ConnAction::DiscardWithoutMulti),
            ConnState::Queuing(_) => (ConnState::Normal, ConnAction::ReplyOk),
        },
        other => match state {
            ConnState::Normal => (ConnState::Normal, ConnAction::Dispatch(other)),
            ConnState::Queuing(mut q) => {
                let ghost before = requests(q@);
                let ghost c = other@;
                q.push(other);
                assert(requests(q@) =~= before.push(c));
                (ConnState::Queuing(q), ConnAction::Queued)
            },
        },
    }
}

/// A request that a transaction queues: anything but the transaction controls.
pub open spec fn queueable(c: Request) -> bool {
    !(c is Multi || c is Exec || c is Discard)
}

/// The state after `cs`, from `s`, and the actions taken on the way.
pub open spec fn run(s: StateView, cs: Seq<Request>) -> (StateView, Seq<ActionView>)
    decreases cs.len(),
{
    if cs.len() == 0 {
        (s, seq![])
    } else {
        let (s1, a1) = run(s, cs.drop_last());
        let (s2, a) = step(s1, cs.last());
        (s2, a1.push(a))
    }
}

/// Transaction atomicity of dispatch: from the normal state, `MULTI`, then commands
/// that a transaction queues, then `EXEC` answer `+OK`, `+QUEUED` for each command,
/// and one dispatch of exactly those commands, in order, as a single unit.
pub proof fn lemma_transaction_dispatch(cs: Seq<Request>)
    requires
        forall|i: int| 0 <= i < cs.len() ==> queueable(#[trigger] cs[i]),
    ensures
        run(StateView::Normal, seq![Request::Multi] + cs + seq![Request::Exec]).0 == StateView::Normal,
        run(StateView::Normal, seq![Request::Multi] + cs + seq![Request::Exec]).1 == seq![ActionView::ReplyOk]
            + Seq::new(cs.len(), |i: int| ActionView::Queued) + seq![ActionView::DispatchTransaction(cs)],
    decreases cs.len(),
{
    lemma_run_from_multi(cs);
    let all = seq![Request::Multi] + cs + seq![Request::Exec];
    assert(all.drop_last() =~= seq![Request::Multi] + cs);
    assert(all.last() == Request::Exec);
    assert(run(StateView::Normal, all).1 =~= seq![ActionView::ReplyOk] + Seq::new(cs.len(), |i: int| ActionView::Queued)
        + seq![ActionView::DispatchTransaction(cs)]);
}

proof fn lemma_run_from_multi(cs: Seq<Request>)
    requires
        forall|i: int| 0 <= i < cs.len() ==> queueable(#[trigger] cs[i]),
    ensures
        run(StateView::Normal, seq![Request::Multi] + cs).0 == StateView::Queuing(cs),
        run(StateView::Normal, seq![Request::Multi] + cs).1 == seq![ActionView::ReplyOk] + Seq::new(
            cs.len(),
            |i: int| ActionView::Queued,
        ),
    decreases cs.len(),
{
    if cs.len() == 0 {
        let m = seq![Request::Multi];
        assert(seq![Request::Multi] + cs =~= m);
        assert(m.drop_last() =~= Seq::<Request>::empty());
        assert(run(StateView::Normal, m.drop_last()) == (StateView::Normal, Seq::<ActionView>::empty()));
        assert(m.last() == Request::Multi);
        assert(cs =~= Seq::<Request>::empty());
        assert(run(StateView::Normal, seq![Request::Multi]).1 =~= seq![ActionView::ReplyOk] + Seq::new(
            0,
            |i: int| ActionView::Queued,
        ));
    } else {
        let init = cs.drop_last();
        assert forall|i: int| 0 <= i < init.len() implies queueable(#[trigger] init[i]) by {
            assert(init[i] == cs[i]);
        }
        lemma_run_from_multi(init);
        let all = seq![Request::Multi] + cs;
        assert(all.drop_last() =~= seq![Request::Multi] + init);
        assert(all.last() == cs.last());
        assert(queueable(cs[cs.len() - 1]));
        assert(init.push(cs.last()) =~= cs);
        assert(run(StateView::Normal, all).1 =~= seq![ActionView::ReplyOk] + Seq::new(cs.len(), |i: int| ActionView::Queued));
    }
}

} // verus!
