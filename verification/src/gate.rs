//! The cap on connections.
use vstd::prelude::*;

verus! {

/// Whether a new connection is taken.
#[derive(Debug, PartialEq)]
pub enum Admission {
    Accept,
    /// The status code and the words of the refusal.
    Refuse { status: u16, message: &'static str },
}

/// Decides on a new connection while others are active. One that is taken
/// leaves no more active than may be.
pub fn judge_connection(active: usize, max_connections: usize) -> (admission: Admission)
    ensures
        match admission {
            Admission::Accept => active + 1 <= max_connections,
            Admission::Refuse { status, message } => active >= max_connections && status == 503
                && message@ == "too many active VAD sessions"@,
        },
{
    if active >= max_connections {
        Admission::Refuse { status: 503, message: "too many active VAD sessions" }
    } else {
        Admission::Accept
    }
}

/// The connections that are active, never more of them than may be.
pub struct ConnectionGate {
    active: usize,
    max_connections: usize,
}

/// What was asked of a gate, and what it said.
pub enum GateCall {
    Enter(Admission),
    Leave,
}

impl ConnectionGate {
    /// How many connections are active.
    pub closed spec fn active(self) -> int {
        self.active as int
    }

    /// How many connections may be active.
    pub closed spec fn cap(self) -> int {
        self.max_connections as int
    }

    /// No more are active than may be.
    #[verifier::type_invariant]
    closed spec fn within_cap(self) -> bool {
        self.active <= self.max_connections
    }

    /// A gate that nothing has passed.
    pub fn new(max_connections: usize) -> (gate: ConnectionGate)
        ensures
            gate.active() == 0,
            gate.cap() == max_connections,
    {
        ConnectionGate { active: 0, max_connections }
    }

    /// Decides on a new connection and counts it if it is taken, in one step.
    pub fn enter(&mut self) -> (admission: Admission)
        ensures
            gate_step(*old(self), GateCall::Enter(admission), *final(self)),
            final(self).active() <= final(self).cap(),
    {
        proof {
            use_type_invariant(&*self);
        }
        let admission: Admission = judge_connection(self.active, self.max_connections);
        if let Admission::Accept = admission {
            self.active = self.active + 1;
        }
        admission
    }

    /// Counts a connection that has ended.
    pub fn leave(&mut self)
        requires
            old(self).active() > 0,
        ensures
            gate_step(*old(self), GateCall::Leave, *final(self)),
    {
        proof {
            use_type_invariant(&*self);
        }
        self.active = self.active - 1;
    }

    /// How many connections are active.
    pub fn active_connections(&self) -> (active: usize)
        ensures
            active == self.active(),
            active <= self.cap(),
    {
        proof {
            use_type_invariant(self);
        }
        self.active
    }
}

/// What a call does to a gate: one that is let in is counted, one that leaves is
/// counted back, and one is refused exactly when as many are active as may be.
pub open spec fn gate_step(before: ConnectionGate, call: GateCall, after: ConnectionGate) -> bool {
    &&& after.cap() == before.cap()
    &&& match call {
        GateCall::Enter(Admission::Accept) => {
            &&& before.active() < before.cap()
            &&& after.active() == before.active() + 1
        },
        GateCall::Enter(Admission::Refuse { status, message }) => {
            &&& before.active() >= before.cap()
            &&& status == 503
            &&& message@ == "too many active VAD sessions"@
            &&& after.active() == before.active()
        },
        GateCall::Leave => after.active() == before.active() - 1,
    }
}

/// Whether a gate went through these states over these calls.
pub open spec fn gate_run(gates: Seq<ConnectionGate>, calls: Seq<GateCall>) -> bool {
    &&& gates.len() == calls.len() + 1
    &&& forall|i: int|
        0 <= i < calls.len() ==> gate_step(gates[i], #[trigger] calls[i], gates[i + 1])
}

/// How many connections were let in and have not left.
pub open spec fn inside(calls: Seq<GateCall>) -> int
    decreases calls.len(),
{
    if calls.len() == 0 {
        0
    } else {
        inside(calls.drop_last()) + match calls.last() {
            GateCall::Enter(Admission::Accept) => 1int,
            GateCall::Enter(_) => 0,
            GateCall::Leave => -1,
        }
    }
}

/// However connections come and go, at no time are more let in and not gone
/// than may be.
pub proof fn lemma_cap_kept(gates: Seq<ConnectionGate>, calls: Seq<GateCall>, n: int)
    requires
        gate_run(gates, calls),
        gates[0].active() == 0,
        0 <= n <= calls.len(),
    ensures
        gates[n].cap() == gates[0].cap(),
        gates[n].active() == inside(calls.take(n)),
        inside(calls.take(n)) <= gates[0].cap(),
    decreases n,
{
    if n > 0 {
        lemma_cap_kept(gates, calls, n - 1);
        assert(gate_step(gates[n - 1], calls[n - 1], gates[n]));
        assert(calls.take(n).drop_last() =~= calls.take(n - 1));
        assert(calls.take(n).last() == calls[n - 1]);
    } else {
        assert(calls.take(0) =~= Seq::<GateCall>::empty());
    }
}

} // verus!
