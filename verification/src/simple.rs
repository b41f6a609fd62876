//! The example program: a server task greets the client that connects to it
//! fifty times, and the client prints what it receives until the connection
//! closes. Each task is written as the state machine of its decisions; the
//! run loop performs the socket operations they ask for.

use vstd::prelude::*;

verus! {

/// How many greetings the server sends.
pub const GREETING_COUNT: u32 = 50;

/// The size of the client's receive buffer.
pub const CLIENT_BUFFER: usize = 1024;

/// The port both tasks use on the loopback interface.
pub const PORT: u16 = 3333;

/// An IPv4 socket address.
pub struct Address {
    pub octets: [u8; 4],
    pub port: u16,
}

/// The address the server listens on and the client connects to,
/// 127.0.0.1:3333.
pub fn server_address() -> (a: Address)
    ensures
        a.octets@ == seq![127u8, 0u8, 0u8, 1u8],
        a.port == PORT,
{
    Address { octets: [127u8, 0u8, 0u8, 1u8], port: PORT }
}

/// The decimal digits of `n`, most significant first, as ASCII bytes.
pub open spec fn decimal(n: nat) -> Seq<u8>
    decreases n,
{
    if n < 10 {
        seq![(48 + n) as u8]
    } else {
        decimal(n / 10).push((48 + n % 10) as u8)
    }
}

/// The text of the greeting with number `i`: `hello_` followed by `i` in
/// decimal.
pub open spec fn greeting_text(i: nat) -> Seq<u8> {
    seq![104u8, 101u8, 108u8, 108u8, 111u8, 95u8] + decimal(i)
}

/// The number that a string of ASCII decimal digits spells.
pub open spec fn digits_value(s: Seq<u8>) -> int
    decreases s.len(),
{
    if s.len() == 0 {
        0
    } else {
        digits_value(s.drop_last()) * 10 + (s.last() - 48)
    }
}

/// `decimal(n)` is the usual rendering of `n`: ASCII digits only, no
/// leading zero unless `n` is zero, spelling `n`.
pub proof fn law_decimal_spells_number(n: nat)
    ensures
        decimal(n).len() >= 1,
        forall|i: int| 0 <= i < decimal(n).len() ==> 48 <= #[trigger] decimal(n)[i] <= 57,
        decimal(n)[0] == 48 ==> n == 0,
        digits_value(decimal(n)) == n,
    decreases n,
{
    if n >= 10 {
        law_decimal_spells_number(n / 10);
        let d = decimal(n / 10);
        assert(decimal(n) == d.push((48 + n % 10) as u8));
        assert(decimal(n).drop_last() =~= d);
        assert forall|i: int| 0 <= i < decimal(n).len() implies 48 <= #[trigger] decimal(n)[i]
            <= 57 by {
            if i < d.len() {
                assert(decimal(n)[i] == d[i]);
            }
        }
        assert(decimal(n)[0] == d[0]);
        assert(digits_value(decimal(n)) == digits_value(d) * 10 + (n % 10));
        assert((n / 10) * 10 + n % 10 == n) by (nonlinear_arith);
    } else {
        assert(decimal(n).drop_last() =~= Seq::<u8>::empty());
        assert(decimal(n).last() == 48 + n);
        assert(digits_value(Seq::<u8>::empty()) == 0);
    }
}

fn push_decimal(out: &mut Vec<u8>, n: u32)
    ensures
        final(out)@ == old(out)@ + decimal(n as nat),
    decreases n,
{
    if n >= 10 {
        push_decimal(out, n / 10);
    }
    out.push(48u8 + (n % 10) as u8);
    proof {
        assert(old(out)@ + decimal(n as nat) =~= final(out)@) by {
            if n >= 10 {
                assert(decimal(n as nat) == decimal((n / 10) as nat).push((48 + n % 10) as u8));
            }
        }
    }
}

/// The greeting with number `i`, as bytes.
pub fn greeting(i: u32) -> (g: Vec<u8>)
    ensures
        g@ == greeting_text(i as nat),
{
    let mut g: Vec<u8> = Vec::new();
    g.push(104u8);
    g.push(101u8);
    g.push(108u8);
    g.push(108u8);
    g.push(111u8);
    g.push(95u8);
    push_decimal(&mut g, i);
    g
}

// ------------------------------------------------------------------------
// The server side.

/// What the server task learns from the run loop.
#[derive(PartialEq, Eq, Structural, Debug, Clone, Copy)]
pub enum AcceptEvent {
    /// A client connection was accepted.
    Accepted,
    /// The last greeting was written in full.
    Sent,
}

/// What the server task asks for.
pub enum AcceptAction {
    /// Write these bytes in full to the accepted connection.
    Send(Vec<u8>),
    /// The task is over.
    Finish,
}

/// The server task: it accepts one connection and writes the greetings
/// `hello_0` to `hello_49` to it, one after the other.
pub struct AcceptConn {
    connected: bool,
    sent: u32,
}

/// The server task, waiting for its connection.
pub fn accept_conn() -> (t: AcceptConn)
    ensures
        !t.connected(),
        t.sent() == 0,
{
    AcceptConn { connected: false, sent: 0 }
}

impl AcceptConn {
    /// Whether the connection has been accepted.
    pub closed spec fn connected(&self) -> bool {
        self.connected
    }

    /// How many greetings were written in full.
    pub closed spec fn sent(&self) -> nat {
        self.sent as nat
    }

    /// Whether another event is expected.
    pub open spec fn expects(&self, ev: AcceptEvent) -> bool {
        match ev {
            AcceptEvent::Accepted => !self.connected(),
            AcceptEvent::Sent => self.connected() && self.sent() < GREETING_COUNT,
        }
    }

    /// Takes in what happened and says what to do next: after the accept
    /// and after each greeting the next greeting goes out, until all fifty
    /// are written.
    pub fn step(&mut self, ev: AcceptEvent) -> (a: AcceptAction)
        requires
            old(self).connected() ==> old(self).sent() <= GREETING_COUNT,
            old(self).expects(ev),
        ensures
            final(self).connected(),
            final(self).sent() <= GREETING_COUNT,
            ev == AcceptEvent::Accepted ==> final(self).sent() == 0,
            ev == AcceptEvent::Sent ==> final(self).sent() == old(self).sent() + 1,
            final(self).sent() < GREETING_COUNT ==> (a matches AcceptAction::Send(g) && g@
                == greeting_text(final(self).sent())),
            final(self).sent() == GREETING_COUNT ==> a is Finish,
    {
        match ev {
            AcceptEvent::Accepted => {
                self.connected = true;
                self.sent = 0;
            },
            AcceptEvent::Sent => {
                self.sent = self.sent + 1;
            },
        }
        if self.sent < GREETING_COUNT {
            AcceptAction::Send(greeting(self.sent))
        } else {
            AcceptAction::Finish
        }
    }
}

// ------------------------------------------------------------------------
// The client side.

/// What the client task learns from the run loop.
#[derive(PartialEq, Eq, Structural, Debug, Clone, Copy)]
pub enum ClientEvent {
    /// The connection to the server is established.
    Connected,
    /// A read into the receive buffer returned this many bytes.
    Received(usize),
}

/// What the client task asks for.
#[derive(PartialEq, Eq, Structural, Debug, Clone, Copy)]
pub enum ClientAction {
    /// Read into the receive buffer.
    Read,
    /// Print the first this many bytes of the receive buffer as text, then
    /// read again.
    Print(usize),
    /// The server closed the connection; the task is over.
    Finish,
}

/// The client task: it connects to the server and prints what it receives
/// until the connection is closed.
pub struct StartClient {
    connected: bool,
    closed: bool,
}

/// The client task, about to connect to `server_address()`.
pub fn start_client() -> (t: StartClient)
    ensures
        !t.connected(),
        !t.closed(),
{
    StartClient { connected: false, closed: false }
}

impl StartClient {
    /// Whether the connection is established.
    pub closed spec fn connected(&self) -> bool {
        self.connected
    }

    /// Whether the server closed the connection.
    pub closed spec fn closed(&self) -> bool {
        self.closed
    }

    /// Takes in what happened and says what to do next: read after
    /// connecting, print what a read brought, and stop at the first empty
    /// read.
    pub fn step(&mut self, ev: ClientEvent) -> (a: ClientAction)
        requires
            !old(self).closed(),
            ev == ClientEvent::Connected <==> !old(self).connected(),
            ev matches ClientEvent::Received(n) ==> n <= CLIENT_BUFFER,
        ensures
            final(self).connected(),
            final(self).closed() == (ev == ClientEvent::Received(0)),
            a == (match ev {
                ClientEvent::Connected => ClientAction::Read,
                ClientEvent::Received(n) => if n == 0 {
                    ClientAction::Finish
                } else {
                    ClientAction::Print(n)
                },
            }),
    {
        match ev {
            ClientEvent::Connected => {
                self.connected = true;
                ClientAction::Read
            },
            ClientEvent::Received(n) => {
                if n == 0 {
                    self.closed = true;
                    ClientAction::Finish
                } else {
                    ClientAction::Print(n)
                }
            },
        }
    }
}

// ------------------------------------------------------------------------
// The main future.

/// What the main future learns from the run loop.
#[derive(PartialEq, Eq, Structural, Debug, Clone, Copy)]
pub enum StartEvent {
    /// It is polled for the first time.
    Begin,
    /// The listener is bound.
    Bound,
    /// The server task has been spawned.
    Spawned,
    /// The client task finished.
    ClientDone,
}

/// What the main future asks for.
pub enum StartAction {
    /// Bind a listener to this address.
    Bind(Address),
    /// Spawn the server task on the bound listener.
    SpawnServer,
    /// Run the client task, which connects to this address.
    RunClient(Address),
    /// The program is over.
    Finish,
}

/// Where the main future stands.
#[derive(PartialEq, Eq, Structural, Debug, Clone, Copy)]
pub enum StartStage {
    Init,
    Binding,
    Spawning,
    Client,
    Finished,
}

/// The main future: it binds the listener, spawns the server task on it,
/// then runs the client to its end.
pub struct Start {
    stage: StartStage,
}

/// The main future, not yet polled.
pub fn start() -> (s: Start)
    ensures
        s.stage() == StartStage::Init,
{
    Start { stage: StartStage::Init }
}

/// The event each stage waits for.
pub open spec fn awaited(stage: StartStage) -> Option<StartEvent> {
    match stage {
        StartStage::Init => Some(StartEvent::Begin),
        StartStage::Binding => Some(StartEvent::Bound),
        StartStage::Spawning => Some(StartEvent::Spawned),
        StartStage::Client => Some(StartEvent::ClientDone),
        StartStage::Finished => None,
    }
}

impl Start {
    /// Where the main future stands.
    pub closed spec fn stage(&self) -> StartStage {
        self.stage
    }

    /// Takes in the event the current stage waits for and moves on to the
    /// next stage, saying what to do there.
    pub fn step(&mut self, ev: StartEvent) -> (a: StartAction)
        requires
            awaited(old(self).stage()) == Some(ev),
        ensures
            final(self).stage() == match ev {
                StartEvent::Begin => StartStage::Binding,
                StartEvent::Bound => StartStage::Spawning,
                StartEvent::Spawned => StartStage::Client,
                StartEvent::ClientDone => StartStage::Finished,
            },
            match ev {
                StartEvent::Begin => (a matches StartAction::Bind(addr) && addr.octets@ == seq![
                    127u8,
                    0u8,
                    0u8,
                    1u8,
                ] && addr.port == PORT),
                StartEvent::Bound => a is SpawnServer,
                StartEvent::Spawned => (a matches StartAction::RunClient(addr) && addr.octets@
                    == seq![127u8, 0u8, 0u8, 1u8] && addr.port == PORT),
                StartEvent::ClientDone => a is Finish,
            },
    {
        match ev {
            StartEvent::Begin => {
                self.stage = StartStage::Binding;
                StartAction::Bind(server_address())
            },
            StartEvent::Bound => {
                self.stage = StartStage::Spawning;
                StartAction::SpawnServer
            },
            StartEvent::Spawned => {
                self.stage = StartStage::Client;
                StartAction::RunClient(server_address())
            },
            StartEvent::ClientDone => {
                self.stage = StartStage::Finished;
                StartAction::Finish
            },
        }
    }
}

} // verus!
