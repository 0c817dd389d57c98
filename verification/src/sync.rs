//! The header-retrieval client as a pure state machine: each received wire
//! message maps the current state to a next state and a list of send
//! actions. The blocking transport loop around it only performs the actions
//! and feeds back what arrives.
use vstd::prelude::*;
use crate::header::BlockHeader;
use crate::header::block_hash;
use crate::header::header_bytes;
use crate::header::sha256d_of;

verus! {

/// The wire messages the client reacts to, already decoded to plain values;
/// anything else arrives as `Unknown` and is ignored.
pub enum Message {
    Version { start_height: usize },
    Verack,
    Headers(Vec<BlockHeader>),
    Ping(u64),
    Unknown,
}

/// What the caller must put on the wire after a transition, in order. A
/// header request carries the locator hash of the most recently appended
/// header and an implicit empty stop hash.
pub enum Action {
    SendVerack,
    RequestHeaders(Vec<u8>),
    SendPong(u64),
}

#[derive(Clone, Copy, PartialEq, Eq, Structural)]
pub enum SyncPhase {
    Handshaking,
    Syncing,
    Done,
}

/// The client's state: the chain so far (seeded with genesis, appended in
/// received order), the peer-advertised height, and the running count of
/// received headers.
pub struct HeaderChainSync {
    pub headers: Vec<BlockHeader>,
    pub target_height: usize,
    pub received: usize,
    pub phase: SyncPhase,
}

/// The mathematical image of the state.
pub struct SyncView {
    pub headers: Seq<BlockHeader>,
    pub target_height: nat,
    pub received: nat,
    pub phase: SyncPhase,
}

impl HeaderChainSync {
    pub open spec fn view_spec(self) -> SyncView {
        SyncView {
            headers: self.headers@,
            target_height: self.target_height as nat,
            received: self.received as nat,
            phase: self.phase,
        }
    }

    pub open spec fn wf(self) -> bool {
        self.headers@.len() >= 1
    }

    /// A fresh client over an already-seeded chain (height 0 is the genesis
    /// header, never requested from the wire).
    pub fn new(initial: Vec<BlockHeader>) -> (r: HeaderChainSync)
        requires
            initial@.len() >= 1,
        ensures
            r.wf(),
            r.headers@ == initial@,
            r.target_height == 0,
            r.received == 0,
            r.phase == SyncPhase::Handshaking,
    {
        HeaderChainSync {
            headers: initial,
            target_height: 0,
            received: 0,
            phase: SyncPhase::Handshaking,
        }
    }
}

/// What one headers batch does to the state: append in received order, count,
/// and stay syncing exactly while the count is short of the advertised
/// height.
pub open spec fn headers_step(s: SyncView, batch: Seq<BlockHeader>) -> SyncView {
    SyncView {
        headers: s.headers + batch,
        target_height: s.target_height,
        received: s.received + batch.len(),
        phase: if s.received + batch.len() < s.target_height {
            SyncPhase::Syncing
        } else {
            SyncPhase::Done
        },
    }
}

/// Whether a headers batch leaves more to fetch, so a further request goes
/// out.
pub open spec fn headers_step_requests(s: SyncView, batch: Seq<BlockHeader>) -> bool {
    s.received + batch.len() < s.target_height
}

/// A request action anchored on the given header's identifying hash.
pub open spec fn is_request_for(a: Action, h: BlockHeader) -> bool {
    a matches Action::RequestHeaders(loc) && loc@ == sha256d_of(header_bytes(h))
}

/// The state after a whole run of headers batches, applied in order.
pub open spec fn run_batches(s: SyncView, batches: Seq<Seq<BlockHeader>>) -> SyncView
    decreases batches.len(),
{
    if batches.len() == 0 {
        s
    } else {
        run_batches(headers_step(s, batches.first()), batches.drop_first())
    }
}

/// The number of headers a run of batches carries.
pub open spec fn total_len(batches: Seq<Seq<BlockHeader>>) -> nat
    decreases batches.len(),
{
    if batches.len() == 0 {
        0
    } else {
        batches.first().len() + total_len(batches.drop_first())
    }
}

/// Sync termination: once a peer that advertised `target_height` has sent
/// batches carrying enough headers to reach it, the run ends in the terminal
/// phase, the chain has grown by exactly the advertised count, and the last
/// batch triggers no further request.
pub proof fn lemma_sync_termination(s: SyncView, batches: Seq<Seq<BlockHeader>>)
    requires
        batches.len() > 0,
        s.received + total_len(batches) >= s.target_height,
    ensures
        run_batches(s, batches).phase == SyncPhase::Done,
        run_batches(s, batches).received == s.received + total_len(batches),
        run_batches(s, batches).headers.len() == s.headers.len() + total_len(batches),
        run_batches(s, batches).target_height == s.target_height,
        !headers_step_requests(run_batches(s, batches.drop_last()), batches.last()),
    decreases batches.len(),
{
    let s1 = headers_step(s, batches.first());
    if batches.len() == 1 {
        assert(batches.drop_first() =~= Seq::<Seq<BlockHeader>>::empty());
        assert(batches.drop_last() =~= Seq::<Seq<BlockHeader>>::empty());
        assert(total_len(batches.drop_first()) == 0);
        assert(run_batches(s, batches) == s1);
    } else {
        lemma_sync_termination(s1, batches.drop_first());
        assert(batches.drop_first().drop_last() =~= batches.drop_last().drop_first());
        assert(batches.drop_last().len() > 0);
        assert(batches.drop_last().first() =~= batches.first());
        assert(run_batches(s, batches.drop_last()) == run_batches(
            headers_step(s, batches.first()),
            batches.drop_last().drop_first(),
        ));
        assert(batches.drop_first().last() =~= batches.last());
    }
}

impl HeaderChainSync {
    /// One transition of the protocol state machine.
    ///
    /// A version message records the peer's advertised height and answers
    /// with a version-acknowledgement followed by the first header request; a
    /// headers batch is appended in received order and, while the running
    /// count is short of the advertised height, another request anchored on
    /// the newest header goes out; a ping is answered by a pong carrying the
    /// same payload and changes nothing; anything else is ignored.
    pub fn handle_message(&mut self, msg: Message) -> (actions: Vec<Action>)
        requires
            old(self).wf(),
            msg matches Message::Headers(hs) ==> old(self).received + hs@.len() <= usize::MAX
                && old(self).headers@.len() + hs@.len() <= usize::MAX,
        ensures
            final(self).wf(),
            final(self).target_height == (match msg {
                Message::Version { start_height } => start_height as int,
                _ => old(self).target_height as int,
            }),
            match msg {
                Message::Version { start_height } => {
                    &&& final(self).headers@ == old(self).headers@
                    &&& final(self).received == old(self).received
                    &&& final(self).phase == SyncPhase::Syncing
                    &&& actions@.len() == 2
                    &&& actions@[0] matches Action::SendVerack
                    &&& is_request_for(actions@[1], old(self).headers@.last())
                },
                Message::Headers(hs) => {
                    &&& final(self).view_spec() == headers_step(old(self).view_spec(), hs@)
                    &&& if headers_step_requests(old(self).view_spec(), hs@) {
                        actions@.len() == 1 && is_request_for(
                            actions@[0],
                            final(self).headers@.last(),
                        )
                    } else {
                        actions@.len() == 0
                    }
                },
                Message::Ping(nonce) => {
                    &&& *final(self) == *old(self)
                    &&& actions@.len() == 1
                    &&& actions@[0] matches Action::SendPong(n) && n == nonce
                },
                _ => {
                    &&& *final(self) == *old(self)
                    &&& actions@.len() == 0
                },
            },
    {
        let mut actions: Vec<Action> = Vec::new();
        match msg {
            Message::Version { start_height } => {
                self.target_height = start_height;
                self.phase = SyncPhase::Syncing;
                actions.push(Action::SendVerack);
                let loc = block_hash(&self.headers[self.headers.len() - 1]);
                actions.push(Action::RequestHeaders(loc));
            },
            Message::Headers(hs) => {
                let mut hs = hs;
                let count = hs.len();
                self.headers.append(&mut hs);
                self.received = self.received + count;
                if self.received < self.target_height {
                    self.phase = SyncPhase::Syncing;
                    let loc = block_hash(&self.headers[self.headers.len() - 1]);
                    actions.push(Action::RequestHeaders(loc));
                } else {
                    self.phase = SyncPhase::Done;
                }
            },
            Message::Ping(nonce) => {
                actions.push(Action::SendPong(nonce));
            },
            _ => {},
        }
        actions
    }
}

} // verus!
