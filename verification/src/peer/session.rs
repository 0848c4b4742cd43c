//! The state of a peer session and the decisions of its download flow:
//! bitfield, interested, unchoke, then piece after piece, chunk by chunk.
use vstd::prelude::*;

use crate::download::{spec_chunk_count, spec_chunk_size, PieceDownload, PieceRequests, CHUNK_MAX};
use crate::peer::connection::{self, Frame, Request};
use crate::PieceIndex;

verus! {

/// The state of a peer session.
#[derive(Debug, Clone, Copy, PartialEq, Eq, Structural)]
pub struct State {
    /// The state of the connection.
    pub conn: connection::State,
    /// Whether the remote peer has choked this client.
    pub is_choked: bool,
    /// Whether the remote peer is interested in something this client has.
    pub is_interested: bool,
    /// Whether this client chokes the peer.
    pub is_peer_choked: bool,
    /// Whether the peer is interested in a piece this client has.
    pub is_peer_interested: bool,
}

impl Default for State {
    /// Both sides start off choked and not interested, disconnected.
    fn default() -> (s: Self)
        ensures
            s == (State {
                conn: connection::State::Disconnected,
                is_choked: true,
                is_interested: false,
                is_peer_choked: true,
                is_peer_interested: false,
            }),
    {
        State {
            conn: connection::State::Disconnected,
            is_choked: true,
            is_interested: false,
            is_peer_choked: true,
            is_peer_interested: false,
        }
    }
}

/// The summary of a session sent to the torrent.
#[derive(Debug, Clone, Copy)]
pub struct Stats {
    /// A snapshot of the session state.
    pub state: State,
}

/// The reconnection schedule of a session: wait 1, 2, 4, ... 64 seconds
/// between attempts, and give up once the wait would exceed 64 seconds.
pub struct Backoff {
    secs: u64,
}

impl Backoff {
    /// The wait before the next attempt.
    pub closed spec fn spec_secs(&self) -> u64 {
        self.secs
    }

    /// A fresh schedule: the first wait is one second.
    pub fn new() -> (b: Self)
        ensures
            b.spec_secs() == 1,
    {
        Backoff { secs: 1 }
    }

    /// After a failed attempt: the seconds to wait before the next one, with
    /// the wait doubled for the attempt after; `None`, to give up, once the
    /// wait exceeds 64 seconds.
    pub fn on_failure(&mut self) -> (wait: Option<u64>)
        ensures
            old(self).spec_secs() > 64 ==> wait is None && final(self).spec_secs() == old(
                self,
            ).spec_secs(),
            old(self).spec_secs() <= 64 ==> wait == Some(old(self).spec_secs())
                && final(self).spec_secs() == 2 * old(self).spec_secs(),
    {
        if self.secs > 64 {
            None
        } else {
            let wait = self.secs;
            self.secs = 2 * self.secs;
            Some(wait)
        }
    }
}

/// Why a session's download stopped with an error.
#[derive(Debug, Clone, Copy, PartialEq, Eq, Structural)]
pub enum SessionError {
    /// The first frame was not a bitfield.
    ExpectedBitfield,
    /// The frame after `Interested` was not an unchoke.
    ExpectedUnchoke,
    /// A request was not answered with a piece frame.
    ExpectedPiece,
    /// A chunk came back for another piece.
    WrongPiece,
    /// A chunk came back at another offset.
    WrongOffset,
    /// A chunk came back with another length.
    WrongLength,
}

/// What the session asks its driver to do next.
pub enum Action {
    /// Read the next frame and hand it to `receive`.
    Receive,
    /// Write this frame, then read the next frame and hand it to `receive`.
    SendAndReceive(Frame),
    /// Pick the next piece to download and hand the result to `picked`.
    Pick,
    /// Report this completed piece to the torrent, then pick the next piece.
    Complete(PieceDownload),
    /// Stop: no piece is left to download.
    Close,
    /// Stop with an error.
    Fail(SessionError),
}

/// Where the download flow stands.
pub enum Phase {
    AwaitBitfield,
    AwaitUnchoke,
    Picking,
    Downloading(PieceRequests),
    Finished,
}

/// The download flow of one peer session.
pub struct PeerDownload {
    state: State,
    phase: Phase,
}

impl PeerDownload {
    /// The session state.
    pub closed spec fn spec_state(&self) -> State {
        self.state
    }

    /// The session state.
    pub fn state(&self) -> (s: State)
        ensures
            s == self.spec_state(),
    {
        self.state
    }

    pub closed spec fn spec_phase(&self) -> Phase {
        self.phase
    }

    /// The phase's own invariant.
    pub closed spec fn wf(&self) -> bool {
        match self.phase {
            Phase::Downloading(r) => r.wf() && !r.spec_done(),
            _ => true,
        }
    }

    /// Whether the flow waits for a frame.
    pub open spec fn awaits_frame(&self) -> bool {
        match self.spec_phase() {
            Phase::AwaitBitfield | Phase::AwaitUnchoke | Phase::Downloading(_) => true,
            _ => false,
        }
    }

    /// Whether the flow waits for a picked piece.
    pub open spec fn awaits_pick(&self) -> bool {
        self.spec_phase() is Picking
    }

    /// A fresh flow: it waits for the peer's bitfield; the driver starts by
    /// reading a frame.
    pub fn new(state: State) -> (r: (Self, Action))
        ensures
            r.0.wf(),
            r.0.spec_state() == state,
            r.0.spec_phase() is AwaitBitfield,
            r.1 is Receive,
    {
        (PeerDownload { state, phase: Phase::AwaitBitfield }, Action::Receive)
    }

    /// Hands a frame read from the peer (`None` when the connection closed)
    /// to the flow.
    ///
    /// Awaiting the bitfield, a bitfield makes the client interested and
    /// sends `Interested`. Awaiting the unchoke, an unchoke records that the
    /// peer no longer chokes this client, and the next piece is picked. Downloading, a piece frame is checked
    /// against the pending request: the next chunk is requested, or the
    /// completed piece reported. Any other frame fails the flow.
    pub fn receive(&mut self, frame: Option<Frame>) -> (a: Action)
        requires
            old(self).wf(),
            old(self).awaits_frame(),
        ensures
            final(self).wf(),
            old(self).spec_phase() is AwaitBitfield ==> match frame {
                Some(Frame::Bitfield(_)) => {
                    &&& final(self).spec_state() == (State { is_interested: true, ..old(self).spec_state() })
                    &&& final(self).spec_phase() is AwaitUnchoke
                    &&& a matches Action::SendAndReceive(f) && f@ == connection::SpecFrame::Interested
                },
                _ => {
                    &&& final(self).spec_state() == old(self).spec_state()
                    &&& final(self).spec_phase() is Finished
                    &&& a == Action::Fail(SessionError::ExpectedBitfield)
                },
            },
            old(self).spec_phase() is AwaitUnchoke ==> match frame {
                Some(Frame::Unchoke) => {
                    &&& final(self).spec_state() == (State { is_choked: false, ..old(self).spec_state() })
                    &&& final(self).spec_phase() is Picking
                    &&& a is Pick
                },
                _ => {
                    &&& final(self).spec_state() == old(self).spec_state()
                    &&& final(self).spec_phase() is Finished
                    &&& a == Action::Fail(SessionError::ExpectedUnchoke)
                },
            },
            old(self).spec_phase() matches Phase::Downloading(req) ==> final(self).spec_state() == old(self).spec_state(),
            old(self).spec_phase() matches Phase::Downloading(req) ==> match frame {
                Some(Frame::Piece(chunk)) => if chunk.piece_index != req.spec_index() {
                    final(self).spec_phase() is Finished && a == Action::Fail(SessionError::WrongPiece)
                } else if chunk.offset != req.spec_received() * CHUNK_MAX {
                    final(self).spec_phase() is Finished && a == Action::Fail(SessionError::WrongOffset)
                } else if chunk.data@.len() != spec_chunk_size(req.spec_size(), req.spec_received()) {
                    final(self).spec_phase() is Finished && a == Action::Fail(SessionError::WrongLength)
                } else if req.spec_received() + 1 == spec_chunk_count(req.spec_size()) {
                    &&& final(self).spec_phase() is Picking
                    &&& a matches Action::Complete(d) && d.index == req.spec_index()
                        && d.data@ == req.spec_data() + chunk.data@ && d.data@.len() == req.spec_size()
                } else {
                    &&& final(self).spec_phase() matches Phase::Downloading(next)
                    &&& next.spec_index() == req.spec_index()
                    &&& next.spec_size() == req.spec_size()
                    &&& next.spec_received() == req.spec_received() + 1
                    &&& next.spec_data() == req.spec_data() + chunk.data@
                    &&& a matches Action::SendAndReceive(f) && f@ == connection::SpecFrame::Request(
                        Request {
                            index: next.spec_index() as u32,
                            begin: (next.spec_received() * CHUNK_MAX) as u32,
                            length: spec_chunk_size(next.spec_size(), next.spec_received()) as u32,
                        },
                    )
                },
                _ => final(self).spec_phase() is Finished && a == Action::Fail(SessionError::ExpectedPiece),
            },
    {
        let mut phase = Phase::Finished;
        std::mem::swap(&mut phase, &mut self.phase);
        match phase {
            Phase::AwaitBitfield => match frame {
                Some(Frame::Bitfield(_)) => {
                    self.state.is_interested = true;
                    self.phase = Phase::AwaitUnchoke;
                    Action::SendAndReceive(Frame::Interested)
                },
                _ => Action::Fail(SessionError::ExpectedBitfield),
            },
            Phase::AwaitUnchoke => match frame {
                Some(Frame::Unchoke) => {
                    self.state.is_choked = false;
                    self.phase = Phase::Picking;
                    Action::Pick
                },
                _ => Action::Fail(SessionError::ExpectedUnchoke),
            },
            Phase::Downloading(mut req) => match frame {
                Some(Frame::Piece(chunk)) => {
                    match req.receive(chunk) {
                        Ok(()) => {
                            if req.is_done() {
                                self.phase = Phase::Picking;
                                Action::Complete(req.finish())
                            } else {
                                let next = req.next_request();
                                self.phase = Phase::Downloading(req);
                                Action::SendAndReceive(Frame::Request(next))
                            }
                        },
                        Err(crate::download::ChunkError::WrongPiece) => Action::Fail(SessionError::WrongPiece),
                        Err(crate::download::ChunkError::WrongOffset) => Action::Fail(SessionError::WrongOffset),
                        Err(crate::download::ChunkError::WrongLength) => Action::Fail(SessionError::WrongLength),
                    }
                },
                _ => Action::Fail(SessionError::ExpectedPiece),
            },
            other => {
                self.phase = other;
                Action::Close
            },
        }
    }

    /// Hands the result of picking a piece, its index and size, to the flow:
    /// with no piece left the flow closes; otherwise it requests the piece's
    /// first chunk.
    pub fn picked(&mut self, pick: Option<(PieceIndex, usize)>) -> (a: Action)
        requires
            old(self).wf(),
            old(self).awaits_pick(),
            pick matches Some((_, size)) ==> size + CHUNK_MAX <= usize::MAX,
        ensures
            final(self).wf(),
            final(self).spec_state() == old(self).spec_state(),
            match pick {
                None => final(self).spec_phase() is Finished && a is Close,
                Some((index, size)) => if size == 0 {
                    &&& final(self).spec_phase() is Picking
                    &&& a matches Action::Complete(d) && d.index == index && d.data@.len() == 0
                } else {
                    &&& final(self).spec_phase() matches Phase::Downloading(req)
                    &&& req.spec_index() == index
                    &&& req.spec_size() == size
                    &&& req.spec_received() == 0
                    &&& req.spec_data() == Seq::<u8>::empty()
                    &&& a matches Action::SendAndReceive(f) && f@ == connection::SpecFrame::Request(
                        Request {
                            index: index as u32,
                            begin: 0,
                            length: spec_chunk_size(size as nat, 0) as u32,
                        },
                    )
                },
            },
    {
        match pick {
            None => {
                self.phase = Phase::Finished;
                Action::Close
            },
            Some((index, size)) => {
                let req = PieceRequests::new(index, size);
                if req.is_done() {
                    self.phase = Phase::Picking;
                    Action::Complete(req.finish())
                } else {
                    let next = req.next_request();
                    self.phase = Phase::Downloading(req);
                    Action::SendAndReceive(Frame::Request(next))
                }
            },
        }
    }
}

} // verus!
