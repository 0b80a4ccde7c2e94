//! One decode attempt: open the source, decode it, always close it.
//!
//! The decoder is driven from outside; this module decides, from each status
//! the decoder reports, what is done next, and admits tiles into the frame
//! buffer only while decoding runs.
use vstd::prelude::*;
use crate::compositor::{TileGeometry, composed, composite_tile};

verus! {

/// How a decode attempt ended.
#[derive(Clone, Copy, Debug, PartialEq, Eq, Structural)]
pub enum DecodeOutcome {
    /// The source could not be opened; no tile was delivered.
    OpenFailed,
    /// Decoding started but did not complete; some tiles may have landed.
    DecodeFailed,
    /// Decoding completed.
    Success,
}

/// Where an attempt stands.
#[derive(Clone, Copy, Debug, PartialEq, Eq, Structural)]
pub enum SessionStage {
    Opening,
    Decoding,
    Closing(DecodeOutcome),
    Finished(DecodeOutcome),
}

/// What the decoder reported.
#[derive(Clone, Copy, Debug, PartialEq, Eq, Structural)]
pub enum SessionEvent {
    /// The open call returned this status; nonzero means opened.
    OpenReturned(i32),
    /// The decode call returned this status; nonzero means decoded.
    DecodeReturned(i32),
    /// The session was closed.
    Closed,
}

/// What the driver does next.
#[derive(Clone, Copy, Debug, PartialEq, Eq, Structural)]
pub enum SessionAction {
    /// Run the decoder to completion at offset (0, 0).
    Decode,
    /// Close the session.
    Close,
    /// The attempt is over with this outcome.
    Report(DecodeOutcome),
    /// The event does not apply at this stage; nothing to do.
    Ignore,
}

pub open spec fn next_stage(stage: SessionStage, event: SessionEvent) -> SessionStage {
    match (stage, event) {
        (SessionStage::Opening, SessionEvent::OpenReturned(s)) => if s != 0 {
            SessionStage::Decoding
        } else {
            SessionStage::Closing(DecodeOutcome::OpenFailed)
        },
        (SessionStage::Decoding, SessionEvent::DecodeReturned(s)) => if s != 0 {
            SessionStage::Closing(DecodeOutcome::Success)
        } else {
            SessionStage::Closing(DecodeOutcome::DecodeFailed)
        },
        (SessionStage::Closing(o), SessionEvent::Closed) => SessionStage::Finished(o),
        _ => stage,
    }
}

pub open spec fn next_action(stage: SessionStage, event: SessionEvent) -> SessionAction {
    match (stage, event) {
        (SessionStage::Opening, SessionEvent::OpenReturned(s)) => if s != 0 {
            SessionAction::Decode
        } else {
            SessionAction::Close
        },
        (SessionStage::Decoding, SessionEvent::DecodeReturned(_)) => SessionAction::Close,
        (SessionStage::Closing(o), SessionEvent::Closed) => SessionAction::Report(o),
        _ => SessionAction::Ignore,
    }
}

/// The stage reached from `stage` after `events`, in order.
pub open spec fn stage_after(stage: SessionStage, events: Seq<SessionEvent>) -> SessionStage
    decreases events.len(),
{
    if events.len() == 0 {
        stage
    } else {
        stage_after(next_stage(stage, events[0]), events.drop_first())
    }
}

/// The frame buffer after a tile is offered at `stage`.
pub open spec fn after_tile(
    stage: SessionStage,
    frame: Seq<u16>,
    stride: nat,
    g: TileGeometry,
    pixels: Seq<u16>,
) -> Seq<u16> {
    if stage is Decoding {
        composed(frame, stride, g, pixels)
    } else {
        frame
    }
}

/// One decode attempt.
pub struct DecodeSession {
    pub stage: SessionStage,
}

impl DecodeSession {
    /// A new attempt; the caller opens the source next and reports the
    /// status with `SessionEvent::OpenReturned`.
    pub fn start() -> (s: DecodeSession)
        ensures
            s.stage == SessionStage::Opening,
    {
        DecodeSession { stage: SessionStage::Opening }
    }

    /// Advances on what the decoder reported and says what to do next.
    pub fn handle(&mut self, event: SessionEvent) -> (a: SessionAction)
        ensures
            final(self).stage == next_stage(old(self).stage, event),
            a == next_action(old(self).stage, event),
    {
        match (self.stage, event) {
            (SessionStage::Opening, SessionEvent::OpenReturned(s)) => {
                if s != 0 {
                    self.stage = SessionStage::Decoding;
                    SessionAction::Decode
                } else {
                    self.stage = SessionStage::Closing(DecodeOutcome::OpenFailed);
                    SessionAction::Close
                }
            },
            (SessionStage::Decoding, SessionEvent::DecodeReturned(s)) => {
                if s != 0 {
                    self.stage = SessionStage::Closing(DecodeOutcome::Success);
                } else {
                    self.stage = SessionStage::Closing(DecodeOutcome::DecodeFailed);
                }
                SessionAction::Close
            },
            (SessionStage::Closing(o), SessionEvent::Closed) => {
                self.stage = SessionStage::Finished(o);
                SessionAction::Report(o)
            },
            _ => SessionAction::Ignore,
        }
    }

    /// Whether tiles are taken into the frame buffer now.
    pub fn accepts_tiles(&self) -> (r: bool)
        ensures
            r == (self.stage is Decoding),
    {
        match self.stage {
            SessionStage::Decoding => true,
            _ => false,
        }
    }

    /// Hands a tile from the decoder to the compositor while decoding runs;
    /// at any other stage the frame buffer is left as it is.
    pub fn deliver_tile(&self, frame: &mut [u16], stride: usize, g: TileGeometry, pixels: &[u16])
        requires
            pixels@.len() == g.width * g.height,
        ensures
            final(frame)@ == after_tile(self.stage, old(frame)@, stride as nat, g, pixels@),
    {
        if self.accepts_tiles() {
            composite_tile(frame, stride, g, pixels);
        }
    }

    /// The outcome, once the session was closed.
    pub fn outcome(&self) -> (r: Option<DecodeOutcome>)
        ensures
            match self.stage {
                SessionStage::Finished(o) => r == Some(o),
                _ => r is None,
            },
    {
        match self.stage {
            SessionStage::Finished(o) => Some(o),
            _ => None,
        }
    }
}

proof fn lemma_closed_stays_closed(stage: SessionStage, events: Seq<SessionEvent>)
    requires
        stage is Closing || stage is Finished,
    ensures
        stage_after(stage, events) is Closing || stage_after(stage, events) is Finished,
    decreases events.len(),
{
    if events.len() > 0 {
        lemma_closed_stays_closed(next_stage(stage, events[0]), events.drop_first());
    }
}

/// Once an attempt has failed, at the open or at the decode call, whatever
/// the decoder reports afterwards and whatever tile it offers, the frame
/// buffer keeps exactly its contents: the attempt never again reaches the
/// stage that takes tiles. A failed open therefore leaves the buffer as it
/// was before the attempt.
pub proof fn lemma_failed_attempt_keeps_frame(
    status: i32,
    events: Seq<SessionEvent>,
    frame: Seq<u16>,
    stride: nat,
    g: TileGeometry,
    pixels: Seq<u16>,
)
    requires
        status == 0,
    ensures
        forall|i: int|
            0 <= i <= events.len() ==> after_tile(
                #[trigger] stage_after(
                    next_stage(SessionStage::Opening, SessionEvent::OpenReturned(status)),
                    events.take(i),
                ),
                frame,
                stride,
                g,
                pixels,
            ) == frame,
        forall|i: int|
            0 <= i <= events.len() ==> after_tile(
                #[trigger] stage_after(
                    next_stage(SessionStage::Decoding, SessionEvent::DecodeReturned(status)),
                    events.take(i),
                ),
                frame,
                stride,
                g,
                pixels,
            ) == frame,
{
    let open_failed = next_stage(SessionStage::Opening, SessionEvent::OpenReturned(status));
    let decode_failed = next_stage(SessionStage::Decoding, SessionEvent::DecodeReturned(status));
    assert forall|i: int| 0 <= i <= events.len() implies after_tile(
        #[trigger] stage_after(open_failed, events.take(i)),
        frame,
        stride,
        g,
        pixels,
    ) == frame by {
        lemma_closed_stays_closed(open_failed, events.take(i));
    }
    assert forall|i: int| 0 <= i <= events.len() implies after_tile(
        #[trigger] stage_after(decode_failed, events.take(i)),
        frame,
        stride,
        g,
        pixels,
    ) == frame by {
        lemma_closed_stays_closed(decode_failed, events.take(i));
    }
}

/// Every attempt asks for the session to be closed, whether the open failed,
/// the decode failed or both succeeded; closing then reports the outcome.
pub proof fn lemma_every_attempt_closes(open_status: i32, decode_status: i32)
    ensures
        open_status == 0 ==> next_action(
            SessionStage::Opening,
            SessionEvent::OpenReturned(open_status),
        ) == SessionAction::Close,
        open_status != 0 ==> next_action(
            SessionStage::Opening,
            SessionEvent::OpenReturned(open_status),
        ) == SessionAction::Decode && next_action(
            next_stage(SessionStage::Opening, SessionEvent::OpenReturned(open_status)),
            SessionEvent::DecodeReturned(decode_status),
        ) == SessionAction::Close,
        forall|o: DecodeOutcome|
            next_action(SessionStage::Closing(o), SessionEvent::Closed) == SessionAction::Report(o),
{
}

} // verus!
