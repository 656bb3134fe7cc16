//! What a client connection does with each frame it receives.
use vstd::prelude::*;

verus! {

/// A frame read from a client's WebSocket.
pub enum Frame {
    Text(String),
    Close,
    /// Reading from the socket failed.
    Failed,
    /// Any other frame (binary, ping, pong).
    Other,
}

/// What the connection does with a frame.
pub enum FrameAction {
    /// Parse the text as a command and dispatch it.
    Dispatch(String),
    /// Stop reading and close the connection.
    Disconnect,
    /// Skip the frame.
    Ignore,
}

/// Text frames carry commands; a close frame or a read error ends the
/// connection; other frames are skipped.
pub fn frame_action(frame: Frame) -> (a: FrameAction)
    ensures
        match frame {
            Frame::Text(t) => a == FrameAction::Dispatch(t),
            Frame::Close | Frame::Failed => a is Disconnect,
            Frame::Other => a is Ignore,
        },
{
    match frame {
        Frame::Text(t) => FrameAction::Dispatch(t),
        Frame::Close => FrameAction::Disconnect,
        Frame::Failed => FrameAction::Disconnect,
        Frame::Other => FrameAction::Ignore,
    }
}

} // verus!
