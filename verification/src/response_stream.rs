//! The decisions of a stream of responses to one request.
use vstd::prelude::*;
use crate::error::MooError;
use crate::message::{MooMessage, MooVerb};

verus! {

/// Where a stream of responses stands: it yields CONTINUE messages followed
/// by a final COMPLETE message, and ends there, or at the first error; a
/// channel that closes before COMPLETE ends it with a `ConnectionClosed`
/// error.
#[derive(Debug)]
pub struct ResponseStreamState {
    completed: bool,
}

impl ResponseStreamState {
    /// Whether the stream has ended.
    pub closed spec fn is_done(&self) -> bool {
        self.completed
    }

    /// A stream that has not ended.
    pub fn new() -> (r: Self)
        ensures
            !r.is_done(),
    {
        ResponseStreamState { completed: false }
    }

    /// Whether the stream has ended; then it yields nothing more and its
    /// channel is not polled.
    pub fn is_completed(&self) -> (r: bool)
        ensures
            r == self.is_done(),
    {
        self.completed
    }

    /// What the stream yields for what its channel delivered (`None`: the
    /// channel closed). A COMPLETE message or an error is yielded and ends
    /// the stream; a channel that closes first yields `ConnectionClosed` and
    /// ends it; once ended, nothing more is yielded.
    pub fn on_receive(&mut self, item: Option<Result<MooMessage, MooError>>) -> (r: Option<
        Result<MooMessage, MooError>,
    >)
        ensures
            old(self).is_done() ==> r is None && final(self).is_done(),
            !old(self).is_done() ==> match item {
                None => r matches Some(Err(MooError::ConnectionClosed)) && final(self).is_done(),
                Some(Ok(m)) => r == Some(Ok::<MooMessage, MooError>(m)) && final(self).is_done()
                    == (m.verb == MooVerb::Complete),
                Some(Err(e)) => r == Some(Err::<MooMessage, MooError>(e)) && final(self).is_done(),
            },
    {
        if self.completed {
            return None;
        }
        match item {
            Some(result) => {
                match &result {
                    Ok(msg) => {
                        if msg.verb == MooVerb::Complete {
                            self.completed = true;
                        }
                    },
                    Err(_) => {
                        self.completed = true;
                    },
                }
                Some(result)
            },
            None => {
                self.completed = true;
                Some(Err(MooError::ConnectionClosed))
            },
        }
    }
}

} // verus!
