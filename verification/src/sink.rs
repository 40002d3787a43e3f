//! The audio sink abstraction: a sink opens a playback session at a given
//! shape, and a session accepts PCM writes.  The write history of a session
//! is its ghost state, so the data plane can account for
//! every write.

use vstd::prelude::*;

verus! {

/// The sample formats the decoders produce.
#[derive(Clone, Copy, Debug, PartialEq, Eq, Structural)]
pub enum AudioFormat {
    S16BE,
    S16NE,
}

/// A sink backend could not open or feed a playback session.
#[derive(Clone, Copy, Debug, PartialEq, Eq, Structural)]
pub enum SinkError {
    Unavailable,
}

/// An open playback session.  `writes` is the sequence of PCM buffers the
/// session has accepted, and `shape` the (channels, rate, format) triple it
/// was started at; a successful write appends exactly one buffer.
pub trait AudioSinkSession: Sized {
    spec fn writes(&self) -> Seq<Seq<u8>>;

    spec fn shape(&self) -> (u8, u32, AudioFormat);

    fn write(&mut self, payload: &Vec<u8>) -> (r: Result<(), SinkError>)
        ensures
            r is Ok ==> final(self).writes() == old(self).writes().push(payload@),
            r is Err ==> final(self).writes() == old(self).writes(),
            final(self).shape() == old(self).shape(),
    ;
}

/// A sink: starts playback sessions at (channels, rate, format).  A fresh
/// session has seen no writes.
pub trait AudioSink: Sized {
    type Session: AudioSinkSession;

    fn start(&self, channels: u8, rate: u32, format: AudioFormat) -> (r: Result<
        Self::Session,
        SinkError,
    >)
        ensures
            r matches Ok(s) ==> s.writes() == Seq::<Seq<u8>>::empty() && s.shape() == (
            channels, rate, format),
    ;
}

/// A sink that discards the audio; it records the write history in ghost
/// state only.
pub struct DummyAudioSink {}

impl DummyAudioSink {
    pub fn new() -> (r: DummyAudioSink) {
        DummyAudioSink {  }
    }
}

pub struct DummyAudioSinkSession {
    pub history: Ghost<Seq<Seq<u8>>>,
    pub opened_shape: Ghost<(u8, u32, AudioFormat)>,
}

impl AudioSinkSession for DummyAudioSinkSession {
    open spec fn writes(&self) -> Seq<Seq<u8>> {
        self.history@
    }

    open spec fn shape(&self) -> (u8, u32, AudioFormat) {
        self.opened_shape@
    }

    fn write(&mut self, payload: &Vec<u8>) -> (r: Result<(), SinkError>) {
        proof {
            self.history@ = self.history@.push(payload@);
        }
        Ok(())
    }
}

impl AudioSink for DummyAudioSink {
    type Session = DummyAudioSinkSession;

    fn start(&self, channels: u8, rate: u32, format: AudioFormat) -> (r: Result<
        DummyAudioSinkSession,
        SinkError,
    >) {
        Ok(DummyAudioSinkSession {
            history: Ghost(Seq::empty()),
            opened_shape: Ghost((channels, rate, format)),
        })
    }
}

} // verus!
