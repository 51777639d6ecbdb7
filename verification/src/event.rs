//! What the parser answers with.

use vstd::prelude::*;

use crate::info::Info;
use crate::stream::{Packet, Stream, StreamV};
use crate::tables::{MainHeader, MainHeaderV};

verus! {

/// What the parser found. The order over one stream is: the main header, a
/// stream header for each stream, the info packets and syncpoints that
/// follow, [`Event::EndOfHeaders`] once the last of those is behind it, then
/// a frame for every frame, then [`Event::EndOfInput`].
#[derive(Debug, PartialEq, Eq)]
#[non_exhaustive]
#[allow(inconsistent_fields)]
pub enum Event {
    /// The main header, which settles the framecode table every frame header
    /// is read through.
    MainHeader(MainHeader),
    /// One stream's header. `stream` is what it said at that moment; an info
    /// packet after it may still fill in the frame rate, so a consumer that
    /// wants the settled description reads
    /// [`PushDemuxer::stream`](crate::PushDemuxer::stream) at
    /// [`Event::EndOfHeaders`].
    StreamHeader { index: usize, stream: Stream },
    /// An info packet, already applied to whichever stream it named.
    Info(Info),
    /// A syncpoint, which restates where the stream has got to. Every
    /// stream's clock is set from it.
    Syncpoint,
    /// Every declared stream has its header and the header section is over:
    /// what follows is frames. It comes once, unless a restated main header
    /// declares a different set of streams, which starts the section again.
    EndOfHeaders,
    /// One frame, its payload in
    /// [`PushDemuxer::payload`](crate::PushDemuxer::payload) until the next
    /// call to [`PushDemuxer::next_event`](crate::PushDemuxer::next_event).
    Frame { stream: usize, packet: Packet },
    /// The input ended at a packet boundary. Every call after this answers
    /// with it again.
    EndOfInput,
}

/// An event as a value.
#[verifier::ext_equal]
#[allow(inconsistent_fields)]
pub enum EventV {
    MainHeader(MainHeaderV),
    StreamHeader { index: usize, stream: StreamV },
    Info(Info),
    Syncpoint,
    EndOfHeaders,
    Frame { stream: usize, packet: Packet },
    EndOfInput,
}

impl View for Event {
    type V = EventV;

    open spec fn view(&self) -> EventV {
        match *self {
            Event::MainHeader(header) => EventV::MainHeader(header@),
            Event::StreamHeader { index, stream } => EventV::StreamHeader { index, stream: stream@ },
            Event::Info(info) => EventV::Info(info),
            Event::Syncpoint => EventV::Syncpoint,
            Event::EndOfHeaders => EventV::EndOfHeaders,
            Event::Frame { stream, packet } => EventV::Frame { stream, packet },
            Event::EndOfInput => EventV::EndOfInput,
        }
    }
}

impl Clone for Event {
    fn clone(&self) -> (copy: Event)
        ensures
            copy@ == self@,
    {
        match self {
            Event::MainHeader(header) => Event::MainHeader(header.clone()),
            Event::StreamHeader { index, stream } => Event::StreamHeader {
                index: *index,
                stream: stream.clone(),
            },
            Event::Info(info) => Event::Info(*info),
            Event::Syncpoint => Event::Syncpoint,
            Event::EndOfHeaders => Event::EndOfHeaders,
            Event::Frame { stream, packet } => Event::Frame { stream: *stream, packet: *packet },
            Event::EndOfInput => Event::EndOfInput,
        }
    }
}

} // verus!
