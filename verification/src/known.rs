//! What the headers have said so far: the tables a frame is read through, the
//! streams, their clocks and their metadata.

use vstd::prelude::*;

use crate::clock::{fits, lemma_seed, rescale, rescaled, seed, Clock, ClockV};
use crate::error::{Error, ErrorV, Problem};
use crate::event::{Event, EventV};
use crate::headers::{
    lemma_stream_fields, read_stream_fields, read_syncpoint_fields, stream_fields, syncpoint_fields,
    MAX_DECODE_DELAY, PTS_SHIFT_LIMIT,
};
use crate::info::{
    hold_tags, info_fields, lemma_with_tags, read_info, tags_view, tags_wf, with_tags, Info, TagsV,
};
use crate::stream::{Stream, StreamV, TimeBase};
use crate::tables::{
    lemma_main_fields, main_fields, read_main_fields, MainHeader, MainHeaderV, Tables, TablesV,
};
use crate::{MAIN_STARTCODE, STREAM_STARTCODE, SYNCPOINT_STARTCODE};

verus! {

/// What the headers have said so far.
pub struct Known {
    pub main: Option<Tables>,
    /// The streams the main header declared, each None until its own header
    /// arrives.
    pub streams: Vec<Option<Stream>>,
    pub clocks: Vec<Clock>,
    /// Whether the header section is behind the parser.
    pub headers_done: bool,
    pub file_tags: Vec<(String, String)>,
    pub stream_tags: Vec<Vec<(String, String)>>,
}

/// What the headers have said so far, as a value.
#[verifier::ext_equal]
pub struct KnownV {
    pub main: Option<TablesV>,
    pub streams: Seq<Option<StreamV>>,
    pub clocks: Seq<ClockV>,
    pub headers_done: bool,
    pub file_tags: TagsV,
    pub stream_tags: Seq<TagsV>,
}

/// What a main header left, where there has been one.
pub open spec fn tables_view(main: Option<Tables>) -> Option<TablesV> {
    match main {
        Some(tables) => Some(tables@),
        None => None,
    }
}

/// What a stream header said, where there has been one.
pub open spec fn stream_view(stream: Option<Stream>) -> Option<StreamV> {
    match stream {
        Some(stream) => Some(stream@),
        None => None,
    }
}

/// What the stream headers said.
pub open spec fn streams_view(streams: Seq<Option<Stream>>) -> Seq<Option<StreamV>> {
    streams.map_values(|stream: Option<Stream>| stream_view(stream))
}

/// Where the streams have got to.
pub open spec fn clocks_view(clocks: Seq<Clock>) -> Seq<ClockV> {
    clocks.map_values(|clock: Clock| clock@)
}

/// The metadata of the streams.
pub open spec fn stream_tags_view(tags: Seq<Vec<(String, String)>>) -> Seq<TagsV> {
    tags.map_values(|tags: Vec<(String, String)>| tags_view(tags@))
}

impl View for Known {
    type V = KnownV;

    open spec fn view(&self) -> KnownV {
        KnownV {
            main: tables_view(self.main),
            streams: streams_view(self.streams@),
            clocks: clocks_view(self.clocks@),
            headers_done: self.headers_done,
            file_tags: tags_view(self.file_tags@),
            stream_tags: stream_tags_view(self.stream_tags@),
        }
    }
}

impl StreamV {
    /// What every stream header that is read has kept to.
    pub open spec fn wf(self) -> bool {
        &&& self.time_base.num > 0
        &&& self.time_base.den > 0
        &&& self.msb_pts_shift < PTS_SHIFT_LIMIT
        &&& self.decode_delay <= MAX_DECODE_DELAY
    }
}

impl KnownV {
    /// Nothing said yet.
    pub open spec fn nothing() -> KnownV {
        KnownV {
            main: None,
            streams: Seq::empty(),
            clocks: Seq::empty(),
            headers_done: false,
            file_tags: Seq::empty(),
            stream_tags: Seq::empty(),
        }
    }

    /// There is a clock and a place for metadata for every declared stream,
    /// and a reorder buffer as deep as its header says.
    pub open spec fn wf(self) -> bool {
        &&& match self.main {
            Some(tables) => tables.wf() && self.streams.len() >= 1,
            None => self.streams.len() == 0,
        }
        &&& self.streams.len() <= usize::MAX
        &&& self.clocks.len() == self.streams.len()
        &&& self.stream_tags.len() == self.streams.len()
        &&& forall|i: int| 0 <= i < self.clocks.len() ==> (#[trigger] self.clocks[i]).wf()
        &&& forall|i: int|
            0 <= i < self.streams.len() ==> (#[trigger] self.streams[i] matches Some(stream)
                ==> stream.wf() && self.clocks[i].pts_buffer.len() == stream.decode_delay + 1)
        &&& tags_wf(self.file_tags)
        &&& forall|i: int| 0 <= i < self.stream_tags.len() ==> tags_wf(#[trigger] self.stream_tags[i])
        &&& self.headers_done ==> self.complete()
    }

    /// Whether the main header and every stream header it declared are read.
    pub open spec fn complete(self) -> bool {
        &&& self.main is Some
        &&& forall|i: int| 0 <= i < self.streams.len() ==> #[trigger] self.streams[i] is Some
    }

    /// Whether the header section ends here: every declared stream has its
    /// header, and that has not been said yet.
    pub open spec fn ends(self) -> bool {
        !self.headers_done && self.complete()
    }

    /// The header section behind the parser.
    pub open spec fn ended(self) -> KnownV {
        KnownV { headers_done: true, ..self }
    }

    /// Once a main header has been read. One that declares as many streams as
    /// are known restates them, and they keep what is known of them; one that
    /// declares another number starts the header section again.
    pub open spec fn with_main(self, header: MainHeaderV, tables: TablesV) -> KnownV {
        let count = header.stream_count as nat;
        if self.streams.len() == count {
            KnownV { main: Some(tables), ..self }
        } else {
            KnownV {
                main: Some(tables),
                streams: Seq::new(count, |i: int| None),
                clocks: Seq::new(count, |i: int| ClockV::seeded(0)),
                headers_done: false,
                file_tags: self.file_tags,
                stream_tags: Seq::new(count, |i: int| Seq::empty()),
            }
        }
    }

    /// Once a stream header has been read. A restated header keeps the clock;
    /// a header that changes how deep the stream reorders gets a reorder
    /// buffer the new size.
    pub open spec fn with_stream(self, index: int, stream: StreamV) -> KnownV {
        let clock = self.clocks[index];
        let depth = (stream.decode_delay + 1) as nat;
        KnownV {
            streams: self.streams.update(index, Some(stream)),
            clocks: if clock.pts_buffer.len() == depth {
                self.clocks
            } else {
                self.clocks.update(index, ClockV { pts_buffer: seed(depth), ..clock })
            },
            ..self
        }
    }

    /// Whether a place in the stream cannot be said in some stream's own time
    /// base.
    pub open spec fn out_of_range(self, ticks: int, base: TimeBase) -> bool {
        exists|i: int|
            0 <= i < self.streams.len() && (#[trigger] self.streams[i] matches Some(stream)
                && !fits(rescaled(ticks, base, stream.time_base)))
    }

    /// Once a syncpoint has said where the stream is: every stream's clock is
    /// set, each in its own time base.
    pub open spec fn at_syncpoint(self, ticks: int, base: TimeBase) -> KnownV {
        KnownV {
            clocks: Seq::new(
                self.clocks.len(),
                |i: int|
                    match self.streams[i] {
                        Some(stream) => ClockV {
                            last_pts: rescaled(ticks, base, stream.time_base) as i64,
                            ..self.clocks[i]
                        },
                        None => self.clocks[i],
                    },
            ),
            ..self
        }
    }

    /// Once an info packet has been read: the frame rate it states goes onto
    /// the stream it named, or onto every stream where it named the file, and
    /// its metadata with it.
    pub open spec fn informed(self, info: Info, tags: TagsV) -> KnownV {
        KnownV {
            streams: Seq::new(
                self.streams.len(),
                |i: int|
                    match (self.streams[i], info.frame_rate) {
                        (Some(stream), Some(_)) => if info.stream is None || info.stream == Some(
                            i as usize,
                        ) {
                            Some(StreamV { frame_rate: info.frame_rate, ..stream })
                        } else {
                            Some(stream)
                        },
                        (stream, _) => stream,
                    },
            ),
            file_tags: if info.stream is None {
                with_tags(self.file_tags, tags)
            } else {
                self.file_tags
            },
            stream_tags: match info.stream {
                Some(index) => if index < self.stream_tags.len() {
                    self.stream_tags.update(
                        index as int,
                        with_tags(self.stream_tags[index as int], tags),
                    )
                } else {
                    self.stream_tags
                },
                None => self.stream_tags,
            },
            ..self
        }
    }

    /// Once a whole packet has been read, and the event that is. A main
    /// header, a stream header and a syncpoint are read or refused; any other
    /// packet handed here is an info packet.
    pub open spec fn after_packet(self, startcode: u64, body: Seq<u8>, max_streams: usize) -> Result<
        (KnownV, Option<EventV>),
        ErrorV,
    > {
        if startcode == MAIN_STARTCODE {
            match main_fields(body, max_streams) {
                Ok((header, tables)) => Ok(
                    (self.with_main(header, tables), Some(EventV::MainHeader(header))),
                ),
                Err(halt) => Err(ErrorV::halted(halt)),
            }
        } else if startcode == STREAM_STARTCODE {
            match self.main {
                Some(tables) => match stream_fields(body, tables.time_bases, self.streams.len()) {
                    Ok((index, stream)) => Ok(
                        (
                            self.with_stream(index as int, stream),
                            Some(EventV::StreamHeader { index, stream }),
                        ),
                    ),
                    Err(error) => Err(error),
                },
                None => Err(ErrorV::of(Problem::StreamBeforeMain)),
            }
        } else if startcode == SYNCPOINT_STARTCODE {
            match self.main {
                Some(tables) => match syncpoint_fields(body, tables.time_bases) {
                    Ok((ticks, base)) => if self.out_of_range(ticks, base) {
                        Err(ErrorV::of(Problem::SyncpointOverflow))
                    } else {
                        Ok((self.at_syncpoint(ticks, base), Some(EventV::Syncpoint)))
                    },
                    Err(halt) => Err(ErrorV::halted(halt)),
                },
                None => Err(ErrorV::of(Problem::SyncpointBeforeMain)),
            }
        } else {
            match info_fields(body) {
                Some((info, tags)) => Ok((self.informed(info, tags), Some(EventV::Info(info)))),
                None => Ok((self, None)),
            }
        }
    }
}

// What stays true.

/// A packet that is read leaves everything the parser knows well formed.
pub proof fn lemma_after_packet(known: KnownV, startcode: u64, body: Seq<u8>, max_streams: usize)
    requires
        known.wf(),
    ensures
        known.after_packet(startcode, body, max_streams) matches Ok((after, _)) ==> after.wf(),
{
    if startcode == MAIN_STARTCODE {
        lemma_main_fields(body, max_streams);
        lemma_seed(1);
        if let Ok((header, tables)) = main_fields(body, max_streams) {
            let after = known.with_main(header, tables);
            assert(after.clocks.len() == after.streams.len());
            assert(after.wf());
        }
    } else if startcode == STREAM_STARTCODE {
        if let Some(tables) = known.main {
            lemma_stream_fields(body, tables, known.streams.len());
            if let Ok((index, stream)) = stream_fields(body, tables.time_bases, known.streams.len()) {
                let after = known.with_stream(index as int, stream);
                lemma_seed((stream.decode_delay + 1) as nat);
                assert forall|i: int| 0 <= i < after.streams.len() implies (
                #[trigger] after.streams[i] matches Some(s) ==> s.wf()
                    && after.clocks[i].pts_buffer.len() == s.decode_delay + 1) by {
                    assert(known.streams[i] matches Some(s) ==> s.wf());
                }
                assert forall|i: int| 0 <= i < after.clocks.len() implies (
                #[trigger] after.clocks[i]).wf() by {
                    assert(known.clocks[i].wf());
                }
                if after.headers_done {
                    assert forall|i: int| 0 <= i < after.streams.len() implies
                        #[trigger] after.streams[i] is Some by {
                        assert(known.streams[i] is Some);
                    }
                }
            }
        }
    } else if startcode == SYNCPOINT_STARTCODE {
        if let Some(tables) = known.main {
            if let Ok((ticks, base)) = syncpoint_fields(body, tables.time_bases) {
                let after = known.at_syncpoint(ticks, base);
                assert forall|i: int| 0 <= i < after.clocks.len() implies (
                #[trigger] after.clocks[i]).wf() by {
                    assert(known.clocks[i].wf());
                }
                assert forall|i: int| 0 <= i < after.streams.len() implies (
                #[trigger] after.streams[i] matches Some(s) ==> s.wf()
                    && after.clocks[i].pts_buffer.len() == s.decode_delay + 1) by {
                    assert(known.streams[i] matches Some(s) ==> s.wf());
                }
            }
        }
    } else {
        if let Some((info, tags)) = info_fields(body) {
            lemma_informed(known, info, tags);
        }
    }
}

proof fn lemma_informed(known: KnownV, info: Info, tags: TagsV)
    requires
        known.wf(),
    ensures
        known.informed(info, tags).wf(),
{
    let after = known.informed(info, tags);
    lemma_with_tags(known.file_tags, tags);
    assert forall|i: int| 0 <= i < after.streams.len() implies (
    #[trigger] after.streams[i] matches Some(s) ==> s.wf() && after.clocks[i].pts_buffer.len()
        == s.decode_delay + 1) by {
        assert(known.streams[i] matches Some(s) ==> s.wf());
    }
    assert forall|i: int| 0 <= i < after.stream_tags.len() implies tags_wf(
        #[trigger] after.stream_tags[i],
    ) by {
        assert(tags_wf(known.stream_tags[i]));
        lemma_with_tags(known.stream_tags[i], tags);
    }
    if after.headers_done {
        assert forall|i: int| 0 <= i < after.streams.len() implies #[trigger] after.streams[i] is Some by {
            assert(known.streams[i] is Some);
        }
    }
}

/// A main header that declares as many streams as are known keeps them, their
/// clocks and their metadata, and does not start the header section again.
pub proof fn lemma_restated_main(known: KnownV, body: Seq<u8>, max_streams: usize)
    requires
        known.wf(),
        main_fields(body, max_streams) matches Ok((header, _)) && header.stream_count
            == known.streams.len(),
    ensures
        known.after_packet(MAIN_STARTCODE, body, max_streams) matches Ok((after, _)) && {
            &&& after.streams == known.streams
            &&& after.clocks == known.clocks
            &&& after.headers_done == known.headers_done
            &&& after.file_tags == known.file_tags
            &&& after.stream_tags == known.stream_tags
        },
{
}

/// A stream header that states a stream again, reordering as deep as it did,
/// leaves every clock where it was, and every other stream.
pub proof fn lemma_restated_stream(known: KnownV, body: Seq<u8>, max_streams: usize)
    requires
        known.wf(),
        known.main is Some,
        stream_fields(body, known.main->Some_0.time_bases, known.streams.len()) matches Ok(
            (index, stream),
        ) && known.streams[index as int] matches Some(before) && before.decode_delay
            == stream.decode_delay,
    ensures
        known.after_packet(STREAM_STARTCODE, body, max_streams) matches Ok((after, _)) && {
            &&& after.clocks == known.clocks
            &&& after.main == known.main
            &&& after.headers_done == known.headers_done
            &&& after.stream_tags == known.stream_tags
            &&& stream_fields(body, known.main->Some_0.time_bases, known.streams.len()) matches Ok(
                (index, stream),
            ) && after.streams == known.streams.update(index as int, Some(stream))
        },
{
    lemma_stream_fields(body, known.main->Some_0, known.streams.len());
}

impl Known {
    /// Nothing said yet.
    pub fn nothing() -> (known: Known)
        ensures
            known@ == KnownV::nothing(),
            known@.wf(),
    {
        let known = Known {
            main: None,
            streams: Vec::new(),
            clocks: Vec::new(),
            headers_done: false,
            file_tags: Vec::new(),
            stream_tags: Vec::new(),
        };
        assert(known@ =~= KnownV::nothing());
        known
    }

    /// Whether the main header and every stream header it declared are read.
    pub fn headers_complete(&self) -> (complete: bool)
        ensures
            complete == self@.complete(),
    {
        if self.main.is_none() {
            return false;
        }
        let mut i: usize = 0;
        while i < self.streams.len()
            invariant
                i <= self.streams@.len(),
                self.main is Some,
                forall|j: int| 0 <= j < i ==> #[trigger] self.streams@[j] is Some,
            decreases self.streams@.len() - i,
        {
            if self.streams[i].is_none() {
                assert(self@.streams[i as int] is None);
                return false;
            }
            i += 1;
        }
        assert forall|j: int| 0 <= j < self@.streams.len() implies #[trigger] self@.streams[j] is Some by {
            assert(self.streams@[j] is Some);
        }
        true
    }

    /// Ends the header section, the once, where every declared stream has its
    /// header.
    pub fn end_of_headers(&mut self) -> (ended: bool)
        ensures
            ended == old(self)@.ends(),
            final(self)@ == if ended {
                old(self)@.ended()
            } else {
                old(self)@
            },
    {
        if self.headers_done || !self.headers_complete() {
            return false;
        }
        self.headers_done = true;
        true
    }

    /// Takes a main header. One that declares as many streams as are known
    /// restates them; the tables are taken as read either way, and a consumer
    /// that refuses a restatement does it on the event.
    fn take_main(&mut self, header: &MainHeader, tables: Tables)
        ensures
            final(self)@ == old(self)@.with_main(header@, tables@),
    {
        let stream_count = header.stream_count;
        if self.streams.len() != stream_count {
            let mut streams: Vec<Option<Stream>> = Vec::new();
            let mut clocks: Vec<Clock> = Vec::new();
            let mut stream_tags: Vec<Vec<(String, String)>> = Vec::new();
            let mut i: usize = 0;
            while i < stream_count
                invariant
                    i <= stream_count,
                    streams@.len() == i,
                    clocks@.len() == i,
                    stream_tags@.len() == i,
                    forall|j: int| 0 <= j < i ==> #[trigger] streams@[j] is None,
                    forall|j: int| 0 <= j < i ==> (#[trigger] clocks@[j])@ == ClockV::seeded(0),
                    forall|j: int| 0 <= j < i ==> (#[trigger] stream_tags@[j])@.len() == 0,
                decreases stream_count - i,
            {
                streams.push(None);
                let clock = Clock { last_pts: 0, pts_buffer: vec![None] };
                assert(clock@ =~= ClockV::seeded(0));
                clocks.push(clock);
                stream_tags.push(Vec::new());
                i += 1;
            }
            self.streams = streams;
            self.clocks = clocks;
            self.stream_tags = stream_tags;
            self.headers_done = false;
            proof {
                let count = stream_count as nat;
                assert(self@.streams =~= Seq::new(count, |i: int| None));
                assert(self@.clocks =~= Seq::new(count, |i: int| ClockV::seeded(0)));
                assert forall|i: int| 0 <= i < count implies #[trigger] self@.stream_tags[i]
                    == Seq::<(Seq<char>, Seq<char>)>::empty() by {
                    assert(self.stream_tags@[i]@.len() == 0);
                    assert(self@.stream_tags[i] =~= Seq::empty());
                }
                assert(self@.stream_tags =~= Seq::new(count, |i: int| Seq::empty()));
            }
        }
        self.main = Some(tables);
    }

    /// Reads a stream header.
    fn read_stream(&mut self, body: &[u8]) -> (read: Result<Event, Error>)
        requires
            old(self)@.wf(),
        ensures
            match old(self)@.after_packet(STREAM_STARTCODE, body@, 0) {
                Ok((after, event)) => read matches Ok(got) && Some(got@) == event && final(self)@
                    == after,
                Err(error) => read matches Err(got) && got@ == error && final(self)@ == old(self)@,
            },
    {
        let ghost before = self@;
        let (index, stream) = match &self.main {
            Some(tables) => match read_stream_fields(body, tables, self.streams.len()) {
                Ok(read) => read,
                Err(error) => {
                    return Err(error);
                },
            },
            None => {
                return Err(Error::of(Problem::StreamBeforeMain));
            },
        };
        proof {
            lemma_stream_fields(body@, before.main->Some_0, before.streams.len());
        }
        let depth = stream.decode_delay as usize + 1;
        if self.clocks[index].pts_buffer.len() != depth {
            let clock = Clock { last_pts: self.clocks[index].last_pts, pts_buffer: seeds_of(depth) };
            self.clocks.set(index, clock);
        }
        let copy = stream.clone();
        self.streams.set(index, Some(copy));
        proof {
            let after = before.with_stream(index as int, stream@);
            assert(self@.streams =~= after.streams);
            assert(self@.clocks =~= after.clocks);
        }
        Ok(Event::StreamHeader { index, stream })
    }

    /// Reads a syncpoint, which restates where the stream is: that is what a
    /// frame coding only the low bits of its PTS is measured from. Every
    /// stream's clock is set, each in its own time base, or none is.
    fn read_syncpoint(&mut self, body: &[u8]) -> (read: Result<Event, Error>)
        requires
            old(self)@.wf(),
        ensures
            match old(self)@.after_packet(SYNCPOINT_STARTCODE, body@, 0) {
                Ok((after, event)) => read matches Ok(got) && Some(got@) == event && final(self)@
                    == after,
                Err(error) => read matches Err(got) && got@ == error && final(self)@ == old(self)@,
            },
    {
        let ghost before = self@;
        let (ticks, from) = match &self.main {
            Some(tables) => match read_syncpoint_fields(body, tables) {
                Ok(read) => read,
                Err(halt) => {
                    return Err(Error::halted(halt));
                },
            },
            None => {
                return Err(Error::of(Problem::SyncpointBeforeMain));
            },
        };
        proof {
            let bases = before.main->Some_0.time_bases;
            let signed = crate::clock::as_signed(crate::tables::body_v(body@, 0).0->Ok_0);
            assert(0 <= signed % (bases.len() as int) < bases.len()) by (nonlinear_arith)
                requires
                    bases.len() >= 1,
            ;
            assert(from.num > 0 && from.den > 0);
        }
        let mut scaled: Vec<i64> = Vec::new();
        let mut i: usize = 0;
        while i < self.streams.len()
            invariant
                i <= self.streams@.len(),
                self@ == before,
                before == old(self)@,
                before.wf(),
                from.den > 0,
                scaled@.len() == i,
                old(self)@.after_packet(SYNCPOINT_STARTCODE, body@, 0) == (if before.out_of_range(
                    ticks as int,
                    from,
                ) {
                    Err(ErrorV::of(Problem::SyncpointOverflow))
                } else {
                    Ok((before.at_syncpoint(ticks as int, from), Some(EventV::Syncpoint)))
                }),
                forall|j: int|
                    0 <= j < i ==> (#[trigger] before.streams[j] matches Some(stream) ==> scaled@[j]
                        == rescaled(ticks as int, from, stream.time_base)),
            decreases self.streams@.len() - i,
        {
            assert(before.streams[i as int] == stream_view(self.streams@[i as int]));
            match &self.streams[i] {
                Some(stream) => {
                    match rescale(ticks, from, stream.time_base) {
                        Some(pts) => scaled.push(pts),
                        None => {
                            assert(before.streams[i as int] is Some);
                            return Err(Error::of(Problem::SyncpointOverflow));
                        },
                    }
                },
                None => scaled.push(0),
            }
            i += 1;
        }
        proof {
            assert forall|j: int| 0 <= j < before.streams.len() implies (
            #[trigger] before.streams[j] matches Some(stream) ==> fits(
                rescaled(ticks as int, from, stream.time_base),
            )) by {
                if before.streams[j] is Some {
                    assert(scaled@[j] == rescaled(
                        ticks as int,
                        from,
                        before.streams[j]->Some_0.time_base,
                    ));
                }
            }
            assert(!before.out_of_range(ticks as int, from));
        }
        let ghost target = before.at_syncpoint(ticks as int, from);
        let mut i: usize = 0;
        while i < self.streams.len()
            invariant
                i <= self.streams@.len(),
                before.wf(),
                target == before.at_syncpoint(ticks as int, from),
                scaled@.len() == self.streams@.len(),
                self@.main == before.main,
                self@.streams == before.streams,
                self@.headers_done == before.headers_done,
                self@.file_tags == before.file_tags,
                self@.stream_tags == before.stream_tags,
                self.clocks@.len() == before.clocks.len(),
                forall|j: int|
                    0 <= j < before.streams.len() ==> (#[trigger] before.streams[j] matches Some(
                        stream,
                    ) ==> scaled@[j] == rescaled(ticks as int, from, stream.time_base)),
                forall|j: int| 0 <= j < i ==> (#[trigger] self.clocks@[j])@ == target.clocks[j],
                forall|j: int|
                    i <= j < before.clocks.len() ==> (#[trigger] self.clocks@[j])@
                        == before.clocks[j],
            decreases self.streams@.len() - i,
        {
            assert(before.streams[i as int] == stream_view(self.streams@[i as int]));
            if self.streams[i].is_some() {
                let ghost clocks = self.clocks@;
                self.clocks[i].last_pts = scaled[i];
                assert(self.clocks@ =~= clocks.update(i as int, self.clocks@[i as int]));
                assert(self.clocks@[i as int]@ =~= target.clocks[i as int]);
            }
            i += 1;
        }
        assert(self@.clocks =~= target.clocks);
        Ok(Event::Syncpoint)
    }

    /// What an info packet states, onto the stream it named, or onto every
    /// stream where it named the file.
    fn apply_info(&mut self, info: Info, tags: Vec<(String, String)>)
        requires
            old(self)@.wf(),
        ensures
            final(self)@ == old(self)@.informed(info, tags_view(tags@)),
    {
        let ghost before = self@;
        let ghost target = before.informed(info, tags_view(tags@));
        if let Some(rate) = info.frame_rate {
            let mut i: usize = 0;
            while i < self.streams.len()
                invariant
                    i <= self.streams@.len(),
                    info.frame_rate == Some(rate),
                    target == before.informed(info, tags_view(tags@)),
                    self.streams@.len() == before.streams.len(),
                    self@.main == before.main,
                    self@.clocks == before.clocks,
                    self@.headers_done == before.headers_done,
                    self@.file_tags == before.file_tags,
                    self@.stream_tags == before.stream_tags,
                    forall|j: int|
                        0 <= j < i ==> stream_view(#[trigger] self.streams@[j]) == target.streams[j],
                    forall|j: int|
                        i <= j < before.streams.len() ==> stream_view(#[trigger] self.streams@[j])
                            == before.streams[j],
                decreases self.streams@.len() - i,
            {
                let named = match info.stream {
                    Some(index) => index == i,
                    None => true,
                };
                assert(stream_view(self.streams@[i as int]) == before.streams[i as int]);
                if named {
                    if let Some(stream) = &self.streams[i] {
                        let mut stated = stream.clone();
                        stated.frame_rate = Some(rate);
                        self.streams.set(i, Some(stated));
                    }
                }
                assert(stream_view(self.streams@[i as int]) =~= target.streams[i as int]);
                i += 1;
            }
        }
        assert(self@.streams =~= target.streams);
        match info.stream {
            Some(index) => {
                if index < self.stream_tags.len() {
                    let ghost held = self.stream_tags@;
                    assert(tags_wf(before.stream_tags[index as int]));
                    hold_tags(&mut self.stream_tags[index], tags);
                    assert(self.stream_tags@ =~= held.update(
                        index as int,
                        self.stream_tags@[index as int],
                    ));
                    assert(self@.stream_tags =~= target.stream_tags);
                }
            },
            None => hold_tags(&mut self.file_tags, tags),
        }
        assert(self@ =~= target);
    }

    /// Reads a whole packet.
    pub fn read_packet(&mut self, startcode: u64, body: &[u8], max_streams: usize) -> (read: Result<
        Option<Event>,
        Error,
    >)
        requires
            old(self)@.wf(),
        ensures
            match old(self)@.after_packet(startcode, body@, max_streams) {
                Ok((after, event)) => {
                    &&& read matches Ok(got)
                    &&& match got {
                        Some(got) => event == Some(got@),
                        None => event is None,
                    }
                    &&& final(self)@ == after
                    &&& final(self)@.wf()
                },
                Err(error) => read matches Err(got) && got@ == error && final(self)@ == old(self)@,
            },
    {
        proof {
            lemma_after_packet(self@, startcode, body@, max_streams);
        }
        if startcode == MAIN_STARTCODE {
            match read_main_fields(body, max_streams) {
                Ok((header, tables)) => {
                    self.take_main(&header, tables);
                    Ok(Some(Event::MainHeader(header)))
                },
                Err(halt) => Err(Error::halted(halt)),
            }
        } else if startcode == STREAM_STARTCODE {
            match self.read_stream(body) {
                Ok(event) => Ok(Some(event)),
                Err(error) => Err(error),
            }
        } else if startcode == SYNCPOINT_STARTCODE {
            match self.read_syncpoint(body) {
                Ok(event) => Ok(Some(event)),
                Err(error) => Err(error),
            }
        } else {
            match read_info(body) {
                Some((info, tags)) => {
                    self.apply_info(info, tags);
                    Ok(Some(Event::Info(info)))
                },
                None => Ok(None),
            }
        }
    }
}

/// A reorder buffer nothing has landed in.
fn seeds_of(count: usize) -> (buffer: Vec<Option<i64>>)
    ensures
        buffer@ == seed(count as nat),
{
    let mut buffer: Vec<Option<i64>> = Vec::new();
    let mut i: usize = 0;
    while i < count
        invariant
            i <= count,
            buffer@ == seed(i as nat),
        decreases count - i,
    {
        buffer.push(None);
        i += 1;
        assert(buffer@ =~= seed(i as nat));
    }
    buffer
}

} // verus!
