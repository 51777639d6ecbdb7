# ffrwd_nut

The NUT container for the pipes between processes that hand frames to each
other, as one demuxer with two front ends and the muxer that writes what it
reads. Raw frames cannot carry a timestamp, NUT can, ffmpeg reads and writes it
natively on a pipe, and it costs a few dozen bytes a frame.

It is written in Verus: every function states what it answers on every input,
and the statement is proved.

## Layout

- `src/` is the library. `PushDemuxer` is the parser: bytes go in as they
  arrive and events come out as they complete. `Demuxer` is a loop around it
  over a wire held whole. `Muxer` writes the headers from a `Stream`, then a
  frame for every frame.
- `app/` puts readers and writers around the library: a demuxer over anything
  that can be read, a muxer over anything that can be written, and errors that
  carry what the reader or the writer said.
- `tests/` runs the library.

## What is proved

A wire is a sequence of bytes, and the parser and the muxer are values: a
contract says which value a call leaves, and what it answers. The parser's
steps are in `demux`, what goes on the wire is in `mux`. On top of that:

- `session`: a wire that was written opens as the stream it was written from
  and gives back every frame, its timestamps and its rows.
- `arrival`, `room`: how the bytes arrive changes nothing; every cut of a good
  wire waits for more, and closed it ends or says what it stopped inside.
- `fronts`, `portions`: the two front ends read the same packets, and a wire
  fed in portions reads as one fed whole.
- `order`, `calls`: the main header, a header for every stream, the end of the headers,
  and only then frames, whatever calls the parser is read with.
- `bounds`: what a wire cannot make the parser hold or hand over.
- `packet`: a packet with any one byte changed is refused.
- `clock`, `timing`: where a frame's DTS comes from, and what a PTS coded by its
  low bits stands for.
- `known`: what headers that are stated again leave alone.

## What is not

The library believes what it says of `String::push`, `str::from_utf8`,
`String::from_utf8_lossy` and `serde_json::from_str`. Each is one small item
with a comment that says what is claimed.
