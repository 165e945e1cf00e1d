# dss_codec

Demultiplexer for DSS (Digital Speech Standard) SP recordings, written and
verified in Verus.

- `src/demux/layout.rs`: the layout of a file, its blocks, and what they declare.
- `src/demux/frames.rs`: what a stored frame holds, and how one is put together.
- `src/demux/state.rs`: the state of a demultiplexer that is fed piece by piece.
- `src/demux/dss.rs`: `demux_dss` for a whole file, `DssSpStreamDemuxer` for one
  that arrives in pieces.
- `src/demux/laws.rs`: what holds of both together.
- `src/error.rs`: the errors.
