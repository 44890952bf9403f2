# tcslog

A segmented telemetry log for storage-bounded systems, with its decisions
verified by Verus.

A log is a run of bounded-size segment files. Each starts with a 53-byte
header (magic, version, segment id, session id, maximum size, the bytes
still owed of a record it continues, record format, sequence number) and
holds records back to back: a data header (none, a length, or a length,
a timestamp and a record count) and a payload. Filled segments can be
handed off one by one; a missing or damaged one costs the reader no more
than the record it cuts.

## Layout

- `src/` is the verified library.
  - `header`, `format`, `segid`, `seq_id`, `util`, `io_util`: the on-disk
    header, record formats and segment file names, with round-trip laws.
  - `write`: the writer as a state machine that decides how each record is
    cut across segment files and what header each new file gets; it keeps
    a ghost record of the files it laid down.
  - `chain`: what a well-formed log is (files that chain by session and
    sequence, data sections that hold whole records, `remaining` marks).
  - `read`: the reader as a state machine over supplied file contents,
    with the chain, recovery and session-boundary laws: with no file open
    it resumes past missing or damaged files (`resume_index`,
    `lemma_resume_index`, `lemma_ready_resync`), and it asks for the first
    file it has not been given.
  - `roundtrip`: reading back what the writer wrote.
  - `data`, `index`, `timestamp`, `uid`, `calendar`: the block, index and
    time-stamp layer.
  - `gen`, `dump`, `sample`: the decisions of the command-line tools
    (record format specs, payloads, dump output).
- `tests/` exercises the library, the writer and reader together over
  segment files kept in memory.
- `app/` is the command-line program: file I/O, the clock, argument
  parsing, and the tarball tool.

## Not provided

- An end-of-file marker naming the next segment file: segments chain by
  session identifier and sequence number instead.
- A path length for index entries.
- Deriving the next segment's uid from the current one: new segment
  identifiers come from the clock.
