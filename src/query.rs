use vstd::prelude::*;

verus! {

/// A span of the file between two virtual positions.
#[derive(Clone, Copy, Debug, PartialEq, Eq, Structural)]
pub struct Chunk {
    pub start: u64,
    pub end: u64,
}

/// A 1-based closed interval; a missing bound is open.
#[derive(Clone, Copy, Debug, PartialEq, Eq, Structural)]
pub struct Interval {
    pub start: Option<usize>,
    pub end: Option<usize>,
}

/// Where a query stands.
#[derive(Clone, Copy, Debug, PartialEq, Eq, Structural)]
pub enum State {
    /// Move to the next chunk.
    Seek,
    /// Read records up to the chunk's end.
    Read(u64),
    Done,
}

/// What the caller is to do next.
#[derive(Clone, Copy, Debug, PartialEq, Eq, Structural)]
pub enum Action {
    /// Seek the reader to a virtual position.
    SeekTo(u64),
    /// Read one record and report it with `on_record`.
    ReadRecord,
    /// The query is over.
    Finish,
}

/// A record's placement: reference sequence id and alignment start and end.
#[derive(Clone, Copy, Debug, PartialEq, Eq, Structural)]
pub struct Placement {
    pub reference_sequence_id: Option<usize>,
    pub alignment_start: Option<usize>,
    pub alignment_end: Option<usize>,
}

/// A placed record lies on the queried reference and overlaps the interval.
pub open spec fn intersects_spec(p: Placement, reference_sequence_id: usize, interval: Interval) -> bool {
    match (p.reference_sequence_id, p.alignment_start, p.alignment_end) {
        (Some(id), Some(start), Some(end)) => id == reference_sequence_id && (match interval.start {
            Some(a) => a <= end,
            None => true,
        }) && (match interval.end {
            Some(b) => start <= b,
            None => true,
        }),
        _ => false,
    }
}

pub fn intersects(p: Placement, reference_sequence_id: usize, interval: Interval) -> (r: bool)
    ensures
        r == intersects_spec(p, reference_sequence_id, interval),
{
    match (p.reference_sequence_id, p.alignment_start, p.alignment_end) {
        (Some(id), Some(start), Some(end)) => {
            let after_start = match interval.start {
                Some(a) => a <= end,
                None => true,
            };
            let before_end = match interval.end {
                Some(b) => start <= b,
                None => true,
            };
            id == reference_sequence_id && after_start && before_end
        },
        _ => false,
    }
}

/// The decisions of a region query over a list of chunks; the caller does
/// the seeking and reading.
pub struct Query {
    pub chunks: Vec<Chunk>,
    pub i: usize,
    pub reference_sequence_id: usize,
    pub interval: Interval,
    pub state: State,
}

impl Query {
    pub fn new(chunks: Vec<Chunk>, reference_sequence_id: usize, interval: Interval) -> (r: Query)
        ensures
            r.chunks@ == chunks@,
            r.i == 0,
            r.reference_sequence_id == reference_sequence_id,
            r.interval == interval,
            r.state == State::Seek,
    {
        Query { chunks, i: 0, reference_sequence_id, interval, state: State::Seek }
    }

    /// The next action. Seeking pulls the next chunk: the caller seeks to its
    /// start and reads up to its end; with no chunk left the query is done.
    pub fn poll(&mut self) -> (r: Action)
        ensures
            final(self).chunks@ == old(self).chunks@,
            final(self).reference_sequence_id == old(self).reference_sequence_id,
            final(self).interval == old(self).interval,
            match old(self).state {
                State::Seek => if old(self).i < old(self).chunks@.len() {
                    r == Action::SeekTo(old(self).chunks@[old(self).i as int].start)
                        && final(self).state == State::Read(old(self).chunks@[old(self).i as int].end)
                        && final(self).i == old(self).i + 1
                } else {
                    r == Action::Finish && final(self).state == State::Done && final(self).i == old(self).i
                },
                State::Read(_) => r == Action::ReadRecord && final(self).state == old(self).state && final(self).i == old(self).i,
                State::Done => r == Action::Finish && final(self).state == State::Done && final(self).i == old(self).i,
            },
    {
        match self.state {
            State::Seek => {
                if self.i < self.chunks.len() {
                    let chunk = self.chunks[self.i];
                    self.i = self.i + 1;
                    self.state = State::Read(chunk.end);
                    Action::SeekTo(chunk.start)
                } else {
                    self.state = State::Done;
                    Action::Finish
                }
            },
            State::Read(_) => Action::ReadRecord,
            State::Done => Action::Finish,
        }
    }

    /// After a read: `None` when it read nothing (the chunk is spent), else
    /// the record's placement and the reader's virtual position after it.
    /// A record read at or past the chunk's end is still considered, and the
    /// next poll seeks. Yields whether to hand the record to the caller.
    pub fn on_record(&mut self, record: Option<Placement>, virtual_position: u64) -> (r: bool)
        ensures
            final(self).chunks@ == old(self).chunks@,
            final(self).i == old(self).i,
            final(self).reference_sequence_id == old(self).reference_sequence_id,
            final(self).interval == old(self).interval,
            match (old(self).state, record) {
                (State::Read(end), Some(p)) => r == intersects_spec(p, old(self).reference_sequence_id, old(self).interval)
                    && final(self).state == if virtual_position >= end { State::Seek } else { old(self).state },
                (State::Read(_), None) => !r && final(self).state == State::Seek,
                _ => !r && final(self).state == old(self).state,
            },
    {
        match (self.state, record) {
            (State::Read(end), Some(p)) => {
                if virtual_position >= end {
                    self.state = State::Seek;
                }
                intersects(p, self.reference_sequence_id, self.interval)
            },
            (State::Read(_), None) => {
                self.state = State::Seek;
                false
            },
            _ => false,
        }
    }

    /// After a failed seek or read: the error goes to the caller, and the query ends.
    pub fn on_error(&mut self)
        ensures
            final(self).state == State::Done,
            final(self).chunks@ == old(self).chunks@,
            final(self).i == old(self).i,
    {
        self.state = State::Done;
    }
}

} // verus!
