//! The framing protocol: a header pair of runs, then one bit per
//! active/idle pair, until an idle terminator or the end of input.
use vstd::prelude::*;
use crate::signal::{Level, Run, group, levels_of_lines, quantize_lines, runs_of};

verus! {

/// A decoded protocol symbol.
#[derive(Clone, Copy, Debug, PartialEq, Eq, Structural)]
pub enum Value {
    One,
    Zero,
}

/// The step of the framing protocol at which decoding stopped.
#[derive(Clone, Copy, Debug, PartialEq, Eq, Structural)]
pub enum Stage {
    HeaderActive,
    HeaderIdle,
    BitActive,
    BitIdle,
}

/// Why a message could not be decoded.
#[derive(Clone, Copy, Debug, PartialEq, Eq, Structural)]
pub enum DecodeError {
    /// The run at `index` has the wrong level, or a header run has a length
    /// out of its window.
    ProtocolViolation { stage: Stage, index: usize, level: Level, length: usize },
    /// The runs ended where the protocol still expected one.
    Truncation { stage: Stage },
}

/// The shortest accepted active header run.
pub const HEADER_ACTIVE_MIN: usize = 27;
/// The longest accepted active header run.
pub const HEADER_ACTIVE_MAX: usize = 30;
/// The shortest accepted idle header run.
pub const HEADER_IDLE_MIN: usize = 78;
/// The longest accepted idle header run.
pub const HEADER_IDLE_MAX: usize = 80;
/// An idle run longer than this ends a message.
pub const TERMINATOR_GAP: usize = 200;
/// An idle run longer than this (and not a terminator) encodes `One`.
pub const ONE_GAP: usize = 7;

/// The error for the run at `index`, read at `stage`.
pub open spec fn violation(stage: Stage, index: int, run: Run) -> DecodeError {
    DecodeError::ProtocolViolation { stage, index: index as usize, level: run.level, length: run.length }
}

/// The bit that a non-terminating idle gap of `length` samples encodes.
pub open spec fn bit_of_gap(length: usize) -> Value {
    if length > ONE_GAP {
        Value::One
    } else {
        Value::Zero
    }
}

/// Decoding of the bit pairs from `pos` on, after `acc` was decoded: the
/// bits of the message and the position just past it.
pub open spec fn bits_from(runs: Seq<Run>, pos: int, acc: Seq<Value>) -> Result<(Seq<Value>, int), DecodeError>
    decreases runs.len() - pos,
{
    if pos >= runs.len() {
        Ok((acc, pos))
    } else if runs[pos].level != Level::Active {
        Err(violation(Stage::BitActive, pos, runs[pos]))
    } else if pos + 1 >= runs.len() {
        Err(DecodeError::Truncation { stage: Stage::BitIdle })
    } else if runs[pos + 1].level != Level::Idle {
        Err(violation(Stage::BitIdle, pos + 1, runs[pos + 1]))
    } else if runs[pos + 1].length > TERMINATOR_GAP {
        Ok((acc, pos + 2))
    } else {
        bits_from(runs, pos + 2, acc.push(bit_of_gap(runs[pos + 1].length)))
    }
}

/// Decoding of one message whose header starts at `pos`: its bits and the
/// position just past it.
pub open spec fn message_at(runs: Seq<Run>, pos: int) -> Result<(Seq<Value>, int), DecodeError> {
    if pos >= runs.len() {
        Err(DecodeError::Truncation { stage: Stage::HeaderActive })
    } else if !(runs[pos].level == Level::Active && HEADER_ACTIVE_MIN <= runs[pos].length
        <= HEADER_ACTIVE_MAX) {
        Err(violation(Stage::HeaderActive, pos, runs[pos]))
    } else if pos + 1 >= runs.len() {
        Err(DecodeError::Truncation { stage: Stage::HeaderIdle })
    } else if !(runs[pos + 1].level == Level::Idle && HEADER_IDLE_MIN <= runs[pos + 1].length
        <= HEADER_IDLE_MAX) {
        Err(violation(Stage::HeaderIdle, pos + 1, runs[pos + 1]))
    } else {
        bits_from(runs, pos + 2, Seq::empty())
    }
}

proof fn lemma_bits_from_bounds(runs: Seq<Run>, pos: int, acc: Seq<Value>)
    requires
        0 <= pos <= runs.len(),
    ensures
        bits_from(runs, pos, acc) matches Ok((_, end)) ==> pos <= end <= runs.len(),
    decreases runs.len() - pos,
{
    if pos < runs.len() && pos + 1 < runs.len() && runs[pos].level == Level::Active
        && runs[pos + 1].level == Level::Idle && runs[pos + 1].length <= TERMINATOR_GAP {
        lemma_bits_from_bounds(runs, pos + 2, acc.push(bit_of_gap(runs[pos + 1].length)));
    }
}

/// A decoded message always consumes at least its header and never reads
/// past the end.
pub proof fn lemma_message_advances(runs: Seq<Run>, pos: int)
    requires
        0 <= pos,
    ensures
        message_at(runs, pos) matches Ok((_, end)) ==> pos + 2 <= end <= runs.len(),
{
    if pos + 2 <= runs.len() {
        lemma_bits_from_bounds(runs, pos + 2, Seq::empty());
    }
}

/// Decoding of back-to-back messages from `pos` to the end, after the
/// messages `acc` were decoded.
pub open spec fn messages_from(runs: Seq<Run>, pos: nat, acc: Seq<Seq<Value>>) -> Result<Seq<Seq<Value>>, DecodeError>
    decreases runs.len() - pos,
{
    if pos >= runs.len() {
        Ok(acc)
    } else {
        match message_at(runs, pos as int) {
            Err(e) => Err(e),
            Ok((bits, end)) => {
                proof {
                    lemma_message_advances(runs, pos as int);
                }
                messages_from(runs, end as nat, acc.push(bits))
            },
        }
    }
}

/// The messages of a whole run sequence, decoded back to back from its
/// first run until every run is consumed.
pub open spec fn decoded_stream(runs: Seq<Run>) -> Result<Seq<Seq<Value>>, DecodeError> {
    messages_from(runs, 0, Seq::empty())
}

/// The bits of each message, in order.
pub open spec fn messages_view(ms: Seq<MessageRaw>) -> Seq<Seq<Value>> {
    ms.map_values(|m: MessageRaw| m@)
}

/// An owned run sequence and the index of the next unread run.
pub struct DecodeSession {
    runs: Vec<Run>,
    cursor: usize,
}

impl DecodeSession {
    /// The runs of the session.
    pub closed spec fn spec_runs(&self) -> Seq<Run> {
        self.runs@
    }

    /// The index of the next unread run.
    pub closed spec fn spec_cursor(&self) -> nat {
        self.cursor as nat
    }

    /// A session positioned at the first run.
    pub fn new(runs: Vec<Run>) -> (r: DecodeSession)
        ensures
            r.spec_runs() == runs@,
            r.spec_cursor() == 0,
    {
        DecodeSession { runs, cursor: 0 }
    }

    /// The index of the next unread run.
    pub fn cursor(&self) -> (r: usize)
        ensures
            r == self.spec_cursor(),
    {
        self.cursor
    }

    /// Whether every run has been read.
    pub fn is_done(&self) -> (r: bool)
        ensures
            r == (self.spec_cursor() >= self.spec_runs().len()),
    {
        self.cursor >= self.runs.len()
    }
}

/// A decoded message: its bits in the order of transmission.
#[derive(Clone, Debug, PartialEq, Eq)]
pub struct MessageRaw {
    pub data: Vec<Value>,
}

impl View for MessageRaw {
    type V = Seq<Value>;

    open spec fn view(&self) -> Seq<Value> {
        self.data@
    }
}

impl MessageRaw {
    /// Decodes the message that starts at the session's cursor. On success
    /// the cursor moves past the message (its terminator included); on
    /// failure the session is left as it was.
    pub fn parse_message(session: &mut DecodeSession) -> (r: Result<MessageRaw, DecodeError>)
        ensures
            final(session).spec_runs() == old(session).spec_runs(),
            match message_at(old(session).spec_runs(), old(session).spec_cursor() as int) {
                Ok((bits, end)) => r matches Ok(m) && m@ == bits && final(session).spec_cursor() == end,
                Err(e) => r == Err::<MessageRaw, DecodeError>(e) && final(session).spec_cursor()
                    == old(session).spec_cursor(),
            },
    {
        let runs = &session.runs;
        let n = runs.len();
        let start = session.cursor;
        if start >= n {
            return Err(DecodeError::Truncation { stage: Stage::HeaderActive });
        }
        let head = runs[start];
        if !(head.level == Level::Active && HEADER_ACTIVE_MIN <= head.length && head.length
            <= HEADER_ACTIVE_MAX) {
            return Err(DecodeError::ProtocolViolation {
                stage: Stage::HeaderActive,
                index: start,
                level: head.level,
                length: head.length,
            });
        }
        if start + 1 >= n {
            return Err(DecodeError::Truncation { stage: Stage::HeaderIdle });
        }
        let gap = runs[start + 1];
        if !(gap.level == Level::Idle && HEADER_IDLE_MIN <= gap.length && gap.length
            <= HEADER_IDLE_MAX) {
            return Err(DecodeError::ProtocolViolation {
                stage: Stage::HeaderIdle,
                index: start + 1,
                level: gap.level,
                length: gap.length,
            });
        }
        let mut data: Vec<Value> = Vec::new();
        let mut pos: usize = start + 2;
        while pos < n
            invariant
                n == runs@.len(),
                runs@ == session.runs@,
                session.runs@ == old(session).runs@,
                session.cursor == old(session).cursor,
                start == session.cursor,
                start + 2 <= pos <= n,
                bits_from(runs@, pos as int, data@) == message_at(runs@, start as int),
            decreases n - pos,
        {
            let high = runs[pos];
            if high.level != Level::Active {
                return Err(DecodeError::ProtocolViolation {
                    stage: Stage::BitActive,
                    index: pos,
                    level: high.level,
                    length: high.length,
                });
            }
            if pos + 1 >= n {
                return Err(DecodeError::Truncation { stage: Stage::BitIdle });
            }
            let low = runs[pos + 1];
            if low.level != Level::Idle {
                return Err(DecodeError::ProtocolViolation {
                    stage: Stage::BitIdle,
                    index: pos + 1,
                    level: low.level,
                    length: low.length,
                });
            }
            if low.length > TERMINATOR_GAP {
                pos = pos + 2;
                session.cursor = pos;
                return Ok(MessageRaw { data });
            }
            if low.length > ONE_GAP {
                data.push(Value::One);
            } else {
                data.push(Value::Zero);
            }
            pos = pos + 2;
        }
        session.cursor = pos;
        Ok(MessageRaw { data })
    }
}

/// The messages decoded from one source.
#[derive(Clone, Debug)]
pub struct FileData {
    pub data: Vec<MessageRaw>,
    pub path: String,
}

impl FileData {
    /// Decodes the lines of one source: binarizes the samples, collapses
    /// them into runs and decodes every message.
    pub fn new(path: String, lines: &Vec<String>) -> (r: Result<FileData, DecodeError>)
        ensures
            match decoded_stream(runs_of(levels_of_lines(lines@))) {
                Ok(ms) => r matches Ok(f) && f.path == path && messages_view(f.data@) == ms,
                Err(e) => r == Err::<FileData, DecodeError>(e),
            },
    {
        let levels = quantize_lines(lines);
        let runs = group(levels);
        match FileData::parse_file(runs) {
            Ok(data) => Ok(FileData { data, path }),
            Err(e) => Err(e),
        }
    }

    /// Decodes every message of a run sequence, back to back, until all runs
    /// are consumed; fails with the first message's error.
    pub fn parse_file(runs: Vec<Run>) -> (r: Result<Vec<MessageRaw>, DecodeError>)
        ensures
            match decoded_stream(runs@) {
                Ok(ms) => r matches Ok(v) && messages_view(v@) == ms,
                Err(e) => r == Err::<Vec<MessageRaw>, DecodeError>(e),
            },
    {
        let ghost all = runs@;
        let mut session = DecodeSession::new(runs);
        let mut result: Vec<MessageRaw> = Vec::new();
        assert(messages_view(result@) =~= Seq::empty());
        while !session.is_done()
            invariant
                session.spec_runs() == all,
                all == runs@,
                messages_from(all, session.spec_cursor(), messages_view(result@)) == decoded_stream(all),
            decreases all.len() - session.spec_cursor(),
        {
            let ghost before = session.spec_cursor();
            proof {
                lemma_message_advances(all, before as int);
            }
            match MessageRaw::parse_message(&mut session) {
                Ok(m) => {
                    proof {
                        assert(messages_view(result@.push(m)) =~= messages_view(result@).push(m@));
                    }
                    result.push(m);
                },
                Err(e) => {
                    return Err(e);
                },
            }
        }
        Ok(result)
    }
}

} // verus!
