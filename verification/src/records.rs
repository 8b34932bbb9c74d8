//! The stored record kinds and their mathematical views.
//!
//! Scalars are carried as `FloatBits` (32-bit patterns). A loss key compares
//! the way the scalar loss it stands for compares, so ordering records by the
//! key orders them by loss.

use vstd::prelude::*;
use crate::FloatBits;

verus! {

pub type VersionType = i64;
pub type EventId = u64;
pub type Timestamp = i64;
pub type OffsetId = i64;

/// Number of scalars in one label vector (the model's output shape).
pub const LABEL_LEN: usize = 4;
/// Number of time-derived feature scalars at the front of a model input.
pub const CHRONO_LEN: usize = 2;
/// Number of raw-series scalars at the back of a model input.
pub const SERIES_LEN: usize = 6;
/// Number of scalars in one full model input vector.
pub const INPUT_LEN: usize = CHRONO_LEN + SERIES_LEN;

/// A label vector, as bit patterns, element by element.
pub type LabelType = Vec<FloatBits>;

/// A full model input: time-derived features, then the raw series.
pub type InputStored = (Vec<FloatBits>, Vec<FloatBits>);

/// A labeled, half-open range of source-stream offsets.
pub struct LabelStored {
    pub event_id: EventId,
    pub timestamp: Timestamp,
    pub offset_from: OffsetId,
    pub offset_to: OffsetId,
    pub label: LabelType,
}

/// Mathematical view of a `LabelStored`.
#[verifier::ext_equal]
pub ghost struct LabelRec {
    pub event_id: EventId,
    pub timestamp: Timestamp,
    pub offset_from: OffsetId,
    pub offset_to: OffsetId,
    pub label: Seq<FloatBits>,
}

impl View for LabelStored {
    type V = LabelRec;

    open spec fn view(&self) -> LabelRec {
        LabelRec {
            event_id: self.event_id,
            timestamp: self.timestamp,
            offset_from: self.offset_from,
            offset_to: self.offset_to,
            label: self.label@,
        }
    }
}

impl LabelRec {
    /// The label vector has the fixed shape and covers a forward range.
    pub open spec fn wf(self) -> bool {
        self.label.len() == LABEL_LEN && self.offset_from <= self.offset_to
    }
}

/// One training example: the input it was trained on, the model's output at
/// training time, and the scalar loss, keyed by `event_id`.
pub struct TrainStored {
    pub event_id: EventId,
    pub timestamp: Timestamp,
    pub partition: i32,
    pub offset: OffsetId,
    pub input: InputStored,
    pub output: LabelType,
    pub loss: FloatBits,
}

/// Mathematical view of a `TrainStored`.
#[verifier::ext_equal]
pub ghost struct TrainRec {
    pub event_id: EventId,
    pub timestamp: Timestamp,
    pub partition: i32,
    pub offset: OffsetId,
    pub input: (Seq<FloatBits>, Seq<FloatBits>),
    pub output: Seq<FloatBits>,
    pub loss: FloatBits,
}

impl View for TrainStored {
    type V = TrainRec;

    open spec fn view(&self) -> TrainRec {
        TrainRec {
            event_id: self.event_id,
            timestamp: self.timestamp,
            partition: self.partition,
            offset: self.offset,
            input: (self.input.0@, self.input.1@),
            output: self.output@,
            loss: self.loss,
        }
    }
}

impl TrainRec {
    /// The input and output vectors have the fixed shapes.
    pub open spec fn wf(self) -> bool {
        self.input.0.len() == CHRONO_LEN && self.input.1.len() == SERIES_LEN
            && self.output.len() == LABEL_LEN
    }
}

/// One row of the loss-ranked secondary index.
#[derive(Clone, Copy, Debug, PartialEq, Eq, Structural)]
pub struct LossEntry {
    pub event_id: EventId,
    pub timestamp: Timestamp,
    pub loss: FloatBits,
}

/// The index row a training record must be mirrored by.
pub open spec fn entry_of(t: TrainRec) -> LossEntry {
    LossEntry { event_id: t.event_id, timestamp: t.timestamp, loss: t.loss }
}

/// One row of a label page, as served to consumers resuming from an offset
/// watermark.
pub struct LabelLookup {
    pub event_id: EventId,
    pub offset_from: OffsetId,
    pub label: LabelType,
}

/// Mathematical view of a `LabelLookup`.
#[verifier::ext_equal]
pub ghost struct LookupRec {
    pub event_id: EventId,
    pub offset_from: OffsetId,
    pub label: Seq<FloatBits>,
}

impl View for LabelLookup {
    type V = LookupRec;

    open spec fn view(&self) -> LookupRec {
        LookupRec { event_id: self.event_id, offset_from: self.offset_from, label: self.label@ }
    }
}

/// The page row a stored label is served as.
pub open spec fn lookup_of(l: LabelRec) -> LookupRec {
    LookupRec { event_id: l.event_id, offset_from: l.offset_from, label: l.label }
}

/// A self-contained retraining example: a training record joined with its
/// label.
pub struct TrainStoredWithLabel {
    pub event_id: EventId,
    pub timestamp: Timestamp,
    pub offset: OffsetId,
    pub loss: FloatBits,
    pub input: InputStored,
    pub output: LabelType,
    pub label: LabelType,
}

/// Mathematical view of a `TrainStoredWithLabel`.
#[verifier::ext_equal]
pub ghost struct ExampleRec {
    pub event_id: EventId,
    pub timestamp: Timestamp,
    pub offset: OffsetId,
    pub loss: FloatBits,
    pub input: (Seq<FloatBits>, Seq<FloatBits>),
    pub output: Seq<FloatBits>,
    pub label: Seq<FloatBits>,
}

impl View for TrainStoredWithLabel {
    type V = ExampleRec;

    open spec fn view(&self) -> ExampleRec {
        ExampleRec {
            event_id: self.event_id,
            timestamp: self.timestamp,
            offset: self.offset,
            loss: self.loss,
            input: (self.input.0@, self.input.1@),
            output: self.output@,
            label: self.label@,
        }
    }
}

/// The joined example a training record and its label must produce.
pub open spec fn example_of(t: TrainRec, l: LabelRec) -> ExampleRec {
    ExampleRec {
        event_id: t.event_id,
        timestamp: t.timestamp,
        offset: t.offset,
        loss: t.loss,
        input: t.input,
        output: t.output,
        label: l.label,
    }
}

/// Copies a bit-pattern vector element by element.
pub fn copy_bits(v: &Vec<FloatBits>) -> (r: Vec<FloatBits>)
    ensures
        r@ == v@,
{
    let mut out: Vec<FloatBits> = Vec::new();
    let mut i: usize = 0;
    while i < v.len()
        invariant
            i <= v@.len(),
            out@ == v@.take(i as int),
        decreases v@.len() - i,
    {
        out.push(v[i]);
        proof {
            assert(out@ =~= v@.take(i + 1));
        }
        i += 1;
    }
    proof {
        assert(v@.take(v@.len() as int) =~= v@);
    }
    out
}

impl LabelStored {
    /// An owned copy with the same view.
    pub fn duplicate(&self) -> (r: LabelStored)
        ensures
            r@ == self@,
    {
        LabelStored {
            event_id: self.event_id,
            timestamp: self.timestamp,
            offset_from: self.offset_from,
            offset_to: self.offset_to,
            label: copy_bits(&self.label),
        }
    }
}

impl TrainStored {
    /// An owned copy with the same view.
    pub fn duplicate(&self) -> (r: TrainStored)
        ensures
            r@ == self@,
    {
        TrainStored {
            event_id: self.event_id,
            timestamp: self.timestamp,
            partition: self.partition,
            offset: self.offset,
            input: (copy_bits(&self.input.0), copy_bits(&self.input.1)),
            output: copy_bits(&self.output),
            loss: self.loss,
        }
    }
}

} // verus!
