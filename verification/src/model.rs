//! Typed event model.
//!
//! All times are unsigned integer ticks of one device clock.  The caller
//! that reads the raw trace decides the tick (the reference pipeline uses
//! one tick per nanosecond, i.e. a thousandth of a microsecond) and must
//! use the same tick for every time it hands in, thresholds included.

use vstd::prelude::*;

verus! {

/// One raw trace record, already lifted out of the container format.
/// Only category `"ProfileStep"` (step marker) and categories `"Kernel"`,
/// `"Memcpy"`, `"Memset"` (device operations), each with phase `"X"`,
/// are consumed; everything else is ignored.
pub struct TraceEvent {
    pub name: String,
    pub cat: Option<String>,
    pub ph: Option<String>,
    pub ts: Option<i64>,
    pub args: Option<TraceArgs>,
}

/// The nested argument block carrying textual start/end timestamps,
/// e.g. `"6609483.000 us"`.
pub struct TraceArgs {
    pub start_time: Option<String>,
    pub end_time: Option<String>,
}

/// One step marker: a bounded, recurring unit of device work.
pub struct ProfileStep {
    pub name: String,
    pub start_time: u64,
    pub end_time: u64,
}

/// One device operation with a normalized name.
pub struct GpuOperation {
    pub name: String,
    pub start_time: u64,
    pub end_time: u64,
    pub duration: u64,
}

/// One emitted report row: per-position averages across all aligned steps.
pub struct ProfileStatsRecord {
    pub operation_name: String,
    pub avg_start_time_us: u64,
    pub avg_end_time_us: u64,
    pub avg_duration_us: u64,
    pub bubble_time_us: u64,
}

/// One device operation kept by the time-window extractor; the name is
/// taken verbatim from the trace record.
pub struct KernelRecord {
    pub kernel_name: String,
    pub start_time_us: u64,
    pub end_time_us: u64,
    pub duration_us: u64,
}

/// Configuration of the time-window extractor.
pub struct ExtractConfig {
    pub input_file: String,
    pub output_file: String,
    pub start_time: u64,
    pub end_time: u64,
}

/// Mathematical image of a `TraceArgs`.
pub struct ArgsView {
    pub start_time: Option<Seq<char>>,
    pub end_time: Option<Seq<char>>,
}

/// Mathematical image of a `TraceEvent`.
pub struct EventView {
    pub name: Seq<char>,
    pub cat: Option<Seq<char>>,
    pub ph: Option<Seq<char>>,
    pub args: Option<ArgsView>,
}

/// Mathematical image of a `ProfileStep`.
pub struct StepView {
    pub name: Seq<char>,
    pub start_time: int,
    pub end_time: int,
}

/// Mathematical image of a `GpuOperation`.
pub struct OpView {
    pub name: Seq<char>,
    pub start_time: int,
    pub end_time: int,
    pub duration: int,
}

/// Mathematical image of a `ProfileStatsRecord`.
pub struct RecordView {
    pub operation_name: Seq<char>,
    pub avg_start_time_us: int,
    pub avg_end_time_us: int,
    pub avg_duration_us: int,
    pub bubble_time_us: int,
}

/// Mathematical image of a `KernelRecord`.
pub struct KernelView {
    pub kernel_name: Seq<char>,
    pub start_time_us: int,
    pub end_time_us: int,
    pub duration_us: int,
}

impl View for TraceArgs {
    type V = ArgsView;

    open spec fn view(&self) -> ArgsView {
        ArgsView {
            start_time: match self.start_time {
                Some(s) => Some(s@),
                None => None,
            },
            end_time: match self.end_time {
                Some(s) => Some(s@),
                None => None,
            },
        }
    }
}

impl DeepView for TraceArgs {
    type V = ArgsView;

    open spec fn deep_view(&self) -> ArgsView {
        self@
    }
}

impl View for TraceEvent {
    type V = EventView;

    open spec fn view(&self) -> EventView {
        EventView {
            name: self.name@,
            cat: match self.cat {
                Some(s) => Some(s@),
                None => None,
            },
            ph: match self.ph {
                Some(s) => Some(s@),
                None => None,
            },
            args: match self.args {
                Some(a) => Some(a@),
                None => None,
            },
        }
    }
}

impl DeepView for TraceEvent {
    type V = EventView;

    open spec fn deep_view(&self) -> EventView {
        self@
    }
}

impl View for ProfileStep {
    type V = StepView;

    open spec fn view(&self) -> StepView {
        StepView {
            name: self.name@,
            start_time: self.start_time as int,
            end_time: self.end_time as int,
        }
    }
}

impl DeepView for ProfileStep {
    type V = StepView;

    open spec fn deep_view(&self) -> StepView {
        self@
    }
}

impl View for GpuOperation {
    type V = OpView;

    open spec fn view(&self) -> OpView {
        OpView {
            name: self.name@,
            start_time: self.start_time as int,
            end_time: self.end_time as int,
            duration: self.duration as int,
        }
    }
}

impl DeepView for GpuOperation {
    type V = OpView;

    open spec fn deep_view(&self) -> OpView {
        self@
    }
}

impl View for ProfileStatsRecord {
    type V = RecordView;

    open spec fn view(&self) -> RecordView {
        RecordView {
            operation_name: self.operation_name@,
            avg_start_time_us: self.avg_start_time_us as int,
            avg_end_time_us: self.avg_end_time_us as int,
            avg_duration_us: self.avg_duration_us as int,
            bubble_time_us: self.bubble_time_us as int,
        }
    }
}

impl DeepView for ProfileStatsRecord {
    type V = RecordView;

    open spec fn deep_view(&self) -> RecordView {
        self@
    }
}

impl View for KernelRecord {
    type V = KernelView;

    open spec fn view(&self) -> KernelView {
        KernelView {
            kernel_name: self.kernel_name@,
            start_time_us: self.start_time_us as int,
            end_time_us: self.end_time_us as int,
            duration_us: self.duration_us as int,
        }
    }
}

impl DeepView for KernelRecord {
    type V = KernelView;

    open spec fn deep_view(&self) -> KernelView {
        self@
    }
}

/// A well-formed operation view: times fit the clock type and the stored
/// duration is the derived one.
pub open spec fn wf_op(o: OpView) -> bool {
    &&& 0 <= o.start_time <= o.end_time <= u64::MAX
    &&& o.duration == o.end_time - o.start_time
}

/// A well-formed step view: a non-empty-or-degenerate time interval that
/// fits the clock type.
pub open spec fn wf_step(s: StepView) -> bool {
    0 <= s.start_time <= s.end_time <= u64::MAX
}

/// Every operation of the sequence is well formed.
pub open spec fn wf_ops(s: Seq<OpView>) -> bool {
    forall|i: int| 0 <= i < s.len() ==> wf_op(#[trigger] s[i])
}

impl Clone for ProfileStep {
    fn clone(&self) -> (r: Self)
        ensures
            r == *self,
    {
        ProfileStep {
            name: self.name.clone(),
            start_time: self.start_time,
            end_time: self.end_time,
        }
    }
}

impl Clone for GpuOperation {
    fn clone(&self) -> (r: Self)
        ensures
            r == *self,
    {
        GpuOperation {
            name: self.name.clone(),
            start_time: self.start_time,
            end_time: self.end_time,
            duration: self.duration,
        }
    }
}

impl Clone for ProfileStatsRecord {
    fn clone(&self) -> (r: Self)
        ensures
            r == *self,
    {
        ProfileStatsRecord {
            operation_name: self.operation_name.clone(),
            avg_start_time_us: self.avg_start_time_us,
            avg_end_time_us: self.avg_end_time_us,
            avg_duration_us: self.avg_duration_us,
            bubble_time_us: self.bubble_time_us,
        }
    }
}

/// Why an analysis run failed; each fatal condition of the pipeline has
/// its own variant.
#[derive(Clone, Copy, Debug, PartialEq, Eq, Structural)]
pub enum AnalysisError {
    /// The trace holds no step marker at all.
    NoProfileSteps,
    /// Every step marker was filtered out as a prefill step.
    NoDecodeSteps,
    /// No per-step data was handed to the aggregator.
    NoStepData,
    /// Every step's operation sequence is empty.
    AllStepsEmpty,
}

impl AnalysisError {
    /// The error's report text.
    pub fn message(&self) -> (r: String)
        ensures
            *self == AnalysisError::NoProfileSteps ==> r@ == "No ProfileStep events found"@,
            *self == AnalysisError::NoDecodeSteps ==> r@
                == "No decode ProfileStep events found after filtering"@,
            *self == AnalysisError::NoStepData ==> r@ == "No ProfileStep data available"@,
            *self == AnalysisError::AllStepsEmpty ==> r@ == "All ProfileSteps are empty"@,
    {
        match self {
            AnalysisError::NoProfileSteps => String::from_str("No ProfileStep events found"),
            AnalysisError::NoDecodeSteps => String::from_str(
                "No decode ProfileStep events found after filtering",
            ),
            AnalysisError::NoStepData => String::from_str("No ProfileStep data available"),
            AnalysisError::AllStepsEmpty => String::from_str("All ProfileSteps are empty"),
        }
    }
}

} // verus!
