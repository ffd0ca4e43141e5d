//! Event classification.
//!
//! A trace record is a step marker when its category is `"ProfileStep"`
//! and its phase is `"X"`; it is a device operation when its category is
//! one of `"Kernel"`, `"Memcpy"`, `"Memset"` and its phase is `"X"`.
//! Either way both timestamps must parse and be in order; records missing
//! category, phase or a usable timestamp pair are silently skipped.
//! Device-operation names are normalized on the way in.

use vstd::prelude::*;

use crate::model::{EventView, GpuOperation, OpView, ProfileStep, StepView, TraceEvent};
use crate::names::{normalize_op_name, normalized_name};
use crate::time::{parse_time_from_string, spec_parse_time};

verus! {

/// The parsed tick value of an optional timestamp field.
pub open spec fn time_of(so: Option<Seq<char>>) -> Option<int> {
    match so {
        Some(s) => spec_parse_time(s),
        None => None,
    }
}

/// The (start, end) tick pair of an event, when both timestamps are
/// present, parseable, in order and fit the clock type.
pub open spec fn event_times(e: EventView) -> Option<(int, int)> {
    match e.args {
        Some(a) => match (time_of(a.start_time), time_of(a.end_time)) {
            (Some(st), Some(en)) => if 0 <= st && st <= en && en <= u64::MAX {
                Some((st, en))
            } else {
                None
            },
            _ => None,
        },
        None => None,
    }
}

pub open spec fn is_step_cat(e: EventView) -> bool {
    e.cat == Some("ProfileStep"@) && e.ph == Some("X"@)
}

pub open spec fn is_op_cat(e: EventView) -> bool {
    &&& (e.cat == Some("Kernel"@) || e.cat == Some("Memcpy"@) || e.cat == Some("Memset"@))
    &&& e.ph == Some("X"@)
}

/// The record is consumed as a step marker.
pub open spec fn is_step_record(e: EventView) -> bool {
    is_step_cat(e) && event_times(e) is Some
}

/// The record is consumed as a device operation.
pub open spec fn is_op_record(e: EventView) -> bool {
    is_op_cat(e) && event_times(e) is Some
}

/// The step marker an event decodes to.
pub open spec fn step_of(e: EventView) -> StepView
    recommends
        is_step_record(e),
{
    let ts = event_times(e)->0;
    StepView { name: e.name, start_time: ts.0, end_time: ts.1 }
}

/// The device operation an event decodes to: name normalized, duration
/// derived from the timestamps.
pub open spec fn op_of(e: EventView) -> OpView
    recommends
        is_op_record(e),
{
    let ts = event_times(e)->0;
    OpView { name: normalized_name(e.name), start_time: ts.0, end_time: ts.1, duration: ts.1 - ts.0 }
}

/// All step markers of the trace, in input order.
pub open spec fn collected_steps(evs: Seq<EventView>) -> Seq<StepView>
    decreases evs.len(),
{
    if evs.len() == 0 {
        Seq::empty()
    } else {
        let rest = collected_steps(evs.drop_last());
        if is_step_record(evs.last()) {
            rest.push(step_of(evs.last()))
        } else {
            rest
        }
    }
}

/// All device operations of the trace, in input order.
pub open spec fn collected_ops(evs: Seq<EventView>) -> Seq<OpView>
    decreases evs.len(),
{
    if evs.len() == 0 {
        Seq::empty()
    } else {
        let rest = collected_ops(evs.drop_last());
        if is_op_record(evs.last()) {
            rest.push(op_of(evs.last()))
        } else {
            rest
        }
    }
}

/// Reads both timestamps of an event, in ticks.
pub(crate) fn checked_times(e: &TraceEvent) -> (r: Option<(u64, u64)>)
    ensures
        r matches Some(p) ==> event_times(e@) == Some((p.0 as int, p.1 as int)),
        r is None ==> event_times(e@) is None,
{
    match &e.args {
        None => None,
        Some(args) => match (&args.start_time, &args.end_time) {
            (Some(ss), Some(es)) => {
                let st = parse_time_from_string(ss.as_str());
                let en = parse_time_from_string(es.as_str());
                match (st, en) {
                    (Some(s), Some(t)) => if s <= t {
                        Some((s, t))
                    } else {
                        None
                    },
                    _ => None,
                }
            },
            _ => None,
        },
    }
}

/// Splits a trace into its step markers and its device operations, both
/// in input order, dropping every record that neither classifies as.
pub fn collect_events(events: &Vec<TraceEvent>) -> (r: (Vec<ProfileStep>, Vec<GpuOperation>))
    ensures
        r.0.deep_view() == collected_steps(events.deep_view()),
        r.1.deep_view() == collected_ops(events.deep_view()),
{
    let step_cat = String::from_str("ProfileStep");
    let kernel_cat = String::from_str("Kernel");
    let memcpy_cat = String::from_str("Memcpy");
    let memset_cat = String::from_str("Memset");
    let phase_x = String::from_str("X");
    let ghost evs = events.deep_view();

    let mut steps: Vec<ProfileStep> = Vec::new();
    let mut ops: Vec<GpuOperation> = Vec::new();
    let mut idx: usize = 0;
    while idx < events.len()
        invariant
            idx <= events.len(),
            evs == events.deep_view(),
            evs.len() == events.len(),
            step_cat@ == "ProfileStep"@,
            kernel_cat@ == "Kernel"@,
            memcpy_cat@ == "Memcpy"@,
            memset_cat@ == "Memset"@,
            phase_x@ == "X"@,
            steps.deep_view() == collected_steps(evs.subrange(0, idx as int)),
            ops.deep_view() == collected_ops(evs.subrange(0, idx as int)),
        decreases events.len() - idx,
    {
        let e = &events[idx];
        proof {
            assert(e.deep_view() == evs[idx as int]);
        }
        let phase_ok = match &e.ph {
            Some(p) => *p == phase_x,
            None => false,
        };
        if phase_ok {
            let is_step = match &e.cat {
                Some(c) => *c == step_cat,
                None => false,
            };
            let is_op = match &e.cat {
                Some(c) => *c == kernel_cat || *c == memcpy_cat || *c == memset_cat,
                None => false,
            };
            if is_step || is_op {
                if let Some((st, en)) = checked_times(e) {
                    if is_step {
                        let step = ProfileStep {
                            name: e.name.clone(),
                            start_time: st,
                            end_time: en,
                        };
                        proof {
                            assert(is_step_record(evs[idx as int]));
                            assert(step@ == step_of(evs[idx as int]));
                        }
                        steps.push(step);
                    } else {
                        let op = GpuOperation {
                            name: normalize_op_name(e.name.as_str()).to_owned(),
                            start_time: st,
                            end_time: en,
                            duration: en - st,
                        };
                        proof {
                            assert(is_op_record(evs[idx as int]));
                            assert(!is_step_record(evs[idx as int]));
                            assert(op@ == op_of(evs[idx as int]));
                        }
                        ops.push(op);
                    }
                }
            }
        }
        proof {
            reveal_strlit("ProfileStep");
            reveal_strlit("Kernel");
            reveal_strlit("Memcpy");
            reveal_strlit("Memset");
            assert("ProfileStep"@.len() == 11);
            assert("Kernel"@.len() == 6);
            assert("Memcpy"@.len() == 6);
            assert("Memset"@.len() == 6);
            let pre = evs.subrange(0, idx as int);
            let post = evs.subrange(0, idx as int + 1);
            assert(post.drop_last() =~= pre);
            assert(post.last() == evs[idx as int]);
            if is_step_record(evs[idx as int]) {
                assert(collected_steps(post) == collected_steps(pre).push(step_of(post.last())));
                assert(collected_ops(post) == collected_ops(pre));
            } else if is_op_record(evs[idx as int]) {
                assert(collected_ops(post) == collected_ops(pre).push(op_of(post.last())));
                assert(collected_steps(post) == collected_steps(pre));
            } else {
                assert(collected_steps(post) == collected_steps(pre));
                assert(collected_ops(post) == collected_ops(pre));
            }
        }
        idx = idx + 1;
        proof {
            assert(steps.deep_view() =~= collected_steps(evs.subrange(0, idx as int)));
            assert(ops.deep_view() =~= collected_ops(evs.subrange(0, idx as int)));
        }
    }
    proof {
        assert(evs.subrange(0, evs.len() as int) =~= evs);
    }
    (steps, ops)
}

} // verus!
