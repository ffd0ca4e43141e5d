//! Time-window extraction.
//!
//! A flat list of the device operations whose interval falls inside a
//! requested time window, sorted ascending by start time.  Names are
//! taken verbatim from the trace records here; the cross-step pipeline
//! is the one that normalizes them.

use vstd::prelude::*;

use crate::collect::{event_times, is_op_cat};
use crate::model::{EventView, ExtractConfig, KernelRecord, KernelView, TraceEvent};
use crate::sort::{kernels_sorted, sort_kernels_by_start, spec_sort_kernels};

verus! {

/// The kernel record an event decodes to, name taken verbatim.
pub open spec fn kernel_of(e: EventView) -> KernelView {
    let ts = event_times(e)->0;
    KernelView {
        kernel_name: e.name,
        start_time_us: ts.0,
        end_time_us: ts.1,
        duration_us: ts.1 - ts.0,
    }
}

/// The event is a device operation whose interval lies inside the
/// window.
pub open spec fn in_window(e: EventView, window_start: int, window_end: int) -> bool {
    &&& is_op_cat(e)
    &&& event_times(e) matches Some(ts) && ts.0 >= window_start && ts.1 <= window_end
}

/// The in-window device operations of the trace, in input order.
pub open spec fn collected_kernels(evs: Seq<EventView>, window_start: int, window_end: int) -> Seq<
    KernelView,
>
    decreases evs.len(),
{
    if evs.len() == 0 {
        Seq::empty()
    } else {
        let rest = collected_kernels(evs.drop_last(), window_start, window_end);
        if in_window(evs.last(), window_start, window_end) {
            rest.push(kernel_of(evs.last()))
        } else {
            rest
        }
    }
}

/// Extracts the device operations inside the configured time window,
/// sorted ascending by start time.
pub fn extract_kernels(events: &Vec<TraceEvent>, config: &ExtractConfig) -> (r: Vec<KernelRecord>)
    ensures
        r.deep_view() == spec_sort_kernels(
            collected_kernels(events.deep_view(), config.start_time as int, config.end_time as int),
        ),
        kernels_sorted(r.deep_view()),
        r.deep_view().to_multiset() == collected_kernels(
            events.deep_view(),
            config.start_time as int,
            config.end_time as int,
        ).to_multiset(),
{
    let ghost evs = events.deep_view();
    let kernel_cat = String::from_str("Kernel");
    let memcpy_cat = String::from_str("Memcpy");
    let memset_cat = String::from_str("Memset");
    let phase_x = String::from_str("X");

    let mut records: Vec<KernelRecord> = Vec::new();
    let mut idx: usize = 0;
    while idx < events.len()
        invariant
            idx <= events.len(),
            evs == events.deep_view(),
            evs.len() == events.len(),
            kernel_cat@ == "Kernel"@,
            memcpy_cat@ == "Memcpy"@,
            memset_cat@ == "Memset"@,
            phase_x@ == "X"@,
            records.deep_view() == collected_kernels(
                evs.subrange(0, idx as int),
                config.start_time as int,
                config.end_time as int,
            ),
        decreases events.len() - idx,
    {
        let e = &events[idx];
        proof {
            assert(e.deep_view() == evs[idx as int]);
        }
        let phase_ok = match &e.ph {
            Some(p) => *p == phase_x,
            None => false,
        };
        let is_op = match &e.cat {
            Some(c) => *c == kernel_cat || *c == memcpy_cat || *c == memset_cat,
            None => false,
        };
        if phase_ok && is_op {
            if let Some((st, en)) = crate::collect::checked_times(e) {
                if st >= config.start_time && en <= config.end_time {
                    let rec = KernelRecord {
                        kernel_name: e.name.clone(),
                        start_time_us: st,
                        end_time_us: en,
                        duration_us: en - st,
                    };
                    proof {
                        assert(in_window(
                            evs[idx as int],
                            config.start_time as int,
                            config.end_time as int,
                        ));
                        assert(rec@ == kernel_of(evs[idx as int]));
                    }
                    records.push(rec);
                }
            }
        }
        proof {
            let pre = evs.subrange(0, idx as int);
            let post = evs.subrange(0, idx as int + 1);
            assert(post.drop_last() =~= pre);
            assert(post.last() == evs[idx as int]);
        }
        idx = idx + 1;
        proof {
            assert(records.deep_view() =~= collected_kernels(
                evs.subrange(0, idx as int),
                config.start_time as int,
                config.end_time as int,
            ));
        }
    }
    proof {
        assert(evs.subrange(0, evs.len() as int) =~= evs);
    }
    sort_kernels_by_start(records)
}

} // verus!
