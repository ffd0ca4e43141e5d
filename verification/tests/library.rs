use gpu_trace_stats::collect::collect_events;
use gpu_trace_stats::extractor::extract_kernels;
use gpu_trace_stats::model::{
    AnalysisError, ExtractConfig, GpuOperation, ProfileStatsRecord, ProfileStep, TraceArgs,
    TraceEvent,
};
use gpu_trace_stats::names::normalize_op_name;
use gpu_trace_stats::profile_stats::analyze_profile_stats;
use gpu_trace_stats::segment::{collect_step_operations, filter_decode_steps, trim_to_anchor};
use gpu_trace_stats::shape::{find_first_with_length, select_reference_length};
use gpu_trace_stats::stats::calculate_average_stats;
use gpu_trace_stats::time::parse_time_from_string;

fn ev(
    name: &str,
    cat: Option<&str>,
    ph: Option<&str>,
    start: Option<&str>,
    end: Option<&str>,
) -> TraceEvent {
    TraceEvent {
        name: name.to_string(),
        cat: cat.map(|s| s.to_string()),
        ph: ph.map(|s| s.to_string()),
        ts: None,
        args: if start.is_some() || end.is_some() {
            Some(TraceArgs {
                start_time: start.map(|s| s.to_string()),
                end_time: end.map(|s| s.to_string()),
            })
        } else {
            None
        },
    }
}

fn op(name: &str, start: u64, end: u64) -> GpuOperation {
    GpuOperation { name: name.to_string(), start_time: start, end_time: end, duration: end - start }
}

fn step(name: &str, start: u64, end: u64) -> ProfileStep {
    ProfileStep { name: name.to_string(), start_time: start, end_time: end }
}

// --- name normalization -------------------------------------------------

#[test]
fn normalize_strips_us_suffix() {
    assert_eq!(normalize_op_name("MEMCPY_DtoH[2.464 us]"), "MEMCPY_DtoH");
}

#[test]
fn normalize_strips_ms_suffix() {
    assert_eq!(normalize_op_name("kernel_name[123.456 ms]"), "kernel_name");
}

#[test]
fn normalize_keeps_plain_names() {
    assert_eq!(normalize_op_name("plain_kernel"), "plain_kernel");
    assert_eq!(normalize_op_name("with[bracket]"), "with[bracket]");
    assert_eq!(normalize_op_name(""), "");
}

#[test]
fn normalize_idempotent_on_single_annotation() {
    let once = normalize_op_name("decode_attn[7.5 us]");
    assert_eq!(normalize_op_name(once), once);
}

#[test]
fn normalize_strips_only_last_bracket_of_stacked_annotations() {
    assert_eq!(normalize_op_name("a[1 us][2 us]"), "a[1 us]");
}

#[test]
fn normalize_keeps_non_numeric_annotation() {
    // Only the exact shape `[<number> us]` / `[<number> ms]` is volatile.
    assert_eq!(normalize_op_name("x[y us]"), "x[y us]");
    assert_eq!(normalize_op_name("a[ us]"), "a[ us]");
    assert_eq!(normalize_op_name("b[1.2.3 us]"), "b[1.2.3 us]");
    assert_eq!(normalize_op_name("gemm[4.0 us]"), "gemm");
}

// --- timestamp parsing ---------------------------------------------------

#[test]
fn parse_time_reads_numeric_prefix_with_unit() {
    assert_eq!(parse_time_from_string("6609483.000 us"), Some(6_609_483_000));
}

#[test]
fn parse_time_trims_whitespace_and_ignores_unit() {
    assert_eq!(parse_time_from_string("  42.5 ms  "), Some(42_500));
    assert_eq!(parse_time_from_string("7"), Some(7_000));
}

#[test]
fn parse_time_truncates_past_third_fraction_digit() {
    assert_eq!(parse_time_from_string("1.23456"), Some(1_234));
    assert_eq!(parse_time_from_string("5."), Some(5_000));
    assert_eq!(parse_time_from_string(".5"), Some(500));
}

#[test]
fn parse_time_rejects_garbage() {
    assert_eq!(parse_time_from_string(""), None);
    assert_eq!(parse_time_from_string("   "), None);
    assert_eq!(parse_time_from_string("."), None);
    assert_eq!(parse_time_from_string("abc us"), None);
    assert_eq!(parse_time_from_string("1.2.3"), None);
}

// --- classification ------------------------------------------------------

#[test]
fn collect_splits_steps_and_operations() {
    let events = vec![
        ev("step 0", Some("ProfileStep"), Some("X"), Some("100"), Some("200")),
        ev("k0[3.1 us]", Some("Kernel"), Some("X"), Some("110"), Some("120")),
        ev("copy", Some("Memcpy"), Some("X"), Some("130"), Some("140")),
        ev("fill", Some("Memset"), Some("X"), Some("150"), Some("160")),
        ev("other", Some("Marker"), Some("X"), Some("150"), Some("160")),
        ev("no phase", Some("Kernel"), None, Some("150"), Some("160")),
        ev("bad time", Some("Kernel"), Some("X"), Some("oops"), Some("160")),
        ev("no args", Some("Kernel"), Some("X"), None, None),
    ];
    let (steps, ops) = collect_events(&events);
    assert_eq!(steps.len(), 1);
    assert_eq!(steps[0].name, "step 0");
    assert_eq!(steps[0].start_time, 100_000);
    assert_eq!(steps[0].end_time, 200_000);
    assert_eq!(ops.len(), 3);
    assert_eq!(ops[0].name, "k0");
    assert_eq!(ops[0].duration, 10_000);
    assert_eq!(ops[1].name, "copy");
    assert_eq!(ops[2].name, "fill");
}

// --- segmentation (relative coordinates stay in the step) ----------------

#[test]
fn segment_rebases_and_keeps_contained_operations() {
    let st = step("s", 100, 200);
    let ops = vec![op("a", 110, 120), op("b", 150, 160), op("outside", 250, 260), op(
        "straddles",
        90,
        150,
    )];
    let seg = collect_step_operations(&st, &ops);
    assert_eq!(seg.len(), 2);
    assert_eq!(seg[0].name, "a");
    assert_eq!(seg[0].start_time, 10);
    assert_eq!(seg[0].end_time, 20);
    assert_eq!(seg[1].start_time, 50);
    assert_eq!(seg[1].end_time, 60);
    let span = st.end_time - st.start_time;
    for o in seg.iter() {
        assert!(o.start_time <= o.end_time);
        assert!(o.end_time <= span);
        assert_eq!(o.duration, o.end_time - o.start_time);
    }
}

#[test]
fn overlapping_steps_each_collect_a_shared_operation() {
    // Steps are not checked for disjointness: an operation contained in
    // two overlapping steps is attributed to both.
    let s1 = step("s1", 0, 100);
    let s2 = step("s2", 50, 150);
    let ops = vec![op("shared", 60, 70)];
    let g1 = collect_step_operations(&s1, &ops);
    let g2 = collect_step_operations(&s2, &ops);
    assert_eq!(g1.len(), 1);
    assert_eq!(g2.len(), 1);
    assert_eq!(g1[0].start_time, 60);
    assert_eq!(g2[0].start_time, 10);
}

// --- anchor trimming ------------------------------------------------------

#[test]
fn trim_drops_prefix_and_rebases_at_anchor() {
    let ops = vec![op("warmup", 0, 5), op("prep", 6, 8), op("recover_decode_task", 10, 12), op(
        "work",
        15,
        20,
    )];
    let trimmed = trim_to_anchor(ops, "recover_decode");
    assert_eq!(trimmed.len(), 2);
    assert_eq!(trimmed[0].name, "recover_decode_task");
    assert_eq!(trimmed[0].start_time, 0);
    assert_eq!(trimmed[1].start_time, 5);
    assert_eq!(trimmed[1].end_time, 10);
}

#[test]
fn trim_without_match_keeps_sequence() {
    let ops = vec![op("a", 0, 5), op("b", 6, 8)];
    let trimmed = trim_to_anchor(ops.clone(), "missing");
    assert_eq!(trimmed.len(), 2);
    assert_eq!(trimmed[0].name, "a");
    assert_eq!(trimmed[0].start_time, 0);
    assert_eq!(trimmed[1].start_time, 6);
}

#[test]
fn trim_is_idempotent_for_same_anchor() {
    let ops = vec![op("x", 2, 4), op("anchor_op", 7, 9), op("y", 11, 13)];
    let once = trim_to_anchor(ops, "anchor");
    let twice = trim_to_anchor(once.clone(), "anchor");
    assert_eq!(once.len(), twice.len());
    for (a, b) in once.iter().zip(twice.iter()) {
        assert_eq!(a.name, b.name);
        assert_eq!(a.start_time, b.start_time);
        assert_eq!(a.end_time, b.end_time);
        assert_eq!(a.duration, b.duration);
    }
}

#[test]
fn trim_anchor_in_third_operation_rebases_to_zero() {
    // Anchor name present in a step's third operation only.
    let ops = vec![op("load", 1, 2), op("prep", 3, 4), op("warmup_gemm", 6, 9), op(
        "work",
        10,
        12,
    ), op("store", 13, 14)];
    let untrimmed_len = ops.len();
    let trimmed = trim_to_anchor(ops, "warmup");
    assert_eq!(trimmed.len(), untrimmed_len - 2);
    assert_eq!(trimmed[0].start_time, 0);
    assert_eq!(trimmed[0].name, "warmup_gemm");
}

// --- duration filter -------------------------------------------------------

#[test]
fn duration_filter_drops_prefill_steps() {
    let steps = vec![step("decode", 0, 20_000), step("prefill", 30_000, 75_000), step(
        "decode",
        80_000,
        95_000,
    )];
    let kept = filter_decode_steps(steps, 30_000);
    assert_eq!(kept.len(), 2);
    assert_eq!(kept[0].start_time, 0);
    assert_eq!(kept[1].start_time, 80_000);
}

// --- shape selection --------------------------------------------------------

#[test]
fn shape_selector_picks_most_common_length() {
    let seqs = vec![
        vec![op("a", 0, 1), op("b", 2, 3), op("c", 4, 5)],
        vec![op("a", 0, 1), op("b", 2, 3), op("c", 4, 5)],
        vec![op("a", 0, 1), op("b", 2, 3)],
        vec![],
    ];
    let (len, tally) = select_reference_length(&seqs).unwrap();
    assert_eq!(len, 3);
    assert_eq!(tally, 2);
    assert_eq!(find_first_with_length(&seqs, len), Some(0));
}

#[test]
fn shape_selector_breaks_ties_to_smallest_length() {
    let seqs = vec![
        vec![op("a", 0, 1), op("b", 2, 3), op("c", 4, 5)],
        vec![op("a", 0, 1), op("b", 2, 3)],
        vec![op("a", 0, 1), op("b", 2, 3), op("c", 4, 5)],
        vec![op("a", 0, 1), op("b", 2, 3)],
    ];
    let (len, tally) = select_reference_length(&seqs).unwrap();
    assert_eq!(len, 2);
    assert_eq!(tally, 2);
}

#[test]
fn shape_selection_is_deterministic() {
    let seqs = vec![
        vec![op("a", 0, 1), op("b", 2, 3)],
        vec![op("a", 0, 1)],
        vec![op("a", 0, 1), op("b", 2, 3)],
    ];
    let first = select_reference_length(&seqs);
    let second = select_reference_length(&seqs);
    assert_eq!(first, second);
    assert_eq!(find_first_with_length(&seqs, 2), find_first_with_length(&seqs, 2));
}

#[test]
fn shape_selector_fails_when_all_steps_empty() {
    let seqs: Vec<Vec<GpuOperation>> = vec![vec![], vec![]];
    assert_eq!(select_reference_length(&seqs), None);
}

// --- positional aggregation ---------------------------------------------

#[test]
fn aggregation_skips_count_mismatch_and_counts_it() {
    // Three steps with operation counts [3, 3, 2]: the selector chooses 3
    // and the length-2 step is skipped as one count mismatch.
    let seqs = vec![
        vec![op("a", 0, 10), op("b", 12, 17), op("c", 20, 25)],
        vec![op("a", 0, 10), op("b", 12, 17), op("c", 20, 25)],
        vec![op("a", 0, 10), op("b", 12, 17)],
    ];
    let summary = calculate_average_stats(&seqs).unwrap();
    assert_eq!(summary.reference_length, 3);
    assert_eq!(summary.reference_tally, 2);
    assert_eq!(summary.reference_index, 0);
    assert_eq!(summary.matched_step_count, 2);
    assert_eq!(summary.count_mismatch_steps, 1);
    assert_eq!(summary.name_mismatch_steps, 0);
    assert_eq!(summary.records.len(), 3);
}

#[test]
fn aggregation_averages_and_bubble_time() {
    // Reference positions [op_a(dur=10), op_b(dur=5)]; step 1 has op_b at
    // 12..17 (bubble 2), step 2 at 10..15 (bubble 0).
    let seqs = vec![
        vec![op("op_a", 0, 10), op("op_b", 12, 17)],
        vec![op("op_a", 0, 10), op("op_b", 10, 15)],
    ];
    let summary = calculate_average_stats(&seqs).unwrap();
    assert_eq!(summary.records.len(), 2);
    let b = &summary.records[1];
    assert_eq!(b.operation_name, "op_b");
    assert_eq!(b.avg_start_time_us, 11);
    assert_eq!(b.avg_end_time_us, 16);
    assert_eq!(b.avg_duration_us, 5);
    assert_eq!(b.bubble_time_us, 1);
}

#[test]
fn aggregation_clamps_negative_bubble_to_zero() {
    // The second operation starts before the first one ends: the raw gap
    // is negative, the recorded bubble is zero.
    let seqs = vec![vec![op("a", 0, 10), op("b", 5, 8)]];
    let summary = calculate_average_stats(&seqs).unwrap();
    assert_eq!(summary.records[1].bubble_time_us, 0);
}

#[test]
fn aggregation_skips_name_mismatch_and_counts_it() {
    let seqs = vec![
        vec![op("a", 0, 10), op("b", 12, 17)],
        vec![op("a", 0, 10), op("z", 12, 17)],
    ];
    let summary = calculate_average_stats(&seqs).unwrap();
    assert_eq!(summary.matched_step_count, 1);
    assert_eq!(summary.name_mismatch_steps, 1);
    assert_eq!(summary.count_mismatch_steps, 0);
    // The mismatching step contributed nothing: averages are step 1's own.
    assert_eq!(summary.records[1].avg_start_time_us, 12);
    assert_eq!(summary.records[1].bubble_time_us, 2);
}

#[test]
fn aggregation_errors() {
    let empty: Vec<Vec<GpuOperation>> = vec![];
    match calculate_average_stats(&empty) {
        Err(e) => assert_eq!(e, AnalysisError::NoStepData),
        Ok(_) => panic!("expected an error on empty step data"),
    }
    let all_empty: Vec<Vec<GpuOperation>> = vec![vec![], vec![]];
    match calculate_average_stats(&all_empty) {
        Err(e) => assert_eq!(e, AnalysisError::AllStepsEmpty),
        Ok(_) => panic!("expected an error on all-empty steps"),
    }
}

// --- whole pipeline ----------------------------------------------------------

#[test]
fn pipeline_excludes_long_steps_from_selection_and_aggregation() {
    // A step of duration 45000 us (45 ms) under a 30 ms threshold is
    // dropped whole; only the short steps are aggregated.
    let events = vec![
        ev("prefill", Some("ProfileStep"), Some("X"), Some("0"), Some("45000")),
        ev("k_long", Some("Kernel"), Some("X"), Some("100"), Some("200")),
        ev("decode 1", Some("ProfileStep"), Some("X"), Some("50000"), Some("60000")),
        ev("k", Some("Kernel"), Some("X"), Some("50010"), Some("50020")),
        ev("decode 2", Some("ProfileStep"), Some("X"), Some("70000"), Some("80000")),
        ev("k", Some("Kernel"), Some("X"), Some("70010"), Some("70020")),
    ];
    // Threshold: 30 ms in nanosecond ticks.
    let result = analyze_profile_stats(&events, None, 30_000_000).unwrap();
    assert_eq!(result.step_count, 3);
    assert_eq!(result.operation_count, 3);
    assert_eq!(result.filtered_step_count, 1);
    assert_eq!(result.decode_step_count, 2);
    assert_eq!(result.summary.reference_length, 1);
    assert_eq!(result.summary.matched_step_count, 2);
    assert_eq!(result.summary.records.len(), 1);
    assert_eq!(result.summary.records[0].operation_name, "k");
    // Relative start of the only operation in both decode steps: 10 us.
    assert_eq!(result.summary.records[0].avg_start_time_us, 10_000);
    assert_eq!(result.summary.records[0].avg_duration_us, 10_000);
}

#[test]
fn pipeline_applies_anchor_trimming() {
    let events = vec![
        ev("step", Some("ProfileStep"), Some("X"), Some("0"), Some("100")),
        ev("warmup", Some("Kernel"), Some("X"), Some("5"), Some("10")),
        ev("recover_decode_task", Some("Kernel"), Some("X"), Some("20"), Some("25")),
        ev("work", Some("Kernel"), Some("X"), Some("30"), Some("40")),
    ];
    let result = analyze_profile_stats(&events, Some("recover_decode_task"), 30_000_000).unwrap();
    assert_eq!(result.summary.reference_length, 2);
    let recs = &result.summary.records;
    assert_eq!(recs[0].operation_name, "recover_decode_task");
    assert_eq!(recs[0].avg_start_time_us, 0);
    assert_eq!(recs[1].avg_start_time_us, 10_000);
}

#[test]
fn pipeline_error_without_step_markers() {
    let events = vec![ev("k", Some("Kernel"), Some("X"), Some("0"), Some("10"))];
    match analyze_profile_stats(&events, None, 30_000_000) {
        Err(e) => assert_eq!(e, AnalysisError::NoProfileSteps),
        Ok(_) => panic!("expected an error without step markers"),
    }
}

#[test]
fn pipeline_error_when_every_step_is_prefill() {
    let events = vec![ev("s", Some("ProfileStep"), Some("X"), Some("0"), Some("45000"))];
    match analyze_profile_stats(&events, None, 30_000_000) {
        Err(e) => assert_eq!(e, AnalysisError::NoDecodeSteps),
        Ok(_) => panic!("expected an error when every step is filtered"),
    }
}

#[test]
fn pipeline_error_when_all_steps_empty() {
    let events = vec![ev("s", Some("ProfileStep"), Some("X"), Some("0"), Some("10000"))];
    match analyze_profile_stats(&events, None, 30_000_000) {
        Err(e) => assert_eq!(e, AnalysisError::AllStepsEmpty),
        Ok(_) => panic!("expected an error when every step is empty"),
    }
}

#[test]
fn error_messages_match_report_texts() {
    assert_eq!(AnalysisError::NoProfileSteps.message(), "No ProfileStep events found");
    assert_eq!(
        AnalysisError::NoDecodeSteps.message(),
        "No decode ProfileStep events found after filtering"
    );
    assert_eq!(AnalysisError::NoStepData.message(), "No ProfileStep data available");
    assert_eq!(AnalysisError::AllStepsEmpty.message(), "All ProfileSteps are empty");
}

// --- time-window extraction --------------------------------------------------

#[test]
fn extract_keeps_window_and_sorts() {
    let events = vec![
        ev("late", Some("Kernel"), Some("X"), Some("300"), Some("310")),
        ev("in2", Some("Memcpy"), Some("X"), Some("150"), Some("160")),
        ev("in1[2.0 us]", Some("Kernel"), Some("X"), Some("110"), Some("120")),
        ev("early", Some("Kernel"), Some("X"), Some("50"), Some("90")),
        ev("step", Some("ProfileStep"), Some("X"), Some("100"), Some("200")),
    ];
    let config = ExtractConfig {
        input_file: "trace.json".to_string(),
        output_file: "out.csv".to_string(),
        start_time: 100_000,
        end_time: 200_000,
    };
    let records = extract_kernels(&events, &config);
    assert_eq!(records.len(), 2);
    // Names stay verbatim here: the extractor does not normalize.
    assert_eq!(records[0].kernel_name, "in1[2.0 us]");
    assert_eq!(records[0].start_time_us, 110_000);
    assert_eq!(records[1].kernel_name, "in2");
    assert_eq!(records[1].duration_us, 10_000);
}

// --- report round-trip ---------------------------------------------------------

#[test]
fn report_rows_round_trip_through_tabular_form() {
    let records = vec![
        ProfileStatsRecord {
            operation_name: "gemm_main".to_string(),
            avg_start_time_us: 11,
            avg_end_time_us: 16,
            avg_duration_us: 5,
            bubble_time_us: 1,
        },
        ProfileStatsRecord {
            operation_name: "copy, with comma".to_string(),
            avg_start_time_us: 20,
            avg_end_time_us: 30,
            avg_duration_us: 10,
            bubble_time_us: 0,
        },
    ];
    let mut writer = csv::Writer::from_writer(Vec::new());
    writer
        .write_record(&[
            "operation_name",
            "avg_start_time_us",
            "avg_end_time_us",
            "avg_duration_us",
            "bubble_time_us",
        ])
        .unwrap();
    for r in records.iter() {
        writer
            .write_record(&[
                r.operation_name.clone(),
                r.avg_start_time_us.to_string(),
                r.avg_end_time_us.to_string(),
                r.avg_duration_us.to_string(),
                r.bubble_time_us.to_string(),
            ])
            .unwrap();
    }
    let bytes = writer.into_inner().unwrap();

    let mut reader = csv::Reader::from_reader(bytes.as_slice());
    let mut seen = Vec::new();
    for row in reader.records() {
        let row = row.unwrap();
        seen.push(ProfileStatsRecord {
            operation_name: row[0].to_string(),
            avg_start_time_us: row[1].parse().unwrap(),
            avg_end_time_us: row[2].parse().unwrap(),
            avg_duration_us: row[3].parse().unwrap(),
            bubble_time_us: row[4].parse().unwrap(),
        });
    }
    assert_eq!(seen.len(), records.len());
    for (a, b) in records.iter().zip(seen.iter()) {
        assert_eq!(a.operation_name, b.operation_name);
        assert_eq!(a.avg_start_time_us, b.avg_start_time_us);
        assert_eq!(a.avg_end_time_us, b.avg_end_time_us);
        assert_eq!(a.avg_duration_us, b.avg_duration_us);
        assert_eq!(a.bubble_time_us, b.bubble_time_us);
    }
}
