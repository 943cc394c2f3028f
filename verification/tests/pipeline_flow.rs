use optimacore::gpu_monitor::BandwidthReading;
use optimacore::gpu_monitor::GPUMonitor;
use optimacore::llm::build_generation_prompt;
use optimacore::llm::decide_generation_response;
use optimacore::llm::generation_failure_message;
use optimacore::pipeline::OptimaCore;
use optimacore::pipeline::TelemetryReading;

fn no_telemetry() -> TelemetryReading {
    TelemetryReading { utilization: None, bandwidth: None }
}

#[test]
fn stats_start_at_zero() {
    let core = OptimaCore::new();
    let stats = core.get_stats();
    assert_eq!(stats.total_requests, 0);
    assert_eq!(stats.avg_compression_ratio, 0);
    assert_eq!(stats.reflections_trimmed, 0);
    assert_eq!(stats.avg_gpu_utilization, 0);
    assert_eq!(stats.total_bandwidth_saved, 0);
}

#[test]
fn average_savings_is_the_mean_of_per_request_savings() {
    let mut core = OptimaCore::new();
    // first pass over a fresh cache: every chunk misses, zero savings
    let p1 = core.process_request("alpha beta", false, no_telemetry());
    assert!(p1.ratio.is_one());
    core.complete_request(p1, Ok("one".to_string()), None).unwrap();
    // second pass: the single two-token chunk hits, half the tokens saved
    let p2 = core.process_request("alpha beta", false, no_telemetry());
    assert_eq!(p2.ratio.emitted, 1);
    assert_eq!(p2.ratio.total, 2);
    core.complete_request(p2, Ok("two".to_string()), None).unwrap();
    let stats = core.get_stats();
    assert_eq!(stats.total_requests, 2);
    // savings were 0 and 500000 parts per million: the mean is 250000
    assert_eq!(stats.avg_compression_ratio, 250_000);
}

#[test]
fn a_failed_generation_is_propagated_and_counts_nothing() {
    let mut core = OptimaCore::new();
    let p = core.process_request("some prompt", false, no_telemetry());
    let r = core.complete_request(p, Err("upstream failure".to_string()), None);
    assert_eq!(r.unwrap_err(), "upstream failure");
    assert_eq!(core.get_stats().total_requests, 0);
}

#[test]
fn the_trim_counter_moves_only_on_completed_requests() {
    let mut core = OptimaCore::new();
    // a flagged prompt whose generation fails counts nothing
    let p = core.process_request("Explain X. Think about it.", true, no_telemetry());
    assert!(p.reflection_trimmed);
    let _ = core.complete_request(p, Err("failure".to_string()), None);
    assert_eq!(core.get_stats().reflections_trimmed, 0);
    assert_eq!(core.get_stats().total_requests, 0);
    // the same flagged prompt completed successfully counts once
    let p = core.process_request("Explain X. Think about it.", true, no_telemetry());
    core.complete_request(p, Ok("fine".to_string()), None).unwrap();
    assert_eq!(core.get_stats().reflections_trimmed, 1);
    assert_eq!(core.get_stats().total_requests, 1);
    // an unflagged completed prompt leaves the trim counter alone
    let p = core.process_request("plain prompt", false, no_telemetry());
    core.complete_request(p, Ok("fine".to_string()), None).unwrap();
    assert_eq!(core.get_stats().reflections_trimmed, 1);
    assert_eq!(core.get_stats().total_requests, 2);
}

#[test]
fn a_flagged_prompt_is_trimmed_before_compression() {
    let mut core = OptimaCore::new();
    let p = core.process_request("Explain X. Think about it. More text.", true, no_telemetry());
    assert_eq!(p.compressed_prompt, "Explain X.");
}

#[test]
fn an_unflagged_prompt_is_not_trimmed() {
    let mut core = OptimaCore::new();
    let p = core.process_request("Explain X. Think about it. More text.", false, no_telemetry());
    assert_eq!(p.compressed_prompt, "Explain X. Think about it. More text.");
    assert!(!p.reflection_trimmed);
}

#[test]
fn rollback_reaches_the_response() {
    let mut core = OptimaCore::new();
    // query against the seeded store with the stored text itself: the
    // hash-derived embedding matches exactly, so knowledge comes back
    let p = core.process_request("The capital of France is Paris.", false, no_telemetry());
    assert!(!p.ekf_knowledge.is_empty());
    let r = core
        .complete_request(p, Ok("The capital of France is Lyon.".to_string()), Some(95))
        .unwrap();
    assert!(r.output.starts_with("Rollback triggered"));
    assert!(r.output.contains("0.95"));
}

#[test]
fn telemetry_defaults_to_zero_and_scales_with_savings() {
    let mut core = OptimaCore::new();
    let p = core.process_request("alpha beta", false, no_telemetry());
    assert_eq!(p.gpu_utilization, 0);
    assert_eq!(p.vram_bandwidth, 0);
    let reading = TelemetryReading {
        utilization: Some(40),
        bandwidth: Some(BandwidthReading {
            mem_clock_mhz: 1000,
            bus_width_bits: 256,
            memory_util_pct: 50,
        }),
    };
    // warmed cache: the second pass saves half the tokens
    let p2 = core.process_request("alpha beta", false, reading);
    assert_eq!(p2.gpu_utilization, 40);
    // 1000 MHz * 2 * 32 bytes * 50% = 32000 megabytes per second
    assert_eq!(p2.vram_bandwidth, 32_000);
    let r = core.complete_request(p2, Ok("done".to_string()), None).unwrap();
    // half the tokens saved: half the bandwidth saved
    assert_eq!(r.bandwidth_saved, 16_000);
    let stats = core.get_stats();
    assert_eq!(stats.total_bandwidth_saved, 16_000);
    assert_eq!(stats.avg_gpu_utilization, 40);
}

#[test]
fn bandwidth_reading_computes_the_documented_formula() {
    let mut monitor = GPUMonitor::new();
    let reading = BandwidthReading { mem_clock_mhz: 2000, bus_width_bits: 128, memory_util_pct: 25 };
    // 2000 * 2 * 16 * 25 / 100 = 16000
    assert_eq!(monitor.get_memory_bandwidth(Some(reading)), 16_000);
    assert_eq!(monitor.get_memory_bandwidth(None), 0);
    assert_eq!(monitor.get_utilization(Some(73)), 73);
    assert_eq!(monitor.get_utilization(None), 0);
}

#[test]
fn generation_prompt_carries_the_context() {
    let context = vec!["fact one".to_string(), "fact two".to_string()];
    assert_eq!(
        build_generation_prompt("the prompt", &context),
        "Context from Knowledge Folder: fact one\nfact two\n\nthe prompt"
    );
    let empty: Vec<String> = Vec::new();
    assert_eq!(build_generation_prompt("the prompt", &empty), "the prompt");
}

#[test]
fn failure_message_names_status_and_body() {
    assert_eq!(
        generation_failure_message(503, "unavailable"),
        "LLM API request failed: 503 - unavailable"
    );
}

#[test]
fn generation_response_is_decided_by_status_and_field() {
    assert_eq!(
        decide_generation_response(200, "", Some("answer".to_string())),
        Ok("answer".to_string())
    );
    assert_eq!(
        decide_generation_response(503, "unavailable", Some("answer".to_string())),
        Err("LLM API request failed: 503 - unavailable".to_string())
    );
    assert_eq!(
        decide_generation_response(200, "", None),
        Err("Error: 'generated_text' field not found in LLM response".to_string())
    );
}

#[test]
fn a_fresh_orchestrator_holds_the_seeded_knowledge() {
    let mut core = OptimaCore::new();
    // a prompt matching a seeded value verbatim embeds identically, so that
    // value ranks first; other seeds may follow when they clear the
    // threshold too
    let p = core.process_request("The capital of France is Paris.", false, no_telemetry());
    assert_eq!(p.ekf_knowledge[0], "The capital of France is Paris.".to_string());
    assert!(p.ekf_knowledge.len() <= 3);
}
