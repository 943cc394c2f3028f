//! The pipeline orchestrator.
//!
//! A request runs through fixed stages: reflection check and trim,
//! telemetry, chunk compression, knowledge query — then the external
//! generation call — then contradiction check and rollback, and the
//! running statistics. The external collaborators' answers enter as plain
//! values: the reflection verdict and the telemetry readings when a request
//! begins, the generation outcome and the contradiction score when it
//! completes; everything decided between and after them is verified.

use vstd::prelude::*;
use crate::ekf::EKFStorage;
use crate::ekf::query_post;
use crate::embedding::DIM_MAX;
use crate::gpu_monitor::BandwidthReading;
use crate::gpu_monitor::GPUMonitor;
use crate::gpu_monitor::bandwidth_or_zero;
use crate::gpu_monitor::util_or_zero;
use crate::hhtc::HHTCEngine;
use crate::hhtc::chunk_records;
use crate::hhtc::spec_compress;
use crate::ratio::PPM;
use crate::ratio::Ratio;
use crate::rollback::THRESHOLD_CENTI;
use crate::rollback::Verifier;
use crate::rollback::trim_reflection_spec;
use crate::rollback::verify_outcome_spec;
use crate::text::join_sp;
use crate::text::tokens_of;

verus! {

/// The most requests one process accepts: keeps every running sum well
/// inside the 64-bit counters.
pub const REQUEST_CAP: u64 = 1_000_000_000_000;

/// The completed answer to one request.
#[derive(Clone, Debug)]
pub struct ProcessedResponse {
    /// The final output text, after a possible rollback.
    pub output: String,
    /// The compression ratio the request achieved.
    pub compression_ratio: Ratio,
    /// Whether a reflection loop was trimmed from the prompt.
    pub reflection_trimmed: bool,
    /// The knowledge values retrieved for the request.
    pub ekf_knowledge: Vec<String>,
    /// Bandwidth saved by compression, in megabytes per second.
    pub bandwidth_saved: u64,
    /// The GPU utilization sampled for the request, in percent.
    pub gpu_utilization: u32,
}

/// A snapshot of the running statistics.
#[derive(Clone, Copy, Debug, PartialEq, Eq, Structural)]
pub struct OptimaStats {
    /// Requests completed.
    pub total_requests: u64,
    /// Mean compression savings over completed requests, in parts per
    /// million, rounded down.
    pub avg_compression_ratio: u64,
    /// Prompts trimmed for reflection loops.
    pub reflections_trimmed: u64,
    /// Mean GPU utilization over completed requests, rounded down.
    pub avg_gpu_utilization: u64,
    /// Total bandwidth saved, in megabytes per second.
    pub total_bandwidth_saved: u64,
}

/// A request that has run through trimming, telemetry, compression and the
/// knowledge query, and awaits the generation outcome.
pub struct PendingRequest {
    /// The compressed prompt handed to the generation service.
    pub compressed_prompt: String,
    /// The compression ratio achieved.
    pub ratio: Ratio,
    /// Whether the prompt was trimmed.
    pub reflection_trimmed: bool,
    /// The knowledge values retrieved for the compressed prompt.
    pub ekf_knowledge: Vec<String>,
    /// The sampled GPU utilization in percent.
    pub gpu_utilization: u32,
    /// The sampled memory bandwidth in megabytes per second.
    pub vram_bandwidth: u64,
}

/// One telemetry sample; a reading is absent when the monitor could not
/// supply it.
#[derive(Clone, Copy, Debug, PartialEq, Eq, Structural)]
pub struct TelemetryReading {
    /// GPU utilization in percent.
    pub utilization: Option<u32>,
    /// The raw bandwidth reading.
    pub bandwidth: Option<BandwidthReading>,
}

/// The sum capped at the counter's limit.
pub open spec fn sat_add_spec(a: u64, b: u64) -> u64 {
    if a + b > u64::MAX {
        u64::MAX
    } else {
        (a + b) as u64
    }
}

/// Add, saturating at the counter's limit.
fn sat_add(a: u64, b: u64) -> (r: u64)
    ensures
        r == sat_add_spec(a, b),
{
    if a > u64::MAX - b {
        u64::MAX
    } else {
        a + b
    }
}

/// The orchestrator: the three verified components, the telemetry
/// bookkeeping, and the running statistics.
pub struct OptimaCore {
    hhtc: HHTCEngine,
    ekf: EKFStorage,
    verifier: Verifier,
    gpu_monitor: GPUMonitor,
    request_count: u64,
    total_compression_ppm: u64,
    reflections_trimmed: u64,
    total_bandwidth_saved: u64,
    total_gpu_utilization: u64,
}

impl OptimaCore {
    /// The compression engine.
    pub closed spec fn engine(self) -> HHTCEngine {
        self.hhtc
    }

    /// The knowledge store.
    pub closed spec fn store(self) -> EKFStorage {
        self.ekf
    }

    /// Requests completed so far.
    pub closed spec fn count_spec(self) -> u64 {
        self.request_count
    }

    /// The sum of per-request compression savings, in parts per million.
    pub closed spec fn total_savings_spec(self) -> u64 {
        self.total_compression_ppm
    }

    /// Prompts trimmed so far.
    pub closed spec fn trims_spec(self) -> u64 {
        self.reflections_trimmed
    }

    /// The sum of per-request bandwidth savings.
    pub closed spec fn total_bandwidth_spec(self) -> u64 {
        self.total_bandwidth_saved
    }

    /// The sum of per-request utilization samples.
    pub closed spec fn total_util_spec(self) -> u64 {
        self.total_gpu_utilization
    }

    /// The verifier's threshold is fixed, the components are well formed,
    /// and the savings sum never outruns what the completed requests could
    /// have contributed.
    pub closed spec fn wf(self) -> bool {
        &&& self.hhtc.wf()
        &&& self.ekf.wf()
        &&& self.verifier.threshold_spec() == THRESHOLD_CENTI
        &&& self.request_count <= REQUEST_CAP
        &&& self.total_compression_ppm <= self.request_count * PPM
    }

    /// A fresh orchestrator: a sixteen-token chunk size over a cache of a
    /// thousand chunks, the knowledge store pre-populated with the seed
    /// facts, and zeroed statistics.
    pub fn new() -> (r: OptimaCore)
        ensures
            r.wf(),
            r.count_spec() == 0,
            r.trims_spec() == 0,
            r.total_savings_spec() == 0,
            r.total_bandwidth_spec() == 0,
            r.total_util_spec() == 0,
            r.engine().entries() == Seq::<crate::cache::ChunkEntry>::empty(),
            r.store().dim_spec() == 16,
            r.store().recs().len() == crate::ekf::seed_facts().len(),
            forall|i: int|
                0 <= i < crate::ekf::seed_facts().len() ==> crate::ekf::record_matches(
                    #[trigger] r.store().recs()[i],
                    crate::ekf::seed_facts()[i].0,
                    crate::ekf::seed_facts()[i].1,
                    950,
                    crate::embedding::embedding_of(crate::ekf::seed_facts()[i].1, 16),
                ),
    {
        let mut ekf = EKFStorage::new(16);
        ekf.populate_initial_knowledge();
        OptimaCore {
            hhtc: HHTCEngine::new(16, 1000, 16),
            ekf,
            verifier: Verifier::new(),
            gpu_monitor: GPUMonitor::new(),
            request_count: 0,
            total_compression_ppm: 0,
            reflections_trimmed: 0,
            total_bandwidth_saved: 0,
            total_gpu_utilization: 0,
        }
    }

    /// Run the first stages of a request: trim the prompt when the
    /// reflection oracle flagged it, record the telemetry sample, compress
    /// the prompt against the shared cache, and query the knowledge store
    /// with the compressed text. The returned pending request carries
    /// everything the completion stage needs.
    pub fn process_request(
        &mut self,
        prompt: &str,
        reflection_detected: bool,
        telemetry: TelemetryReading,
    ) -> (p: PendingRequest)
        requires
            old(self).wf(),
        ensures
            final(self).wf(),
            final(self).count_spec() == old(self).count_spec(),
            final(self).total_savings_spec() == old(self).total_savings_spec(),
            final(self).total_bandwidth_spec() == old(self).total_bandwidth_spec(),
            final(self).total_util_spec() == old(self).total_util_spec(),
            final(self).trims_spec() == old(self).trims_spec(),
            final(self).store() == old(self).store(),
            p.reflection_trimmed == reflection_detected,
            p.gpu_utilization == util_or_zero(telemetry.utilization),
            p.vram_bandwidth == bandwidth_or_zero(telemetry.bandwidth),
            p.ratio.wf(),
            ({
                let trimmed = if reflection_detected {
                    trim_reflection_spec(prompt@)
                } else {
                    prompt@
                };
                let toks = tokens_of(trimmed);
                &&& (toks.len() == 0 ==> {
                    &&& final(self).engine().entries() == old(self).engine().entries()
                    &&& p.compressed_prompt@ == Seq::<char>::empty()
                    &&& p.ratio.is_one_spec()
                })
                &&& (toks.len() > 0 ==> {
                    let out = spec_compress(
                        old(self).engine().entries(),
                        old(self).engine().capacity_spec(),
                        old(self).engine().dim_spec(),
                        chunk_records(toks, old(self).engine().chunk_size_spec()),
                    );
                    &&& final(self).engine().entries() == out.0
                    &&& p.ratio.emitted == out.1
                    &&& p.ratio.total == toks.len()
                    &&& p.compressed_prompt@ == join_sp(out.2)
                })
            }),
            query_post(old(self).store(), p.compressed_prompt@, p.ekf_knowledge.deep_view()),
    {
        let trimmed: String = if reflection_detected {
            self.verifier.trim_reflection(prompt)
        } else {
            prompt.to_owned()
        };
        let gpu_utilization = self.gpu_monitor.get_utilization(telemetry.utilization);
        let vram_bandwidth = self.gpu_monitor.get_memory_bandwidth(telemetry.bandwidth);
        let (compressed_prompt, ratio) = self.hhtc.compress(trimmed.as_str());
        let ekf_knowledge = self.ekf.query(compressed_prompt.as_str());
        PendingRequest {
            compressed_prompt,
            ratio,
            reflection_trimmed: reflection_detected,
            ekf_knowledge,
            gpu_utilization,
            vram_bandwidth,
        }
    }

    /// Complete a request from the generation outcome: a failed generation
    /// is propagated unchanged and counts nothing — no running statistic
    /// moves, the trim counter included; a successful one runs through
    /// rollback verification and updates every running counter exactly
    /// once.
    pub fn complete_request(
        &mut self,
        pending: PendingRequest,
        generation: Result<String, String>,
        contradiction_score_centi: Option<u32>,
    ) -> (r: Result<ProcessedResponse, String>)
        requires
            old(self).wf(),
            old(self).count_spec() < REQUEST_CAP,
            pending.ratio.wf(),
        ensures
            final(self).wf(),
            final(self).engine() == old(self).engine(),
            final(self).store() == old(self).store(),
            generation is Err ==> {
                &&& r is Err
                &&& (r->Err_0)@ == (generation->Err_0)@
                &&& final(self).count_spec() == old(self).count_spec()
                &&& final(self).total_savings_spec() == old(self).total_savings_spec()
                &&& final(self).total_bandwidth_spec() == old(self).total_bandwidth_spec()
                &&& final(self).total_util_spec() == old(self).total_util_spec()
                &&& final(self).trims_spec() == old(self).trims_spec()
            },
            generation is Ok ==> {
                let bw_saved = ((pending.vram_bandwidth * pending.ratio.saving_ppm_spec()) / (
                PPM as int)) as u64;
                &&& r is Ok
                &&& (r->Ok_0).output@ == verify_outcome_spec(
                    (generation->Ok_0)@,
                    pending.ekf_knowledge@.len() as nat,
                    contradiction_score_centi,
                )
                &&& (r->Ok_0).compression_ratio == pending.ratio
                &&& (r->Ok_0).reflection_trimmed == pending.reflection_trimmed
                &&& (r->Ok_0).ekf_knowledge == pending.ekf_knowledge
                &&& (r->Ok_0).bandwidth_saved == bw_saved
                &&& (r->Ok_0).gpu_utilization == pending.gpu_utilization
                &&& final(self).count_spec() == old(self).count_spec() + 1
                &&& final(self).total_savings_spec() == old(self).total_savings_spec()
                    + pending.ratio.saving_ppm_spec()
                &&& final(self).total_bandwidth_spec() == sat_add_spec(
                    old(self).total_bandwidth_spec(),
                    bw_saved,
                )
                &&& final(self).total_util_spec() == sat_add_spec(
                    old(self).total_util_spec(),
                    pending.gpu_utilization as u64,
                )
                &&& final(self).trims_spec() == if pending.reflection_trimmed {
                    sat_add_spec(old(self).trims_spec(), 1)
                } else {
                    old(self).trims_spec()
                }
            },
    {
        let llm_output = match generation {
            Ok(t) => t,
            Err(e) => {
                return Err(e);
            },
        };
        let final_output = self.verifier.verify_and_rollback(
            llm_output.as_str(),
            &pending.ekf_knowledge,
            contradiction_score_centi,
        );
        let saving = pending.ratio.saving_ppm();
        proof {
            assert(0 <= (pending.vram_bandwidth as int) * (saving as int) <= (u64::MAX as int) * (
            PPM as int)) by (nonlinear_arith)
                requires
                    0 <= saving <= PPM,
                    0 <= pending.vram_bandwidth <= u64::MAX,
            ;
        }
        let wide: u128 = (pending.vram_bandwidth as u128) * (saving as u128) / (PPM as u128);
        proof {
            assert((pending.vram_bandwidth as int) * (saving as int) / (PPM as int) <= (
            pending.vram_bandwidth as int)) by (nonlinear_arith)
                requires
                    0 <= saving <= PPM,
                    0 <= pending.vram_bandwidth,
                    PPM >= 1,
            ;
        }
        let bandwidth_saved = wide as u64;
        proof {
            let ghost total0 = old(self).total_compression_ppm;
            let ghost count0 = old(self).request_count;
            assert(total0 + saving <= (count0 + 1) * (PPM as int)) by (nonlinear_arith)
                requires
                    total0 <= count0 * (PPM as int),
                    0 <= saving <= PPM,
            ;
            assert((count0 + 1) * (PPM as int) <= (REQUEST_CAP as int) * (PPM as int))
                by (nonlinear_arith)
                requires
                    count0 + 1 <= REQUEST_CAP,
            ;
        }
        self.request_count = self.request_count + 1;
        self.total_compression_ppm = self.total_compression_ppm + saving;
        self.total_bandwidth_saved = sat_add(self.total_bandwidth_saved, bandwidth_saved);
        self.total_gpu_utilization = sat_add(
            self.total_gpu_utilization,
            pending.gpu_utilization as u64,
        );
        if pending.reflection_trimmed {
            self.reflections_trimmed = sat_add(self.reflections_trimmed, 1);
        }
        Ok(
            ProcessedResponse {
                output: final_output,
                compression_ratio: pending.ratio,
                reflection_trimmed: pending.reflection_trimmed,
                ekf_knowledge: pending.ekf_knowledge,
                bandwidth_saved,
                gpu_utilization: pending.gpu_utilization,
            },
        )
    }

    /// A snapshot of the running statistics: the averages are the floor of
    /// the running sums over the request count, zero before any request
    /// completes; nothing is mutated.
    pub fn get_stats(&self) -> (r: OptimaStats)
        requires
            self.wf(),
        ensures
            r.total_requests == self.count_spec(),
            r.reflections_trimmed == self.trims_spec(),
            r.total_bandwidth_saved == self.total_bandwidth_spec(),
            self.count_spec() == 0 ==> r.avg_compression_ratio == 0 && r.avg_gpu_utilization == 0,
            self.count_spec() > 0 ==> {
                &&& r.avg_compression_ratio == self.total_savings_spec() / self.count_spec()
                &&& r.avg_gpu_utilization == self.total_util_spec() / self.count_spec()
            },
    {
        let avg_compression_ratio: u64 = if self.request_count > 0 {
            self.total_compression_ppm / self.request_count
        } else {
            0
        };
        let avg_gpu_utilization: u64 = if self.request_count > 0 {
            self.total_gpu_utilization / self.request_count
        } else {
            0
        };
        OptimaStats {
            total_requests: self.request_count,
            avg_compression_ratio,
            reflections_trimmed: self.reflections_trimmed,
            avg_gpu_utilization,
            total_bandwidth_saved: self.total_bandwidth_saved,
        }
    }
}

/// The savings sums, totalled.
pub open spec fn sum_seq(s: Seq<int>) -> int
    decreases s.len(),
{
    if s.len() == 0 {
        0
    } else {
        s[0] + sum_seq(s.drop_first())
    }
}

/// Law: a savings sum accumulated from per-request savings each within one
/// million parts per million stays within `count` millions, so the reported
/// average — the floor of sum over count — never exceeds one million: the
/// mean of the per-request savings is what `get_stats` reports.
pub proof fn lemma_stats_mean(savings: Seq<int>)
    requires
        forall|i: int| 0 <= i < savings.len() ==> 0 <= #[trigger] savings[i] <= PPM,
        savings.len() >= 1,
    ensures
        0 <= sum_seq(savings) <= savings.len() * PPM,
        sum_seq(savings) / savings.len() as int <= PPM,
    decreases savings.len(),
{
    if savings.len() == 1 {
        assert(sum_seq(savings) == savings[0] + sum_seq(savings.drop_first()));
        assert(sum_seq(savings.drop_first()) == 0);
    } else {
        let rest = savings.drop_first();
        assert(forall|i: int| 0 <= i < rest.len() ==> 0 <= #[trigger] rest[i] <= PPM);
        lemma_stats_mean(rest);
        assert(savings.len() * PPM == rest.len() * PPM + PPM) by (nonlinear_arith)
            requires
                savings.len() == rest.len() + 1,
        ;
    }
    assert(sum_seq(savings) / savings.len() as int <= PPM) by (nonlinear_arith)
        requires
            0 <= sum_seq(savings) <= savings.len() * PPM,
            savings.len() >= 1,
    ;
}

} // verus!
