use vstd::prelude::*;
use vstd::arithmetic::power2::{pow2, lemma_pow2_unfold, lemma_pow2_strictly_increases};

verus! {

/// One pass of the bitonic sort of the particles on the GPU.
#[derive(PartialEq, Eq, Structural, Clone, Copy, Debug)]
pub struct SortStep {
    pub group_width: u32,
    pub group_height: u32,
    pub step_index: u32,
    pub num_values: u32,
}

/// The passes of the bitonic sort, and how many workgroups each pass needs.
pub struct SortPlan {
    pub steps: Vec<SortStep>,
    pub dispatch: u32,
}

/// Threads per workgroup of the sort shader.
pub const SORT_WORKGROUP: u32 = 128;

/// Threads per workgroup of the simulation shaders.
pub const WORKGROUP_SIZE: u32 = 256;

/// Position of pass `(stage, step)` in the schedule: stage `s` comes after
/// the `s * (s + 1) / 2` passes of the stages before it.
pub open spec fn pass_index(stage: int, step: int) -> int {
    stage * (stage + 1) / 2 + step
}

/// Pass `step` of stage `stage` compares elements `2^(stage - step)` apart.
pub open spec fn expected_step(count: int, stage: int, step: int) -> SortStep {
    SortStep {
        group_width: pow2((stage - step) as nat) as u32,
        group_height: (2 * pow2((stage - step) as nat) - 1) as u32,
        step_index: step as u32,
        num_values: count as u32,
    }
}

/// `stages` is the exponent of the smallest power of two at least `count`.
pub open spec fn is_stage_count(count: int, stages: nat) -> bool {
    &&& 1 <= stages
    &&& pow2((stages - 1) as nat) < count <= pow2(stages)
}

proof fn lemma_pass_index_step(stage: int)
    requires
        stage >= 0,
    ensures
        pass_index(stage + 1, 0) == pass_index(stage, 0) + stage + 1,
        pass_index(stage, 0) >= 0,
{
    assert((stage + 1) * (stage + 2) == stage * (stage + 1) + 2 * (stage + 1)) by (nonlinear_arith);
    assert(stage * (stage + 1) >= 0) by (nonlinear_arith)
        requires
            stage >= 0,
    ;
    assert(((stage + 1) * (stage + 2)) / 2 == (stage * (stage + 1)) / 2 + (stage + 1)) by (nonlinear_arith)
        requires
            (stage + 1) * (stage + 2) == stage * (stage + 1) + 2 * (stage + 1),
    ;
}

/// The bitonic sort of `count` values padded to the next power of two `2^L`:
/// stages `0..L`, stage `s` made of passes `0..=s`, pass `t` comparing
/// elements `2^(s - t)` apart; each pass dispatches enough workgroups of
/// `SORT_WORKGROUP` threads for `2^(L - 1)` pairs.
pub fn sort_schedule(count: u32) -> (plan: SortPlan)
    requires
        2 <= count <= 0x8000_0000,
    ensures
        exists|stages: nat| #[trigger] is_stage_count(count as int, stages) && {
            &&& plan.steps.len() == pass_index(stages as int, 0)
            &&& plan.dispatch == (pow2((stages - 1) as nat) + SORT_WORKGROUP - 1) / (SORT_WORKGROUP as int)
            &&& forall|stage: int, step: int|
                0 <= step <= stage < stages ==> #[trigger] plan.steps@[pass_index(stage, step)] == expected_step(
                    count as int,
                    stage,
                    step,
                )
        },
{
    // the smallest power of two at least `count`
    let mut padded: u64 = 1;
    let mut stages: u32 = 0;
    proof {
        vstd::arithmetic::power2::lemma2_to64();
    }
    while padded < count as u64
        invariant
            stages <= 31,
            padded == pow2(stages as nat),
            stages > 0 ==> pow2((stages - 1) as nat) < count,
            2 <= count <= 0x8000_0000,
        decreases 32 - stages,
    {
        proof {
            lemma_pow2_unfold((stages + 1) as nat);
            if stages >= 31 {
                vstd::arithmetic::power2::lemma2_to64();
                if stages > 31 {
                    lemma_pow2_strictly_increases(31, stages as nat);
                }
            }
        }
        padded = padded * 2;
        stages = stages + 1;
    }
    assert(stages >= 1) by {
        vstd::arithmetic::power2::lemma2_to64();
    }
    let num_pairs: u32 = (padded / 2) as u32;
    proof {
        lemma_pow2_unfold(stages as nat);
    }
    let dispatch = (num_pairs + SORT_WORKGROUP - 1) / SORT_WORKGROUP;
    let mut steps: Vec<SortStep> = Vec::new();
    let mut stage: u32 = 0;
    while stage < stages
        invariant
            1 <= stages <= 31,
            2 <= count <= 0x8000_0000,
            stage <= stages,
            steps.len() == pass_index(stage as int, 0),
            forall|s: int, t: int|
                0 <= t <= s < stage ==> #[trigger] steps@[pass_index(s, t)] == expected_step(count as int, s, t),
        decreases stages - stage,
    {
        let mut step: u32 = 0;
        proof {
            lemma_pass_index_step(stage as int);
        }
        while step <= stage
            invariant
                1 <= stages <= 31,
                2 <= count <= 0x8000_0000,
                stage < stages,
                step <= stage + 1,
                steps.len() == pass_index(stage as int, step as int),
                pass_index(stage as int, 0) >= 0,
                forall|s: int, t: int|
                    0 <= t <= s < stage ==> #[trigger] steps@[pass_index(s, t)] == expected_step(count as int, s, t),
                forall|t: int|
                    0 <= t < step ==> #[trigger] steps@[pass_index(stage as int, t)] == expected_step(count as int, stage as int, t),
            decreases stage + 1 - step,
        {
            let d = stage - step;
            proof {
                vstd::bits::lemma_u32_pow2_no_overflow(d as nat);
                vstd::bits::lemma_u32_shl_is_mul(1, d);
                assert(pow2(d as nat) <= 0x4000_0000) by {
                    vstd::arithmetic::power2::lemma2_to64();
                    if d < 30 {
                        lemma_pow2_strictly_increases(d as nat, 30);
                    }
                }
            }
            let group_width: u32 = 1u32 << d;
            let group_height = 2 * group_width - 1;
            let ghost before = steps@;
            steps.push(SortStep { group_width, group_height, step_index: step, num_values: count });
            proof {
                assert forall|s: int, t: int| 0 <= t <= s < stage implies #[trigger] steps@[pass_index(s, t)] == expected_step(count as int, s, t) by {
                    assert(pass_index(s, t) < pass_index(s + 1, 0)) by {
                        lemma_pass_index_step(s);
                    }
                    if s + 1 < stage {
                        lemma_pass_index_mono(s + 1, stage as int);
                    }
                    assert(steps@[pass_index(s, t)] == before[pass_index(s, t)]);
                }
            }
            step = step + 1;
        }
        stage = stage + 1;
    }
    proof {
        assert(is_stage_count(count as int, stages as nat));
    }
    SortPlan { steps, dispatch }
}

proof fn lemma_pass_index_mono(a: int, b: int)
    requires
        0 <= a <= b,
    ensures
        pass_index(a, 0) <= pass_index(b, 0),
    decreases b - a,
{
    if a < b {
        lemma_pass_index_step(b - 1);
        lemma_pass_index_mono(a, b - 1);
    }
}

/// Workgroups of `WORKGROUP_SIZE` threads needed for one thread per particle.
pub fn workgroup_count(particles: u32) -> (groups: u32)
    requires
        particles + WORKGROUP_SIZE - 1 <= u32::MAX,
    ensures
        groups == (particles + WORKGROUP_SIZE - 1) / (WORKGROUP_SIZE as int),
        groups * WORKGROUP_SIZE >= particles,
        groups == 0 || (groups - 1) * WORKGROUP_SIZE < particles,
{
    (particles + (WORKGROUP_SIZE - 1)) / WORKGROUP_SIZE
}

} // verus!
