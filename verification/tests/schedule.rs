use molasses::schedule::{sort_schedule, workgroup_count, SortStep};

fn step(w: u32, s: u32, n: u32) -> SortStep {
    SortStep { group_width: w, group_height: 2 * w - 1, step_index: s, num_values: n }
}

#[test]
fn sort_schedule_for_five_values() {
    // padded to 8 = 2^3: three stages
    let plan = sort_schedule(5);
    assert_eq!(
        plan.steps,
        vec![
            step(1, 0, 5),
            step(2, 0, 5),
            step(1, 1, 5),
            step(4, 0, 5),
            step(2, 1, 5),
            step(1, 2, 5),
        ]
    );
    assert_eq!(plan.dispatch, 1);
}

#[test]
fn sort_schedule_for_a_power_of_two() {
    let plan = sort_schedule(2);
    assert_eq!(plan.steps, vec![step(1, 0, 2)]);
    assert_eq!(plan.dispatch, 1);
    let plan = sort_schedule(4);
    assert_eq!(plan.steps.len(), 3);
}

#[test]
fn sort_schedule_for_many_particles() {
    // 20000 pads to 32768 = 2^15: 15 stages, 120 passes, 16384 pairs
    let plan = sort_schedule(20_000);
    assert_eq!(plan.steps.len(), 15 * 16 / 2);
    assert_eq!(plan.dispatch, 128);
    assert_eq!(plan.steps[0], step(1, 0, 20_000));
    assert_eq!(plan.steps[119], step(1, 14, 20_000));
    assert_eq!(plan.steps[105], step(1 << 14, 0, 20_000));
}

#[test]
fn workgroups_cover_every_particle() {
    assert_eq!(workgroup_count(0), 0);
    assert_eq!(workgroup_count(1), 1);
    assert_eq!(workgroup_count(256), 1);
    assert_eq!(workgroup_count(257), 2);
    assert_eq!(workgroup_count(20_000), 79);
}
