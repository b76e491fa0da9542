use audimon::config::Config;
use audimon::encoder::EncoderState;
use audimon::encoder::MetricSnapshot;
use audimon::encoder::cpu_buf;
use audimon::encoder::mem_buf;
use audimon::encoder::encode;
use audimon::encoder::mount_positive_samples_in_buffer;
use audimon::encoder::mount_processes_in_buffer;
use audimon::encoder::packet_buf;
use audimon::encoder::pid_diff;
use audimon::encoder::process_buf;
use audimon::fixed::UNIT;
use audimon::fixed::pan_of_id;
use audimon::fixed::quantize_sample;
use audimon::fixed::sample_from_q15;
use audimon::fixed::smooth_level;

fn small_config() -> Config {
    Config { frame_len: 8, capacity: 16, period_ms: 20, alpha: UNIT / 10 }
}

#[test]
fn smoothing_exact_first_ticks() {
    let alpha = UNIT / 10;
    let after_one = smooth_level(0, UNIT, alpha);
    assert_eq!(after_one, 100_000);
    let after_two = smooth_level(after_one, UNIT, alpha);
    assert_eq!(after_two, 190_000);
    let after_three = smooth_level(after_two, UNIT, alpha);
    assert_eq!(after_three, 271_000);
}

#[test]
fn smoothing_never_reaches_one() {
    let alpha = UNIT / 10;
    let mut level = 0i64;
    for _ in 0..10_000 {
        level = smooth_level(level, UNIT, alpha);
        assert!(level < UNIT);
        assert!(level >= 0);
    }
}

#[test]
fn smoothing_stays_in_range_under_swings() {
    let alpha = UNIT / 10;
    let mut level = 0i64;
    for t in 0..1_000 {
        let raw = if t % 2 == 0 { 0 } else { UNIT };
        level = smooth_level(level, raw, alpha);
        assert!(0 <= level && level <= UNIT);
    }
}

#[test]
fn cpu_buf_interpolates_between_levels() {
    let cfg = Config::standard();
    let mut level = 0i64;
    let buf = cpu_buf(&cfg, &mut level, Some(UNIT));
    assert_eq!(level, 100_000);
    assert_eq!(buf.len(), 960);
    assert_eq!(buf[0], 0);
    assert_eq!(buf[480], 50_000);
    assert_eq!(buf[959], 100_000i64 * 959 / 960);
    for i in 1..960 {
        assert!(buf[i - 1] <= buf[i]);
    }
}

#[test]
fn cpu_buf_absent_reading_keeps_level_and_flattens() {
    let cfg = small_config();
    let mut level = 250_000i64;
    let buf = cpu_buf(&cfg, &mut level, None);
    assert_eq!(level, 250_000);
    for i in 0..8 {
        assert_eq!(buf[i], 250_000);
    }
}

#[test]
fn mem_buf_interpolates_between_levels() {
    let cfg = small_config();
    let mut level = 0i64;
    let buf = mem_buf(&cfg, &mut level, Some(400_000));
    assert_eq!(level, 40_000);
    assert_eq!(buf.len(), 8);
    for i in 0..8 {
        assert_eq!(buf[i], 40_000 * i as i64 / 8);
    }
    assert_eq!(buf[0], 0);
}

#[test]
fn mem_buf_absent_reading_keeps_level_and_flattens() {
    let cfg = small_config();
    let mut level = 250_000i64;
    let buf = mem_buf(&cfg, &mut level, None);
    assert_eq!(level, 250_000);
    for i in 0..8 {
        assert_eq!(buf[i], 250_000);
    }
}

#[test]
fn zero_events_give_all_zero_frame() {
    let cfg = Config::standard();
    let buf = mount_positive_samples_in_buffer(&cfg, 0);
    assert_eq!(buf.len(), 960);
    for i in 0..960 {
        assert_eq!(buf[i], 0);
    }
}

#[test]
fn impulses_land_on_even_indices_with_full_mass() {
    let cfg = Config::standard();
    let k = 5u64;
    let buf = mount_positive_samples_in_buffer(&cfg, k);
    let mut sum = 0i64;
    let mut nonzero = 0usize;
    for i in 0..960 {
        if i % 2 == 1 {
            assert_eq!(buf[i], 0);
        }
        assert!(buf[i] >= 0);
        if buf[i] != 0 {
            nonzero += 1;
            assert_eq!(buf[i] % UNIT, 0);
        }
        sum += buf[i];
    }
    assert_eq!(sum, k as i64 * UNIT);
    assert!(nonzero <= k as usize);
}

#[test]
fn huge_event_count_is_clamped_to_half_frame() {
    let cfg = Config::standard();
    let buf = mount_positive_samples_in_buffer(&cfg, 1_000_000_000);
    let mut sum = 0i64;
    for i in 0..960 {
        sum += buf[i];
    }
    assert_eq!(sum, 480 * UNIT);
}

#[test]
fn small_frame_clamp() {
    let cfg = small_config();
    let buf = mount_positive_samples_in_buffer(&cfg, 7);
    let mut sum = 0i64;
    for i in 0..8 {
        sum += buf[i];
    }
    assert_eq!(sum, 4 * UNIT);
}

#[test]
fn packet_buf_encodes_both_directions() {
    let cfg = small_config();
    let (inc, out) = packet_buf(&cfg, 2, 3);
    let mut sum_inc = 0i64;
    let mut sum_out = 0i64;
    for i in 0..8 {
        sum_inc += inc[i];
        sum_out += out[i];
    }
    assert_eq!(sum_inc, 2 * UNIT);
    assert_eq!(sum_out, 3 * UNIT);
}

#[test]
fn pan_is_deterministic_per_identifier() {
    let a = pan_of_id(1234);
    let b = pan_of_id(1234);
    assert_eq!(a, b);
    assert_eq!(a, 515_625);
    assert_eq!(pan_of_id(0), -UNIT);
    for id in 0..2048u64 {
        let p = pan_of_id(id);
        assert!(-UNIT <= p && p <= UNIT);
        assert_eq!(p, pan_of_id(id));
    }
}

#[test]
fn pid_diff_splits_spawned_and_dropped() {
    let prev = vec![1u64, 2, 3];
    let curr = vec![2u64, 3, 4];
    let (spawned, dropped) = pid_diff(&prev, &curr);
    assert_eq!(spawned, vec![4u64]);
    assert_eq!(dropped, vec![1u64]);
}

#[test]
fn pid_diff_empty_sets() {
    let none: Vec<u64> = Vec::new();
    let some = vec![7u64, 8];
    let (spawned, dropped) = pid_diff(&none, &some);
    assert_eq!(spawned, vec![7u64, 8]);
    assert_eq!(dropped, Vec::<u64>::new());
}

#[test]
fn no_process_events_hold_carried_pan() {
    let cfg = small_config();
    let set: Vec<u64> = Vec::new();
    let mut carried = 123_456i64;
    let (impulses, pans) = mount_processes_in_buffer(&cfg, &set, &mut carried);
    assert_eq!(carried, 123_456);
    for i in 0..8 {
        assert_eq!(impulses[i], 0);
        assert_eq!(pans[i], 123_456);
    }
}

#[test]
fn process_event_writes_its_pan() {
    let cfg = small_config();
    let set = vec![42u64];
    let mut carried = 0i64;
    let (impulses, pans) = mount_processes_in_buffer(&cfg, &set, &mut carried);
    let mut sum = 0i64;
    for i in 0..8 {
        sum += impulses[i];
        assert!(pans[i] == 0 || pans[i] == pan_of_id(42));
    }
    assert_eq!(sum, UNIT);
    assert!(carried == 0 || carried == pan_of_id(42));
    assert_eq!(carried, pans[7]);
}

#[test]
fn pan_fill_follows_impulses() {
    let cfg = small_config();
    let set = vec![42u64, 99];
    let mut carried = 777i64;
    let (impulses, pans) = mount_processes_in_buffer(&cfg, &set, &mut carried);
    let mut impulse_before = false;
    for i in 0..8 {
        if !impulse_before {
            assert_eq!(pans[i], 777);
        }
        if i < 7 && impulses[i] != 0 {
            assert!(pans[i + 1] == pan_of_id(42) || pans[i + 1] == pan_of_id(99));
        }
        if impulses[i] != 0 {
            impulse_before = true;
        }
    }
    assert_eq!(carried, pans[7]);
}

#[test]
fn process_buf_diffs_against_previous_tick() {
    let cfg = small_config();
    let mut state = EncoderState::new();
    let first = vec![10u64, 20];
    let (spawned1, _, dropped1, _) = process_buf(&cfg, &mut state, &first);
    let mut sum_sp = 0i64;
    let mut sum_dr = 0i64;
    for i in 0..8 {
        sum_sp += spawned1[i];
        sum_dr += dropped1[i];
    }
    assert_eq!(sum_sp, 2 * UNIT);
    assert_eq!(sum_dr, 0);
    assert_eq!(state.prev_pids, vec![10u64, 20]);

    let second = vec![20u64, 30];
    let (spawned2, _, dropped2, _) = process_buf(&cfg, &mut state, &second);
    let mut sum_sp2 = 0i64;
    let mut sum_dr2 = 0i64;
    for i in 0..8 {
        sum_sp2 += spawned2[i];
        sum_dr2 += dropped2[i];
    }
    assert_eq!(sum_sp2, UNIT);
    assert_eq!(sum_dr2, UNIT);
    assert_eq!(state.prev_pids, vec![20u64, 30]);
}

#[test]
fn encode_produces_all_channels() {
    let cfg = Config::standard();
    let mut state = EncoderState::new();
    let snap = MetricSnapshot {
        cpu: Some(800_000),
        mem: Some(400_000),
        packets_in: 3,
        packets_out: 2,
        pids: vec![10u64, 20],
    };
    let out = encode(&cfg, &mut state, &snap);
    assert_eq!(state.cpu_smooth, 80_000);
    assert_eq!(state.mem_smooth, 40_000);
    assert_eq!(state.prev_pids, vec![10u64, 20]);
    assert_eq!(out.cpu.len(), 960);
    assert_eq!(out.mem.len(), 960);
    assert_eq!(out.packets_in.len(), 960);
    assert_eq!(out.packets_out.len(), 960);
    assert_eq!(out.spawned.len(), 960);
    assert_eq!(out.spawned_pan.len(), 960);
    assert_eq!(out.dropped.len(), 960);
    assert_eq!(out.dropped_pan.len(), 960);
    for i in 0..960 {
        assert_eq!(out.mem[i], 40_000 * i as i64 / 960);
        assert_eq!(out.dropped[i], 0);
    }
    let mut sum_in = 0i64;
    let mut sum_sp = 0i64;
    for i in 0..960 {
        sum_in += out.packets_in[i];
        sum_sp += out.spawned[i];
    }
    assert_eq!(sum_in, 3 * UNIT);
    assert_eq!(sum_sp, 2 * UNIT);
}

#[test]
fn encode_rejects_nothing_on_absent_readings() {
    let cfg = small_config();
    let mut state = EncoderState::new();
    state.cpu_smooth = 300_000;
    state.mem_smooth = 200_000;
    let snap = MetricSnapshot {
        cpu: None,
        mem: None,
        packets_in: 0,
        packets_out: 0,
        pids: Vec::new(),
    };
    let out = encode(&cfg, &mut state, &snap);
    assert_eq!(state.cpu_smooth, 300_000);
    assert_eq!(state.mem_smooth, 200_000);
    for i in 0..8 {
        assert_eq!(out.cpu[i], 300_000);
        assert_eq!(out.mem[i], 200_000);
        assert_eq!(out.packets_in[i], 0);
        assert_eq!(out.packets_out[i], 0);
    }
}

#[test]
fn quantize_clamps_and_scales() {
    assert_eq!(quantize_sample(0), 0);
    assert_eq!(quantize_sample(UNIT), 32_767);
    assert_eq!(quantize_sample(-UNIT), -32_767);
    assert_eq!(quantize_sample(3 * UNIT), 32_767);
    assert_eq!(quantize_sample(-3 * UNIT), -32_767);
    assert_eq!(quantize_sample(500_000), 16_383);
    assert_eq!(quantize_sample(-500_000), -16_383);
}

#[test]
fn sample_widening_matches_scale() {
    assert_eq!(sample_from_q15(0), 0);
    assert_eq!(sample_from_q15(32_767), 32_767i64 * UNIT / 32_768);
    assert_eq!(sample_from_q15(-32_768), -UNIT);
    assert_eq!(sample_from_q15(16_384), 500_000);
}
