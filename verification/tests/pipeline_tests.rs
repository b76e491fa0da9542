use audimon::bridge::RingBridge;
use audimon::config::Config;
use audimon::encoder::EncoderState;
use audimon::encoder::MetricSnapshot;
use audimon::encoder::encode;
use audimon::fixed::UNIT;
use audimon::scheduler::SchedulerEvent;
use audimon::scheduler::SchedulerMode;
use audimon::scheduler::TickStats;
use audimon::scheduler::finish_tick;
use audimon::scheduler::interleave_stereo;
use audimon::scheduler::quantize_stereo;
use audimon::scheduler::scheduler_step;

#[test]
fn scheduler_transitions() {
    let (m, emit) = scheduler_step(SchedulerMode::Idle, SchedulerEvent::Start);
    assert_eq!(m, SchedulerMode::Ticking);
    assert!(!emit);
    let (m, emit) = scheduler_step(m, SchedulerEvent::TickElapsed);
    assert_eq!(m, SchedulerMode::Ticking);
    assert!(emit);
    let (m, emit) = scheduler_step(m, SchedulerEvent::StopRequested);
    assert_eq!(m, SchedulerMode::ShuttingDown);
    assert!(!emit);
    let (m, emit) = scheduler_step(m, SchedulerEvent::TickElapsed);
    assert_eq!(m, SchedulerMode::ShuttingDown);
    assert!(!emit);
}

#[test]
fn scheduler_ignores_events_out_of_order() {
    let (m, emit) = scheduler_step(SchedulerMode::Idle, SchedulerEvent::TickElapsed);
    assert_eq!(m, SchedulerMode::Idle);
    assert!(!emit);
    let (m, emit) = scheduler_step(SchedulerMode::Idle, SchedulerEvent::StopRequested);
    assert_eq!(m, SchedulerMode::Idle);
    assert!(!emit);
    let (m, emit) = scheduler_step(SchedulerMode::Ticking, SchedulerEvent::Start);
    assert_eq!(m, SchedulerMode::Ticking);
    assert!(!emit);
}

#[test]
fn tick_stats_count_overruns() {
    let mut stats = TickStats::new();
    stats.record_tick(5, 20);
    stats.record_tick(25, 20);
    stats.record_tick(20, 20);
    assert_eq!(stats.ticks, 3);
    assert_eq!(stats.overruns, 1);
}

#[test]
fn quantize_stereo_pairs_channels() {
    let left = vec![0i64, UNIT, -UNIT];
    let right = vec![500_000i64, -500_000, 0];
    let frame = quantize_stereo(&left, &right);
    assert_eq!(frame, vec![(0i16, 16_383i16), (32_767, -16_383), (-32_767, 0)]);
}

#[test]
fn interleave_alternates_left_right() {
    let frame = vec![(1i16, 2i16), (3, 4), (5, 6)];
    let flat = interleave_stereo(&frame);
    assert_eq!(flat, vec![1i16, 2, 3, 4, 5, 6]);
}

#[test]
fn fifty_ticks_produce_all_samples_without_failure() {
    let cfg = Config::standard();
    let mut state = EncoderState::new();
    let mut bridge = RingBridge::new(cfg.capacity);
    let mut mode = SchedulerMode::Idle;
    let (m, _) = scheduler_step(mode, SchedulerEvent::Start);
    mode = m;
    let mut stats = TickStats::new();
    for t in 0..50u64 {
        let (m, emit) = scheduler_step(mode, SchedulerEvent::TickElapsed);
        mode = m;
        assert!(emit);
        let cpu = if t % 2 == 0 { 200_000 } else { 800_000 };
        let snap = MetricSnapshot {
            cpu: Some(cpu),
            mem: Some(300_000),
            packets_in: 4,
            packets_out: 4,
            pids: vec![1u64, 2, 3],
        };
        let out = encode(&cfg, &mut state, &snap);
        assert!(0 <= state.cpu_smooth && state.cpu_smooth <= UNIT);
        assert!(0 <= state.mem_smooth && state.mem_smooth <= UNIT);
        finish_tick(&mut bridge, &out.cpu, &out.mem);
        assert!(bridge.buffered() <= cfg.capacity);
        stats.record_tick(5, cfg.period_ms);
    }
    assert_eq!(stats.ticks, 50);
    assert_eq!(stats.overruns, 0);
    assert_eq!(bridge.written_count(), 50 * 960);
    assert_eq!(bridge.buffered(), cfg.capacity);
    let (m, _) = scheduler_step(mode, SchedulerEvent::StopRequested);
    assert_eq!(m, SchedulerMode::ShuttingDown);
}

#[test]
fn producer_and_consumer_interleave_without_stalling() {
    let cfg = Config { frame_len: 4, capacity: 8, period_ms: 20, alpha: UNIT / 10 };
    let mut state = EncoderState::new();
    let mut bridge = RingBridge::new(cfg.capacity);
    let mut reads = 0u64;
    for t in 0..100u64 {
        let snap = MetricSnapshot {
            cpu: Some(if t % 2 == 0 { 0 } else { UNIT }),
            mem: Some(UNIT / 2),
            packets_in: t % 5,
            packets_out: 1,
            pids: vec![t, t + 1],
        };
        let out = encode(&cfg, &mut state, &snap);
        let frame = quantize_stereo(&out.cpu, &out.mem);
        bridge.write_frame(&frame);
        let drain = if t % 3 == 0 { 6 } else { 2 };
        for _ in 0..drain {
            let (l, r) = bridge.read_one();
            assert!(-UNIT <= l && l <= UNIT);
            assert!(-UNIT <= r && r <= UNIT);
            reads += 1;
        }
    }
    assert_eq!(bridge.written_count(), 400);
    assert_eq!(reads, 336);
}
