use bastion::blocking::{
    affinity_pinner, calculate_ema, idle_limit_ms, low_watermark, ConfigError, CoreId, PoolState,
    DEFAULT_MAX_THREADS, FREQUENCY_QUEUE_SIZE,
};
use std::collections::VecDeque;

fn window(samples: &[u64]) -> VecDeque<u64> {
    samples.iter().copied().collect()
}

#[test]
fn ema_of_single_samples() {
    assert_eq!(calculate_ema(&window(&[])), 0);
    assert_eq!(calculate_ema(&window(&[0])), 0);
    // 2 * 11^10: the newest sample weighs the most.
    assert_eq!(calculate_ema(&window(&[1])), 51_874_849_202);
    assert_eq!(calculate_ema(&window(&[0, 1])), 51_874_849_202);
    // 2 * 9 * 11^9: one interval older.
    assert_eq!(calculate_ema(&window(&[1, 0])), 42_443_058_438);
}

#[test]
fn ema_of_same_window_twice_is_equal() {
    let w = window(&[3, 1, 4, 1, 5, 9, 2, 6, 5, 3]);
    assert_eq!(calculate_ema(&w), calculate_ema(&w));
    assert!(calculate_ema(&w) > 0);
}

#[test]
fn warm_up_with_no_tasks() {
    let mut pool = PoolState::new(3);
    for _ in 0..5 {
        assert_eq!(pool.manager_tick(8), 0);
    }
    assert_eq!(pool.pool_size, 3);
    assert_eq!(pool.arrivals, 0);
    assert!(pool.window.len() >= 5);
    assert!(pool.window.iter().all(|s| *s == 0));
}

#[test]
fn quiet_interval_after_load_adds_nothing() {
    let mut pool = PoolState::new(2);
    for _ in 0..1000 {
        pool.schedule();
    }
    assert!(pool.manager_tick(8) > 0);
    assert_eq!(pool.manager_tick(8), 0);
}

#[test]
fn steady_arrivals_scale_up() {
    let mut pool = PoolState::new(2);
    let mut spawned = 0;
    for tick in 0..10 {
        let prev = calculate_ema(&{
            let mut w = pool.window.clone();
            if w.is_empty() {
                w.push_back(0);
            }
            w
        });
        for _ in 0..200 {
            pool.schedule();
        }
        let n = pool.manager_tick(8);
        let curr = calculate_ema(&pool.window);
        if tick == 1 {
            assert!(curr > prev);
            assert_eq!(n, 2);
        }
        spawned += n;
    }
    assert!(spawned >= 1);
    assert_eq!(*pool.window.back().unwrap(), 1);
    assert_eq!(pool.window.len(), FREQUENCY_QUEUE_SIZE);
}

#[test]
fn first_busy_interval_spawn_count() {
    let mut pool = PoolState::new(2);
    for _ in 0..200 {
        pool.schedule();
    }
    // floor(2 * (2 * 11^10) / 11^11 + 2) = 2
    assert_eq!(pool.manager_tick(8), 2);
    // the number of cores bounds the amount
    let mut pool = PoolState::new(2);
    for _ in 0..200 * 1000 {
        pool.schedule();
    }
    assert_eq!(pool.manager_tick(3), 3);
}

#[test]
fn throughput_hog_adds_low_watermark() {
    let mut pool = PoolState::new(2);
    assert_eq!(pool.manager_tick(8), 0);
    for _ in 0..100 {
        pool.schedule();
    }
    assert_eq!(pool.manager_tick(8), 2);
    let mut pool = PoolState::new(5);
    for _ in 0..100 {
        pool.schedule();
    }
    assert_eq!(pool.manager_tick(8), 5);
}

#[test]
fn window_keeps_ten_samples() {
    let mut pool = PoolState::new(2);
    for i in 0..15u64 {
        for _ in 0..(200 * i) {
            pool.schedule();
        }
        pool.manager_tick(4);
    }
    assert_eq!(pool.window.len(), 10);
    assert_eq!(*pool.window.front().unwrap(), 5);
    assert_eq!(*pool.window.back().unwrap(), 14);
}

#[test]
fn spawn_at_bound_declines_and_resets() {
    let mut pool = PoolState::new(2);
    pool.max_threads = 2;
    assert!(!pool.admit_dynamic_worker());
    assert_eq!(pool.max_threads, DEFAULT_MAX_THREADS);
    assert_eq!(pool.pool_size, 2);
    assert!(pool.admit_dynamic_worker());
}

#[test]
fn refused_spawn_limits_pool() {
    let mut pool = PoolState::new(4);
    pool.worker_started();
    assert_eq!(pool.pool_size, 5);
    pool.spawn_refused();
    assert_eq!(pool.max_threads, 4);
    pool.worker_exited();
    assert_eq!(pool.pool_size, 4);
    assert!(!pool.admit_dynamic_worker());
}

#[test]
fn idle_window_bounds() {
    assert_eq!(idle_limit_ms(0), 1000);
    assert_eq!(idle_limit_ms(9_999), 10_999);
}

#[test]
fn low_watermark_from_environment() {
    assert_eq!(low_watermark(None), Ok(2));
    assert_eq!(low_watermark(Some(b"3")), Ok(3));
    assert_eq!(low_watermark(Some(b"+7")), Ok(7));
    assert_eq!(low_watermark(Some(b"0")), Ok(0));
    assert_eq!(low_watermark(Some(b"18446744073709551615")), Ok(u64::MAX));
    let bad: [&[u8]; 6] = [b"", b"+", b"abc", b"12a", b"-1", b"18446744073709551616"];
    for b in bad {
        assert_eq!(low_watermark(Some(b)), Err(ConfigError::MalformedLowWatermark));
    }
}

#[test]
fn round_robin_pinning() {
    let mut pin = CoreId { id: 0 };
    let mut seen = Vec::new();
    for _ in 0..5 {
        seen.push(affinity_pinner(&mut pin, 4).unwrap().id);
    }
    assert_eq!(seen, vec![0, 1, 2, 3, 0]);
    let mut single = CoreId { id: 0 };
    assert_eq!(affinity_pinner(&mut single, 1), None);
    assert_eq!(single.id, 0);
}

#[test]
fn scale_pool_uses_this_machine() {
    let mut pool = PoolState::new(2);
    assert_eq!(pool.scale_pool(), 0);
    for _ in 0..200 {
        pool.schedule();
    }
    let n = pool.scale_pool();
    assert!(n >= 1 && n <= 2);
}
