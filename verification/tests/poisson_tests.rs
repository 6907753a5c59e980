use rand::rngs::StdRng;
use rand::{Rng, SeedableRng};
use worldgen::poisson::{cell_size_for, PoissonDiskSampler, SamplerConfigError, MAX_GRID_CELLS};
use worldgen::poisson_model::{Offer, Point, Request};

fn candidate_near(parent: Point, min_distance: u32, rng: &mut StdRng) -> Point {
    let theta: f64 = rng.gen_range(0.0..360.0);
    let r = min_distance as f64;
    let radius: f64 = rng.gen_range(r..(2.0 * r));
    let x = parent.x as f64 + radius * theta.to_radians().cos();
    let y = parent.y as f64 + radius * theta.to_radians().sin();
    Point { x: x.floor() as i64, y: y.floor() as i64 }
}

fn sample(region_size: u32, min_distance: u32, max_attempts: u32, seed: u64) -> Vec<Point> {
    let mut rng = StdRng::seed_from_u64(seed);
    let mut sampler = PoissonDiskSampler::new(region_size, min_distance, max_attempts).unwrap();
    assert!(sampler.start(&mut rng));
    while let Some(parent) = sampler.select(&mut rng) {
        loop {
            let candidate = candidate_near(parent, min_distance, &mut rng);
            match sampler.offer(candidate) {
                Offer::Rejected => {}
                Offer::Accepted | Offer::Exhausted => break,
                Offer::Idle => panic!("a point was selected"),
            }
        }
    }
    assert!(sampler.is_finished());
    sampler.into_points()
}

fn distance_squared(p: Point, q: Point) -> i128 {
    let dx = (p.x - q.x) as i128;
    let dy = (p.y - q.y) as i128;
    dx * dx + dy * dy
}

fn sample_by_request(region_size: u32, min_distance: u32, max_attempts: u32, seed: u64) -> Vec<Point> {
    let mut rng = StdRng::seed_from_u64(seed);
    let mut sampler = PoissonDiskSampler::new(region_size, min_distance, max_attempts).unwrap();
    loop {
        match sampler.next_request() {
            Request::FirstPoint => {
                assert!(sampler.start(&mut rng));
            }
            Request::ActiveIndex { below } => {
                assert_eq!(below, sampler.active().len());
                assert!(sampler.select(&mut rng).is_some());
            }
            Request::Candidate { around } => {
                assert_eq!(sampler.selected_point(), Some(around));
                let candidate = candidate_near(around, min_distance, &mut rng);
                assert_ne!(sampler.offer(candidate), Offer::Idle);
            }
            Request::Finished => break,
        }
    }
    assert!(sampler.is_finished());
    sampler.into_points()
}

#[test]
fn requests_lead_through_the_whole_sampling() {
    let by_hand = sample(100, 4, 30, 99);
    let by_request = sample_by_request(100, 4, 30, 99);
    assert_eq!(by_hand, by_request);
    assert!(by_request.len() > 50);
}

#[test]
fn requests_follow_the_state() {
    let mut sampler = PoissonDiskSampler::new(100, 4, 2).unwrap();
    assert_eq!(sampler.next_request(), Request::FirstPoint);
    assert!(sampler.start_at(Point { x: 10, y: 10 }));
    assert_eq!(sampler.next_request(), Request::ActiveIndex { below: 1 });
    assert_eq!(sampler.select_at(0), Some(Point { x: 10, y: 10 }));
    assert_eq!(sampler.next_request(), Request::Candidate { around: Point { x: 10, y: 10 } });
    assert_eq!(sampler.offer(Point { x: 10, y: 11 }), Offer::Rejected);
    assert_eq!(sampler.next_request(), Request::Candidate { around: Point { x: 10, y: 10 } });
    assert_eq!(sampler.offer(Point { x: 10, y: 11 }), Offer::Exhausted);
    assert_eq!(sampler.next_request(), Request::Finished);
}

#[test]
fn zero_region_is_refused() {
    assert_eq!(
        PoissonDiskSampler::new(0, 4, 30).err(),
        Some(SamplerConfigError::InvalidRegionSize)
    );
    assert_eq!(
        PoissonDiskSampler::new(0, 0, 0).err(),
        Some(SamplerConfigError::InvalidRegionSize)
    );
}

#[test]
fn a_region_of_too_many_cells_is_refused() {
    assert_eq!(
        PoissonDiskSampler::new(100_000, 1, 30).err(),
        Some(SamplerConfigError::InvalidRegionSize)
    );
    assert_eq!(
        PoissonDiskSampler::new(4097, 1, 30).err(),
        Some(SamplerConfigError::InvalidRegionSize)
    );
    assert!(PoissonDiskSampler::new(4096, 1, 30).is_ok());
    assert_eq!(MAX_GRID_CELLS, 4096 * 4096);
    assert!(PoissonDiskSampler::new(u32::MAX, u32::MAX, 1).is_ok());
}

#[test]
fn zero_separation_is_refused() {
    assert_eq!(
        PoissonDiskSampler::new(100, 0, 30).err(),
        Some(SamplerConfigError::InvalidMinDistance)
    );
    assert_eq!(
        PoissonDiskSampler::new(100, 0, 0).err(),
        Some(SamplerConfigError::InvalidMinDistance)
    );
}

#[test]
fn zero_attempts_are_refused() {
    assert_eq!(
        PoissonDiskSampler::new(100, 4, 0).err(),
        Some(SamplerConfigError::InvalidAttemptBudget)
    );
}

#[test]
fn sound_parameters_make_an_empty_sampler() {
    let sampler = PoissonDiskSampler::new(100, 4, 30).unwrap();
    assert_eq!(sampler.region_size(), 100);
    assert_eq!(sampler.min_distance(), 4);
    assert_eq!(sampler.max_attempts(), 30);
    assert_eq!(sampler.cell_size(), 2);
    assert!(sampler.points().is_empty());
    assert!(sampler.active().is_empty());
    assert!(!sampler.is_finished());
    assert_eq!(sampler.selected_point(), None);
    assert_eq!(sampler.attempts_made(), 0);
}

#[test]
fn cell_side_is_the_whole_part_of_the_separation_over_root_two() {
    assert_eq!(cell_size_for(1), 1);
    assert_eq!(cell_size_for(2), 1);
    assert_eq!(cell_size_for(3), 2);
    assert_eq!(cell_size_for(4), 2);
    assert_eq!(cell_size_for(5), 3);
    assert_eq!(cell_size_for(10), 7);
    assert_eq!(cell_size_for(4096), 2896);
    assert_eq!(cell_size_for(u32::MAX), 3037000499);
}

#[test]
fn first_point_must_lie_in_the_region_and_come_first() {
    let mut sampler = PoissonDiskSampler::new(10, 4, 3).unwrap();
    assert!(!sampler.start_at(Point { x: 10, y: 0 }));
    assert!(!sampler.start_at(Point { x: 0, y: -1 }));
    assert!(sampler.points().is_empty());
    assert!(sampler.start_at(Point { x: 9, y: 0 }));
    assert_eq!(sampler.points(), &vec![Point { x: 9, y: 0 }]);
    assert_eq!(sampler.active(), &vec![Point { x: 9, y: 0 }]);
    assert!(!sampler.start_at(Point { x: 1, y: 1 }));
    assert_eq!(sampler.points().len(), 1);
}

#[test]
fn candidates_are_judged_by_region_and_distance() {
    let mut sampler = PoissonDiskSampler::new(100, 4, 30).unwrap();
    assert!(sampler.start_at(Point { x: 50, y: 50 }));
    assert!(!sampler.is_valid_point(Point { x: 50, y: 50 }));
    assert!(!sampler.is_valid_point(Point { x: 52, y: 52 }));
    assert!(!sampler.is_valid_point(Point { x: 53, y: 50 }));
    assert!(sampler.is_valid_point(Point { x: 53, y: 53 }));
    assert!(sampler.is_valid_point(Point { x: 54, y: 50 }));
    assert!(sampler.is_valid_point(Point { x: 0, y: 0 }));
    assert!(!sampler.is_valid_point(Point { x: -1, y: 0 }));
    assert!(!sampler.is_valid_point(Point { x: 100, y: 99 }));
    assert!(sampler.is_valid_point(Point { x: 99, y: 99 }));
}

#[test]
fn an_offer_without_a_selection_is_ignored() {
    let mut sampler = PoissonDiskSampler::new(100, 4, 30).unwrap();
    assert!(sampler.start_at(Point { x: 50, y: 50 }));
    assert_eq!(sampler.offer(Point { x: 60, y: 60 }), Offer::Idle);
    assert_eq!(sampler.points().len(), 1);
}

#[test]
fn a_valid_candidate_is_accepted_and_becomes_active() {
    let mut sampler = PoissonDiskSampler::new(100, 4, 30).unwrap();
    assert!(sampler.start_at(Point { x: 50, y: 50 }));
    assert_eq!(sampler.select_at(1), None);
    assert_eq!(sampler.select_at(0), Some(Point { x: 50, y: 50 }));
    assert_eq!(sampler.selected_point(), Some(Point { x: 50, y: 50 }));
    assert_eq!(sampler.select_at(0), None);
    assert_eq!(sampler.offer(Point { x: 51, y: 50 }), Offer::Rejected);
    assert_eq!(sampler.attempts_made(), 1);
    assert_eq!(sampler.offer(Point { x: 55, y: 50 }), Offer::Accepted);
    assert_eq!(sampler.attempts_made(), 0);
    assert_eq!(sampler.selected_point(), None);
    assert_eq!(sampler.points(), &vec![Point { x: 50, y: 50 }, Point { x: 55, y: 50 }]);
    assert_eq!(sampler.active(), &vec![Point { x: 50, y: 50 }, Point { x: 55, y: 50 }]);
}

#[test]
fn a_point_that_uses_up_its_attempts_leaves_the_active_list_only() {
    let mut sampler = PoissonDiskSampler::new(100, 4, 3).unwrap();
    assert!(sampler.start_at(Point { x: 50, y: 50 }));
    assert_eq!(sampler.select_at(0), Some(Point { x: 50, y: 50 }));
    assert_eq!(sampler.offer(Point { x: 51, y: 50 }), Offer::Rejected);
    assert_eq!(sampler.offer(Point { x: -5, y: 50 }), Offer::Rejected);
    assert_eq!(sampler.offer(Point { x: 50, y: 51 }), Offer::Exhausted);
    assert!(sampler.active().is_empty());
    assert_eq!(sampler.points(), &vec![Point { x: 50, y: 50 }]);
    assert!(sampler.is_finished());
    assert!(!sampler.is_valid_point(Point { x: 50, y: 50 }));
}

#[test]
fn a_single_attempt_budget_exhausts_at_once() {
    let mut sampler = PoissonDiskSampler::new(100, 4, 1).unwrap();
    assert!(sampler.start_at(Point { x: 50, y: 50 }));
    assert_eq!(sampler.select_at(0), Some(Point { x: 50, y: 50 }));
    assert_eq!(sampler.offer(Point { x: 51, y: 50 }), Offer::Exhausted);
}

#[test]
fn only_touching_cells_are_searched() {
    let mut sampler = PoissonDiskSampler::new(100, 4, 30).unwrap();
    assert!(sampler.start_at(Point { x: 8, y: 0 }));
    assert_eq!(sampler.select_at(0), Some(Point { x: 8, y: 0 }));
    assert_eq!(sampler.offer(Point { x: 4, y: 0 }), Offer::Accepted);
    assert_eq!(sampler.select_at(1), Some(Point { x: 4, y: 0 }));
    // two cells away from (4, 0), though only three units
    assert_eq!(sampler.offer(Point { x: 1, y: 0 }), Offer::Accepted);
    assert_eq!(sampler.points().len(), 3);
}

#[test]
fn the_generator_places_the_first_point_in_the_region() {
    let mut rng = StdRng::seed_from_u64(7);
    let mut tiny = PoissonDiskSampler::new(1, 4, 30).unwrap();
    assert!(tiny.start(&mut rng));
    assert_eq!(tiny.points(), &vec![Point { x: 0, y: 0 }]);
    assert!(!tiny.start(&mut rng));

    for seed in 0..50u64 {
        let mut rng = StdRng::seed_from_u64(seed);
        let mut sampler = PoissonDiskSampler::new(3, 1, 30).unwrap();
        assert!(sampler.start(&mut rng));
        let p = sampler.points()[0];
        assert!(0 <= p.x && p.x < 3 && 0 <= p.y && p.y < 3);
    }
}

#[test]
fn the_generator_selects_from_the_active_list() {
    let mut rng = StdRng::seed_from_u64(11);
    let mut sampler = PoissonDiskSampler::new(100, 4, 30).unwrap();
    assert_eq!(sampler.select(&mut rng), None);
    assert!(sampler.start_at(Point { x: 50, y: 50 }));
    assert_eq!(sampler.select(&mut rng), Some(Point { x: 50, y: 50 }));
    assert_eq!(sampler.select(&mut rng), None);
    assert_eq!(sampler.offer(Point { x: 60, y: 50 }), Offer::Accepted);
    let picked = sampler.select(&mut rng).unwrap();
    assert!(sampler.active().contains(&picked));
    assert_eq!(sampler.selected_point(), Some(picked));
}

#[test]
fn sampled_points_lie_in_the_region_and_keep_their_distance() {
    let region: u32 = 100;
    let r: u32 = 4;
    let cell = cell_size_for(r) as i64;
    let points = sample(region, r, 30, 42);
    assert!(points.len() > 50);
    for p in &points {
        assert!(0 <= p.x && p.x < region as i64);
        assert!(0 <= p.y && p.y < region as i64);
    }
    for (i, p) in points.iter().enumerate() {
        for (j, q) in points.iter().enumerate() {
            if i == j {
                continue;
            }
            let d = distance_squared(*p, *q);
            assert!(2 * d > (r as i128) * (r as i128));
            let touching = (p.x / cell - q.x / cell).abs() <= 1 && (p.y / cell - q.y / cell).abs() <= 1;
            if touching {
                assert!(d >= (r as i128) * (r as i128));
            }
            assert!(p.x / cell != q.x / cell || p.y / cell != q.y / cell);
        }
    }
}

#[test]
fn the_same_seed_gives_the_same_points_and_another_seed_others() {
    let a = sample(100, 4, 30, 1234);
    let b = sample(100, 4, 30, 1234);
    let c = sample(100, 4, 30, 1235);
    assert_eq!(a, b);
    assert_ne!(a, c);
}

#[test]
fn a_finer_lattice_gives_more_points() {
    let coarse = sample(100, 4, 30, 5);
    let fine = sample(100 * 64, 4 * 64, 30, 5);
    for p in &fine {
        assert!(0 <= p.x && p.x < 6400 && 0 <= p.y && p.y < 6400);
    }
    assert!(!coarse.is_empty());
    assert!(!fine.is_empty());
}

#[test]
fn there_is_at_most_one_point_per_cell_of_side_r_over_root_two() {
    // 36 cells of side 4 / √2 cover a side of 100: 36² · 4² ≥ 2 · 100²
    for seed in 0..5u64 {
        let points = sample(100, 4, 30, seed);
        assert!(points.len() <= 36 * 36);
        let mut cells: Vec<(i64, i64)> = points
            .iter()
            .map(|p| {
                let cell = |v: i64| (0..).find(|i: &i64| 2 * v * v < (i + 1) * (i + 1) * 16).unwrap();
                (cell(p.x), cell(p.y))
            })
            .collect();
        cells.sort();
        cells.dedup();
        assert_eq!(cells.len(), points.len());
    }
}
