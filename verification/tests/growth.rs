use fondo::engine::{run, GrowthEngine, GrowthError};
use fondo::pending::PendingKind;
use fondo::point::Point;
use rand::rngs::StdRng;
use rand::SeedableRng;
use std::collections::BTreeSet;

fn origin_seed() -> Vec<Point> {
    vec![Point { r: 0, g: 0, b: 0, x: 0, y: 0 }]
}

fn near(a: u8, b: u8, delta: i32) -> bool {
    let d = a as i32 - b as i32;
    -delta <= d && d <= delta
}

#[test]
fn four_by_four_random_pop_colours_every_cell() {
    let mut rng = StdRng::seed_from_u64(1);
    let grown = run(4, 4, &origin_seed(), PendingKind::VecPopRandom(Vec::new()), 1, &mut rng);
    let canvas = match grown {
        Ok(canvas) => canvas,
        Err(error) => panic!("rejected: {:?}", error),
    };
    assert_eq!(canvas.width(), 4);
    assert_eq!(canvas.height(), 4);
    assert_eq!(canvas.get(0, 0), (0, 0, 0));
    for y in 0..4usize {
        for x in 0..4usize {
            if x == 0 && y == 0 {
                continue;
            }
            let (r, g, b) = canvas.get(x, y);
            let mut has_parent = false;
            for ny in y.saturating_sub(1)..(y + 2).min(4) {
                for nx in x.saturating_sub(1)..(x + 2).min(4) {
                    if nx == x && ny == y {
                        continue;
                    }
                    let (pr, pg, pb) = canvas.get(nx, ny);
                    if near(r, pr, 1) && near(g, pg, 1) && near(b, pb, 1) {
                        has_parent = true;
                    }
                }
            }
            assert!(has_parent, "cell ({}, {}) has no neighbour within one step", x, y);
        }
    }
    assert_eq!(canvas.into_pixels().len(), 16);
}

#[test]
fn four_by_four_takes_sixteen_pops() {
    let mut rng = StdRng::seed_from_u64(2);
    let started = GrowthEngine::new(4, 4, &origin_seed(), PendingKind::VecPopRandom(Vec::new()), 1);
    let mut engine = match started {
        Ok(engine) => engine,
        Err(error) => panic!("rejected: {:?}", error),
    };
    assert_eq!(engine.total(), 16);
    let mut pops = 0;
    let mut seen = BTreeSet::new();
    while engine.has_pending() {
        let point = engine.step(&mut rng).unwrap();
        assert!(seen.insert((point.x, point.y)), "cell painted twice");
        pops += 1;
        assert_eq!(engine.done(), pops);
    }
    assert_eq!(pops, 16);
    assert_eq!(seen.len(), 16);
    assert_eq!(engine.step(&mut rng), None);
    assert_eq!(engine.done(), 16);
}

#[test]
fn two_by_two_seed_expands_to_three_neighbours() {
    let mut rng = StdRng::seed_from_u64(3);
    let seeds = vec![Point { r: 100, g: 100, b: 100, x: 0, y: 0 }];
    let started = GrowthEngine::new(2, 2, &seeds, PendingKind::VecPopRandom(Vec::new()), 4);
    let mut engine = match started {
        Ok(engine) => engine,
        Err(error) => panic!("rejected: {:?}", error),
    };
    assert_eq!(engine.queue().len(), 1);
    assert!(engine.is_visited(0, 0));
    assert!(!engine.is_visited(1, 0));
    let first = engine.step(&mut rng);
    assert_eq!(first, Some(seeds[0]));
    let cells: Vec<(usize, usize)> = match engine.queue() {
        PendingKind::VecPopRandom(points) => points.iter().map(|p| (p.x, p.y)).collect(),
        _ => panic!("the policy changed"),
    };
    assert_eq!(cells, vec![(1, 0), (0, 1), (1, 1)]);
    let mut pops = 1;
    while engine.has_pending() {
        let before = engine.queue().len();
        engine.step(&mut rng);
        assert_eq!(engine.queue().len(), before - 1, "a visited cell was queued again");
        pops += 1;
    }
    assert_eq!(pops, 4);
}

#[test]
fn zero_delta_is_rejected() {
    let mut rng = StdRng::seed_from_u64(4);
    let grown = run(4, 4, &origin_seed(), PendingKind::VecPopRandom(Vec::new()), 0, &mut rng);
    assert_eq!(grown.err(), Some(GrowthError::ZeroDelta));
    let started = GrowthEngine::new(4, 4, &origin_seed(), PendingKind::SetBTree(BTreeSet::new()), 0);
    assert_eq!(started.err(), Some(GrowthError::ZeroDelta));
}

fn policies() -> Vec<PendingKind> {
    vec![
        PendingKind::VecPopRandom(Vec::new()),
        PendingKind::VecShuffleNeighbours(Vec::new(), 0),
        PendingKind::VecShuffleNeighbours(Vec::new(), 50),
        PendingKind::VecShuffleNeighbours(Vec::new(), 100),
        PendingKind::SetBTree(BTreeSet::new()),
        PendingKind::SetBTreeRev(BTreeSet::new()),
    ]
}

fn touches(a: &Point, b: &Point) -> bool {
    let dx = a.x as i64 - b.x as i64;
    let dy = a.y as i64 - b.y as i64;
    dx.abs() <= 1 && dy.abs() <= 1 && !(dx == 0 && dy == 0)
}

fn stepped(from: u8, to: u8, delta: i32) -> bool {
    let d = to as i32 - from as i32;
    if d == 0 {
        from == 0 || from == 255
    } else if d.abs() <= delta {
        true
    } else {
        false
    }
}

#[test]
fn every_policy_paints_every_cell_once() {
    for (n, pending) in policies().into_iter().enumerate() {
        let mut rng = StdRng::seed_from_u64(100 + n as u64);
        let seeds = vec![Point { r: 10, g: 20, b: 30, x: 3, y: 2 }];
        let mut engine = match GrowthEngine::new(7, 5, &seeds, pending, 2) {
            Ok(engine) => engine,
            Err(error) => panic!("rejected: {:?}", error),
        };
        let mut painted: Vec<Point> = Vec::new();
        while let Some(point) = engine.step(&mut rng) {
            assert!(point.x < 7 && point.y < 5);
            assert!(painted.iter().all(|p| (p.x, p.y) != (point.x, point.y)));
            assert_eq!(engine.colour_at(point.x, point.y), (point.r, point.g, point.b));
            painted.push(point);
        }
        assert_eq!(painted.len(), 35);
        assert_eq!(engine.done(), 35);
        assert!(!engine.has_pending());
        let canvas = engine.finish();
        for p in painted.iter() {
            assert_eq!(canvas.get(p.x, p.y), (p.r, p.g, p.b));
        }
    }
}

#[test]
fn every_painted_point_grows_out_of_an_earlier_one() {
    for (n, pending) in policies().into_iter().enumerate() {
        let mut rng = StdRng::seed_from_u64(200 + n as u64);
        let seeds = vec![Point { r: 1, g: 128, b: 254, x: 0, y: 0 }];
        let mut engine = match GrowthEngine::new(6, 6, &seeds, pending, 3) {
            Ok(engine) => engine,
            Err(error) => panic!("rejected: {:?}", error),
        };
        let mut painted: Vec<Point> = Vec::new();
        while let Some(point) = engine.step(&mut rng) {
            if painted.is_empty() {
                assert_eq!(point, seeds[0]);
            } else {
                assert!(painted.iter().any(|parent| touches(parent, &point)
                    && stepped(parent.r, point.r, 3)
                    && stepped(parent.g, point.g, 3)
                    && stepped(parent.b, point.b, 3)));
            }
            painted.push(point);
        }
        assert_eq!(painted.len(), 36);
    }
}

#[test]
fn visited_cells_stay_visited_and_are_queued_once() {
    for (n, pending) in policies().into_iter().enumerate() {
        let mut rng = StdRng::seed_from_u64(300 + n as u64);
        let seeds = vec![Point { r: 9, g: 9, b: 9, x: 2, y: 2 }];
        let mut engine = match GrowthEngine::new(5, 4, &seeds, pending, 1) {
            Ok(engine) => engine,
            Err(error) => panic!("rejected: {:?}", error),
        };
        let mut visited = vec![vec![false; 5]; 4];
        visited[2][2] = true;
        let mut queued = 1;
        while engine.has_pending() {
            let before = engine.queue().len();
            engine.step(&mut rng);
            let mut fresh = 0;
            for y in 0..4 {
                for x in 0..5 {
                    let now = engine.is_visited(x, y);
                    assert!(now || !visited[y][x], "a cell lost its mark");
                    if now && !visited[y][x] {
                        fresh += 1;
                        visited[y][x] = true;
                    }
                }
            }
            assert_eq!(engine.queue().len(), before - 1 + fresh);
            queued += fresh;
        }
        assert_eq!(queued, 20);
    }
}

#[test]
fn the_stack_without_shuffling_grows_in_a_fixed_order() {
    let seeds = vec![Point { r: 50, g: 50, b: 50, x: 0, y: 0 }];
    let mut orders = Vec::new();
    for seed in 0..3 {
        let mut rng = StdRng::seed_from_u64(400 + seed);
        let pending = PendingKind::VecShuffleNeighbours(Vec::new(), 0);
        let mut engine = match GrowthEngine::new(3, 3, &seeds, pending, 5) {
            Ok(engine) => engine,
            Err(error) => panic!("rejected: {:?}", error),
        };
        let mut order = Vec::new();
        while let Some(point) = engine.step(&mut rng) {
            order.push((point.x, point.y));
        }
        orders.push(order);
    }
    assert_eq!(
        orders[0],
        vec![(0, 0), (1, 1), (2, 2), (1, 2), (0, 2), (2, 1), (2, 0), (0, 1), (1, 0)]
    );
    assert_eq!(orders[1], orders[0]);
    assert_eq!(orders[2], orders[0]);
}

#[test]
fn the_ascending_set_paints_the_least_pending_point() {
    let mut rng = StdRng::seed_from_u64(500);
    let seeds = vec![Point { r: 100, g: 100, b: 100, x: 2, y: 2 }];
    let pending = PendingKind::SetBTree(BTreeSet::new());
    let mut engine = match GrowthEngine::new(5, 5, &seeds, pending, 4) {
        Ok(engine) => engine,
        Err(error) => panic!("rejected: {:?}", error),
    };
    while engine.has_pending() {
        let least = match engine.queue() {
            PendingKind::SetBTree(keys) => *keys.iter().next().unwrap(),
            _ => panic!("the policy changed"),
        };
        let point = engine.step(&mut rng).unwrap();
        assert_eq!(point.to_key(), least);
    }
    assert_eq!(engine.done(), 25);
}

#[test]
fn the_descending_set_paints_the_greatest_pending_point() {
    let mut rng = StdRng::seed_from_u64(501);
    let seeds = vec![Point { r: 100, g: 100, b: 100, x: 2, y: 2 }];
    let pending = PendingKind::SetBTreeRev(BTreeSet::new());
    let mut engine = match GrowthEngine::new(5, 5, &seeds, pending, 4) {
        Ok(engine) => engine,
        Err(error) => panic!("rejected: {:?}", error),
    };
    while engine.has_pending() {
        let greatest = match engine.queue() {
            PendingKind::SetBTreeRev(keys) => *keys.iter().next_back().unwrap(),
            _ => panic!("the policy changed"),
        };
        let point = engine.step(&mut rng).unwrap();
        assert_eq!(point.to_key(), greatest);
    }
    assert_eq!(engine.done(), 25);
}

#[test]
fn several_seeds_keep_their_colours() {
    for (n, pending) in policies().into_iter().enumerate() {
        let mut rng = StdRng::seed_from_u64(600 + n as u64);
        let seeds = vec![
            Point { r: 255, g: 0, b: 0, x: 0, y: 0 },
            Point { r: 0, g: 255, b: 0, x: 9, y: 0 },
            Point { r: 0, g: 0, b: 255, x: 5, y: 7 },
        ];
        let canvas = match run(10, 8, &seeds, pending, 4, &mut rng) {
            Ok(canvas) => canvas,
            Err(error) => panic!("rejected: {:?}", error),
        };
        assert_eq!(canvas.get(0, 0), (255, 0, 0));
        assert_eq!(canvas.get(9, 0), (0, 255, 0));
        assert_eq!(canvas.get(5, 7), (0, 0, 255));
        assert_eq!(canvas.into_pixels().len(), 80);
    }
}

#[test]
fn a_later_seed_on_a_taken_cell_is_passed_over() {
    let mut rng = StdRng::seed_from_u64(700);
    let seeds = vec![
        Point { r: 10, g: 10, b: 10, x: 1, y: 1 },
        Point { r: 200, g: 200, b: 200, x: 1, y: 1 },
        Point { r: 30, g: 30, b: 30, x: 0, y: 0 },
    ];
    let pending = PendingKind::VecPopRandom(Vec::new());
    let mut engine = match GrowthEngine::new(3, 3, &seeds, pending, 1) {
        Ok(engine) => engine,
        Err(error) => panic!("rejected: {:?}", error),
    };
    assert_eq!(engine.queue().len(), 2);
    assert!(engine.queue().contains(&seeds[0]));
    assert!(!engine.queue().contains(&seeds[1]));
    assert!(engine.queue().contains(&seeds[2]));
    let mut pops = 0;
    while engine.step(&mut rng).is_some() {
        pops += 1;
    }
    assert_eq!(pops, 9);
    assert_eq!(engine.colour_at(1, 1), (10, 10, 10));
    assert_eq!(engine.colour_at(0, 0), (30, 30, 30));
}

#[test]
fn a_grid_of_one_cell() {
    let mut rng = StdRng::seed_from_u64(800);
    let seeds = vec![Point { r: 7, g: 8, b: 9, x: 0, y: 0 }];
    let canvas = match run(1, 1, &seeds, PendingKind::SetBTree(BTreeSet::new()), 9, &mut rng) {
        Ok(canvas) => canvas,
        Err(error) => panic!("rejected: {:?}", error),
    };
    assert_eq!(canvas.into_pixels(), vec![(7, 8, 9)]);
}

#[test]
fn a_grid_of_one_row() {
    let mut rng = StdRng::seed_from_u64(801);
    let seeds = vec![Point { r: 100, g: 100, b: 100, x: 0, y: 0 }];
    let canvas = match run(6, 1, &seeds, PendingKind::VecPopRandom(Vec::new()), 1, &mut rng) {
        Ok(canvas) => canvas,
        Err(error) => panic!("rejected: {:?}", error),
    };
    let pixels = canvas.into_pixels();
    assert_eq!(pixels.len(), 6);
    assert_eq!(pixels[0], (100, 100, 100));
    for x in 1..6 {
        assert!(near(pixels[x].0, pixels[x - 1].0, 1));
        assert_ne!(pixels[x].0, pixels[x - 1].0);
        assert_ne!(pixels[x].1, pixels[x - 1].1);
        assert_ne!(pixels[x].2, pixels[x - 1].2);
    }
}

#[test]
fn a_large_grid_is_painted_in_full() {
    let mut rng = StdRng::seed_from_u64(802);
    let seeds = vec![Point { r: 128, g: 128, b: 128, x: 60, y: 40 }];
    let mut engine = match GrowthEngine::new(120, 90, &seeds, PendingKind::SetBTree(BTreeSet::new()), 4) {
        Ok(engine) => engine,
        Err(error) => panic!("rejected: {:?}", error),
    };
    assert!(engine.report_due());
    let mut pops = 0usize;
    while engine.step(&mut rng).is_some() {
        pops += 1;
        assert_eq!(engine.report_due(), pops % 10_000 == 0);
    }
    assert_eq!(pops, 10_800);
    assert_eq!(engine.total(), 10_800);
}

#[test]
fn a_seed_outside_the_grid_is_rejected() {
    let mut rng = StdRng::seed_from_u64(900);
    for (x, y) in [(4, 0), (0, 4), (4, 4), (usize::MAX, 0)] {
        let seeds = vec![Point { r: 0, g: 0, b: 0, x: 1, y: 1 }, Point { r: 0, g: 0, b: 0, x, y }];
        let grown = run(4, 4, &seeds, PendingKind::VecPopRandom(Vec::new()), 1, &mut rng);
        assert_eq!(grown.err(), Some(GrowthError::OutOfBoundsSeed));
    }
    let grown = run(0, 0, &origin_seed(), PendingKind::VecPopRandom(Vec::new()), 1, &mut rng);
    assert_eq!(grown.err(), Some(GrowthError::OutOfBoundsSeed));
}

#[test]
fn no_seeds_are_rejected() {
    let mut rng = StdRng::seed_from_u64(901);
    let grown = run(4, 4, &Vec::new(), PendingKind::VecPopRandom(Vec::new()), 1, &mut rng);
    assert_eq!(grown.err(), Some(GrowthError::NoSeeds));
}

#[test]
fn a_queue_that_holds_points_is_rejected() {
    let mut rng = StdRng::seed_from_u64(902);
    let mut pending = PendingKind::SetBTreeRev(BTreeSet::new());
    pending.add(Point { r: 0, g: 0, b: 0, x: 1, y: 1 });
    let grown = run(4, 4, &origin_seed(), pending, 1, &mut rng);
    assert_eq!(grown.err(), Some(GrowthError::QueueNotEmpty));
}

#[test]
fn a_grid_beyond_counting_is_rejected() {
    let mut rng = StdRng::seed_from_u64(903);
    let grown = run(usize::MAX, 2, &origin_seed(), PendingKind::VecPopRandom(Vec::new()), 1, &mut rng);
    assert_eq!(grown.err(), Some(GrowthError::GridTooLarge));
}

#[test]
fn the_first_reason_to_reject_is_given() {
    let mut rng = StdRng::seed_from_u64(904);
    let outside = vec![Point { r: 0, g: 0, b: 0, x: 9, y: 9 }];
    let mut held = PendingKind::VecPopRandom(Vec::new());
    held.add(Point { r: 0, g: 0, b: 0, x: 0, y: 0 });
    let grown = run(usize::MAX, usize::MAX, &Vec::new(), held, 0, &mut rng);
    assert_eq!(grown.err(), Some(GrowthError::ZeroDelta));
    let mut held = PendingKind::VecPopRandom(Vec::new());
    held.add(Point { r: 0, g: 0, b: 0, x: 0, y: 0 });
    let grown = run(usize::MAX, usize::MAX, &Vec::new(), held, 1, &mut rng);
    assert_eq!(grown.err(), Some(GrowthError::GridTooLarge));
    let mut held = PendingKind::VecPopRandom(Vec::new());
    held.add(Point { r: 0, g: 0, b: 0, x: 0, y: 0 });
    let grown = run(4, 4, &Vec::new(), held, 1, &mut rng);
    assert_eq!(grown.err(), Some(GrowthError::QueueNotEmpty));
    let grown = run(4, 4, &Vec::new(), PendingKind::VecPopRandom(Vec::new()), 1, &mut rng);
    assert_eq!(grown.err(), Some(GrowthError::NoSeeds));
    let grown = run(4, 4, &outside, PendingKind::VecPopRandom(Vec::new()), 1, &mut rng);
    assert_eq!(grown.err(), Some(GrowthError::OutOfBoundsSeed));
}

#[test]
fn the_same_generator_seed_gives_the_same_image() {
    let seeds = vec![Point { r: 90, g: 90, b: 90, x: 4, y: 4 }];
    let mut first = StdRng::seed_from_u64(1000);
    let mut second = StdRng::seed_from_u64(1000);
    let mut other = StdRng::seed_from_u64(1001);
    let a = run(9, 9, &seeds, PendingKind::VecPopRandom(Vec::new()), 4, &mut first);
    let b = run(9, 9, &seeds, PendingKind::VecPopRandom(Vec::new()), 4, &mut second);
    let c = run(9, 9, &seeds, PendingKind::VecPopRandom(Vec::new()), 4, &mut other);
    let a = a.ok().unwrap().into_pixels();
    let b = b.ok().unwrap().into_pixels();
    let c = c.ok().unwrap().into_pixels();
    assert_eq!(a, b);
    assert_ne!(a, c);
}

#[test]
fn seeds_are_queued_in_their_order() {
    let seeds = vec![
        Point { r: 3, g: 3, b: 3, x: 2, y: 2 },
        Point { r: 1, g: 1, b: 1, x: 0, y: 0 },
        Point { r: 9, g: 9, b: 9, x: 2, y: 2 },
        Point { r: 2, g: 2, b: 2, x: 1, y: 0 },
    ];
    let first_claims = vec![seeds[0], seeds[1], seeds[3]];
    let started = GrowthEngine::new(3, 3, &seeds, PendingKind::VecShuffleNeighbours(Vec::new(), 7), 1);
    match started {
        Ok(engine) => match engine.queue() {
            PendingKind::VecShuffleNeighbours(points, chance) => {
                assert_eq!(*points, first_claims);
                assert_eq!(*chance, 7);
            }
            _ => panic!("the policy changed"),
        },
        Err(error) => panic!("rejected: {:?}", error),
    }
    let started = GrowthEngine::new(3, 3, &seeds, PendingKind::SetBTree(BTreeSet::new()), 1);
    match started {
        Ok(engine) => match engine.queue() {
            PendingKind::SetBTree(keys) => {
                let held: Vec<Point> = keys.iter().map(|k| Point::from_key(*k)).collect();
                assert_eq!(held, vec![seeds[1], seeds[3], seeds[0]]);
            }
            _ => panic!("the policy changed"),
        },
        Err(error) => panic!("rejected: {:?}", error),
    }
}

#[test]
fn a_selected_policy_grows_an_image() {
    for kind in [&b"default"[..], b"0", b"100", b"tree", b"treerev"] {
        let mut rng = StdRng::seed_from_u64(1100);
        let grown = run(8, 6, &origin_seed(), PendingKind::select(kind), 4, &mut rng);
        match grown {
            Ok(canvas) => assert_eq!(canvas.into_pixels().len(), 48),
            Err(error) => panic!("rejected: {:?}", error),
        }
    }
}
