use raymarcher::march::{March, LANES, MAX_ITERATIONS};

fn lanes(f: impl Fn(usize) -> bool) -> Vec<bool> {
    (0..LANES).map(f).collect()
}

#[test]
fn new_march_has_nothing_resolved() {
    let m = March::new();
    assert_eq!(m.steps_taken(), 0);
    assert!(!m.finished());
    for i in 0..LANES {
        assert!(!m.is_resolved(i));
    }
}

#[test]
fn rays_that_miss_everything_are_resolved_at_the_budget() {
    let mut m = March::new();
    let never = lanes(|_| false);
    let always = lanes(|_| true);
    let mut steps = 0;
    while !m.finished() {
        let resolve = m.step(&never, &always);
        steps += 1;
        if steps < MAX_ITERATIONS {
            assert_eq!(resolve, never);
        } else {
            assert_eq!(resolve, always);
        }
    }
    assert_eq!(steps, MAX_ITERATIONS);
    assert_eq!(m.steps_taken(), 30);
}

#[test]
fn near_and_converging_lane_is_resolved_that_step() {
    let mut m = March::new();
    let r = m.step(&lanes(|i| i == 3), &lanes(|_| true));
    assert_eq!(r, lanes(|i| i == 3));
    assert!(m.is_resolved(3));
    // A resolved lane is never resolved again.
    let r = m.step(&lanes(|_| true), &lanes(|_| true));
    assert_eq!(r, lanes(|i| i != 3));
    assert!(m.finished());
    assert_eq!(m.steps_taken(), 2);
}

#[test]
fn near_but_diverging_lane_stays_open() {
    let mut m = March::new();
    let r = m.step(&lanes(|_| true), &lanes(|i| i % 2 == 0));
    assert_eq!(r, lanes(|i| i % 2 == 0));
    assert!(!m.finished());
    assert!(!m.is_resolved(1));
    assert!(m.is_resolved(0));
}

#[test]
fn every_lane_resolved_exactly_once() {
    let mut m = March::new();
    let mut count = vec![0usize; LANES];
    let mut step = 0usize;
    while !m.finished() {
        let near = lanes(|i| i == step % LANES || i == (step * 7) % LANES);
        let conv = lanes(|i| (i + step) % 3 != 0);
        let r = m.step(&near, &conv);
        for i in 0..LANES {
            if r[i] {
                count[i] += 1;
            }
        }
        step += 1;
    }
    assert!(step <= MAX_ITERATIONS);
    assert_eq!(count, vec![1usize; LANES]);
}
