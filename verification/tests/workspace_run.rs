use adaptive_quadrature::double::Double;
use adaptive_quadrature::workspace::IntegrationWorkspace;

fn d(x: f64) -> Double {
    Double::from_bits(x.to_bits())
}

fn f(x: Double) -> f64 {
    f64::from_bits(x.to_bits())
}

struct Lcg(u64);

impl Lcg {
    fn next(&mut self) -> f64 {
        self.0 = self.0.wrapping_mul(6364136223846793005).wrapping_add(1442695040888963407);
        ((self.0 >> 11) as f64) / ((1u64 << 53) as f64)
    }
}

fn kept(size: usize, limit: usize) -> usize {
    if size < limit / 2 + 3 {
        size
    } else {
        limit - size + 3
    }
}

fn check_state(ws: &IntegrationWorkspace, lo: f64, hi: f64) {
    let size = ws.size();
    let limit = ws.limit();
    assert!(size <= limit);
    let keep = kept(size, limit);
    let mut seen = vec![false; size];
    for k in 0..size {
        let slot = ws.order_at(k);
        assert!(slot < size);
        assert!(!seen[slot], "slot {} named twice", slot);
        seen[slot] = true;
    }
    assert!(seen.iter().all(|&s| s));
    for k in 1..keep {
        let above = f(ws.interval(ws.order_at(k - 1)).error);
        let below = f(ws.interval(ws.order_at(k)).error);
        assert!(above >= below, "entries {} and {} out of order", k - 1, k);
    }
    let current = ws.current();
    assert_eq!(current, ws.order_at(ws.nrmax()));
    let largest = f(ws.interval(current).error);
    for slot in 0..size {
        assert!(largest >= f(ws.interval(slot).error), "slot {} exceeds the current one", slot);
    }
    let mut pieces: Vec<(f64, f64)> = (0..size).map(|s| (f(ws.interval(s).a), f(ws.interval(s).b))).collect();
    pieces.sort_by(|x, y| x.0.partial_cmp(&y.0).unwrap());
    assert_eq!(pieces[0].0, lo);
    assert_eq!(pieces[size - 1].1, hi);
    for k in 1..size {
        assert_eq!(pieces[k - 1].1, pieces[k].0);
    }
}

fn run(limit: u64, seed: u64) {
    let mut rng = Lcg(seed);
    let mut ws = IntegrationWorkspace::new(limit).unwrap();
    ws.initialise(d(0.0), d(1.0));
    ws.set_initial_result(d(1.0), d(1.0));
    check_state(&ws, 0.0, 1.0);
    while ws.size() < ws.limit() {
        let (mut a, mut b, mut r, mut e) = (d(0.0), d(0.0), d(0.0), d(0.0));
        ws.retrieve(&mut a, &mut b, &mut r, &mut e);
        let (a, b, e) = (f(a), f(b), f(e));
        let mid = 0.5 * (a + b);
        let e1 = e * rng.next();
        let e2 = e * rng.next();
        ws.update(d(a), d(mid), d(0.5), d(e1), d(mid), d(b), d(0.5), d(e2));
        check_state(&ws, 0.0, 1.0);
    }
}

#[test]
fn bisecting_the_largest_error_keeps_the_invariants_up_to_capacity() {
    for limit in 1..40u64 {
        for seed in 0..20u64 {
            run(limit, seed * 7919 + limit);
        }
    }
}
