use prime_walk::cache::{decode_primes, encode_primes};
use prime_walk::prime_walk::{run_pass, PrimeWalk, Step};
use prime_walk::primes::primes;

/// Apply a step sequence in floating point, as the drawing binary does:
/// start at `(x, y)` and return every visited position in order.
fn trace(mut x: f64, mut y: f64, steps: &[Step]) -> Vec<(f64, f64)> {
    let mut out = Vec::new();
    for s in steps {
        let rad = (s.heading_mdeg as f64 / 1000.0).to_radians();
        x += s.distance as f64 * rad.cos();
        y += s.distance as f64 * rad.sin();
        out.push((x, y));
    }
    out
}

fn assert_close(a: (f64, f64), b: (f64, f64)) {
    assert!((a.0 - b.0).abs() < 1e-9 && (a.1 - b.1).abs() < 1e-9, "{:?} != {:?}", a, b);
}

#[test]
fn end_to_end_limit_10() {
    let ps = primes(10);
    assert_eq!(ps, vec![2, 3, 5, 7]);

    let mut w = PrimeWalk::new();
    let steps = run_pass(&mut w, &ps);
    assert_eq!(
        steps.iter().map(|s| s.distance).collect::<Vec<_>>(),
        vec![1, 1, 2, 2]
    );

    // north, then right turns: up 1, left 1, down 2, right 2
    let positions = trace(0.0, 0.0, &steps);
    assert_close(positions[0], (0.0, 1.0));
    assert_close(positions[1], (-1.0, 1.0));
    assert_close(positions[2], (-1.0, -1.0));
    assert_close(positions[3], (1.0, -1.0));

    // the measured bounding box, widened from the origin as drawn
    let mut min_x: f64 = 0.0;
    let mut min_y: f64 = 0.0;
    let mut max_x: f64 = 0.0;
    let mut max_y: f64 = 0.0;
    for &(x, y) in &positions {
        min_x = min_x.min(x);
        min_y = min_y.min(y);
        max_x = max_x.max(x);
        max_y = max_y.max(y);
    }
    assert_close((min_x, min_y), (-1.0, -1.0));
    assert_close((max_x, max_y), (1.0, 1.0));

    // bit-for-bit reproducible: a second identical run gives identical floats
    let mut w2 = PrimeWalk::new();
    let steps2 = run_pass(&mut w2, &primes(10));
    let positions2 = trace(0.0, 0.0, &steps2);
    for (a, b) in positions.iter().zip(positions2.iter()) {
        assert_eq!(a.0.to_bits(), b.0.to_bits());
        assert_eq!(a.1.to_bits(), b.1.to_bits());
    }
}

#[test]
fn drawing_pass_replays_the_measured_geometry() {
    let ps = primes(1000);
    let mut w = PrimeWalk::new();
    let measured = run_pass(&mut w, &ps);
    w.start_drawing();
    let drawn = run_pass(&mut w, &ps);
    assert_eq!(measured.len(), drawn.len());
    for (m, d) in measured.iter().zip(drawn.iter()) {
        assert_eq!(m.distance, d.distance);
        assert_eq!(m.heading_mdeg, d.heading_mdeg);
    }
}

#[test]
fn translated_drawing_stays_inside_the_measured_box() {
    let ps = primes(1000);
    let mut w = PrimeWalk::new();
    let measured = run_pass(&mut w, &ps);
    let positions = trace(0.0, 0.0, &measured);

    let mut min_x: f64 = 0.0;
    let mut min_y: f64 = 0.0;
    for &(x, y) in &positions {
        min_x = min_x.min(x);
        min_y = min_y.min(y);
    }

    // the drawing pass starts offset by the negated minima: every drawn
    // point then has non-negative coordinates, up to floating-point rounding
    // in the re-accumulated sums
    w.start_drawing();
    let drawn = run_pass(&mut w, &ps);
    let drawn_positions = trace(-min_x, -min_y, &drawn);
    assert!(-min_x >= 0.0 && -min_y >= 0.0);
    for &(x, y) in &drawn_positions {
        assert!(x >= -1e-9 && y >= -1e-9, "({}, {}) left the box", x, y);
    }
}

#[test]
fn pipeline_twice_is_identical() {
    // the cache artifact is byte-identical across runs
    let bytes1 = encode_primes(&primes(2000));
    let bytes2 = encode_primes(&primes(2000));
    assert_eq!(bytes1, bytes2);

    // a run that replays the cache walks exactly like a fresh one
    let fresh = primes(2000);
    let replayed = decode_primes(&bytes1).unwrap();
    assert_eq!(fresh, replayed);

    let mut wa = PrimeWalk::new();
    let mut wb = PrimeWalk::new();
    let sa = run_pass(&mut wa, &fresh);
    let sb = run_pass(&mut wb, &replayed);
    assert_eq!(sa, sb);
    assert_eq!(wa, wb);

    // and the drawn step sequences, colors included, agree too
    wa.start_drawing();
    wb.start_drawing();
    let da = run_pass(&mut wa, &fresh);
    let db = run_pass(&mut wb, &replayed);
    assert_eq!(da, db);
}
