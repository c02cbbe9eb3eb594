use fidget::choice::{decode, Choice};
use fidget::context::Context;
use fidget::interval::{eval_interval, Interval};
use fidget::point::eval_point;
use fidget::simplify::simplify;
use fidget::tape::{buildy, Tape};

fn iv(lo: f32, hi: f32) -> Interval {
    Interval::new(lo.to_bits(), hi.to_bits())
}

fn bounds(i: Interval) -> [f32; 2] {
    [f32::from_bits(i.lower), f32::from_bits(i.upper)]
}

fn run(tape: &Tape, x: [f32; 2], y: [f32; 2], z: [f32; 2]) -> ([f32; 2], Vec<u8>, bool) {
    let mut choices = vec![0u8; tape.choice_count()];
    let (out, simplify) = eval_interval(
        tape,
        iv(x[0], x[1]),
        iv(y[0], y[1]),
        iv(z[0], z[1]),
        &vec![],
        &mut choices,
    )
    .unwrap();
    (bounds(out), choices, simplify)
}

fn at(tape: &Tape, x: f32, y: f32, z: f32) -> f32 {
    let mut choices = vec![0u8; tape.choice_count()];
    let (v, _) =
        eval_point(tape, x.to_bits(), y.to_bits(), z.to_bits(), &vec![], &mut choices).unwrap();
    f32::from_bits(v)
}

#[test]
fn test_interval() {
    let mut ctx = Context::new();
    let x = ctx.x();

    let tape = buildy(&ctx, x).unwrap();
    assert_eq!(run(&tape, [0.0, 1.0], [2.0, 3.0], [0.0, 0.0]).0, [0.0, 1.0]);
    assert_eq!(run(&tape, [1.0, 5.0], [2.0, 3.0], [0.0, 0.0]).0, [1.0, 5.0]);
}

#[test]
fn test_i_abs() {
    let mut ctx = Context::new();
    let x = ctx.x();
    let abs = ctx.abs(x).unwrap();

    let tape = buildy(&ctx, abs).unwrap();
    let y = [0.0, 1.0];
    let z = [0.0, 0.0];
    assert_eq!(run(&tape, [0.0, 1.0], y, z).0, [0.0, 1.0]);
    assert_eq!(run(&tape, [1.0, 5.0], y, z).0, [1.0, 5.0]);
    assert_eq!(run(&tape, [-2.0, 5.0], y, z).0, [0.0, 5.0]);
    assert_eq!(run(&tape, [-6.0, 5.0], y, z).0, [0.0, 6.0]);
    assert_eq!(run(&tape, [-6.0, -1.0], y, z).0, [1.0, 6.0]);
}

#[test]
fn abs_records_no_choice() {
    let mut ctx = Context::new();
    let x = ctx.x();
    let abs = ctx.abs(x).unwrap();
    let tape = buildy(&ctx, abs).unwrap();
    let (out, choices, simplify) = run(&tape, [-6.0, 5.0], [0.0, 0.0], [0.0, 0.0]);
    assert_eq!(out, [0.0, 6.0]);
    assert!(choices.is_empty());
    assert!(!simplify);
}

#[test]
fn sqrt_clamps_below_zero() {
    let mut ctx = Context::new();
    let x = ctx.x();
    let r = ctx.sqrt(x).unwrap();
    let tape = buildy(&ctx, r).unwrap();
    let (out, _, _) = run(&tape, [-1.0, 4.0], [0.0, 0.0], [0.0, 0.0]);
    assert_eq!(out, [0.0, 2.0]);
    let (gone, _, _) = run(&tape, [-4.0, -1.0], [0.0, 0.0], [0.0, 0.0]);
    assert!(gone[0].is_nan() && gone[1].is_nan());
}

#[test]
fn min_of_disjoint_intervals_is_left() {
    let mut ctx = Context::new();
    let x = ctx.x();
    let y = ctx.y();
    let m = ctx.min(x, y).unwrap();
    let tape = buildy(&ctx, m).unwrap();
    assert_eq!(tape.choice_count(), 1);
    let (out, choices, flag) = run(&tape, [0.0, 1.0], [2.0, 3.0], [0.0, 0.0]);
    assert_eq!(out, [0.0, 1.0]);
    assert_eq!(decode(choices[0]), Choice::Left);
    assert!(flag);
    let small = simplify(&tape, &choices).unwrap();
    assert_eq!(small.choice_count(), 0);
    for (px, py) in [(0.0f32, 2.0f32), (0.25, 3.0), (1.0, 2.5)] {
        assert_eq!(at(&small, px, py, 0.0), px);
        assert_eq!(at(&tape, px, py, 0.0), px);
    }
    let (again, none, flag) = run(&small, [0.0, 1.0], [2.0, 3.0], [0.0, 0.0]);
    assert_eq!(again, [0.0, 1.0]);
    assert!(none.is_empty());
    assert!(!flag);
    assert!(simplify(&small, &none).is_none());
}

#[test]
fn nested_min_collapses_to_negation() {
    let mut ctx = Context::new();
    let x = ctx.x();
    let y = ctx.y();
    let nx = ctx.neg(x).unwrap();
    let inner = ctx.min(y, nx).unwrap();
    let outer = ctx.min(x, inner).unwrap();
    let tape = buildy(&ctx, outer).unwrap();
    assert_eq!(tape.choice_count(), 2);
    let (out, choices, flag) = run(&tape, [10.0, 11.0], [0.0, 1.0], [-1.0e9, 1.0e9]);
    assert_eq!(out, [-11.0, -10.0]);
    assert!(flag);
    assert_eq!(decode(choices[0]), Choice::Right);
    assert_eq!(decode(choices[1]), Choice::Right);
    let small = simplify(&tape, &choices).unwrap();
    assert_eq!(small.choice_count(), 0);
    assert!(small.len() < tape.len());
    for px in [10.0f32, 10.5, 11.0] {
        for py in [0.0f32, 0.5, 1.0] {
            assert_eq!(at(&small, px, py, 7.0), -px);
            assert_eq!(at(&tape, px, py, 7.0), -px);
        }
    }
}

#[test]
fn overlapping_min_stays() {
    let mut ctx = Context::new();
    let x = ctx.x();
    let y = ctx.y();
    let m = ctx.min(x, y).unwrap();
    let tape = buildy(&ctx, m).unwrap();
    let (out, choices, flag) = run(&tape, [0.0, 2.0], [1.0, 3.0], [0.0, 0.0]);
    assert_eq!(out, [0.0, 2.0]);
    assert_eq!(decode(choices[0]), Choice::Both);
    assert!(!flag);
    assert!(simplify(&tape, &choices).is_none());
}

#[test]
fn empty_region_is_undefined() {
    let mut ctx = Context::new();
    let x = ctx.x();
    let y = ctx.y();
    let m = ctx.min(x, y).unwrap();
    let tape = buildy(&ctx, m).unwrap();
    let (out, choices, flag) = run(&tape, [1.0, 0.0], [2.0, 3.0], [0.0, 0.0]);
    assert!(out[0].is_nan() && out[1].is_nan());
    assert_eq!(choices, vec![0u8]);
    assert!(!flag);
}

#[test]
fn marks_accumulate() {
    let mut ctx = Context::new();
    let x = ctx.x();
    let y = ctx.y();
    let m = ctx.max(x, y).unwrap();
    let tape = buildy(&ctx, m).unwrap();
    let mut choices = vec![0u8; 1];
    let zero = iv(0.0, 0.0);
    eval_interval(&tape, iv(0.0, 1.0), iv(2.0, 3.0), zero, &vec![], &mut choices).unwrap();
    assert_eq!(decode(choices[0]), Choice::Right);
    eval_interval(&tape, iv(5.0, 6.0), iv(2.0, 3.0), zero, &vec![], &mut choices).unwrap();
    assert_eq!(decode(choices[0]), Choice::Both);
}

#[test]
fn specialising_twice_gains_nothing() {
    let mut ctx = Context::new();
    let x = ctx.x();
    let y = ctx.y();
    let z = ctx.z();
    let a = ctx.min(x, y).unwrap();
    let b = ctx.max(y, z).unwrap();
    let c = ctx.min(a, b).unwrap();
    let d = ctx.add(c, a).unwrap();
    let tape = buildy(&ctx, d).unwrap();
    let rx = iv(0.0, 1.0);
    let ry = iv(2.0, 3.0);
    let rz = iv(2.5, 5.0);
    let (i, special) = fidget::laws::specialise(&tape, rx, ry, rz, &vec![]).unwrap();
    let small = special.unwrap();
    assert!(small.choice_count() < tape.choice_count());
    let (j, again) = fidget::laws::specialise(&small, rx, ry, rz, &vec![]).unwrap();
    assert_eq!(bounds(i), bounds(j));
    assert!(again.is_none());
    for (px, py, pz) in [(0.0f32, 2.0f32, 2.5f32), (1.0, 3.0, 5.0), (0.5, 2.5, 3.0)] {
        assert_eq!(at(&small, px, py, pz), at(&tape, px, py, pz));
    }
}

#[test]
fn a_point_lies_in_the_interval_of_its_region() {
    let mut ctx = Context::new();
    let x = ctx.x();
    let y = ctx.y();
    let z = ctx.z();
    let xy = ctx.mul(x, y).unwrap();
    let s = ctx.sub(xy, z).unwrap();
    let q = ctx.square(s).unwrap();
    let h = ctx.constant(0.5f32.to_bits());
    let d = ctx.div(q, h).unwrap();
    let a = ctx.abs(x).unwrap();
    let m = ctx.max(d, a).unwrap();
    let n = ctx.neg(m).unwrap();
    let r = ctx.min(n, y).unwrap();
    let tape = buildy(&ctx, r).unwrap();
    for (px, py, pz) in [(0.25f32, -1.5f32, 2.0f32), (3.0, 0.5, -0.75), (-2.0, -2.0, 1.0)] {
        let v = at(&tape, px, py, pz);
        let (here, _, _) = run(&tape, [px, px], [py, py], [pz, pz]);
        assert_eq!(here, [v, v]);
        let (wide, _, _) =
            run(&tape, [px - 1.0, px + 0.5], [py - 0.25, py + 2.0], [pz - 3.0, pz]);
        assert!(wide[0] <= v && v <= wide[1]);
    }
}

#[test]
fn a_second_evaluation_records_both_everywhere() {
    let mut ctx = Context::new();
    let x = ctx.x();
    let y = ctx.y();
    let z = ctx.z();
    let a = ctx.min(x, y).unwrap();
    let b = ctx.max(y, z).unwrap();
    let c = ctx.min(z, x).unwrap();
    let ab = ctx.add(a, b).unwrap();
    let d = ctx.mul(ab, c).unwrap();
    let tape = buildy(&ctx, d).unwrap();
    assert_eq!(tape.choice_count(), 3);
    let (first, _, flag) = run(&tape, [0.0, 1.0], [2.0, 3.0], [0.5, 5.0]);
    assert!(flag);
    let (i, special) =
        fidget::laws::specialise(&tape, iv(0.0, 1.0), iv(2.0, 3.0), iv(0.5, 5.0), &vec![]).unwrap();
    assert_eq!(bounds(i), first);
    let small = special.unwrap();
    assert_eq!(small.choice_count(), 2);
    let (second, bytes, flag) = run(&small, [0.0, 1.0], [2.0, 3.0], [0.5, 5.0]);
    assert_eq!(second, first);
    assert!(!flag);
    assert_eq!(bytes.len(), 2);
    for byte in bytes {
        assert_eq!(decode(byte), Choice::Both);
    }
}

#[test]
fn a_one_point_region_gives_the_value_at_the_point() {
    let mut ctx = Context::new();
    let x = ctx.x();
    let y = ctx.y();
    let z = ctx.z();
    let xy = ctx.mul(x, y).unwrap();
    let s = ctx.sub(xy, z).unwrap();
    let q = ctx.square(s).unwrap();
    let r = ctx.sqrt(q).unwrap();
    let d = ctx.div(r, y).unwrap();
    let a = ctx.abs(x).unwrap();
    let m = ctx.max(d, a).unwrap();
    let n = ctx.neg(m).unwrap();
    let i = ctx.recip(z).unwrap();
    let root = ctx.min(n, i).unwrap();
    let tape = buildy(&ctx, root).unwrap();
    for (px, py, pz) in [(0.25f32, -1.5f32, 2.0f32), (3.0, 0.5, -0.75), (-2.0, -2.0, 1.0)] {
        let p = at(&tape, px, py, pz);
        let (i, _, _) = run(&tape, [px, px], [py, py], [pz, pz]);
        assert_eq!(i[0].to_bits(), p.to_bits());
        assert_eq!(i[1].to_bits(), p.to_bits());
    }
}

#[test]
fn a_reciprocal_of_zero_is_undefined_on_intervals_alone() {
    let mut ctx = Context::new();
    let x = ctx.x();
    let y = ctx.y();
    let r = ctx.recip(x).unwrap();
    let root = ctx.max(r, y).unwrap();
    let tape = buildy(&ctx, root).unwrap();
    assert_eq!(at(&tape, 0.0, 5.0, 0.0), f32::INFINITY);
    let (i, _, _) = run(&tape, [0.0, 0.0], [5.0, 5.0], [0.0, 0.0]);
    assert_eq!(i, [5.0, 5.0]);
    let lone = buildy(&ctx, r).unwrap();
    let (i, _, _) = run(&lone, [0.0, 0.0], [5.0, 5.0], [0.0, 0.0]);
    assert!(i[0].is_nan() && i[1].is_nan());
}

#[test]
fn the_root_of_an_interval_across_zero_starts_at_zero() {
    for (lo, hi, root) in [(-1.0f32, 4.0f32, 2.0f32), (-0.5, 0.0, 0.0), (-3.0, 2.25, 1.5), (0.0, 16.0, 4.0)] {
        let r = iv(lo, hi).sqrt();
        assert_eq!(bounds(r), [0.0, root]);
    }
    let r = iv(-1.0, f32::INFINITY).sqrt();
    assert_eq!(bounds(r), [0.0, f32::INFINITY]);
    let r = iv(-2.0, -1.0).sqrt();
    assert!(f32::from_bits(r.lower).is_nan() && f32::from_bits(r.upper).is_nan());
}

#[test]
fn a_root_below_zero_breaks_a_decided_minimum() {
    let mut ctx = Context::new();
    let x = ctx.x();
    let y = ctx.y();
    let r = ctx.sqrt(x).unwrap();
    let root = ctx.min(r, y).unwrap();
    let tape = buildy(&ctx, root).unwrap();
    let (i, choices, flag) = run(&tape, [-1.0, 4.0], [3.0, 4.0], [0.0, 0.0]);
    assert_eq!(i, [0.0, 2.0]);
    assert!(flag);
    assert_eq!(decode(choices[0]), Choice::Left);
    let small = simplify(&tape, &choices).unwrap();
    assert_eq!(small.choice_count(), 0);
    // inside the region, where the root is defined, the two agree
    assert_eq!(at(&tape, 4.0, 3.5, 0.0), 2.0);
    assert_eq!(at(&small, 4.0, 3.5, 0.0), 2.0);
    assert_eq!(at(&tape, 0.0, 3.0, 0.0), 0.0);
    assert_eq!(at(&small, 0.0, 3.0, 0.0), 0.0);
    // below zero the root is undefined, and the minimum passes it over
    assert_eq!(at(&tape, -1.0, 3.5, 0.0), 3.5);
    assert!(at(&small, -1.0, 3.5, 0.0).is_nan());
}
