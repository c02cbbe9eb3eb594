use fidget::context::{Axis, BinaryOpcode, Context, Node, Op, UnaryOpcode};
use fidget::choice::{decode, mark, replace, set_has_value, value_written, Choice};
use fidget::error::Error;
use fidget::scalar::{abs, difference, from_int, le, lt, max, min, neg, product, quotient, sum};

fn c(ctx: &mut Context, v: f32) -> Node {
    ctx.constant(v.to_bits())
}

fn value(ctx: &Context, n: Node) -> f32 {
    f32::from_bits(ctx.const_value(n).unwrap().unwrap())
}

#[test]
fn equal_expressions_share_a_node() {
    let mut ctx = Context::new();
    let x1 = ctx.x();
    let x2 = ctx.x();
    assert_eq!(x1, x2);
    let y = ctx.y();
    let a = ctx.add(x1, y).unwrap();
    let b = ctx.add(x2, y).unwrap();
    assert_eq!(a, b);
    let d = ctx.add(y, x1).unwrap();
    assert_ne!(a, d);
    assert_eq!(ctx.len(), 4);
    assert_eq!(ctx.get_op(a).unwrap(), Op::Binary(BinaryOpcode::Add, x1, y));
    assert_eq!(ctx.get_op(x1).unwrap(), Op::Input(Axis::X));
}

#[test]
fn constants_fold() {
    let mut ctx = Context::new();
    let two = c(&mut ctx, 2.0);
    let three = c(&mut ctx, 3.0);
    let s = ctx.add(two, three).unwrap();
    assert_eq!(value(&ctx, s), 5.0);
    let p = ctx.mul(two, three).unwrap();
    assert_eq!(value(&ctx, p), 6.0);
    let d = ctx.sub(two, three).unwrap();
    assert_eq!(value(&ctx, d), -1.0);
    let q = ctx.div(three, two).unwrap();
    assert_eq!(value(&ctx, q), 1.5);
    let lo = ctx.min(two, three).unwrap();
    assert_eq!(lo, two);
    let hi = ctx.max(two, three).unwrap();
    assert_eq!(hi, three);
    let n = ctx.neg(two).unwrap();
    assert_eq!(value(&ctx, n), -2.0);
    let a = ctx.abs(n).unwrap();
    assert_eq!(a, two);
    let r = ctx.recip(two).unwrap();
    assert_eq!(value(&ctx, r), 0.5);
    let sq = ctx.square(three).unwrap();
    assert_eq!(value(&ctx, sq), 9.0);
    let nine = sq;
    let root = ctx.sqrt(nine).unwrap();
    assert_eq!(root, three);
}

#[test]
fn identities_apply() {
    let mut ctx = Context::new();
    let x = ctx.x();
    let zero = c(&mut ctx, 0.0);
    let one = c(&mut ctx, 1.0);
    assert_eq!(ctx.add(x, zero).unwrap(), x);
    assert_eq!(ctx.sub(x, zero).unwrap(), x);
    assert_eq!(ctx.mul(x, one).unwrap(), x);
    let gone = ctx.mul(x, zero).unwrap();
    assert_eq!(ctx.const_value(gone).unwrap(), Some(0));
    assert_eq!(ctx.min(x, x).unwrap(), x);
    assert_eq!(ctx.max(x, x).unwrap(), x);
    let before = ctx.len();
    let kept = ctx.add(zero, x).unwrap();
    assert_ne!(kept, x);
    assert_eq!(ctx.len(), before + 1);
}

#[test]
fn children_of_nodes() {
    let mut ctx = Context::new();
    let x = ctx.x();
    let y = ctx.y();
    let s = ctx.add(x, y).unwrap();
    let n = ctx.neg(s).unwrap();
    assert_eq!(ctx.iter_children(x).unwrap(), vec![]);
    assert_eq!(ctx.iter_children(s).unwrap(), vec![x, y]);
    assert_eq!(ctx.iter_children(n).unwrap(), vec![s]);
    assert_eq!(ctx.const_value(x).unwrap(), None);
    assert_eq!(ctx.get_op(n).unwrap(), Op::Unary(UnaryOpcode::Neg, s));
}

#[test]
fn foreign_nodes_are_refused() {
    let mut ctx = Context::new();
    let x = ctx.x();
    let ghost = Node(17);
    assert_eq!(ctx.get_op(ghost), Err(Error::InvalidNode));
    assert_eq!(ctx.const_value(ghost), Err(Error::InvalidNode));
    assert_eq!(ctx.iter_children(ghost), Err(Error::InvalidNode));
    assert_eq!(ctx.add(x, ghost), Err(Error::InvalidNode));
    assert_eq!(ctx.neg(ghost), Err(Error::InvalidNode));
    assert_eq!(ctx.len(), 1);
    assert_eq!(fidget::tape::buildy(&ctx, ghost).err(), Some(Error::InvalidNode));
    assert_eq!(fidget::tape::compile(&ctx, x, 3).err(), Some(Error::BadRegisterLimit));
    assert!(fidget::tape::compile(&ctx, x, 4).is_ok());
}

#[test]
fn square_roots_are_rounded() {
    for v in [0.0f32, 1.0, 2.0, 3.0, 4.0, 0.5, 1.0e-40, 3.4e38, 1.17549435e-38, 16777216.0, 0.1] {
        let got = f32::from_bits(fidget::root::sqrt(v.to_bits()));
        assert_eq!(got.to_bits(), v.sqrt().to_bits(), "sqrt of {v}");
    }
    let mut bits = 1u32;
    for _ in 0..20000 {
        let v = f32::from_bits(bits);
        assert_eq!(fidget::root::sqrt(bits), v.sqrt().to_bits(), "sqrt of {v}");
        bits = bits.wrapping_mul(1664525).wrapping_add(1013904223) % 0x7f80_0000;
    }
    assert!(f32::from_bits(fidget::root::sqrt((-1.0f32).to_bits())).is_nan());
    assert_eq!(fidget::root::sqrt((-0.0f32).to_bits()), (-0.0f32).to_bits());
    assert_eq!(fidget::root::sqrt(f32::INFINITY.to_bits()), f32::INFINITY.to_bits());
}

fn same(bits: u32, expect: f32) {
    if expect.is_nan() {
        assert!(f32::from_bits(bits).is_nan());
    } else {
        assert_eq!(bits, expect.to_bits());
    }
}

#[test]
fn arithmetic_on_bits_is_ieee() {
    let vals = [0.0f32, -0.0, 1.0, -1.5, 3.25, 1.0e30, -1.0e-30, f32::INFINITY, 0.1, 7.0];
    for a in vals {
        for b in vals {
            let (x, y) = (a.to_bits(), b.to_bits());
            same(sum(x, y), a + b);
            same(difference(x, y), a - b);
            same(product(x, y), a * b);
            same(quotient(x, y), a / b);
            assert_eq!(lt(x, y), a < b);
            assert_eq!(le(x, y), a <= b);
            assert_eq!(f32::from_bits(min(x, y)), a.min(b));
            assert_eq!(f32::from_bits(max(x, y)), a.max(b));
        }
        assert_eq!(neg(a.to_bits()), (-a).to_bits());
        assert_eq!(abs(a.to_bits()), a.abs().to_bits());
    }
    let nan = f32::NAN.to_bits();
    assert!(!lt(nan, 0) && !lt(0, nan) && !le(nan, nan));
    assert_eq!(min(nan, 5.0f32.to_bits()), 5.0f32.to_bits());
    assert_eq!(max(5.0f32.to_bits(), nan), 5.0f32.to_bits());
    for n in [0u64, 1, 2, 3, 16777216, 16777217, 33554435, u64::MAX] {
        assert_eq!(from_int(n), (n as f32).to_bits());
    }
}

#[test]
fn choice_bytes() {
    assert_eq!(decode(0), Choice::Unknown);
    assert_eq!(decode(2), Choice::Left);
    assert_eq!(decode(3), Choice::Left);
    assert_eq!(decode(4), Choice::Right);
    assert_eq!(decode(6), Choice::Both);
    assert_eq!(decode(7), Choice::Both);
    assert_eq!(mark(0, Choice::Left), 2);
    assert_eq!(mark(2, Choice::Left), 2);
    assert_eq!(mark(2, Choice::Right), 6);
    assert_eq!(mark(1, Choice::Right), 5);
    assert_eq!(mark(6, Choice::Left), 6);
    assert_eq!(replace(7, Choice::Right), 5);
    assert_eq!(replace(6, Choice::Unknown), 0);
    assert_eq!(set_has_value(4), 5);
    assert_eq!(set_has_value(5), 5);
    assert!(value_written(3) && !value_written(6));
}
