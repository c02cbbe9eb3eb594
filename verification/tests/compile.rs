use fidget::context::Context;
use fidget::tape::{buildy, compile};

#[test]
fn compiles_a_coordinate() {
    let mut ctx = Context::new();
    let x = ctx.x();
    let tape = buildy(&ctx, x).unwrap();
    assert_eq!(tape.len(), 1);
    assert_eq!(tape.choice_count(), 0);
}

#[test]
fn compiles_a_sum() {
    let mut ctx = Context::new();
    let x = ctx.x();
    let y = ctx.y();
    let two = ctx.constant(2.5f32.to_bits());
    let y2 = ctx.mul(y, two).unwrap();
    let sum = ctx.add(x, y2).unwrap();
    let tape = compile(&ctx, sum, 24).unwrap();
    assert_eq!(tape.ssa().len(), 4);
}
