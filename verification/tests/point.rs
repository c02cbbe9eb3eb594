use fidget::context::{Context, Node};
use fidget::point::eval_point;
use fidget::tape::{buildy, compile, Tape};

fn at(tape: &Tape, x: f32, y: f32, z: f32) -> f32 {
    let mut choices = vec![0u8; tape.choice_count()];
    let (v, _) =
        eval_point(tape, x.to_bits(), y.to_bits(), z.to_bits(), &vec![], &mut choices).unwrap();
    f32::from_bits(v)
}

#[test]
fn test_dynasm() {
    let mut ctx = Context::new();
    let x = ctx.x();
    let y = ctx.y();
    let two = ctx.constant(2.5f32.to_bits());
    let y2 = ctx.mul(y, two).unwrap();
    let sum = ctx.add(x, y2).unwrap();

    let tape = buildy(&ctx, sum).unwrap();
    assert_eq!(at(&tape, 1.0, 2.0, 0.0), 6.0);
}

#[test]
fn point_of_a_coordinate() {
    let mut ctx = Context::new();
    let x = ctx.x();
    let tape = buildy(&ctx, x).unwrap();
    assert_eq!(at(&tape, 0.5, 0.0, 0.0), 0.5);
}

fn chain(ctx: &mut Context, adds: usize) -> Node {
    let x = ctx.x();
    let y = ctx.y();
    let mut f = ctx.add(x, y).unwrap();
    for _ in 1..adds {
        let m = ctx.mul(f, x).unwrap();
        f = ctx.add(m, y).unwrap();
    }
    f
}

#[test]
fn register_pressure_chain() {
    let mut ctx = Context::new();
    let f = chain(&mut ctx, 40);
    let tape = compile(&ctx, f, 4).unwrap();
    for op in tape.ops().iter() {
        assert!(op.out < 4 && op.lhs < 4 && op.rhs < 4);
    }
    assert_eq!(at(&tape, 1.0, 1.0, 0.0), 41.0);
    let mut expect = 2.0f32 + 3.0;
    for _ in 1..40 {
        expect = expect * 2.0 + 3.0;
    }
    assert_eq!(at(&tape, 2.0, 3.0, 0.0), expect);
}

fn wide(ctx: &mut Context, depth: usize, salt: &mut u32) -> Node {
    if depth == 0 {
        *salt += 1;
        let c = ctx.constant((*salt as f32).to_bits());
        let x = ctx.x();
        let y = ctx.y();
        let a = ctx.mul(x, c).unwrap();
        return ctx.add(a, y).unwrap();
    }
    let l = wide(ctx, depth - 1, salt);
    let r = wide(ctx, depth - 1, salt);
    if depth % 2 == 0 {
        ctx.mul(l, r).unwrap()
    } else {
        ctx.sub(l, r).unwrap()
    }
}

fn wide_value(depth: usize, salt: &mut u32, x: f32, y: f32) -> f32 {
    if depth == 0 {
        *salt += 1;
        return x * (*salt as f32) + y;
    }
    let l = wide_value(depth - 1, salt, x, y);
    let r = wide_value(depth - 1, salt, x, y);
    if depth % 2 == 0 {
        l * r
    } else {
        l - r
    }
}

#[test]
fn spills_with_few_registers() {
    let mut ctx = Context::new();
    let mut salt = 0;
    let root = wide(&mut ctx, 6, &mut salt);
    let tape = compile(&ctx, root, 4).unwrap();
    assert!(tape.slot_count() > 4);
    let mut stored = std::collections::HashSet::new();
    for op in tape.ops().iter() {
        match op.code {
            fidget::op::OpCode::Store => {
                stored.insert(op.slot);
            }
            fidget::op::OpCode::Load => {
                assert!(stored.contains(&op.slot));
            }
            _ => {}
        }
    }
    let mut salt = 0;
    let expect = wide_value(6, &mut salt, 0.5, 0.25);
    assert_eq!(at(&tape, 0.5, 0.25, 0.0), expect);
    let wide_tape = compile(&ctx, root, 24).unwrap();
    assert_eq!(at(&wide_tape, 0.5, 0.25, 0.0), expect);
}

#[test]
fn gradient_of_a_product() {
    let mut ctx = Context::new();
    let x = ctx.x();
    let y = ctx.y();
    let xy = ctx.mul(x, y).unwrap();
    let z = ctx.z();
    let s = ctx.add(xy, z).unwrap();
    let tape = buildy(&ctx, s).unwrap();
    let g = fidget::grad::eval_gradient(
        &tape,
        2.0f32.to_bits(),
        3.0f32.to_bits(),
        5.0f32.to_bits(),
        &vec![],
    )
    .unwrap();
    assert_eq!(f32::from_bits(g.v), 11.0);
    assert_eq!(f32::from_bits(g.dx), 3.0);
    assert_eq!(f32::from_bits(g.dy), 2.0);
    assert_eq!(f32::from_bits(g.dz), 1.0);
}

#[test]
fn gradient_of_a_distance() {
    let mut ctx = Context::new();
    let x = ctx.x();
    let y = ctx.y();
    let x2 = ctx.square(x).unwrap();
    let y2 = ctx.square(y).unwrap();
    let s = ctx.add(x2, y2).unwrap();
    let d = ctx.sqrt(s).unwrap();
    let tape = buildy(&ctx, d).unwrap();
    let g = fidget::grad::eval_gradient(&tape, 3.0f32.to_bits(), 4.0f32.to_bits(), 0, &vec![])
        .unwrap();
    assert_eq!(f32::from_bits(g.v), 5.0);
    assert_eq!(f32::from_bits(g.dx), 0.6);
    assert_eq!(f32::from_bits(g.dy), 0.8);
    assert_eq!(f32::from_bits(g.dz), 0.0);
}

#[test]
fn slices_are_points() {
    let mut ctx = Context::new();
    let x = ctx.x();
    let y = ctx.y();
    let m = ctx.min(x, y).unwrap();
    let tape = buildy(&ctx, m).unwrap();
    let xs: Vec<u32> = [0.0f32, 1.0, 2.0, 3.0].iter().map(|v| v.to_bits()).collect();
    let ys: Vec<u32> = [3.0f32, 2.0, 1.0, 0.0].iter().map(|v| v.to_bits()).collect();
    let zs = vec![0u32; 4];
    let out = fidget::point::eval_slice(&tape, &xs, &ys, &zs, &vec![]).unwrap();
    let got: Vec<f32> = out.iter().map(|b| f32::from_bits(*b)).collect();
    assert_eq!(got, vec![0.0, 1.0, 1.0, 0.0]);
    let short = fidget::point::eval_slice(&tape, &xs, &ys[..2].to_vec(), &zs, &vec![]).unwrap();
    assert_eq!(short.len(), 2);
}

#[test]
fn variables_are_read() {
    let mut ctx = Context::new();
    let x = ctx.x();
    let v = ctx.var(1);
    let s = ctx.mul(x, v).unwrap();
    let tape = buildy(&ctx, s).unwrap();
    let mut choices = vec![];
    let vars = vec![7.0f32.to_bits(), 3.0f32.to_bits()];
    let (out, _) = eval_point(&tape, 2.0f32.to_bits(), 0, 0, &vars, &mut choices).unwrap();
    assert_eq!(f32::from_bits(out), 6.0);
    let few = vec![7.0f32.to_bits()];
    assert_eq!(
        eval_point(&tape, 2.0f32.to_bits(), 0, 0, &few, &mut choices),
        Err(fidget::error::Error::VarBindingMissing)
    );
}

#[test]
fn point_choices_are_recorded() {
    let mut ctx = Context::new();
    let x = ctx.x();
    let y = ctx.y();
    let m = ctx.min(x, y).unwrap();
    let tape = buildy(&ctx, m).unwrap();
    let mut choices = vec![0u8; 1];
    let (v, flag) =
        eval_point(&tape, 1.0f32.to_bits(), 2.0f32.to_bits(), 0, &vec![], &mut choices).unwrap();
    assert_eq!(f32::from_bits(v), 1.0);
    assert!(flag);
    assert_eq!(choices[0], 3);
    let (v, flag) =
        eval_point(&tape, 5.0f32.to_bits(), 2.0f32.to_bits(), 0, &vec![], &mut choices).unwrap();
    assert_eq!(f32::from_bits(v), 2.0);
    assert!(flag);
    assert_eq!(choices[0], 5);
    let (v, flag) =
        eval_point(&tape, 2.0f32.to_bits(), 2.0f32.to_bits(), 0, &vec![], &mut choices).unwrap();
    assert_eq!(f32::from_bits(v), 2.0);
    assert!(!flag);
    assert_eq!(choices[0], 7);
}

#[test]
fn same_expression_same_tape() {
    let mut a = Context::new();
    let fa = chain(&mut a, 12);
    let mut b = Context::new();
    let fb = chain(&mut b, 12);
    let ta = compile(&a, fa, 5).unwrap();
    let tb = compile(&b, fb, 5).unwrap();
    assert_eq!(ta.ops(), tb.ops());
    assert_eq!(ta.ssa(), tb.ssa());
    assert_eq!(ta.slot_count(), tb.slot_count());
}

fn most_in_memory(tape: &fidget::tape::Tape) -> usize {
    let ops = tape.ops();
    let limit = tape.reg_limit() as usize;
    let mut most = 0;
    for p in 0..=ops.len() {
        let mut count = 0;
        for m in limit..tape.slot_count() {
            let mut held = false;
            for op in ops[p..].iter() {
                if op.slot == m && op.code == fidget::op::OpCode::Store {
                    break;
                }
                if op.slot == m && op.code == fidget::op::OpCode::Load {
                    held = true;
                    break;
                }
            }
            if held {
                count += 1;
            }
        }
        most = most.max(count);
    }
    most
}

#[test]
fn no_more_slots_than_values_in_memory_at_once() {
    for depth in 1..8 {
        for limit in [4u8, 5, 7, 24] {
            let mut ctx = Context::new();
            let mut salt = 0;
            let root = wide(&mut ctx, depth, &mut salt);
            let tape = compile(&ctx, root, limit).unwrap();
            assert_eq!(tape.slot_count(), limit as usize + most_in_memory(&tape));
        }
    }
    let mut ctx = Context::new();
    let mut salt = 0;
    let root = wide(&mut ctx, 7, &mut salt);
    let tape = compile(&ctx, root, 4).unwrap();
    let loads = tape.ops().iter().filter(|op| op.code == fidget::op::OpCode::Load).count();
    assert!(loads > tape.slot_count() - 4);
}
