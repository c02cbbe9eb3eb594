use fidget::choice::Choice;
use fidget::context::{Context, Node};
use fidget::error::Error;
use fidget::groups::{find_groups, DnfClause};
use fidget::interval::{eval_interval, Interval};
use fidget::plan::schedule;
use fidget::point::eval_point;
use fidget::schedule::{assign_choices, pick_inline};
use fidget::simplify::simplify;
use fidget::tape::{buildy, compile, Tape};

fn big_a(ctx: &mut Context) -> Node {
    let x = ctx.x();
    let y = ctx.y();
    let xx = ctx.mul(x, x).unwrap();
    let yy = ctx.mul(y, y).unwrap();
    let s = ctx.add(xx, yy).unwrap();
    let t = ctx.add(x, y).unwrap();
    ctx.mul(s, t).unwrap()
}

fn big_b(ctx: &mut Context) -> Node {
    let x = ctx.x();
    let y = ctx.y();
    let z = ctx.z();
    let xy = ctx.mul(x, y).unwrap();
    let zz = ctx.mul(z, z).unwrap();
    let s = ctx.sub(xy, zz).unwrap();
    let t = ctx.sub(y, z).unwrap();
    ctx.mul(s, t).unwrap()
}

fn value_a(x: f32, y: f32) -> f32 {
    (x * x + y * y) * (x + y)
}

fn value_b(x: f32, y: f32, z: f32) -> f32 {
    (x * y - z * z) * (y - z)
}

fn at(tape: &Tape, x: f32, y: f32, z: f32) -> f32 {
    let mut choices = vec![0u8; tape.choice_count()];
    let (v, _) =
        eval_point(tape, x.to_bits(), y.to_bits(), z.to_bits(), &vec![], &mut choices).unwrap();
    f32::from_bits(v)
}

#[test]
fn small_nodes_are_inline() {
    let mut ctx = Context::new();
    let a = big_a(&mut ctx);
    let inline = pick_inline(&ctx, a, 7).unwrap();
    // x, y, x*x, y*y, x*x + y*y, x + y, root
    assert_eq!(inline, vec![true, true, true, true, true, true, false]);
    let tight = pick_inline(&ctx, a, 3).unwrap();
    assert_eq!(tight, vec![true, true, true, true, false, true, false]);
    let none = pick_inline(&ctx, a, 0).unwrap();
    assert_eq!(none, vec![false; 7]);
    let part = pick_inline(&ctx, Node(4), 100).unwrap();
    assert_eq!(part, vec![true, true, true, true, true, false, false]);
    assert_eq!(pick_inline(&ctx, Node(7), 7), Err(Error::InvalidNode));
}

#[test]
fn choices_are_numbered_from_the_root() {
    let mut ctx = Context::new();
    let x = ctx.x();
    let y = ctx.y();
    let z = ctx.z();
    let inner = ctx.min(x, y).unwrap();
    let other = ctx.max(y, z).unwrap();
    let spare = ctx.max(x, z).unwrap();
    let sum = ctx.add(inner, other).unwrap();
    let root = ctx.min(sum, x).unwrap();
    let ids = assign_choices(&ctx, root).unwrap();
    assert_eq!(ids[root.0], Some(0));
    assert_eq!(ids[other.0], Some(1));
    assert_eq!(ids[inner.0], Some(2));
    assert_eq!(ids[spare.0], None);
    assert_eq!(ids[sum.0], None);
    assert_eq!(ids.iter().filter(|i| i.is_some()).count(), 3);
    let tape = buildy(&ctx, root).unwrap();
    assert_eq!(tape.choice_count(), 3);
}

#[test]
fn branches_of_a_choice_are_groups() {
    let mut ctx = Context::new();
    let a = big_a(&mut ctx);
    let b = big_b(&mut ctx);
    let root = ctx.min(a, b).unwrap();
    let mut inline = pick_inline(&ctx, root, 7).unwrap();
    inline[root.0] = false;
    let ids = assign_choices(&ctx, root).unwrap();
    let found = find_groups(&ctx, root, &inline, &ids).unwrap();
    assert_eq!(found.groups.len(), 3);
    assert_eq!(found.groups[0].nodes, vec![root]);
    assert_eq!(found.groups[0].dnf, vec![None]);
    assert_eq!(found.groups[1].nodes, vec![b]);
    assert_eq!(found.groups[1].dnf, vec![Some(DnfClause { root: 0, choice: Choice::Right })]);
    assert_eq!(found.groups[2].nodes, vec![a]);
    assert_eq!(found.groups[2].dnf, vec![Some(DnfClause { root: 0, choice: Choice::Left })]);
    assert_eq!(found.home[root.0], Some(0));
    assert_eq!(found.home[a.0], Some(2));
    assert_eq!(found.home[0], None);

    let plan = schedule(&ctx, root, 7).unwrap();
    assert_eq!(plan.order, vec![0, 1, 2]);
    assert_eq!(plan.members[0], vec![root]);
    assert_eq!(plan.members[2].len(), 7);
    assert!(plan.members[2].windows(2).all(|w| w[0].0 > w[1].0));
    assert!(plan.globals[root.0] && plan.globals[a.0] && plan.globals[b.0]);
    assert_eq!(plan.globals.iter().filter(|g| **g).count(), 3);
    assert_eq!(plan.parents[0], Vec::<usize>::new());
    assert_eq!(plan.parents[1], vec![0]);
    assert_eq!(plan.parents[2], vec![0]);

    let tape = compile(&ctx, root, 24).unwrap();
    // x and y are computed once for each group that uses them
    assert_eq!(tape.ssa().len(), 1 + 7 + 8);
    for (x, y, z) in [(1.0f32, 2.0f32, 3.0f32), (-1.5, 0.25, 4.0), (0.0, 0.0, 0.0), (3.0, -2.0, 1.0)] {
        assert_eq!(at(&tape, x, y, z), value_a(x, y).min(value_b(x, y, z)));
    }
    let few = compile(&ctx, root, 4).unwrap();
    for (x, y, z) in [(1.0f32, 2.0f32, 3.0f32), (-1.5, 0.25, 4.0)] {
        assert_eq!(at(&few, x, y, z), value_a(x, y).min(value_b(x, y, z)));
    }
}

#[test]
fn groups_in_a_cycle_are_refused() {
    let mut ctx = Context::new();
    let shared = big_a(&mut ctx);
    let b = big_b(&mut ctx);
    let two = ctx.constant(2.0f32.to_bits());
    let left = ctx.mul(shared, two).unwrap();
    let m = ctx.min(left, b).unwrap();
    let root = ctx.add(shared, m).unwrap();
    assert_eq!(schedule(&ctx, root, 7).err(), Some(Error::MalformedExpr));
    assert_eq!(buildy(&ctx, root).err(), Some(Error::MalformedExpr));
    // with everything inline there is one group, and no cycle
    assert!(schedule(&ctx, root, 1000).is_ok());
}

#[test]
fn a_dead_ambiguous_choice_is_dropped() {
    let mut ctx = Context::new();
    let x = ctx.x();
    let y = ctx.y();
    let z = ctx.z();
    let inner = ctx.min(y, z).unwrap();
    let root = ctx.min(x, inner).unwrap();
    let tape = buildy(&ctx, root).unwrap();
    let mut choices = vec![0u8; 2];
    let (out, flag) = eval_interval(
        &tape,
        Interval::new(0.0f32.to_bits(), 1.0f32.to_bits()),
        Interval::new(5.0f32.to_bits(), 6.0f32.to_bits()),
        Interval::new(5.0f32.to_bits(), 6.0f32.to_bits()),
        &vec![],
        &mut choices,
    )
    .unwrap();
    assert_eq!([f32::from_bits(out.lower), f32::from_bits(out.upper)], [0.0, 1.0]);
    assert!(flag);
    assert_eq!(fidget::choice::decode(choices[0]), Choice::Left);
    assert_eq!(fidget::choice::decode(choices[1]), Choice::Both);
    let small = simplify(&tape, &choices).unwrap();
    assert_eq!(small.choice_count(), 0);
    assert_eq!(at(&small, 0.5, 5.5, 5.25), 0.5);
}

#[test]
fn a_live_ambiguous_choice_is_kept() {
    let mut ctx = Context::new();
    let x = ctx.x();
    let y = ctx.y();
    let z = ctx.z();
    let inner = ctx.min(y, z).unwrap();
    let root = ctx.max(x, inner).unwrap();
    let tape = buildy(&ctx, root).unwrap();
    let mut choices = vec![0u8; 2];
    eval_interval(
        &tape,
        Interval::new(0.0f32.to_bits(), 1.0f32.to_bits()),
        Interval::new(5.0f32.to_bits(), 6.0f32.to_bits()),
        Interval::new(5.0f32.to_bits(), 6.0f32.to_bits()),
        &vec![],
        &mut choices,
    )
    .unwrap();
    assert_eq!(fidget::choice::decode(choices[0]), Choice::Right);
    assert_eq!(fidget::choice::decode(choices[1]), Choice::Both);
    let small = simplify(&tape, &choices).unwrap();
    assert_eq!(small.choice_count(), 1);
    assert!(small.choice_count() <= tape.choice_count());
    assert_eq!(at(&small, 0.5, 5.5, 5.25), 5.25);
    let mut again = vec![0u8; 1];
    let (_, flag) = eval_interval(
        &small,
        Interval::new(0.0f32.to_bits(), 1.0f32.to_bits()),
        Interval::new(5.0f32.to_bits(), 6.0f32.to_bits()),
        Interval::new(5.0f32.to_bits(), 6.0f32.to_bits()),
        &vec![],
        &mut again,
    )
    .unwrap();
    assert!(!flag);
    assert!(simplify(&small, &again).is_none());
}

#[test]
fn a_constant_root_is_copied() {
    let mut ctx = Context::new();
    let c = ctx.constant(4.5f32.to_bits());
    let tape = buildy(&ctx, c).unwrap();
    assert_eq!(tape.len(), 1);
    assert_eq!(at(&tape, 1.0, 2.0, 3.0), 4.5);
}

#[test]
fn constants_are_immediate_operands() {
    let mut ctx = Context::new();
    let x = ctx.x();
    let c = ctx.constant(10.0f32.to_bits());
    let a = ctx.sub(c, x).unwrap();
    let b = ctx.div(a, c).unwrap();
    let d = ctx.div(c, b).unwrap();
    let e = ctx.min(c, d).unwrap();
    let tape = buildy(&ctx, e).unwrap();
    assert_eq!(tape.ssa().len(), 5);
    assert_eq!(at(&tape, 2.0, 0.0, 0.0), (10.0f32 / ((10.0 - 2.0) / 10.0)).min(10.0));
    assert_eq!(at(&tape, 9.0, 0.0, 0.0), 10.0);
}
