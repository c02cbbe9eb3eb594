use fidget::context::Context;
use fidget::render::{render, render_tile, render_tile_recurse, Pixel, RenderConfig, Tile};
use fidget::tape::buildy;

fn config(image: usize, tile: usize, sub: usize) -> RenderConfig {
    RenderConfig {
        image_size: image,
        tile_size: tile,
        subtile_size: sub,
        interval_subdiv: 3,
        threads: 1,
    }
}

fn circle(ctx: &mut Context, r: f32) -> fidget::context::Node {
    let x = ctx.x();
    let y = ctx.y();
    let x2 = ctx.square(x).unwrap();
    let y2 = ctx.square(y).unwrap();
    let s = ctx.add(x2, y2).unwrap();
    let d = ctx.sqrt(s).unwrap();
    let c = ctx.constant(r.to_bits());
    ctx.sub(d, c).unwrap()
}

#[test]
fn colors_of_pixels() {
    assert_eq!(Pixel::EmptyTile.as_color(), [50, 0, 0, 255]);
    assert_eq!(Pixel::FilledTile.as_color(), [255, 0, 0, 255]);
    assert_eq!(Pixel::EmptySubtile.as_color(), [0, 50, 0, 255]);
    assert_eq!(Pixel::FilledSubtile.as_color(), [0, 255, 0, 255]);
    assert_eq!(Pixel::Empty.as_color(), [0, 0, 0, 255]);
    assert_eq!(Pixel::Filled.as_color(), [255, 255, 255, 255]);
}

#[test]
fn pixel_positions() {
    let cfg = config(64, 16, 4);
    assert_eq!(f32::from_bits(cfg.pixel_to_pos(0)), -1.0);
    assert_eq!(f32::from_bits(cfg.pixel_to_pos(32)), 0.0);
    assert_eq!(f32::from_bits(cfg.pixel_to_pos(64)), 1.0);
    assert_eq!(f32::from_bits(cfg.pixel_to_pos(16)), -0.5);
    assert_eq!(f32::from_bits(cfg.pixel_to_pos(3)), 2.0 * 3.0 / 64.0 - 1.0);
}

#[test]
fn renders_a_circle() {
    let mut ctx = Context::new();
    let root = circle(&mut ctx, 0.75);
    let tape = buildy(&ctx, root).unwrap();
    let cfg = config(64, 16, 4);
    let image = render(&tape, &cfg).unwrap();
    assert_eq!(image.len(), 64 * 64);
    for row in 0..64usize {
        for x in 0..64usize {
            let y = 63 - row;
            let px = 2.0 * (x as f32) / 64.0 - 1.0;
            let py = 2.0 * (y as f32) / 64.0 - 1.0;
            let far = (px * px + py * py).sqrt() - 0.75;
            let inside = match image[x + row * 64] {
                Pixel::Filled | Pixel::FilledTile | Pixel::FilledSubtile => true,
                _ => false,
            };
            if far < -0.1 {
                assert!(inside, "pixel {x} {y} should be filled");
            }
            if far > 0.1 {
                assert!(!inside, "pixel {x} {y} should be empty");
            }
            match image[x + row * 64] {
                Pixel::Filled => assert!(far < 0.0),
                Pixel::Empty => assert!(far >= 0.0),
                _ => {}
            }
        }
    }
    assert_eq!(image[0], Pixel::EmptySubtile);
    assert_eq!(image[32 + 31 * 64], Pixel::FilledTile);
}

#[test]
fn a_tile_far_outside_is_empty() {
    let mut ctx = Context::new();
    let root = circle(&mut ctx, 0.25);
    let tape = buildy(&ctx, root).unwrap();
    let cfg = config(64, 16, 4);
    let pixels = render_tile(&tape, &cfg, Tile { corner: [0, 0] }).unwrap();
    assert_eq!(pixels.len(), 256);
    assert!(pixels.iter().all(|p| *p == Pixel::EmptyTile));
}

#[test]
fn a_tape_with_a_variable_is_refused() {
    let mut ctx = Context::new();
    let x = ctx.x();
    let v = ctx.var(0);
    let root = ctx.add(x, v).unwrap();
    let tape = buildy(&ctx, root).unwrap();
    let cfg = config(16, 16, 4);
    assert_eq!(render(&tape, &cfg).err(), Some(fidget::error::Error::VarBindingMissing));
}

#[test]
fn a_decided_square_of_the_only_size_is_a_subtile() {
    let mut ctx = Context::new();
    let root = circle(&mut ctx, 0.25);
    let tape = buildy(&ctx, root).unwrap();
    let cfg = config(64, 16, 4);
    let mut out: Vec<Option<Pixel>> = vec![None; 256];
    render_tile_recurse(&tape, &mut out, &cfg, &vec![16], 0, Tile { corner: [0, 0] }).unwrap();
    assert!(out.iter().all(|p| *p == Some(Pixel::EmptySubtile)));

    let mut ctx = Context::new();
    let root = circle(&mut ctx, 4.0);
    let tape = buildy(&ctx, root).unwrap();
    let mut out: Vec<Option<Pixel>> = vec![None; 256];
    render_tile_recurse(&tape, &mut out, &cfg, &vec![16], 0, Tile { corner: [16, 16] }).unwrap();
    assert!(out.iter().all(|p| *p == Some(Pixel::FilledSubtile)));
}

#[test]
fn a_decided_square_is_a_tile_while_a_smaller_size_follows() {
    let mut ctx = Context::new();
    let root = circle(&mut ctx, 4.0);
    let tape = buildy(&ctx, root).unwrap();
    let cfg = config(64, 16, 4);
    let mut out: Vec<Option<Pixel>> = vec![None; 256];
    render_tile_recurse(&tape, &mut out, &cfg, &vec![16, 8, 4], 1, Tile { corner: [8, 0] }).unwrap();
    for row in 0..16 {
        for col in 0..16 {
            let inside = row < 8 && col >= 8;
            let expected = if inside { Some(Pixel::FilledTile) } else { None };
            assert_eq!(out[row * 16 + col], expected);
        }
    }
    let mut out: Vec<Option<Pixel>> = vec![None; 256];
    render_tile_recurse(&tape, &mut out, &cfg, &vec![16, 8, 4], 2, Tile { corner: [4, 12] }).unwrap();
    for row in 0..16 {
        for col in 0..16 {
            let inside = row >= 12 && (4..8).contains(&col);
            let expected = if inside { Some(Pixel::FilledSubtile) } else { None };
            assert_eq!(out[row * 16 + col], expected);
        }
    }
}
