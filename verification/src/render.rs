//! Rendering of a tape to an image of pixels, tile by tile.
//!
//! A tile is first evaluated as a whole, on the interval of its
//! coordinates.  If the tape is below zero everywhere in it, or above zero
//! everywhere, all its pixels are filled at once: marked as a tile while a
//! smaller size follows, as a subtile at the last size.  Else the tape is
//! specialised by the choices of that evaluation, and the tile is split:
//! into tiles of the next size, or, at the last size, into single pixels.

use crate::error::Error;
use crate::interval::{eval_interval, is_empty, marked_on, single, ssa_interval, Interval};
use crate::op::SsaOp;
use crate::point::{blank_choices, eval_slice, lacks_var, point_of, point_value};
use crate::scalar::{
    difference, from_int, ieee_div, ieee_from_int, ieee_mul, ieee_sub, less, lt, product,
    quotient, ONE, TWO, ZERO,
};
use crate::simplify::{any_decided, simplified, simplified_choices, simplify};
use crate::term::slot_term;
use crate::tape::Tape;
use vstd::prelude::*;

verus! {

/// What a pixel shows: the result of an interval evaluation on a tile or a
/// subtile, or of a point evaluation.
#[derive(Copy, Clone, PartialEq, Eq, Structural, Debug)]
pub enum Pixel {
    EmptyTile,
    FilledTile,
    EmptySubtile,
    FilledSubtile,
    Empty,
    Filled,
}

/// The colour of a pixel, as red, green, blue and alpha.
pub open spec fn color_of(p: Pixel) -> Seq<u8> {
    match p {
        Pixel::EmptyTile => seq![50u8, 0u8, 0u8, 255u8],
        Pixel::FilledTile => seq![255u8, 0u8, 0u8, 255u8],
        Pixel::EmptySubtile => seq![0u8, 50u8, 0u8, 255u8],
        Pixel::FilledSubtile => seq![0u8, 255u8, 0u8, 255u8],
        Pixel::Empty => seq![0u8, 0u8, 0u8, 255u8],
        Pixel::Filled => seq![255u8, 255u8, 255u8, 255u8],
    }
}

impl Pixel {
    /// The colour of the pixel, as red, green, blue and alpha.
    pub fn as_color(&self) -> (r: [u8; 4])
        ensures
            r@ == color_of(*self),
    {
        let c: [u8; 4] = match self {
            Pixel::EmptyTile => [50, 0, 0, 255],
            Pixel::FilledTile => [255, 0, 0, 255],
            Pixel::EmptySubtile => [0, 50, 0, 255],
            Pixel::FilledSubtile => [0, 255, 0, 255],
            Pixel::Empty => [0, 0, 0, 255],
            Pixel::Filled => [255, 255, 255, 255],
        };
        assert(c@ =~= color_of(*self));
        c
    }
}

/// The sizes of an image and of its tiles, in pixels, and the number of
/// threads that render it.
pub struct RenderConfig {
    pub image_size: usize,
    pub tile_size: usize,
    pub subtile_size: usize,
    pub interval_subdiv: usize,
    pub threads: usize,
}

/// A square of pixels, by its corner with the smallest coordinates.
#[derive(Copy, Clone, Debug)]
pub struct Tile {
    pub corner: [usize; 2],
}

/// The coordinate of the pixel `p` of an image of `image_size` pixels:
/// `2 p / image_size - 1`, which runs from -1 to 1 over the image.
pub open spec fn pos_of(image_size: usize, p: usize) -> u32 {
    ieee_sub(
        ieee_div(ieee_mul(TWO, ieee_from_int(p as u64)), ieee_from_int(image_size as u64)),
        ONE,
    )
}

/// What an interval says of a tile: filled if the expression is below zero
/// everywhere in it, empty if it is above zero everywhere.  `whole` says
/// whether a smaller size follows the tile's own: a tile of the last size
/// is marked as a subtile, also where it is the only size.
pub open spec fn fill_of(i: Interval, whole: bool) -> Option<Pixel> {
    if less(i.upper, ZERO) {
        Some(
            if whole {
                Pixel::FilledTile
            } else {
                Pixel::FilledSubtile
            },
        )
    } else if less(ZERO, i.lower) {
        Some(
            if whole {
                Pixel::EmptyTile
            } else {
                Pixel::EmptySubtile
            },
        )
    } else {
        None
    }
}

/// The region of the square of `size` pixels with the corner `(c0, c1)`, as
/// intervals of coordinates.
pub open spec fn region_at(image_size: usize, c0: int, c1: int, size: int) -> (Interval, Interval) {
    (
        Interval {
            lower: pos_of(image_size, c0 as usize),
            upper: pos_of(image_size, (c0 + size) as usize),
        },
        Interval {
            lower: pos_of(image_size, c1 as usize),
            upper: pos_of(image_size, (c1 + size) as usize),
        },
    )
}

/// The interval of the tape on a tile of `size` pixels.
pub open spec fn tile_interval(tape: &Tape, image_size: usize, tile: Tile, size: usize) -> Interval {
    let (x, y) = region_at(image_size, tile.corner[0] as int, tile.corner[1] as int, size as int);
    ssa_interval(tape.ssa_view(), x, y, single(ZERO), Seq::<u32>::empty())
}

/// What a point evaluation says of a pixel.
pub open spec fn pixel_of(value: u32) -> Pixel {
    if less(value, ZERO) {
        Pixel::Filled
    } else {
        Pixel::Empty
    }
}

/// What the pixel `(px, py)` shows when the square of `sizes[level]` pixels
/// with the corner `(c0, c1)` that holds it is rendered from the tape `ssa`
/// with `count` choices.  If the interval of the tape on the square has one
/// sign, the pixel shows that: as a tile where a smaller size follows, as a
/// subtile at the last size.  Else the tape is specialised by the choices
/// recorded on the square, if one operand alone decided any; at the last
/// size the pixel then shows the sign of that tape at its coordinates, and
/// at any other size what it shows in the square of the next size that
/// holds it.
pub open spec fn shown(
    ssa: Seq<SsaOp>,
    count: int,
    image_size: usize,
    sizes: Seq<usize>,
    level: int,
    c0: int,
    c1: int,
    px: int,
    py: int,
) -> Pixel
    decreases sizes.len() - level,
{
    if 0 <= level < sizes.len() {
        let (rx, ry) = region_at(image_size, c0, c1, sizes[level] as int);
        let none = Seq::<u32>::empty();
        match fill_of(ssa_interval(ssa, rx, ry, single(ZERO), none), level + 1 < sizes.len()) {
            Some(f) => f,
            None => {
                let choices = marked_on(ssa, blank_choices(count), rx, ry, single(ZERO), none).0;
                let sub = if any_decided(choices) {
                    simplified(ssa, choices)
                } else {
                    ssa
                };
                let left = if any_decided(choices) {
                    simplified_choices(ssa, choices) as int
                } else {
                    count
                };
                if level + 1 == sizes.len() {
                    pixel_of(
                        point_of(
                            slot_term(sub, 0),
                            pos_of(image_size, px as usize),
                            pos_of(image_size, py as usize),
                            ZERO,
                            none,
                        ),
                    )
                } else {
                    let next = sizes[level + 1] as int;
                    shown(
                        sub,
                        left,
                        image_size,
                        sizes,
                        level + 1,
                        c0 + ((px - c0) / next) * next,
                        c1 + ((py - c1) / next) * next,
                        px,
                        py,
                    )
                }
            },
        }
    } else {
        Pixel::Empty
    }
}

/// What entry `k` of the buffer shows when `tile`, of `sizes[level]` pixels,
/// is rendered from the tape.
pub open spec fn entry_pixel(
    tape: &Tape,
    config: &RenderConfig,
    sizes: Seq<usize>,
    level: int,
    tile: Tile,
    k: int,
) -> Pixel {
    shown(
        tape.ssa_view(),
        tape.choices(),
        config.image_size,
        sizes,
        level,
        tile.corner[0] as int,
        tile.corner[1] as int,
        tile.corner[0] + (k % (config.tile_size as int) - col_of(config, tile)),
        tile.corner[1] + (k / (config.tile_size as int) - row_of(config, tile)),
    )
}

/// Whether entry `k` of the buffer of a tile of `t` pixels lies in the
/// rectangle of `h` rows from `row` and `w` columns from `col`.
pub open spec fn covered(t: usize, row: int, col: int, w: int, h: int, k: int) -> bool {
    row <= k / (t as int) < row + h && col <= k % (t as int) < col + w
}

/// The row of a tile's corner in the buffer of the tile that holds it.
pub open spec fn row_of(config: &RenderConfig, tile: Tile) -> int {
    (tile.corner[1] % config.tile_size) as int
}

/// The column of a tile's corner in the buffer of the tile that holds it.
pub open spec fn col_of(config: &RenderConfig, tile: Tile) -> int {
    (tile.corner[0] % config.tile_size) as int
}

/// Whether the `w` columns and `h` rows from the corner of `tile` lie in one
/// tile of `tile_size` pixels, with coordinates that fit the machine.
pub open spec fn span_fits(config: &RenderConfig, tile: Tile, w: int, h: int) -> bool {
    &&& 0 < w <= config.tile_size
    &&& 0 < h <= config.tile_size
    &&& config.tile_size * config.tile_size <= usize::MAX
    &&& tile.corner[0] % config.tile_size + w <= config.tile_size
    &&& tile.corner[1] % config.tile_size + h <= config.tile_size
    &&& tile.corner[0] + w <= usize::MAX
    &&& tile.corner[1] + h <= usize::MAX
}

/// Whether a tile of `size` pixels lies in one tile of `tile_size` pixels,
/// with coordinates that fit the machine.
pub open spec fn tile_fits(config: &RenderConfig, tile: Tile, size: usize) -> bool {
    span_fits(config, tile, size as int, size as int)
}

/// What a list of sizes must satisfy: none is zero, each divides the one
/// before it, and the last is a multiple of four.
pub open spec fn sizes_fit(sizes: Seq<usize>) -> bool {
    &&& sizes.len() > 0
    &&& forall|k: int| 0 <= k < sizes.len() ==> #[trigger] sizes[k] > 0
    &&& forall|k: int| 0 < k < sizes.len() ==> sizes[k - 1] % #[trigger] sizes[k] == 0
    &&& sizes.last() % 4 == 0
}

impl RenderConfig {
    /// The coordinate of the pixel `p`.
    pub fn pixel_to_pos(&self, p: usize) -> (r: u32)
        ensures
            r == pos_of(self.image_size, p),
    {
        difference(quotient(product(TWO, from_int(p as u64)), from_int(self.image_size as u64)), ONE)
    }
}

/// Entry `row * t + col` of a buffer is in row `row` and column `col`.
pub proof fn entry_at(t: int, row: int, col: int)
    requires
        0 <= row,
        0 <= col < t,
    ensures
        (row * t + col) / t == row,
        (row * t + col) % t == col,
{
    vstd::arithmetic::div_mod::lemma_fundamental_div_mod_converse(row * t + col, t, row, col);
}

/// A pixel `j` steps from `c`, within the tile of `c`, has the remainder of
/// `c` plus `j`.
pub proof fn same_tile(c: int, size: int, j: int)
    requires
        0 <= c,
        0 < size,
        0 <= j,
        c % size + j < size,
    ensures
        (c + j) % size == c % size + j,
{
    vstd::arithmetic::div_mod::lemma_fundamental_div_mod(c, size);
    assert(c + j == (c / size) * size + (c % size + j)) by (nonlinear_arith)
        requires
            c == size * (c / size) + c % size,
    ;
    vstd::arithmetic::div_mod::lemma_fundamental_div_mod_converse(
        c + j,
        size,
        c / size,
        c % size + j,
    );
}

/// The pixel that the four-pixel row at `tile` shows at entry `k`.
pub open spec fn row_pixel(tape: &Tape, config: &RenderConfig, tile: Tile, k: int) -> Pixel {
    pixel_of(
        point_value(
            tape,
            pos_of(
                config.image_size,
                (tile.corner[0] + (k % (config.tile_size as int) - col_of(config, tile))) as usize,
            ),
            pos_of(config.image_size, tile.corner[1]),
            ZERO,
            Seq::<u32>::empty(),
        ),
    )
}

/// Renders the four pixels of a row that start at the corner of `tile`, each
/// by the sign of the tape at its coordinate.  Fails with
/// `VarBindingMissing`, and changes nothing, if the tape reads a variable.
pub fn render_pixels(tape: &Tape, out: &mut Vec<Option<Pixel>>, config: &RenderConfig, tile: Tile) -> (r:
    Result<(), Error>)
    requires
        span_fits(config, tile, 4, 1),
        old(out).len() == config.tile_size * config.tile_size,
    ensures
        final(out).len() == old(out).len(),
        lacks_var(tape@, 0) ==> r is Err && r->Err_0 == Error::VarBindingMissing && final(out)@
            == old(out)@,
        !lacks_var(tape@, 0) ==> r is Ok,
        r is Ok ==> forall|k: int|
            0 <= k < final(out).len() && covered(
                config.tile_size,
                row_of(config, tile),
                col_of(config, tile),
                4,
                1,
                k,
            ) ==> #[trigger] final(out)[k] == Some(row_pixel(tape, config, tile, k)),
        forall|k: int|
            0 <= k < final(out).len() && !covered(
                config.tile_size,
                row_of(config, tile),
                col_of(config, tile),
                4,
                1,
                k,
            ) ==> #[trigger] final(out)[k] == old(out)[k],
{
    let size = config.tile_size;
    let mut xs: Vec<u32> = Vec::new();
    let mut ys: Vec<u32> = Vec::new();
    let mut zs: Vec<u32> = Vec::new();
    let y = config.pixel_to_pos(tile.corner[1]);
    let mut i: usize = 0;
    while i < 4
        invariant
            i <= 4,
            tile.corner[0] + 4 <= usize::MAX,
            xs.len() == i,
            ys.len() == i,
            zs.len() == i,
            y == pos_of(config.image_size, tile.corner[1]),
            forall|k: int|
                0 <= k < i ==> #[trigger] xs[k] == pos_of(
                    config.image_size,
                    (tile.corner[0] + k) as usize,
                ) && ys[k] == y && zs[k] == ZERO,
        decreases 4 - i,
    {
        xs.push(config.pixel_to_pos(tile.corner[0] + i));
        ys.push(y);
        zs.push(ZERO);
        i = i + 1;
    }
    let vars: Vec<u32> = Vec::new();
    assert(vars@ =~= Seq::<u32>::empty());
    let values = match eval_slice(tape, &xs, &ys, &zs, &vars) {
        Ok(v) => v,
        Err(e) => {
            return Err(e);
        },
    };
    let col = tile.corner[0] % size;
    let row = tile.corner[1] % size;
    assert(row * size + col + 4 <= size * size) by (nonlinear_arith)
        requires
            row + 1 <= size,
            col + 4 <= size,
    ;
    let base = row * size + col;
    let ghost start = out@;
    let mut k: usize = 0;
    while k < 4
        invariant
            k <= 4,
            values.len() == 4,
            out.len() == size * size,
            start.len() == out.len(),
            base + 4 <= size * size,
            forall|j: int|
                0 <= j < k ==> #[trigger] out[base + j] == Some(pixel_of(values[j])),
            forall|j: int|
                0 <= j < out.len() && !(base <= j < base + k) ==> #[trigger] out[j] == start[j],
        decreases 4 - k,
    {
        let p = if lt(values[k], ZERO) {
            Pixel::Filled
        } else {
            Pixel::Empty
        };
        out.set(base + k, Some(p));
        k = k + 1;
    }
    assert forall|k: int| 0 <= k < out.len() implies (covered(
        size,
        row as int,
        col as int,
        4,
        1,
        k,
    ) <==> base <= k < base + 4) by {
        vstd::arithmetic::div_mod::lemma_fundamental_div_mod(k, size as int);
        if base <= k < base + 4 {
            entry_at(size as int, row as int, col + (k - base));
        } else if k / (size as int) == row {
            assert(k == row * size + k % (size as int)) by (nonlinear_arith)
                requires
                    k == (size as int) * (k / (size as int)) + k % (size as int),
                    k / (size as int) == row,
            ;
        }
    }
    assert forall|k: int|
        0 <= k < out.len() && covered(size, row as int, col as int, 4, 1, k) implies #[trigger] out[k]
        == Some(row_pixel(tape, config, tile, k)) by {
        let j = k - base;
        entry_at(size as int, row as int, col + j);
        assert(out[base + j] == Some(pixel_of(values[j])));
        assert(xs[j] == pos_of(config.image_size, (tile.corner[0] + j) as usize));
    }
    Ok(())
}

/// Writes `pixel` to the square of `size` rows and columns from `row` and
/// `col` of the buffer.
fn fill_square(out: &mut Vec<Option<Pixel>>, t: usize, row: usize, col: usize, size: usize, pixel: Pixel)
    requires
        old(out).len() == t * t,
        row + size <= t,
        col + size <= t,
        0 < t,
    ensures
        final(out).len() == old(out).len(),
        forall|k: int|
            0 <= k < final(out).len() && covered(t, row as int, col as int, size as int, size as int, k)
                ==> #[trigger] final(out)[k] == Some(pixel),
        forall|k: int|
            0 <= k < final(out).len() && !covered(
                t,
                row as int,
                col as int,
                size as int,
                size as int,
                k,
            ) ==> #[trigger] final(out)[k] == old(out)[k],
{
    let ghost start = out@;
    let mut y: usize = 0;
    while y < size
        invariant
            y <= size,
            out.len() == t * t,
            start.len() == out.len(),
            row + size <= t,
            col + size <= t,
            0 < t,
            forall|k: int|
                0 <= k < out.len() && covered(t, row as int, col as int, size as int, y as int, k)
                    ==> #[trigger] out[k] == Some(pixel),
            forall|k: int|
                0 <= k < out.len() && !covered(t, row as int, col as int, size as int, y as int, k)
                    ==> #[trigger] out[k] == start[k],
        decreases size - y,
    {
        let mut x: usize = 0;
        while x < size
            invariant
                x <= size,
                y < size,
                out.len() == t * t,
                start.len() == out.len(),
                row + size <= t,
                col + size <= t,
                0 < t,
                forall|k: int|
                    0 <= k < out.len() && (covered(
                        t,
                        row as int,
                        col as int,
                        size as int,
                        y as int,
                        k,
                    ) || covered(t, row + y, col as int, x as int, 1, k)) ==> #[trigger] out[k]
                        == Some(pixel),
                forall|k: int|
                    0 <= k < out.len() && !(covered(
                        t,
                        row as int,
                        col as int,
                        size as int,
                        y as int,
                        k,
                    ) || covered(t, row + y, col as int, x as int, 1, k)) ==> #[trigger] out[k]
                        == start[k],
            decreases size - x,
        {
            assert((row + y) * t + col + x < t * t) by (nonlinear_arith)
                requires
                    row + y + 1 <= t,
                    col + x < t,
            ;
            let at = (row + y) * t + col + x;
            proof {
                entry_at(t as int, row + y, col + x);
            }
            let ghost before = out@;
            out.set(at, Some(pixel));
            let ghost ry = row + y;
            let ghost cx = col + x;
            assert forall|k: int| 0 <= k < out.len() implies (#[trigger] covered(
                t,
                ry,
                cx,
                1,
                1,
                k,
            ) <==> k == at) by {
                vstd::arithmetic::div_mod::lemma_fundamental_div_mod(k, t as int);
                if k / (t as int) == row + y && k % (t as int) == col + x {
                    assert(k == (row + y) * t + col + x) by (nonlinear_arith)
                        requires
                            k == (t as int) * (k / (t as int)) + k % (t as int),
                            k / (t as int) == row + y,
                            k % (t as int) == col + x,
                    ;
                }
            }
            assert forall|k: int|
                0 <= k < out.len() && (covered(t, row as int, col as int, size as int, y as int, k)
                    || covered(t, row + y, col as int, x + 1, 1, k)) implies #[trigger] out[k]
                == Some(pixel) by {
                assert(covered(t, ry, cx, 1, 1, k) <==> k == at);
                if k != at {
                    assert(out[k] == before[k]);
                }
            }
            assert forall|k: int|
                0 <= k < out.len() && !(covered(
                    t,
                    row as int,
                    col as int,
                    size as int,
                    y as int,
                    k,
                ) || covered(t, row + y, col as int, x + 1, 1, k)) implies #[trigger] out[k]
                == start[k] by {
                assert(covered(t, ry, cx, 1, 1, k) <==> k == at);
                assert(out[k] == before[k]);
            }
            x = x + 1;
        }
        y = y + 1;
    }
}

/// The interval of the tape on a tile of `size` pixels.
fn interval_of(tape: &Tape, config: &RenderConfig, tile: Tile, size: usize) -> (r: Result<
    (Interval, Vec<u8>),
    Error,
>)
    requires
        tile.corner[0] + size <= usize::MAX,
        tile.corner[1] + size <= usize::MAX,
    ensures
        lacks_var(tape@, 0) ==> r is Err && r->Err_0 == Error::VarBindingMissing,
        !lacks_var(tape@, 0) ==> r is Ok && r->Ok_0.0 == tile_interval(
            tape,
            config.image_size,
            tile,
            size,
        ) && r->Ok_0.1.len() == tape.choices() && r->Ok_0.1@ == marked_on(
            tape.ssa_view(),
            blank_choices(tape.choices()),
            region_at(config.image_size, tile.corner[0] as int, tile.corner[1] as int, size as int).0,
            region_at(config.image_size, tile.corner[0] as int, tile.corner[1] as int, size as int).1,
            single(ZERO),
            Seq::<u32>::empty(),
        ).0,
{
    let x = Interval::new(
        config.pixel_to_pos(tile.corner[0]),
        config.pixel_to_pos(tile.corner[0] + size),
    );
    let y = Interval::new(
        config.pixel_to_pos(tile.corner[1]),
        config.pixel_to_pos(tile.corner[1] + size),
    );
    let z = Interval::point(ZERO);
    let total = tape.choice_count();
    let mut choices: Vec<u8> = Vec::new();
    let mut c: usize = 0;
    while c < total
        invariant
            c <= total,
            choices.len() == c,
            forall|k: int| 0 <= k < c ==> choices[k] == 0,
        decreases total - c,
    {
        choices.push(0);
        c = c + 1;
    }
    assert(choices@ =~= blank_choices(tape.choices()));
    let vars: Vec<u32> = Vec::new();
    assert(vars@ =~= Seq::<u32>::empty());
    assert(!is_empty(z));
    match eval_interval(tape, x, y, z, &vars, &mut choices) {
        Ok((i, _)) => Ok((i, choices)),
        Err(e) => Err(e),
    }
}

/// Whether a tile has no fill, and `sub` with `left` choices is the tape
/// from which its parts are rendered.
pub open spec fn split(
    tape: &Tape,
    config: &RenderConfig,
    sizes: Seq<usize>,
    level: int,
    tile: Tile,
    sub: Seq<SsaOp>,
    left: int,
) -> bool {
    let (rx, ry) = region_at(
        config.image_size,
        tile.corner[0] as int,
        tile.corner[1] as int,
        sizes[level] as int,
    );
    let none = Seq::<u32>::empty();
    let choices = marked_on(
        tape.ssa_view(),
        blank_choices(tape.choices()),
        rx,
        ry,
        single(ZERO),
        none,
    ).0;
    &&& fill_of(
        ssa_interval(tape.ssa_view(), rx, ry, single(ZERO), none),
        level + 1 < sizes.len(),
    ) is None
    &&& sub == (if any_decided(choices) {
        simplified(tape.ssa_view(), choices)
    } else {
        tape.ssa_view()
    })
    &&& left == (if any_decided(choices) {
        simplified_choices(tape.ssa_view(), choices) as int
    } else {
        tape.choices()
    })
}

/// A pixel of a part of a split tile shows in the tile what it shows in the
/// part.  The part is the one in column `c` and row `j` of the parts: a
/// square of the next size, or at the last size a row of four pixels.
proof fn part_shows(
    tape: &Tape,
    sub: &Tape,
    config: &RenderConfig,
    sizes: Seq<usize>,
    level: int,
    tile: Tile,
    part: Tile,
    c: int,
    j: int,
    k: int,
)
    requires
        sizes_fit(sizes),
        0 <= level < sizes.len(),
        tile_fits(config, tile, sizes[level]),
        split(tape, config, sizes, level, tile, sub.ssa_view(), sub.choices()),
        0 <= c,
        0 <= j,
        0 <= k,
        level + 1 == sizes.len() ==> part.corner[0] == tile.corner[0] + c * 4 && part.corner[1]
            == tile.corner[1] + j && c * 4 + 4 <= sizes[level] && j < sizes[level] && covered(
            config.tile_size,
            row_of(config, tile) + j,
            col_of(config, tile) + c * 4,
            4,
            1,
            k,
        ),
        level + 1 < sizes.len() ==> part.corner[0] == tile.corner[0] + c * sizes[level + 1]
            && part.corner[1] == tile.corner[1] + j * sizes[level + 1] && c * sizes[level + 1]
            + sizes[level + 1] <= sizes[level] && j * sizes[level + 1] + sizes[level + 1]
            <= sizes[level] && covered(
            config.tile_size,
            row_of(config, tile) + j * sizes[level + 1],
            col_of(config, tile) + c * sizes[level + 1],
            sizes[level + 1] as int,
            sizes[level + 1] as int,
            k,
        ),
    ensures
        level + 1 == sizes.len() ==> entry_pixel(tape, config, sizes, level, tile, k) == row_pixel(
            sub,
            config,
            part,
            k,
        ),
        level + 1 < sizes.len() ==> entry_pixel(tape, config, sizes, level, tile, k)
            == entry_pixel(sub, config, sizes, level + 1, part, k),
{
    let t = config.tile_size as int;
    let row = row_of(config, tile);
    let col = col_of(config, tile);
    let px = tile.corner[0] + (k % t - col);
    let py = tile.corner[1] + (k / t - row);
    if level + 1 == sizes.len() {
        same_tile(tile.corner[0] as int, t, c * 4);
        same_tile(tile.corner[1] as int, t, j);
    } else {
        let next = sizes[level + 1] as int;
        same_tile(tile.corner[0] as int, t, c * next);
        same_tile(tile.corner[1] as int, t, j * next);
        vstd::arithmetic::div_mod::lemma_fundamental_div_mod_converse(
            px - tile.corner[0],
            next,
            c,
            px - tile.corner[0] - c * next,
        );
        vstd::arithmetic::div_mod::lemma_fundamental_div_mod_converse(
            py - tile.corner[1],
            next,
            j,
            py - tile.corner[1] - j * next,
        );
        assert(tile.corner[0] + ((px - tile.corner[0]) / next) * next == part.corner[0]);
        assert(tile.corner[1] + ((py - tile.corner[1]) / next) * next == part.corner[1]);
    }
}

/// Renders the tile of `sizes[level]` pixels at `tile` into the buffer of
/// the tile of the first size that holds it: every pixel of the tile is set
/// to what `shown` says.  Pixels outside the tile are left as they are.
/// Fails with `VarBindingMissing` if the tape reads a variable.
pub fn render_tile_recurse(
    tape: &Tape,
    out: &mut Vec<Option<Pixel>>,
    config: &RenderConfig,
    sizes: &Vec<usize>,
    level: usize,
    tile: Tile,
) -> (r: Result<(), Error>)
    requires
        sizes_fit(sizes@),
        level < sizes.len(),
        tile_fits(config, tile, sizes[level as int]),
        old(out).len() == config.tile_size * config.tile_size,
    ensures
        final(out).len() == old(out).len(),
        r is Err <==> lacks_var(tape@, 0),
        r is Err ==> r->Err_0 == Error::VarBindingMissing,
        r is Ok ==> forall|k: int|
            0 <= k < final(out).len() && covered(
                config.tile_size,
                row_of(config, tile),
                col_of(config, tile),
                sizes[level as int] as int,
                sizes[level as int] as int,
                k,
            ) ==> #[trigger] final(out)[k] == Some(
                entry_pixel(tape, config, sizes@, level as int, tile, k),
            ),
        forall|k: int|
            0 <= k < final(out).len() && !covered(
                config.tile_size,
                row_of(config, tile),
                col_of(config, tile),
                sizes[level as int] as int,
                sizes[level as int] as int,
                k,
            ) ==> #[trigger] final(out)[k] == old(out)[k],
    decreases sizes.len() - level,
{
    let t = config.tile_size;
    let size = sizes[level];
    let row = tile.corner[1] % t;
    let col = tile.corner[0] % t;
    let (i, choices) = match interval_of(tape, config, tile, size) {
        Ok(found) => found,
        Err(e) => {
            return Err(e);
        },
    };
    let fill = if lt(i.upper, ZERO) {
        Some(
            if level + 1 < sizes.len() {
                Pixel::FilledTile
            } else {
                Pixel::FilledSubtile
            },
        )
    } else if lt(ZERO, i.lower) {
        Some(
            if level + 1 < sizes.len() {
                Pixel::EmptyTile
            } else {
                Pixel::EmptySubtile
            },
        )
    } else {
        None
    };
    let ghost start = out@;
    match fill {
        Some(pixel) => {
            fill_square(out, t, row, col, size, pixel);
            assert forall|k: int|
                0 <= k < out.len() && covered(t, row as int, col as int, size as int, size as int, k)
                implies #[trigger] out[k] == Some(
                entry_pixel(tape, config, sizes@, level as int, tile, k),
            ) by {}
            Ok(())
        },
        None => {
            let special = simplify(tape, &choices);
            let sub: &Tape = match &special {
                Some(s) => s,
                None => tape,
            };
            assert(!lacks_var(sub@, 0));
            let ghost sub_ssa = sub.ssa_view();
            let ghost sub_count = sub.choices();
            assert(split(tape, config, sizes@, level as int, tile, sub_ssa, sub_count));
            let last = level + 1 == sizes.len();
            let step: usize = if last {
                1
            } else {
                sizes[level + 1]
            };
            let width: usize = if last {
                4
            } else {
                step
            };
            assert(size % width == 0 && width > 0 && step > 0);
            let rows = size / step;
            let cols = size / width;
            assert(rows * step == size && cols * width == size) by {
                vstd::arithmetic::div_mod::lemma_fundamental_div_mod(size as int, step as int);
                vstd::arithmetic::div_mod::lemma_fundamental_div_mod(size as int, width as int);
                assert(size == step * (size / step) + size % step);
                assert(size == width * (size / width) + size % width);
                assert(step * (size / step) == (size / step) * step) by (nonlinear_arith);
                assert(width * (size / width) == (size / width) * width) by (nonlinear_arith);
            }
            let mut j: usize = 0;
            while j < rows
                invariant
                    j <= rows,
                    rows * step == size,
                    cols * width == size,
                    step > 0,
                    width > 0,
                    last ==> step == 1 && width == 4,
                    !last ==> step == sizes[level + 1] && width == step,
                    last == (level + 1 == sizes.len()),
                    level < sizes.len(),
                    sizes_fit(sizes@),
                    size == sizes[level as int],
                    tile_fits(config, tile, size),
                    t == config.tile_size,
                    row == row_of(config, tile),
                    col == col_of(config, tile),
                    out.len() == t * t,
                    start == old(out)@,
                    start.len() == out.len(),
                    !lacks_var(tape@, 0),
                    !lacks_var(sub@, 0),
                    fill_of(
                        tile_interval(tape, config.image_size, tile, size),
                        level + 1 < sizes.len(),
                    ) is None,
                    sub.ssa_view() == sub_ssa,
                    sub.choices() == sub_count,
                    split(tape, config, sizes@, level as int, tile, sub_ssa, sub_count),
                    forall|k: int|
                        0 <= k < out.len() && covered(
                            t,
                            row as int,
                            col as int,
                            size as int,
                            j * step,
                            k,
                        ) ==> #[trigger] out[k] == Some(
                            entry_pixel(tape, config, sizes@, level as int, tile, k),
                        ),
                    forall|k: int|
                        0 <= k < out.len() && !covered(
                            t,
                            row as int,
                            col as int,
                            size as int,
                            j * step,
                            k,
                        ) ==> #[trigger] out[k] == start[k],
                decreases rows - j,
            {
                assert(j * step + step <= size) by (nonlinear_arith)
                    requires
                        j < rows,
                        rows * step == size,
                        step > 0,
                ;
                let mut c: usize = 0;
                while c < cols
                    invariant
                        c <= cols,
                        j < rows,
                        j * step + step <= size,
                        rows * step == size,
                        cols * width == size,
                        step > 0,
                        width > 0,
                        last ==> step == 1 && width == 4,
                        !last ==> step == sizes[level + 1] && width == step,
                        last == (level + 1 == sizes.len()),
                        level < sizes.len(),
                        sizes_fit(sizes@),
                        size == sizes[level as int],
                        tile_fits(config, tile, size),
                        t == config.tile_size,
                        row == row_of(config, tile),
                        col == col_of(config, tile),
                        out.len() == t * t,
                        start == old(out)@,
                        start.len() == out.len(),
                        !lacks_var(tape@, 0),
                        !lacks_var(sub@, 0),
                        fill_of(
                            tile_interval(tape, config.image_size, tile, size),
                            level + 1 < sizes.len(),
                        ) is None,
                        sub.ssa_view() == sub_ssa,
                        sub.choices() == sub_count,
                        split(tape, config, sizes@, level as int, tile, sub_ssa, sub_count),
                        forall|k: int|
                            0 <= k < out.len() && (covered(
                                t,
                                row as int,
                                col as int,
                                size as int,
                                j * step,
                                k,
                            ) || covered(t, row + j * step, col as int, c * width, step as int, k))
                                ==> #[trigger] out[k] == Some(
                                entry_pixel(tape, config, sizes@, level as int, tile, k),
                            ),
                        forall|k: int|
                            0 <= k < out.len() && !(covered(
                                t,
                                row as int,
                                col as int,
                                size as int,
                                j * step,
                                k,
                            ) || covered(t, row + j * step, col as int, c * width, step as int, k))
                                ==> #[trigger] out[k] == start[k],
                    decreases cols - c,
                {
                    assert(c * width + width <= size) by (nonlinear_arith)
                        requires
                            c < cols,
                            cols * width == size,
                            width > 0,
                    ;
                    let part = Tile {
                        corner: [tile.corner[0] + c * width, tile.corner[1] + j * step],
                    };
                    proof {
                        same_tile(tile.corner[0] as int, t as int, c * width);
                        same_tile(tile.corner[1] as int, t as int, j * step);
                    }
                    let ghost before = out@;
                    let done = if last {
                        render_pixels(sub, out, config, part)
                    } else {
                        render_tile_recurse(sub, out, config, sizes, level + 1, part)
                    };
                    match done {
                        Ok(()) => {},
                        Err(e) => {
                            assert(false);
                            return Err(e);
                        },
                    }
                    assert forall|k: int|
                        0 <= k < out.len() && (covered(
                            t,
                            row as int,
                            col as int,
                            size as int,
                            j * step,
                            k,
                        ) || covered(
                            t,
                            row + j * step,
                            col as int,
                            (c + 1) * width,
                            step as int,
                            k,
                        )) implies #[trigger] out[k] == Some(
                        entry_pixel(tape, config, sizes@, level as int, tile, k),
                    ) by {
                        assert((c + 1) * width == c * width + width) by (nonlinear_arith);
                        if !covered(t, row + j * step, col + c * width, width as int, step as int, k) {
                            assert(out[k] == before[k]);
                        } else {
                            part_shows(
                                tape,
                                sub,
                                config,
                                sizes@,
                                level as int,
                                tile,
                                part,
                                c as int,
                                j as int,
                                k,
                            );
                        }
                    }
                    assert forall|k: int|
                        0 <= k < out.len() && !(covered(
                            t,
                            row as int,
                            col as int,
                            size as int,
                            j * step,
                            k,
                        ) || covered(
                            t,
                            row + j * step,
                            col as int,
                            (c + 1) * width,
                            step as int,
                            k,
                        )) implies #[trigger] out[k] == start[k] by {
                        assert((c + 1) * width == c * width + width) by (nonlinear_arith);
                        assert(out[k] == before[k]);
                    }
                    c = c + 1;
                }
                assert((j + 1) * step == j * step + step) by (nonlinear_arith);
                j = j + 1;
            }
            Ok(())
        },
    }
}

/// What `render` asks of the sizes: the tile size divides the image size,
/// the subtile size divides the tile size and is a multiple of four, none is
/// zero, and an image fits the machine.
pub open spec fn config_fits(config: &RenderConfig) -> bool {
    &&& config.tile_size > 0
    &&& config.subtile_size > 0
    &&& config.image_size % config.tile_size == 0
    &&& config.tile_size % config.subtile_size == 0
    &&& config.subtile_size % 4 == 0
    &&& config.image_size * config.image_size <= usize::MAX
    &&& config.image_size + config.tile_size <= usize::MAX
}

/// Whether the corner of a tile is a multiple of the tile size in both
/// directions, and the tile lies in the image.
pub open spec fn aligned(config: &RenderConfig, tile: Tile) -> bool {
    &&& tile.corner[0] % config.tile_size == 0
    &&& tile.corner[1] % config.tile_size == 0
    &&& tile.corner[0] + config.tile_size <= config.image_size
    &&& tile.corner[1] + config.tile_size <= config.image_size
}

/// A square that fits an image fits the machine.
proof fn square_fits(t: int, s: int)
    requires
        0 < t <= s,
        s * s <= usize::MAX,
    ensures
        t * t <= usize::MAX,
{
    assert(t * t <= s * s) by (nonlinear_arith)
        requires
            0 < t <= s,
    ;
}

/// The two sizes by which a tile is rendered: that of the tile, and that of
/// its subtiles.
pub open spec fn tile_sizes(config: &RenderConfig) -> Seq<usize> {
    seq![config.tile_size, config.subtile_size]
}

/// Renders one tile of the image: the pixels of the tile, row by row, each
/// as `shown` says.  Fails with `VarBindingMissing` if the tape reads a
/// variable.
pub fn render_tile(tape: &Tape, config: &RenderConfig, tile: Tile) -> (r: Result<Vec<Pixel>, Error>)
    requires
        config_fits(config),
        aligned(config, tile),
    ensures
        r is Err <==> lacks_var(tape@, 0),
        r is Err ==> r->Err_0 == Error::VarBindingMissing,
        r is Ok ==> r->Ok_0.len() == config.tile_size * config.tile_size,
        r is Ok ==> forall|k: int|
            0 <= k < r->Ok_0.len() ==> #[trigger] r->Ok_0[k] == entry_pixel(
                tape,
                config,
                tile_sizes(config),
                0,
                tile,
                k,
            ),
{
    let t = config.tile_size;
    proof {
        square_fits(t as int, config.image_size as int);
    }
    let mut sizes: Vec<usize> = Vec::new();
    sizes.push(config.tile_size);
    sizes.push(config.subtile_size);
    assert(sizes@ =~= tile_sizes(config));
    assert(sizes_fit(sizes@)) by {
        assert(sizes@[0] == config.tile_size && sizes@[1] == config.subtile_size);
    }
    let total = t * t;
    let mut out: Vec<Option<Pixel>> = Vec::new();
    let mut k: usize = 0;
    while k < total
        invariant
            k <= total,
            out.len() == k,
        decreases total - k,
    {
        out.push(None);
        k = k + 1;
    }
    match render_tile_recurse(tape, &mut out, config, &sizes, 0, tile) {
        Ok(()) => {},
        Err(e) => {
            return Err(e);
        },
    }
    assert forall|k: int| 0 <= k < total implies covered(t, 0, 0, t as int, t as int, k) by {
        vstd::arithmetic::div_mod::lemma_fundamental_div_mod(k, t as int);
        assert(k / (t as int) < t) by (nonlinear_arith)
            requires
                k == (t as int) * (k / (t as int)) + k % (t as int),
                0 <= k % (t as int),
                k < t * t,
                t > 0,
        ;
    }
    let mut pixels: Vec<Pixel> = Vec::new();
    let mut i: usize = 0;
    while i < total
        invariant
            i <= total,
            out.len() == total,
            pixels.len() == i,
            forall|k: int|
                0 <= k < total ==> #[trigger] out[k] == Some(
                    entry_pixel(tape, config, tile_sizes(config), 0, tile, k),
                ),
            forall|k: int| 0 <= k < i ==> Some(#[trigger] pixels[k]) == out[k],
        decreases total - i,
    {
        match out[i] {
            Some(p) => {
                pixels.push(p);
            },
            None => {},
        }
        i = i + 1;
    }
    Ok(pixels)
}

/// Renders the tiles one after the other.
pub fn worker(tape: &Tape, tiles: &Vec<Tile>, config: &RenderConfig) -> (r: Result<
    Vec<(Tile, Vec<Pixel>)>,
    Error,
>)
    requires
        config_fits(config),
        forall|i: int| 0 <= i < tiles.len() ==> aligned(config, #[trigger] tiles[i]),
    ensures
        r is Err <==> lacks_var(tape@, 0) && tiles.len() > 0,
        r is Err ==> r->Err_0 == Error::VarBindingMissing,
        r is Ok ==> r->Ok_0.len() == tiles.len(),
        r is Ok ==> forall|i: int|
            0 <= i < tiles.len() ==> (#[trigger] r->Ok_0[i]).0 == tiles[i] && r->Ok_0[i].1.len()
                == config.tile_size * config.tile_size,
        r is Ok ==> forall|i: int, k: int|
            0 <= i < tiles.len() && 0 <= k < config.tile_size * config.tile_size
                ==> #[trigger] r->Ok_0[i].1[k] == entry_pixel(
                tape,
                config,
                tile_sizes(config),
                0,
                tiles[i],
                k,
            ),
{
    let mut out: Vec<(Tile, Vec<Pixel>)> = Vec::new();
    let mut index: usize = 0;
    while index < tiles.len()
        invariant
            index <= tiles.len(),
            config_fits(config),
            forall|i: int| 0 <= i < tiles.len() ==> aligned(config, #[trigger] tiles[i]),
            out.len() == index,
            lacks_var(tape@, 0) ==> index == 0,
            forall|i: int|
                0 <= i < index ==> (#[trigger] out[i]).0 == tiles[i] && out[i].1.len()
                    == config.tile_size * config.tile_size,
            forall|i: int, k: int|
                0 <= i < index && 0 <= k < config.tile_size * config.tile_size
                    ==> #[trigger] out[i].1[k] == entry_pixel(
                    tape,
                    config,
                    tile_sizes(config),
                    0,
                    tiles[i],
                    k,
                ),
        decreases tiles.len() - index,
    {
        let tile = tiles[index];
        match render_tile(tape, config, tile) {
            Ok(pixels) => {
                out.push((tile, pixels));
            },
            Err(e) => {
                return Err(e);
            },
        }
        index = index + 1;
    }
    Ok(out)
}

/// The tiles of an image, column by column of tiles, each column from the
/// smallest coordinate up.
pub fn tiles_of(config: &RenderConfig) -> (r: Vec<Tile>)
    requires
        config_fits(config),
    ensures
        r.len() == (config.image_size / config.tile_size) * (config.image_size
            / config.tile_size),
        forall|k: int| 0 <= k < r.len() ==> aligned(config, #[trigger] r[k]),
        forall|i: int, j: int|
            0 <= i < config.image_size / config.tile_size && 0 <= j < config.image_size
                / config.tile_size ==> (#[trigger] r[i * (config.image_size / config.tile_size)
                + j]).corner@ == seq![
                (i * config.tile_size) as usize,
                (j * config.tile_size) as usize,
            ],
{
    let t = config.tile_size;
    let n = config.image_size / t;
    assert(n * t == config.image_size) by {
        vstd::arithmetic::div_mod::lemma_fundamental_div_mod(config.image_size as int, t as int);
        assert(t * n == n * t) by (nonlinear_arith);
    }
    assert(n * n <= usize::MAX) by (nonlinear_arith)
        requires
            n * t == config.image_size,
            t > 0,
            config.image_size * config.image_size <= usize::MAX,
    ;
    let mut tiles: Vec<Tile> = Vec::new();
    let mut i: usize = 0;
    while i < n
        invariant
            i <= n,
            t == config.tile_size,
            t > 0,
            n * t == config.image_size,
            n * n <= usize::MAX,
            tiles.len() == i * n,
            forall|k: int| 0 <= k < tiles.len() ==> aligned(config, #[trigger] tiles[k]),
            forall|a: int, b: int|
                0 <= a < i && 0 <= b < n ==> (#[trigger] tiles[a * n + b]).corner@ == seq![
                    (a * t) as usize,
                    (b * t) as usize,
                ],
        decreases n - i,
    {
        let mut j: usize = 0;
        while j < n
            invariant
                j <= n,
                i < n,
                t == config.tile_size,
                t > 0,
                n * t == config.image_size,
                n * n <= usize::MAX,
                tiles.len() == i * n + j,
                forall|k: int| 0 <= k < tiles.len() ==> aligned(config, #[trigger] tiles[k]),
                forall|a: int, b: int|
                    (0 <= a < i && 0 <= b < n) || (a == i && 0 <= b < j) ==> (
                    #[trigger] tiles[a * n + b]).corner@ == seq![(a * t) as usize, (b * t) as usize],
            decreases n - j,
        {
            assert(i * t + t <= n * t && j * t + t <= n * t) by (nonlinear_arith)
                requires
                    i < n,
                    j < n,
                    t > 0,
            ;
            assert(i * n + j < n * n) by (nonlinear_arith)
                requires
                    i < n,
                    j < n,
            ;
            let tile = Tile { corner: [i * t, j * t] };
            assert((i * t) % (t as int) == 0 && (j * t) % (t as int) == 0) by {
                vstd::arithmetic::div_mod::lemma_mod_multiples_basic(i as int, t as int);
                vstd::arithmetic::div_mod::lemma_mod_multiples_basic(j as int, t as int);
            }
            let ghost before = tiles@;
            tiles.push(tile);
            assert(tile.corner@ =~= seq![(i * t) as usize, (j * t) as usize]);
            assert forall|a: int, b: int|
                (0 <= a < i && 0 <= b < n) || (a == i && 0 <= b < j + 1) implies (
            #[trigger] tiles[a * n + b]).corner@ == seq![(a * t) as usize, (b * t) as usize] by {
                if a == i && b == j {
                } else {
                    assert(a * n + b < i * n + j) by (nonlinear_arith)
                        requires
                            (0 <= a < i && 0 <= b < n) || (a == i && 0 <= b < j),
                    ;
                    assert(tiles[a * n + b] == before[a * n + b]);
                }
            }
            j = j + 1;
        }
        assert((i + 1) * n == i * n + n) by (nonlinear_arith);
        i = i + 1;
    }
    tiles
}

/// The pixel of the image at column `x` and, counted from the smallest
/// coordinate, row `y`: that of the tile which holds it.
pub open spec fn image_pixel(config: &RenderConfig, parts: Seq<(Tile, Vec<Pixel>)>, x: int, y: int) -> Pixel {
    let t = config.tile_size as int;
    let n = config.image_size as int / t;
    parts[(x / t) * n + y / t].1[x % t + (y % t) * t]
}

/// Puts the tiles together to the image, the row with the largest
/// coordinate first.  `parts` holds the tiles in the order of `tiles_of`.
pub fn assemble(config: &RenderConfig, parts: &Vec<(Tile, Vec<Pixel>)>) -> (r: Vec<Pixel>)
    requires
        config_fits(config),
        parts.len() == (config.image_size / config.tile_size) * (config.image_size
            / config.tile_size),
        forall|i: int|
            0 <= i < parts.len() ==> (#[trigger] parts[i]).1.len() == config.tile_size
                * config.tile_size,
    ensures
        r.len() == config.image_size * config.image_size,
        forall|x: int, y: int|
            0 <= x < config.image_size && 0 <= y < config.image_size ==> #[trigger] r[x + (
            config.image_size - y - 1) * config.image_size] == image_pixel(config, parts@, x, y),
{
    let s = config.image_size;
    let t = config.tile_size;
    let n = s / t;
    assert(n * t == s) by {
        vstd::arithmetic::div_mod::lemma_fundamental_div_mod(s as int, t as int);
        assert(t * n == n * t) by (nonlinear_arith);
    }
    let mut image: Vec<Pixel> = Vec::new();
    let mut row: usize = 0;
    while row < s
        invariant
            row <= s,
            s == config.image_size,
            t == config.tile_size,
            t > 0,
            n == s / t,
            n * t == s,
            s * s <= usize::MAX,
            parts.len() == n * n,
            forall|i: int| 0 <= i < parts.len() ==> (#[trigger] parts[i]).1.len() == t * t,
            image.len() == row * s,
            forall|x: int, y: int|
                0 <= x < s && s - row <= y < s ==> #[trigger] image[x + (s - y - 1) * s]
                    == image_pixel(config, parts@, x, y),
        decreases s - row,
    {
        let y = s - 1 - row;
        let mut x: usize = 0;
        while x < s
            invariant
                x <= s,
                row < s,
                y == s - 1 - row,
                s == config.image_size,
                t == config.tile_size,
                t > 0,
                n == s / t,
                n * t == s,
                s * s <= usize::MAX,
                parts.len() == n * n,
                forall|i: int| 0 <= i < parts.len() ==> (#[trigger] parts[i]).1.len() == t * t,
                image.len() == row * s + x,
                forall|a: int, b: int|
                    (0 <= a < s && s - row <= b < s) || (b == y && 0 <= a < x) ==> #[trigger] image[a
                        + (s - b - 1) * s] == image_pixel(config, parts@, a, b),
            decreases s - x,
        {
            let i = x / t;
            let j = y / t;
            assert(i < n && j < n) by {
                vstd::arithmetic::div_mod::lemma_div_by_multiple_is_strongly_ordered(
                    x as int,
                    s as int,
                    n as int,
                    t as int,
                );
                vstd::arithmetic::div_mod::lemma_div_by_multiple_is_strongly_ordered(
                    y as int,
                    s as int,
                    n as int,
                    t as int,
                );
                vstd::arithmetic::div_mod::lemma_div_by_multiple(n as int, t as int);
            }
            assert(i * n + j < n * n) by (nonlinear_arith)
                requires
                    i < n,
                    j < n,
            ;
            assert((y % t) * t + x % t < t * t) by (nonlinear_arith)
                requires
                    y % t < t,
                    x % t < t,
            ;
            let part = &parts[i * n + j];
            let p = part.1[x % t + (y % t) * t];
            let ghost before = image@;
            assert((row + 1) * s <= s * s) by (nonlinear_arith)
                requires
                    row < s,
            ;
            image.push(p);
            assert forall|a: int, b: int|
                (0 <= a < s && s - row <= b < s) || (b == y && 0 <= a < x + 1) implies #[trigger] image[a
                + (s - b - 1) * s] == image_pixel(config, parts@, a, b) by {
                if b == y && a == x {
                    assert(a + (s - b - 1) * s == row * s + x) by (nonlinear_arith)
                        requires
                            a == x,
                            b == s - 1 - row,
                    ;
                } else {
                    assert(a + (s - b - 1) * s < row * s + x) by (nonlinear_arith)
                        requires
                            (0 <= a < s && s - row <= b < s) || (b == s - 1 - row && 0 <= a < x),
                            x <= s,
                    ;
                    assert(image[a + (s - b - 1) * s] == before[a + (s - b - 1) * s]);
                }
            }
            x = x + 1;
        }
        assert((row + 1) * s == row * s + s) by (nonlinear_arith);
        row = row + 1;
    }
    assert(s * s == image.len()) by (nonlinear_arith)
        requires
            image.len() == s * s,
    ;
    image
}

/// What the pixel `(x, y)` of the image shows: what it shows when the tile
/// that holds it is rendered.
pub open spec fn image_shows(tape: &Tape, config: &RenderConfig, x: int, y: int) -> Pixel {
    let t = config.tile_size as int;
    shown(
        tape.ssa_view(),
        tape.choices(),
        config.image_size,
        tile_sizes(config),
        0,
        (x / t) * t,
        (y / t) * t,
        x,
        y,
    )
}

/// Renders the tape to an image of `image_size` rows and columns, the row
/// with the largest coordinate first: the pixel `(x, y)` stands at
/// `x + (image_size - y - 1) * image_size` and is what `image_shows` says.
/// Fails with `VarBindingMissing` if the tape reads a variable.
pub fn render(tape: &Tape, config: &RenderConfig) -> (r: Result<Vec<Pixel>, Error>)
    requires
        config_fits(config),
    ensures
        r is Err <==> lacks_var(tape@, 0) && config.image_size > 0,
        r is Err ==> r->Err_0 == Error::VarBindingMissing,
        r is Ok ==> r->Ok_0.len() == config.image_size * config.image_size,
        r is Ok ==> forall|x: int, y: int|
            0 <= x < config.image_size && 0 <= y < config.image_size ==> #[trigger] r->Ok_0[x + (
            config.image_size - y - 1) * config.image_size] == image_shows(tape, config, x, y),
{
    let tiles = tiles_of(config);
    proof {
        if config.image_size > 0 {
            let n = config.image_size as int / config.tile_size as int;
            vstd::arithmetic::div_mod::lemma_fundamental_div_mod(
                config.image_size as int,
                config.tile_size as int,
            );
            assert(n > 0) by (nonlinear_arith)
                requires
                    config.image_size == (config.tile_size as int) * n,
                    config.image_size > 0,
                    config.tile_size > 0,
            ;
            assert(n * n > 0) by (nonlinear_arith)
                requires
                    n > 0,
            ;
            assert(tiles.len() > 0);
        } else {
            let n = config.image_size as int / config.tile_size as int;
            assert(n == 0);
            assert(n * n == 0) by (nonlinear_arith)
                requires
                    n == 0,
            ;
            assert(tiles.len() == 0);
        }
    }
    let parts = match worker(tape, &tiles, config) {
        Ok(parts) => parts,
        Err(e) => {
            return Err(e);
        },
    };
    let image = assemble(config, &parts);
    proof {
        let t = config.tile_size as int;
        let s = config.image_size as int;
        let n = s / t;
        vstd::arithmetic::div_mod::lemma_fundamental_div_mod(s, t);
        assert(n * t == s) by (nonlinear_arith)
            requires
                s == t * n + s % t,
                s % t == 0,
        ;
        assert forall|x: int, y: int| 0 <= x < s && 0 <= y < s implies #[trigger] image[x + (s - y
            - 1) * s] == image_shows(tape, config, x, y) by {
            let i = x / t;
            let j = y / t;
            vstd::arithmetic::div_mod::lemma_fundamental_div_mod(x, t);
            vstd::arithmetic::div_mod::lemma_fundamental_div_mod(y, t);
            vstd::arithmetic::div_mod::lemma_div_by_multiple_is_strongly_ordered(x, s, n, t);
            vstd::arithmetic::div_mod::lemma_div_by_multiple_is_strongly_ordered(y, s, n, t);
            vstd::arithmetic::div_mod::lemma_div_by_multiple(n, t);
            assert(0 <= i < n && 0 <= j < n);
            assert(0 <= i * n + j < n * n) by (nonlinear_arith)
                requires
                    0 <= i < n,
                    0 <= j < n,
            ;
            let tile = tiles[i * n + j];
            let k = x % t + (y % t) * t;
            assert(0 <= k < t * t) by (nonlinear_arith)
                requires
                    0 <= x % t < t,
                    0 <= y % t < t,
                    k == x % t + (y % t) * t,
            ;
            assert(image[x + (s - y - 1) * s] == image_pixel(config, parts@, x, y));
            assert(parts[i * n + j].0 == tile);
            assert(tile.corner@[0] == (i * t) as usize && tile.corner@[1] == (j * t) as usize);
            assert(i * t <= x && j * t <= y) by (nonlinear_arith)
                requires
                    x == t * i + x % t,
                    y == t * j + y % t,
                    0 <= x % t,
                    0 <= y % t,
            ;
            entry_at(t, y % t, x % t);
            assert(k == (y % t) * t + x % t);
            assert(parts[i * n + j].1[k] == entry_pixel(
                tape,
                config,
                tile_sizes(config),
                0,
                tile,
                k,
            ));
            assert(i * t + x % t == x && j * t + y % t == y) by (nonlinear_arith)
                requires
                    x == t * i + x % t,
                    y == t * j + y % t,
            ;
        }
    }
    Ok(image)
}

} // verus!
