//! Upscaling: how an image is cut into overlapping tiles for inference and
//! stitched back, which inference sessions are kept, and where results go.

pub mod descreenton;
pub mod pixels;
pub mod real_cugan;

use vstd::prelude::*;
use vstd::arithmetic::div_mod::{lemma_div_is_ordered, lemma_fundamental_div_mod_converse};
use crate::archive::app_dir_word;
use crate::zip_entries::{zip_named_bytes, zip_named_data};
use crate::media::{file_stem_or, is_sep, join, join_path, file_stem_or_default};
use crate::text::{
    append_chars, chars_eq, chars_of, decimal, decimal_chars, lemma_decimal_digits, string_of,
};

verus! {

/// Side of the core region of a tile, in input pixels.
pub const TILE_SIZE: usize = 256;

/// Margin added around each core region and cut off after inference, so that
/// the network's own border handling leaves no seams.
pub const TILE_OVERLAP: usize = 32;

/// How many inference sessions are kept at most.
pub const MAX_CACHED_SESSIONS: usize = 2;

/// The result of an upscaling: the written file and its size.
pub struct UpscaleResult {
    pub path: String,
    pub size: u64,
}

// ───────────────────────── tiles ─────────────────────────

/// A tile: its core region `[x0, x1) × [y0, y1)`, which it contributes to
/// the output, and the extended region `[ex0, ex1) × [ey0, ey1)` that is
/// fed to the network.
pub struct Tile {
    pub x0: usize,
    pub y0: usize,
    pub x1: usize,
    pub y1: usize,
    pub ex0: usize,
    pub ey0: usize,
    pub ex1: usize,
    pub ey1: usize,
}

pub open spec fn min_of(a: int, b: int) -> int {
    if a <= b { a } else { b }
}

/// Number of tiles of side `t` across a length `n`: ⌈n / t⌉.
pub open spec fn span_count(n: int, t: int) -> int {
    if n <= 0 { 0 } else { (n - 1) / t + 1 }
}

/// End of the `k`-th core span across a length `n`.
pub open spec fn span_end(k: int, t: int, n: int) -> int {
    min_of(k * t + t, n)
}

/// Start of the `k`-th extended span: `o` before the core, clamped at 0.
pub open spec fn ext_start(k: int, t: int, o: int) -> int {
    if k * t >= o { k * t - o } else { 0 }
}

/// End of the `k`-th extended span: `o` after the core, clamped at `n`.
pub open spec fn ext_end(k: int, t: int, o: int, n: int) -> int {
    min_of(span_end(k, t, n) + o, n)
}

/// `tile` is the tile in tile row `r`, tile column `c` of a `w` × `h` image
/// cut into cores of side `t` with margin `o`.
pub open spec fn is_tile(tile: Tile, w: int, h: int, t: int, o: int, r: int, c: int) -> bool {
    &&& tile.y0 == r * t
    &&& tile.y1 == span_end(r, t, h)
    &&& tile.ey0 == ext_start(r, t, o)
    &&& tile.ey1 == ext_end(r, t, o, h)
    &&& tile.x0 == c * t
    &&& tile.x1 == span_end(c, t, w)
    &&& tile.ex0 == ext_start(c, t, o)
    &&& tile.ex1 == ext_end(c, t, o, w)
}

/// `plan` lists the tiles of a `w` × `h` image row by row, left to right.
pub open spec fn is_tile_plan(plan: Seq<Tile>, w: int, h: int, t: int, o: int) -> bool {
    let cols = span_count(w, t);
    &&& plan.len() == span_count(h, t) * cols
    &&& forall|i: int| 0 <= i < plan.len() ==> is_tile(#[trigger] plan[i], w, h, t, o, i / cols, i % cols)
}

/// The core region of `tile` holds the pixel (`x`, `y`).
pub open spec fn core_contains(tile: Tile, x: int, y: int) -> bool {
    tile.x0 <= x < tile.x1 && tile.y0 <= y < tile.y1
}

/// `k` spans of side `t` starting at 0 stay below `n` as long as `k * t < n`,
/// and then there are fewer than ⌈n / t⌉ of them.
proof fn lemma_span_index(k: int, t: int, n: int)
    requires
        t > 0,
        0 <= k,
        k * t < n,
    ensures
        k < span_count(n, t),
{
    lemma_fundamental_div_mod_converse(k * t, t, k, 0);
    lemma_div_is_ordered(k * t, n - 1, t);
}

/// Once `k` spans reach `n` (the previous did not), there are exactly ⌈n / t⌉.
proof fn lemma_span_done(k: int, t: int, n: int)
    requires
        t > 0,
        1 <= k,
        (k - 1) * t < n,
        n <= k * t,
    ensures
        k == span_count(n, t),
{
    assert(k * t == (k - 1) * t + t) by (nonlinear_arith);
    lemma_fundamental_div_mod_converse(n - 1, t, k - 1, n - 1 - (k - 1) * t);
}

/// Cuts a `w` × `h` image into tiles whose cores have side `t` (shorter at
/// the right and bottom edges) and whose extended regions add `o` on every
/// side, clamped to the image; row by row, left to right.
pub fn tile_plan(w: usize, h: usize, t: usize, o: usize) -> (plan: Vec<Tile>)
    requires
        t > 0,
        w + t + o <= usize::MAX,
        h + t + o <= usize::MAX,
    ensures
        is_tile_plan(plan@, w as int, h as int, t as int, o as int),
{
    let mut plan: Vec<Tile> = Vec::new();
    let ghost cols = span_count(w as int, t as int);
    let ghost rows = span_count(h as int, t as int);
    let mut y0: usize = 0;
    let ghost mut r: int = 0;
    assert(cols >= 0 && rows >= 0) by (nonlinear_arith)
        requires
            cols == span_count(w as int, t as int),
            rows == span_count(h as int, t as int),
            t > 0,
    ;
    while y0 < h
        invariant
            t > 0,
            w + t + o <= usize::MAX,
            h + t + o <= usize::MAX,
            cols == span_count(w as int, t as int),
            rows == span_count(h as int, t as int),
            cols >= 0,
            0 <= r,
            y0 as int == min_of(r * t, h as int),
            r == 0 || (r - 1) * t < h,
            plan.len() == r * cols,
            forall|i: int|
                0 <= i < plan.len() ==> is_tile(
                    #[trigger] plan@[i],
                    w as int,
                    h as int,
                    t as int,
                    o as int,
                    i / cols,
                    i % cols,
                ),
        decreases h - y0,
    {
        proof {
            lemma_span_index(r, t as int, h as int);
        }
        let y1 = if y0 + t < h { y0 + t } else { h };
        let ey0 = if y0 >= o { y0 - o } else { 0 };
        let ey1 = if y1 + o < h { y1 + o } else { h };
        let mut x0: usize = 0;
        let ghost mut c: int = 0;
        while x0 < w
            invariant
                t > 0,
                w + t + o <= usize::MAX,
                cols == span_count(w as int, t as int),
                0 <= r < rows,
                y0 as int == r * t,
                y1 as int == span_end(r, t as int, h as int),
                ey0 as int == ext_start(r, t as int, o as int),
                ey1 as int == ext_end(r, t as int, o as int, h as int),
                0 <= c,
                x0 as int == min_of(c * t, w as int),
                c == 0 || (c - 1) * t < w,
                plan.len() == r * cols + c,
                c <= cols,
                forall|i: int|
                    0 <= i < plan.len() ==> is_tile(
                        #[trigger] plan@[i],
                        w as int,
                        h as int,
                        t as int,
                        o as int,
                        i / cols,
                        i % cols,
                    ),
            decreases w - x0,
        {
            proof {
                lemma_span_index(c, t as int, w as int);
            }
            let x1 = if x0 + t < w { x0 + t } else { w };
            let ex0 = if x0 >= o { x0 - o } else { 0 };
            let ex1 = if x1 + o < w { x1 + o } else { w };
            let tile = Tile { x0, y0, x1, y1, ex0, ey0, ex1, ey1 };
            proof {
                lemma_fundamental_div_mod_converse(r * cols + c, cols, r, c);
                assert(c * t + t == (c + 1) * t) by (nonlinear_arith);
            }
            plan.push(tile);
            x0 = x1;
            proof {
                c = c + 1;
            }
        }
        proof {
            if w > 0 {
                assert(c >= 1);
                lemma_span_done(c, t as int, w as int);
            } else {
                assert(c == 0);
            }
            assert(plan.len() == r * cols + cols);
            assert(r * cols + cols == (r + 1) * cols) by (nonlinear_arith);
            assert(r * t + t == (r + 1) * t) by (nonlinear_arith);
            r = r + 1;
        }
        y0 = y1;
    }
    proof {
        if h > 0 {
            assert(r >= 1);
            lemma_span_done(r, t as int, h as int);
        } else {
            assert(r == 0);
            assert(rows == 0);
            assert(r * cols == 0) by (nonlinear_arith)
                requires
                    r == 0,
            ;
        }
    }
    plan
}

/// Every pixel of the image lies in the core of exactly one tile of the plan:
/// the cores cut the image into disjoint pieces that cover it.
pub proof fn lemma_tile_plan_partitions(plan: Seq<Tile>, w: int, h: int, t: int, o: int, x: int, y: int)
    requires
        t > 0,
        is_tile_plan(plan, w, h, t, o),
        0 <= x < w,
        0 <= y < h,
    ensures
        exists|i: int| 0 <= i < plan.len() && core_contains(#[trigger] plan[i], x, y),
        forall|i: int, j: int|
            0 <= i < plan.len() && 0 <= j < plan.len() && core_contains(#[trigger] plan[i], x, y)
                && core_contains(#[trigger] plan[j], x, y) ==> i == j,
{
    let cols = span_count(w, t);
    let rows = span_count(h, t);
    let r = y / t;
    let c = x / t;
    assert(y == r * t + y % t && 0 <= y % t < t) by (nonlinear_arith)
        requires
            t > 0,
            r == y / t,
    ;
    assert(x == c * t + x % t && 0 <= x % t < t) by (nonlinear_arith)
        requires
            t > 0,
            c == x / t,
    ;
    assert(0 <= r && 0 <= c) by (nonlinear_arith)
        requires
            r == y / t,
            c == x / t,
            0 <= x,
            0 <= y,
            t > 0,
    ;
    assert(r * t <= y < r * t + t && c * t <= x < c * t + t) by (nonlinear_arith)
        requires
            y == r * t + y % t,
            x == c * t + x % t,
            0 <= y % t < t,
            0 <= x % t < t,
    ;
    lemma_span_index(r, t, h);
    lemma_span_index(c, t, w);
    let i = r * cols + c;
    assert(0 <= i < rows * cols) by (nonlinear_arith)
        requires
            i == r * cols + c,
            0 <= r < rows,
            0 <= c < cols,
    ;
    lemma_fundamental_div_mod_converse(i, cols, r, c);
    assert(core_contains(plan[i], x, y));
    assert forall|a: int, b: int|
        0 <= a < plan.len() && 0 <= b < plan.len() && core_contains(#[trigger] plan[a], x, y)
            && core_contains(#[trigger] plan[b], x, y) implies a == b by {
        lemma_tile_index_of(plan, w, h, t, o, x, y, a);
        lemma_tile_index_of(plan, w, h, t, o, x, y, b);
    }
}

/// The only tile whose core holds (`x`, `y`) is the one in tile row `y / t`,
/// tile column `x / t`.
proof fn lemma_tile_index_of(plan: Seq<Tile>, w: int, h: int, t: int, o: int, x: int, y: int, a: int)
    requires
        t > 0,
        is_tile_plan(plan, w, h, t, o),
        0 <= x < w,
        0 <= y < h,
        0 <= a < plan.len(),
        core_contains(plan[a], x, y),
    ensures
        a == (y / t) * span_count(w, t) + x / t,
{
    let cols = span_count(w, t);
    assert(cols > 0);
    let ra = a / cols;
    let ca = a % cols;
    assert(is_tile(plan[a], w, h, t, o, ra, ca));
    assert(a == ra * cols + ca && 0 <= ca < cols) by (nonlinear_arith)
        requires
            cols > 0,
            ra == a / cols,
            ca == a % cols,
    ;
    assert(ra * t <= y < ra * t + t);
    assert(ca * t <= x < ca * t + t);
    lemma_fundamental_div_mod_converse(y, t, ra, y - ra * t);
    lemma_fundamental_div_mod_converse(x, t, ca, x - ca * t);
}

/// Where the upscaled core of a tile lies: in the network output (from
/// `crop_left`, `crop_top`, `crop_w` × `crop_h`) and in the output image (from
/// `dst_x`, `dst_y`).
pub struct TileCrop {
    pub crop_left: usize,
    pub crop_top: usize,
    pub crop_w: usize,
    pub crop_h: usize,
    pub dst_x: usize,
    pub dst_y: usize,
}

/// The crop of `tile` at scale `scale`: the margin before the core, and the
/// core itself, scaled.
pub fn tile_crop(tile: &Tile, scale: usize) -> (r: TileCrop)
    requires
        tile.ex0 <= tile.x0 <= tile.x1,
        tile.ey0 <= tile.y0 <= tile.y1,
        tile.x1 * scale <= usize::MAX,
        tile.y1 * scale <= usize::MAX,
    ensures
        r.crop_left == (tile.x0 - tile.ex0) * scale,
        r.crop_top == (tile.y0 - tile.ey0) * scale,
        r.crop_w == (tile.x1 - tile.x0) * scale,
        r.crop_h == (tile.y1 - tile.y0) * scale,
        r.dst_x == tile.x0 * scale,
        r.dst_y == tile.y0 * scale,
{
    proof {
        let s = scale as int;
        let (x0, x1, ex0) = (tile.x0 as int, tile.x1 as int, tile.ex0 as int);
        let (y0, y1, ey0) = (tile.y0 as int, tile.y1 as int, tile.ey0 as int);
        assert(0 <= (x0 - ex0) * s <= x1 * s && 0 <= (x1 - x0) * s <= x1 * s && 0 <= x0 * s <= x1
            * s) by (nonlinear_arith)
            requires
                0 <= ex0 <= x0 <= x1,
                0 <= s,
        ;
        assert(0 <= (y0 - ey0) * s <= y1 * s && 0 <= (y1 - y0) * s <= y1 * s && 0 <= y0 * s <= y1
            * s) by (nonlinear_arith)
            requires
                0 <= ey0 <= y0 <= y1,
                0 <= s,
        ;
    }
    TileCrop {
        crop_left: (tile.x0 - tile.ex0) * scale,
        crop_top: (tile.y0 - tile.ey0) * scale,
        crop_w: (tile.x1 - tile.x0) * scale,
        crop_h: (tile.y1 - tile.y0) * scale,
        dst_x: tile.x0 * scale,
        dst_y: tile.y0 * scale,
    }
}

/// Each tile of a plan has its core inside its extended region, inside the
/// image, and the extended region is at most `t + 2 o` wide and high.
pub proof fn lemma_tile_bounds(plan: Seq<Tile>, w: int, h: int, t: int, o: int, i: int)
    requires
        t > 0,
        o >= 0,
        is_tile_plan(plan, w, h, t, o),
        0 <= i < plan.len(),
    ensures
        plan[i].ex0 <= plan[i].x0 < plan[i].x1 <= plan[i].ex1 <= w,
        plan[i].ey0 <= plan[i].y0 < plan[i].y1 <= plan[i].ey1 <= h,
        plan[i].ex1 - plan[i].ex0 <= t + 2 * o,
        plan[i].ey1 - plan[i].ey0 <= t + 2 * o,
{
    let cols = span_count(w, t);
    let rows = span_count(h, t);
    assert(cols > 0 && rows > 0) by (nonlinear_arith)
        requires
            0 <= i < rows * cols,
            cols >= 0,
            rows >= 0,
    ;
    let r = i / cols;
    let c = i % cols;
    assert(i == r * cols + c && 0 <= c < cols && 0 <= r) by (nonlinear_arith)
        requires
            cols > 0,
            r == i / cols,
            c == i % cols,
            0 <= i,
    ;
    assert(r < rows) by (nonlinear_arith)
        requires
            i == r * cols + c,
            0 <= c,
            i < rows * cols,
            cols > 0,
    ;
    assert(is_tile(plan[i], w, h, t, o, r, c));
    lemma_index_below(r, t, h);
    lemma_index_below(c, t, w);
}

/// Spans below ⌈n / t⌉ start inside the length.
proof fn lemma_index_below(k: int, t: int, n: int)
    requires
        t > 0,
        0 <= k < span_count(n, t),
    ensures
        0 <= k * t < n,
{
    assert(n > 0);
    let q = (n - 1) / t;
    assert(n - 1 == q * t + (n - 1) % t && 0 <= (n - 1) % t < t) by (nonlinear_arith)
        requires
            t > 0,
            q == (n - 1) / t,
    ;
    assert(0 <= k * t <= q * t) by (nonlinear_arith)
        requires
            0 <= k <= q,
            t > 0,
    ;
}

/// The output region a tile writes at scale `s`: its core, scaled.
pub open spec fn scaled_core_contains(tile: Tile, s: int, x: int, y: int) -> bool {
    tile.x0 * s <= x < tile.x1 * s && tile.y0 * s <= y < tile.y1 * s
}

/// `a ≤ x / s < b` exactly when `a s ≤ x < b s`.
proof fn lemma_div_range(a: int, b: int, s: int, x: int)
    requires
        s > 0,
        0 <= x,
    ensures
        (a <= x / s < b) == (a * s <= x < b * s),
{
    let q = x / s;
    let r = x % s;
    assert(x == q * s + r && 0 <= r < s) by (nonlinear_arith)
        requires
            s > 0,
            q == x / s,
            r == x % s,
    ;
    assert(a <= q ==> a * s <= x) by (nonlinear_arith)
        requires
            x == q * s + r,
            0 <= r,
            s > 0,
    ;
    assert(q < b ==> x < b * s) by (nonlinear_arith)
        requires
            x == q * s + r,
            r < s,
            s > 0,
    ;
    assert(a * s <= x ==> a <= q) by (nonlinear_arith)
        requires
            x == q * s + r,
            r < s,
            s > 0,
    ;
    assert(x < b * s ==> q < b) by (nonlinear_arith)
        requires
            x == q * s + r,
            0 <= r,
            s > 0,
    ;
}

/// At scale `s`, the regions the tiles write cover the `w s` × `h s` output
/// image exactly once: every output pixel is written by exactly one tile.
pub proof fn lemma_scaled_tiles_partition(
    plan: Seq<Tile>,
    w: int,
    h: int,
    t: int,
    o: int,
    s: int,
    x: int,
    y: int,
)
    requires
        t > 0,
        s > 0,
        is_tile_plan(plan, w, h, t, o),
        0 <= x < w * s,
        0 <= y < h * s,
    ensures
        exists|i: int| 0 <= i < plan.len() && scaled_core_contains(#[trigger] plan[i], s, x, y),
        forall|i: int, j: int|
            0 <= i < plan.len() && 0 <= j < plan.len() && scaled_core_contains(#[trigger] plan[i], s, x, y)
                && scaled_core_contains(#[trigger] plan[j], s, x, y) ==> i == j,
{
    let px = x / s;
    let py = y / s;
    lemma_div_range(0, w, s, x);
    lemma_div_range(0, h, s, y);
    assert(0 * s == 0);
    assert forall|i: int| 0 <= i < plan.len() implies (scaled_core_contains(
        #[trigger] plan[i],
        s,
        x,
        y,
    ) == core_contains(plan[i], px, py)) by {
        lemma_div_range(plan[i].x0 as int, plan[i].x1 as int, s, x);
        lemma_div_range(plan[i].y0 as int, plan[i].y1 as int, s, y);
    }
    lemma_tile_plan_partitions(plan, w, h, t, o, px, py);
    let i = choose|i: int| 0 <= i < plan.len() && core_contains(#[trigger] plan[i], px, py);
    assert(scaled_core_contains(plan[i], s, x, y));
}

// ───────────────────────── reading the network output ─────────────────────────

/// Where the red, green and blue values of pixel (`out_x`, `out_y`) lie in a
/// channel-first output tensor of `out_h_total` rows and `out_w_total`
/// columns: in each of its three planes at the pixel's row-major offset.
pub fn output_pixel_indices(out_h_total: usize, out_w_total: usize, out_x: usize, out_y: usize) -> (r: (
    usize,
    usize,
    usize,
))
    requires
        out_y * out_w_total + out_x + 2 * (out_h_total * out_w_total) <= usize::MAX,
    ensures
        r.0 == out_y * out_w_total + out_x,
        r.1 == out_h_total * out_w_total + r.0,
        r.2 == 2 * (out_h_total * out_w_total) + r.0,
{
    proof {
        let (h, w, x, y) = (out_h_total as int, out_w_total as int, out_x as int, out_y as int);
        assert(0 <= y * w && 0 <= h * w && h * w <= 2 * (h * w)) by (nonlinear_arith)
            requires
                0 <= y,
                0 <= w,
                0 <= h,
        ;
    }
    let plane = out_h_total * out_w_total;
    let idx = out_y * out_w_total + out_x;
    (idx, plane + idx, 2 * plane + idx)
}

// ───────────────────────── the session cache ─────────────────────────

/// What an inference session is kept for: a scale and an execution provider.
pub struct CacheKey {
    pub scale: u32,
    pub provider: String,
}

pub open spec fn key_of(k: CacheKey) -> (u32, Seq<char>) {
    (k.scale, k.provider@)
}

/// Inference sessions, least recently used first.
pub struct SessionCache<S> {
    pub entries: Vec<(CacheKey, S)>,
}

/// The keys of the entries, in order.
pub open spec fn keys_of<S>(entries: Seq<(CacheKey, S)>) -> Seq<(u32, Seq<char>)> {
    entries.map_values(|e: (CacheKey, S)| key_of(e.0))
}

/// No key occurs twice.
pub open spec fn distinct_keys<S>(entries: Seq<(CacheKey, S)>) -> bool {
    forall|i: int, j: int|
        0 <= i < entries.len() && 0 <= j < entries.len() && i != j ==> key_of(
            (#[trigger] entries[i]).0,
        ) != key_of((#[trigger] entries[j]).0)
}

/// The last `MAX_CACHED_SESSIONS` entries of `s` (all of them when there are
/// no more).
pub open spec fn most_recent<S>(s: Seq<(CacheKey, S)>) -> Seq<(CacheKey, S)> {
    if s.len() > MAX_CACHED_SESSIONS {
        s.skip(s.len() - MAX_CACHED_SESSIONS)
    } else {
        s
    }
}

impl<S> SessionCache<S> {
    pub fn new() -> (c: Self)
        ensures
            c.entries@ == Seq::<(CacheKey, S)>::empty(),
    {
        SessionCache { entries: Vec::new() }
    }

    /// The position of the session kept for (`scale`, `provider`), if any.
    pub fn find(&self, scale: u32, provider: &str) -> (r: Option<usize>)
        ensures
            match r {
                Some(i) => i < self.entries.len() && key_of(self.entries@[i as int].0) == (
                    scale,
                    provider@,
                ) && forall|j: int|
                    0 <= j < i ==> key_of((#[trigger] self.entries@[j]).0) != (scale, provider@),
                None => forall|j: int|
                    0 <= j < self.entries.len() ==> key_of((#[trigger] self.entries@[j]).0) != (
                        scale,
                        provider@,
                    ),
            },
    {
        let p = provider.to_owned();
        let mut i: usize = 0;
        while i < self.entries.len()
            invariant
                i <= self.entries.len(),
                p@ == provider@,
                forall|j: int|
                    0 <= j < i ==> key_of((#[trigger] self.entries@[j]).0) != (scale, provider@),
            decreases self.entries.len() - i,
        {
            if self.entries[i].0.scale == scale && self.entries[i].0.provider == p {
                return Some(i);
            }
            i = i + 1;
        }
        None
    }

    /// Marks the session at `pos` as the most recently used.
    pub fn promote(&mut self, pos: usize)
        requires
            pos < old(self).entries.len(),
        ensures
            final(self).entries@ == old(self).entries@.remove(pos as int).push(
                old(self).entries@[pos as int],
            ),
    {
        let e = self.entries.remove(pos);
        self.entries.push(e);
    }

    /// Keeps a new session as the most recently used, dropping the least
    /// recently used ones beyond `MAX_CACHED_SESSIONS`.
    pub fn store(&mut self, key: CacheKey, session: S)
        ensures
            final(self).entries@ == most_recent(old(self).entries@.push((key, session))),
    {
        self.entries.push((key, session));
        let ghost pushed = self.entries@;
        let ghost mut dropped: int = 0;
        while self.entries.len() > MAX_CACHED_SESSIONS
            invariant
                0 <= dropped <= pushed.len(),
                self.entries@ == pushed.skip(dropped),
                dropped > 0 ==> pushed.len() - dropped >= MAX_CACHED_SESSIONS,
            decreases self.entries.len(),
        {
            self.entries.remove(0);
            proof {
                dropped = dropped + 1;
                assert(self.entries@ =~= pushed.skip(dropped));
            }
        }
        proof {
            if pushed.len() > MAX_CACHED_SESSIONS {
                assert(dropped == pushed.len() - MAX_CACHED_SESSIONS);
            } else {
                assert(dropped == 0);
                assert(pushed.skip(0) =~= pushed);
            }
        }
    }
}

/// The position of the first entry kept for (`scale`, `provider`), if any.
pub open spec fn find_key<S>(entries: Seq<(CacheKey, S)>, scale: u32, provider: Seq<char>) -> Option<int>
    decreases entries.len(),
{
    if entries.len() == 0 {
        None
    } else {
        match find_key(entries.drop_last(), scale, provider) {
            Some(i) => Some(i),
            None => if key_of(entries.last().0) == (scale, provider) {
                Some(entries.len() - 1)
            } else {
                None
            },
        }
    }
}

/// What is found in the cache: the first matching entry, if any.
proof fn lemma_find_key<S>(entries: Seq<(CacheKey, S)>, scale: u32, provider: Seq<char>)
    ensures
        match find_key(entries, scale, provider) {
            Some(i) => 0 <= i < entries.len() && key_of(entries[i].0) == (scale, provider) && forall|j: int|
                0 <= j < i ==> key_of((#[trigger] entries[j]).0) != (scale, provider),
            None => forall|j: int|
                0 <= j < entries.len() ==> key_of((#[trigger] entries[j]).0) != (scale, provider),
        },
    decreases entries.len(),
{
    if entries.len() > 0 {
        lemma_find_key(entries.drop_last(), scale, provider);
        assert forall|j: int| 0 <= j < entries.len() - 1 implies entries[j] == entries.drop_last()[j] by {}
    }
}

/// How `obtain` may change the entries: a kept session for the key is moved
/// last; otherwise the entries stay as they were (the session could not be
/// made) or a new session for the key is kept last, dropping the least
/// recently used beyond `MAX_CACHED_SESSIONS`.
pub open spec fn obtain_step<S>(
    before: Seq<(CacheKey, S)>,
    after: Seq<(CacheKey, S)>,
    scale: u32,
    provider: Seq<char>,
) -> bool {
    match find_key(before, scale, provider) {
        Some(i) => after == before.remove(i).push(before[i]),
        None => after == before || exists|k: CacheKey, s: S|
            key_of(k) == (scale, provider) && after == most_recent(before.push((k, s))),
    }
}

impl<S> SessionCache<S> {
    /// Makes the session for (`scale`, `provider`) the most recently used one:
    /// a kept session is promoted; otherwise `make` builds one, which is kept
    /// (dropping the least recently used beyond `MAX_CACHED_SESSIONS`), and if
    /// it fails its error is returned and the cache is left as it was.
    pub fn obtain<E, F: FnOnce() -> Result<S, E>>(&mut self, scale: u32, provider: &str, make: F) -> (r: Result<(), E>)
        requires
            call_requires(make, ()),
        ensures
            match find_key(old(self).entries@, scale, provider@) {
                Some(i) => r is Ok && final(self).entries@ == old(self).entries@.remove(i).push(
                    old(self).entries@[i],
                ),
                None => match r {
                    Ok(_) => exists|k: CacheKey, s: S|
                        key_of(k) == (scale, provider@) && call_ensures(make, (), Ok::<S, E>(s))
                            && final(self).entries@ == most_recent(old(self).entries@.push((k, s))),
                    Err(e) => call_ensures(make, (), Err::<S, E>(e)) && final(self).entries@ == old(
                        self,
                    ).entries@,
                },
            },
            obtain_step(old(self).entries@, final(self).entries@, scale, provider@),
    {
        proof {
            lemma_find_key(self.entries@, scale, provider@);
        }
        match self.find(scale, provider) {
            Some(pos) => {
                self.promote(pos);
                Ok(())
            },
            None => {
                let made = make();
                match made {
                    Ok(session) => {
                        let key = CacheKey { scale, provider: provider.to_owned() };
                        self.store(key, session);
                        Ok(())
                    },
                    Err(e) => Err(e),
                }
            },
        }
    }
}

/// Using the cache keeps it well formed: after a hit is promoted, or a
/// session for a missing key is stored, at most `MAX_CACHED_SESSIONS`
/// sessions are kept (given no more before a promotion), no key occurs twice,
/// and the last session is the one just used.
pub proof fn lemma_cache_use<S>(entries: Seq<(CacheKey, S)>, pos: int, key: CacheKey, session: S)
    requires
        distinct_keys(entries),
    ensures
        0 <= pos < entries.len() ==> ({
            let after = entries.remove(pos).push(entries[pos]);
            &&& distinct_keys(after)
            &&& after.len() == entries.len()
            &&& key_of(after.last().0) == key_of(entries[pos].0)
        }),
        (forall|j: int| 0 <= j < entries.len() ==> key_of((#[trigger] entries[j]).0) != key_of(key))
            ==> ({
            let after = most_recent(entries.push((key, session)));
            &&& distinct_keys(after)
            &&& after.len() <= MAX_CACHED_SESSIONS
            &&& after.last() == (key, session)
        }),
{
    if 0 <= pos < entries.len() {
        let after = entries.remove(pos).push(entries[pos]);
        assert forall|i: int, j: int|
            0 <= i < after.len() && 0 <= j < after.len() && i != j implies key_of(
            (#[trigger] after[i]).0,
        ) != key_of((#[trigger] after[j]).0) by {
            let oi = if i == after.len() - 1 { pos } else if i < pos { i } else { i + 1 };
            let oj = if j == after.len() - 1 { pos } else if j < pos { j } else { j + 1 };
            assert(after[i] == entries[oi]);
            assert(after[j] == entries[oj]);
        }
    }
    if forall|j: int| 0 <= j < entries.len() ==> key_of((#[trigger] entries[j]).0) != key_of(key) {
        let pushed = entries.push((key, session));
        assert(distinct_keys(pushed)) by {
            assert forall|i: int, j: int|
                0 <= i < pushed.len() && 0 <= j < pushed.len() && i != j implies key_of(
                (#[trigger] pushed[i]).0,
            ) != key_of((#[trigger] pushed[j]).0) by {
                if i < entries.len() && j < entries.len() {
                    assert(pushed[i] == entries[i] && pushed[j] == entries[j]);
                } else if i < entries.len() {
                    assert(pushed[i] == entries[i]);
                } else {
                    assert(pushed[j] == entries[j]);
                }
            }
        }
        let after = most_recent(pushed);
        if pushed.len() > MAX_CACHED_SESSIONS {
            let d = pushed.len() - MAX_CACHED_SESSIONS;
            assert forall|i: int, j: int|
                0 <= i < after.len() && 0 <= j < after.len() && i != j implies key_of(
                (#[trigger] after[i]).0,
            ) != key_of((#[trigger] after[j]).0) by {
                assert(after[i] == pushed[i + d] && after[j] == pushed[j + d]);
            }
        }
    }
}

/// The cache stays bounded and keyed once: if no key occurs twice and at most
/// `MAX_CACHED_SESSIONS` sessions are kept before `obtain`, the same holds
/// after it, and unless it left the cache as it was, the last session is the
/// one for the key asked for.
pub proof fn lemma_obtain_keeps_cache_bounded<S>(
    before: Seq<(CacheKey, S)>,
    after: Seq<(CacheKey, S)>,
    scale: u32,
    provider: Seq<char>,
)
    requires
        distinct_keys(before),
        before.len() <= MAX_CACHED_SESSIONS,
        obtain_step(before, after, scale, provider),
    ensures
        distinct_keys(after),
        after.len() <= MAX_CACHED_SESSIONS,
        after == before || (after.len() > 0 && key_of(after.last().0) == (scale, provider)),
{
    lemma_find_key(before, scale, provider);
    match find_key(before, scale, provider) {
        Some(i) => {
            lemma_cache_use(before, i, before[i].0, before[i].1);
        },
        None => {
            if after != before {
                let (k, s) = choose|k: CacheKey, s: S|
                    key_of(k) == (scale, provider) && after == most_recent(before.push((k, s)));
                lemma_cache_use(before, -1, k, s);
            }
        },
    }
}

// ───────────────────────── where results go ─────────────────────────

pub open spec fn upscaled_word() -> Seq<char> {
    seq!['u', 'p', 's', 'c', 'a', 'l', 'e', 'd']
}

/// The directory that upscaled images are written to.
pub fn upscale_output_dir(temp_dir: &str) -> (r: String)
    ensures
        r@ == join_path(join_path(temp_dir@, app_dir_word()), upscaled_word()),
{
    let root = crate::archive::temp_root(temp_dir);
    let w = vec!['u', 'p', 's', 'c', 'a', 'l', 'e', 'd'];
    assert(w@ =~= upscaled_word());
    let w = string_of(&w);
    join(root.as_str(), w.as_str())
}

pub open spec fn png_suffix() -> Seq<char> {
    seq!['x', '.', 'p', 'n', 'g']
}

/// `{timestamp}_{stem}_{scale}x.png`: the file name of an upscaled image, the
/// stem being that of the input (or `image`).
pub open spec fn upscaled_file_name_of(timestamp_ms: nat, input_path: Seq<char>, scale: nat) -> Seq<
    char,
> {
    decimal(timestamp_ms) + seq!['_'] + file_stem_or(input_path, crate::media::image_word()) + seq![
        '_',
    ] + decimal(scale) + png_suffix()
}

pub fn upscaled_file_name(timestamp_ms: u128, input_path: &str, scale: u32) -> (r: String)
    ensures
        r@ == upscaled_file_name_of(timestamp_ms as nat, input_path@, scale as nat),
{
    let w = vec!['i', 'm', 'a', 'g', 'e'];
    assert(w@ =~= crate::media::image_word());
    let w = string_of(&w);
    let stem = file_stem_or_default(input_path, w.as_str());
    let mut out = decimal_chars(timestamp_ms);
    out.push('_');
    let stem_chars = chars_of(stem.as_str());
    append_chars(&mut out, &stem_chars);
    out.push('_');
    let digits = decimal_chars(scale as u128);
    append_chars(&mut out, &digits);
    let suffix = vec!['x', '.', 'p', 'n', 'g'];
    assert(suffix@ =~= png_suffix());
    append_chars(&mut out, &suffix);
    string_of(&out)
}

pub open spec fn vulkan_word() -> Seq<char> {
    seq!['v', 'u', 'l', 'k', 'a', 'n']
}

/// Whether the provider asks for the external Vulkan upscaler instead of an
/// inference session.
pub fn uses_ncnn(provider: &str) -> (b: bool)
    ensures
        b == (provider@ == vulkan_word()),
{
    let p = chars_of(provider);
    let w = vec!['v', 'u', 'l', 'k', 'a', 'n'];
    assert(w@ =~= vulkan_word());
    chars_eq(&p, &w)
}

/// Directory inside the release archive of the Vulkan upscaler that holds
/// its files.
pub open spec fn ncnn_prefix() -> Seq<char> {
    "realcugan-ncnn-vulkan-20220728-windows"@
}

/// The path inside the release archive of the Vulkan upscaler of the file
/// `rel`.
pub fn ncnn_zip_path(rel: &str) -> (r: String)
    ensures
        r@ == ncnn_prefix() + seq!['/'] + rel@,
{
    let prefix = "realcugan-ncnn-vulkan-20220728-windows";
    let mut out = chars_of(prefix);
    out.push('/');
    let rest = chars_of(rel);
    append_chars(&mut out, &rest);
    string_of(&out)
}

/// The file `rel` of the Vulkan upscaler, read out of its release archive
/// `zip_bytes`, where it is stored under `ncnn_zip_path(rel)`.
pub fn ncnn_file_data(zip_bytes: &[u8], rel: &str) -> (r: Result<Vec<u8>, String>)
    ensures
        (r is Ok) <==> (zip_named_data(zip_bytes@, ncnn_prefix() + seq!['/'] + rel@) is Some),
        r matches Ok(d) ==> zip_named_data(zip_bytes@, ncnn_prefix() + seq!['/'] + rel@) == Some(
            d@,
        ),
{
    let name = ncnn_zip_path(rel);
    zip_named_bytes(zip_bytes, name.as_str())
}

pub open spec fn ncnn_word() -> Seq<char> {
    "realcugan-ncnn-vulkan"@
}

/// Where the Vulkan upscaler is installed under a base directory (the
/// application data or the resource directory).
pub fn ncnn_dir_in(base: &str) -> (r: String)
    ensures
        r@ == join_path(base@, ncnn_word()),
{
    join(base, "realcugan-ncnn-vulkan")
}

/// The executable of the Vulkan upscaler in its directory.
pub fn ncnn_exe_in(ncnn_dir: &str) -> (r: String)
    ensures
        r@ == join_path(ncnn_dir@, "realcugan-ncnn-vulkan.exe"@),
{
    join(ncnn_dir, "realcugan-ncnn-vulkan.exe")
}

/// An upscaled file name is a single path component: it holds no separator,
/// so the result always lands directly in the upscale directory.
pub proof fn lemma_upscaled_name_is_component(timestamp_ms: nat, input_path: Seq<char>, scale: nat)
    ensures
        forall|i: int|
            0 <= i < upscaled_file_name_of(timestamp_ms, input_path, scale).len()
                ==> !is_sep(#[trigger] upscaled_file_name_of(timestamp_ms, input_path, scale)[i]),
{
    lemma_decimal_digits(timestamp_ms);
    lemma_decimal_digits(scale);
    crate::media::lemma_file_name_shape(input_path);
    let stem = file_stem_or(input_path, crate::media::image_word());
    assert forall|j: int| 0 <= j < stem.len() implies !is_sep(stem[j]) by {
        if let Some(f) = crate::media::file_name(input_path) {
            crate::media::lemma_last_dot_range(f);
            assert(stem == crate::media::name_stem(f));
            assert(stem[j] == f[j]);
        } else {
            assert(stem == crate::media::image_word());
        }
    }
    let a = decimal(timestamp_ms);
    let b = decimal(scale);
    let n = upscaled_file_name_of(timestamp_ms, input_path, scale);
    assert(n =~= a + seq!['_'] + stem + seq!['_'] + b + png_suffix());
    assert forall|i: int| 0 <= i < n.len() implies !is_sep(#[trigger] n[i]) by {
        let p1 = a.len();
        let p2 = p1 + 1 + stem.len();
        let p3 = p2 + 1 + b.len();
        if i < p1 {
            assert(n[i] == a[i]);
        } else if i == p1 {
            assert(n[i] == '_');
        } else if i < p2 {
            assert(n[i] == stem[i - p1 - 1]);
        } else if i == p2 {
            assert(n[i] == '_');
        } else if i < p3 {
            assert(n[i] == b[i - p2 - 1]);
        } else {
            assert(n[i] == png_suffix()[i - p3]);
        }
    }
}

} // verus!
