//! Composition of decoded tiles into the frame buffer.
//!
//! The frame buffer is a flat slice of 16-bit pixels in row-major order whose
//! row length (`stride`) is the width of the whole image. A tile is a
//! rectangle of the image delivered by the decoder, together with its own
//! pixels in row-major order.
use vstd::prelude::*;
use vstd::arithmetic::div_mod::{lemma_fundamental_div_mod, lemma_fundamental_div_mod_converse};

verus! {

/// The pixel depth, in bits, that the frame buffer stores.
pub const NATIVE_BPP: u32 = 16;

/// Where a tile lies in the image and how its pixels are encoded.
#[derive(Clone, Copy, Debug, PartialEq, Eq, Structural)]
pub struct TileGeometry {
    pub x: usize,
    pub y: usize,
    pub width: usize,
    pub height: usize,
    pub bpp: u32,
}

impl TileGeometry {
    pub fn new(x: usize, y: usize, width: usize, height: usize, bpp: u32) -> (g: TileGeometry)
        ensures
            g == (TileGeometry { x, y, width, height, bpp }),
    {
        TileGeometry { x, y, width, height, bpp }
    }
}

/// Number of pixels that a tile carries.
pub open spec fn tile_len(g: TileGeometry) -> nat {
    (g.width * g.height) as nat
}

/// Flat frame-buffer offset of the tile's `k`-th pixel in row-major order.
pub open spec fn dst_offset(stride: nat, g: TileGeometry, k: int) -> int {
    (g.y + k / (g.width as int)) * stride + g.x + k % (g.width as int)
}

/// Index of the first pixel, from `k` on, whose offset falls outside a buffer
/// of `len` pixels; `tile_len(g)` when there is none. Writing stops there.
pub open spec fn scan_limit(len: nat, stride: nat, g: TileGeometry, k: nat) -> nat
    decreases tile_len(g) - k,
{
    if k >= tile_len(g) {
        tile_len(g)
    } else if dst_offset(stride, g, k as int) >= len {
        k
    } else {
        scan_limit(len, stride, g, k + 1)
    }
}

/// The buffer after the first `n` pixels of the tile were written in order.
pub open spec fn written_prefix(
    frame: Seq<u16>,
    stride: nat,
    g: TileGeometry,
    pixels: Seq<u16>,
    n: nat,
) -> Seq<u16>
    decreases n,
{
    if n == 0 {
        frame
    } else {
        written_prefix(frame, stride, g, pixels, (n - 1) as nat).update(
            dst_offset(stride, g, n - 1),
            pixels[n - 1],
        )
    }
}

/// The buffer after composing one tile: pixels are copied in row-major order
/// up to the first one whose offset is out of bounds; a tile of another depth
/// is not copied.
pub open spec fn composed(frame: Seq<u16>, stride: nat, g: TileGeometry, pixels: Seq<u16>) -> Seq<
    u16,
> {
    if g.bpp != NATIVE_BPP {
        frame
    } else {
        written_prefix(frame, stride, g, pixels, scan_limit(frame.len(), stride, g, 0))
    }
}

/// The tile lies inside an image `stride` pixels wide held in `len` pixels.
pub open spec fn tile_within(len: nat, stride: nat, g: TileGeometry) -> bool {
    &&& stride > 0
    &&& g.x + g.width <= stride
    &&& (g.y + g.height) * stride <= len
}

/// Offset `i` belongs to the tile's rectangle in an image `stride` wide.
pub open spec fn covers(stride: nat, g: TileGeometry, i: int) -> bool {
    &&& g.y <= i / (stride as int) < g.y + g.height
    &&& g.x <= i % (stride as int) < g.x + g.width
}

/// Flat offset of pixel `(rx, ry)` of the tile in an image `stride` wide.
pub open spec fn pixel_offset(stride: nat, g: TileGeometry, rx: int, ry: int) -> int {
    (g.y + ry) * stride + g.x + rx
}

/// Every pixel of a tile inside the image lands at its own offset, and every
/// offset outside the tile's rectangle keeps its value.
pub open spec fn placed_exactly(
    before: Seq<u16>,
    after: Seq<u16>,
    stride: nat,
    g: TileGeometry,
    pixels: Seq<u16>,
) -> bool {
    &&& forall|rx: int, ry: int|
        0 <= rx < g.width && 0 <= ry < g.height ==> after[#[trigger] pixel_offset(stride, g, rx, ry)]
            == pixels[ry * g.width + rx]
    &&& forall|i: int| 0 <= i < before.len() && !covers(stride, g, i) ==> after[i] == before[i]
}

/// Every offset whose value changed is the destination of one of the tile's
/// pixels.
pub open spec fn changes_only_tile(
    before: Seq<u16>,
    after: Seq<u16>,
    stride: nat,
    g: TileGeometry,
) -> bool {
    forall|i: int|
        0 <= i < before.len() && after[i] != before[i] ==> exists|k: int|
            0 <= k < tile_len(g) && #[trigger] dst_offset(stride, g, k) == i
}

proof fn lemma_dst_nonneg(stride: nat, g: TileGeometry, k: int)
    requires
        0 <= k < tile_len(g),
    ensures
        dst_offset(stride, g, k) >= 0,
        g.width > 0,
{
    let w = g.width as int;
    assert(w > 0) by (nonlinear_arith)
        requires
            0 <= k < g.width * g.height,
            w == g.width,
    ;
    let q = k / w;
    let r = k % w;
    assert(q >= 0 && r >= 0);
    assert((g.y + q) * stride >= 0) by (nonlinear_arith)
        requires
            g.y + q >= 0,
    ;
}

proof fn lemma_scan_limit(len: nat, stride: nat, g: TileGeometry, k: nat)
    requires
        k <= tile_len(g),
    ensures
        k <= scan_limit(len, stride, g, k) <= tile_len(g),
        scan_limit(len, stride, g, k) < tile_len(g) ==> dst_offset(
            stride,
            g,
            scan_limit(len, stride, g, k) as int,
        ) >= len,
        forall|j: int|
            k <= j < scan_limit(len, stride, g, k) ==> #[trigger] dst_offset(stride, g, j) < len,
    decreases tile_len(g) - k,
{
    if k < tile_len(g) && dst_offset(stride, g, k as int) < len {
        lemma_scan_limit(len, stride, g, k + 1);
    }
}

proof fn lemma_prefix_changes(
    frame: Seq<u16>,
    stride: nat,
    g: TileGeometry,
    pixels: Seq<u16>,
    n: nat,
)
    requires
        n <= tile_len(g),
        forall|j: int| 0 <= j < n ==> #[trigger] dst_offset(stride, g, j) < frame.len(),
    ensures
        written_prefix(frame, stride, g, pixels, n).len() == frame.len(),
        forall|i: int|
            0 <= i < frame.len() && written_prefix(frame, stride, g, pixels, n)[i] != frame[i]
                ==> exists|k: int| 0 <= k < n && #[trigger] dst_offset(stride, g, k) == i,
    decreases n,
{
    if n > 0 {
        let m = (n - 1) as nat;
        lemma_prefix_changes(frame, stride, g, pixels, m);
        lemma_dst_nonneg(stride, g, m as int);
        assert(dst_offset(stride, g, m as int) < frame.len());
        let prev = written_prefix(frame, stride, g, pixels, m);
        assert forall|i: int|
            0 <= i < frame.len() && written_prefix(frame, stride, g, pixels, n)[i] != frame[i]
                implies exists|k: int| 0 <= k < n && #[trigger] dst_offset(stride, g, k) == i by {
            if i == dst_offset(stride, g, m as int) {
                assert(dst_offset(stride, g, m as int) == i);
            } else {
                assert(prev[i] != frame[i]);
                let k = choose|k: int| 0 <= k < m && #[trigger] dst_offset(stride, g, k) == i;
                assert(dst_offset(stride, g, k) == i);
            }
        }
    }
}

/// Where pixel `k` of a tile inside the image lands: its row and column in
/// the image, and an offset inside the buffer.
proof fn lemma_dst_cell(len: nat, stride: nat, g: TileGeometry, k: int)
    requires
        tile_within(len, stride, g),
        0 <= k < tile_len(g),
    ensures
        dst_offset(stride, g, k) / (stride as int) == g.y + k / (g.width as int),
        dst_offset(stride, g, k) % (stride as int) == g.x + k % (g.width as int),
        covers(stride, g, dst_offset(stride, g, k)),
        0 <= dst_offset(stride, g, k) < len,
{
    lemma_dst_nonneg(stride, g, k);
    let w = g.width as int;
    let h = g.height as int;
    let s = stride as int;
    let q = k / w;
    let r = k % w;
    lemma_fundamental_div_mod(k, w);
    assert(0 <= r < w);
    assert(q >= 0);
    assert(q < h) by (nonlinear_arith)
        requires
            k == w * q + r,
            0 <= r,
            k < w * h,
            w > 0,
    ;
    let d = dst_offset(stride, g, k);
    assert(d == (g.y + q) * s + (g.x + r));
    lemma_fundamental_div_mod_converse(d, s, g.y + q, g.x + r);
    assert(d < len) by (nonlinear_arith)
        requires
            d == (g.y + q) * s + (g.x + r),
            g.x + r < s,
            q < h,
            (g.y + h) * s <= len,
            s > 0,
    ;
}

proof fn lemma_prefix_within(
    frame: Seq<u16>,
    stride: nat,
    g: TileGeometry,
    pixels: Seq<u16>,
    n: nat,
)
    requires
        tile_within(frame.len(), stride, g),
        n <= tile_len(g),
    ensures
        written_prefix(frame, stride, g, pixels, n).len() == frame.len(),
        forall|j: int|
            0 <= j < n ==> written_prefix(frame, stride, g, pixels, n)[#[trigger] dst_offset(
                stride,
                g,
                j,
            )] == pixels[j],
        forall|i: int|
            0 <= i < frame.len() && (forall|j: int|
                0 <= j < n ==> #[trigger] dst_offset(stride, g, j) != i) ==> written_prefix(
                frame,
                stride,
                g,
                pixels,
                n,
            )[i] == frame[i],
    decreases n,
{
    if n > 0 {
        let m = (n - 1) as nat;
        lemma_prefix_within(frame, stride, g, pixels, m);
        lemma_dst_cell(frame.len(), stride, g, m as int);
        let w = g.width as int;
        assert forall|j: int|
            0 <= j < n implies written_prefix(frame, stride, g, pixels, n)[#[trigger] dst_offset(
                stride,
                g,
                j,
            )] == pixels[j] by {
            if j < m {
                lemma_dst_cell(frame.len(), stride, g, j);
                if dst_offset(stride, g, j) == dst_offset(stride, g, m as int) {
                    lemma_fundamental_div_mod(j, w);
                    lemma_fundamental_div_mod(m as int, w);
                }
            }
        }
    }
}

/// Facts about one composed tile that hold whatever the tile is.
proof fn lemma_composed(frame: Seq<u16>, stride: nat, g: TileGeometry, pixels: Seq<u16>)
    ensures
        composed(frame, stride, g, pixels).len() == frame.len(),
        changes_only_tile(frame, composed(frame, stride, g, pixels), stride, g),
        g.bpp == NATIVE_BPP && tile_within(frame.len(), stride, g) ==> placed_exactly(
            frame,
            composed(frame, stride, g, pixels),
            stride,
            g,
            pixels,
        ),
{
    if g.bpp == NATIVE_BPP {
        let lim = scan_limit(frame.len(), stride, g, 0);
        lemma_scan_limit(frame.len(), stride, g, 0);
        lemma_prefix_changes(frame, stride, g, pixels, lim);
        let after = composed(frame, stride, g, pixels);
        if tile_within(frame.len(), stride, g) {
            let n = tile_len(g);
            if lim < n {
                lemma_dst_cell(frame.len(), stride, g, lim as int);
            }
            assert(lim == n);
            lemma_prefix_within(frame, stride, g, pixels, n);
            let w = g.width as int;
            assert forall|rx: int, ry: int|
                0 <= rx < g.width && 0 <= ry < g.height implies after[#[trigger] pixel_offset(
                    stride,
                    g,
                    rx,
                    ry,
                )] == pixels[ry * g.width + rx] by {
                let k = ry * w + rx;
                assert(0 <= k < n) by (nonlinear_arith)
                    requires
                        k == ry * w + rx,
                        0 <= rx < w,
                        0 <= ry < g.height,
                        n == w * g.height,
                ;
                lemma_fundamental_div_mod_converse(k, w, ry, rx);
                assert(dst_offset(stride, g, k) == pixel_offset(stride, g, rx, ry));
            }
            assert forall|i: int|
                0 <= i < frame.len() && !covers(stride, g, i) implies after[i] == frame[i] by {
                assert forall|j: int| 0 <= j < n implies #[trigger] dst_offset(stride, g, j) != i by {
                    lemma_dst_cell(frame.len(), stride, g, j);
                }
            }
        }
    }
}

/// The buffer already holds each of the tile's pixels that falls inside it.
pub open spec fn holds_tile(frame: Seq<u16>, stride: nat, g: TileGeometry, pixels: Seq<u16>) -> bool {
    forall|k: int|
        0 <= k < tile_len(g) && #[trigger] dst_offset(stride, g, k) < frame.len() ==> frame[dst_offset(
            stride,
            g,
            k,
        )] == pixels[k]
}

/// The buffer after the tiles are composed one after another.
pub open spec fn composed_all(frame: Seq<u16>, stride: nat, tiles: Seq<(TileGeometry, Seq<u16>)>) -> Seq<
    u16,
>
    decreases tiles.len(),
{
    if tiles.len() == 0 {
        frame
    } else {
        composed_all(
            composed(frame, stride, tiles[0].0, tiles[0].1),
            stride,
            tiles.drop_first(),
        )
    }
}

proof fn lemma_prefix_rewrites_same(
    frame: Seq<u16>,
    stride: nat,
    g: TileGeometry,
    pixels: Seq<u16>,
    n: nat,
)
    requires
        holds_tile(frame, stride, g, pixels),
        n <= tile_len(g),
        forall|j: int| 0 <= j < n ==> #[trigger] dst_offset(stride, g, j) < frame.len(),
    ensures
        written_prefix(frame, stride, g, pixels, n) == frame,
    decreases n,
{
    if n > 0 {
        let m = (n - 1) as nat;
        lemma_prefix_rewrites_same(frame, stride, g, pixels, m);
        lemma_dst_nonneg(stride, g, m as int);
        assert(dst_offset(stride, g, m as int) < frame.len());
        assert(frame.update(dst_offset(stride, g, m as int), pixels[m as int]) =~= frame);
    }
}

/// Composing a tile into a buffer that already holds its pixels leaves the
/// buffer bit-identical.
pub proof fn lemma_redelivery_keeps_frame(
    frame: Seq<u16>,
    stride: nat,
    g: TileGeometry,
    pixels: Seq<u16>,
)
    requires
        holds_tile(frame, stride, g, pixels),
    ensures
        composed(frame, stride, g, pixels) == frame,
{
    if g.bpp == NATIVE_BPP {
        let lim = scan_limit(frame.len(), stride, g, 0);
        lemma_scan_limit(frame.len(), stride, g, 0);
        lemma_prefix_rewrites_same(frame, stride, g, pixels, lim);
    }
}

/// A buffer that holds the pixels of every tile of a decode is left
/// bit-identical by any sequence of those tiles, in particular by the tiles
/// that a later attempt delivers before it fails, and by none at all when
/// the open fails.
pub proof fn lemma_redelivered_tiles_keep_frame(
    frame: Seq<u16>,
    stride: nat,
    tiles: Seq<(TileGeometry, Seq<u16>)>,
)
    requires
        forall|i: int| 0 <= i < tiles.len() ==> holds_tile(frame, stride, #[trigger] tiles[i].0, tiles[i].1),
    ensures
        composed_all(frame, stride, tiles) == frame,
    decreases tiles.len(),
{
    if tiles.len() > 0 {
        lemma_redelivery_keeps_frame(frame, stride, tiles[0].0, tiles[0].1);
        let rest = tiles.drop_first();
        assert forall|i: int| 0 <= i < rest.len() implies holds_tile(frame, stride, #[trigger] rest[i].0, rest[i].1) by {
            assert(rest[i] == tiles[i + 1]);
        }
        lemma_redelivered_tiles_keep_frame(frame, stride, rest);
    }
}

/// No pixel of tile `a` lands where a pixel of tile `b` lands.
pub open spec fn tiles_disjoint(stride: nat, a: TileGeometry, b: TileGeometry) -> bool {
    forall|k1: int, k2: int|
        0 <= k1 < tile_len(a) && 0 <= k2 < tile_len(b) ==> #[trigger] dst_offset(stride, a, k1)
            != #[trigger] dst_offset(stride, b, k2)
}

proof fn lemma_composed_holds(frame: Seq<u16>, stride: nat, g: TileGeometry, pixels: Seq<u16>)
    requires
        g.bpp == NATIVE_BPP,
        tile_within(frame.len(), stride, g),
    ensures
        holds_tile(composed(frame, stride, g, pixels), stride, g, pixels),
{
    let n = tile_len(g);
    let lim = scan_limit(frame.len(), stride, g, 0);
    lemma_scan_limit(frame.len(), stride, g, 0);
    if lim < n {
        lemma_dst_cell(frame.len(), stride, g, lim as int);
    }
    lemma_prefix_within(frame, stride, g, pixels, n);
}

proof fn lemma_all_keeps_cell(
    frame: Seq<u16>,
    stride: nat,
    tiles: Seq<(TileGeometry, Seq<u16>)>,
    c: int,
)
    requires
        0 <= c < frame.len(),
        forall|i: int, k: int|
            0 <= i < tiles.len() && 0 <= k < tile_len(tiles[i].0) ==> #[trigger] dst_offset(
                stride,
                tiles[i].0,
                k,
            ) != c,
    ensures
        composed_all(frame, stride, tiles).len() == frame.len(),
        composed_all(frame, stride, tiles)[c] == frame[c],
    decreases tiles.len(),
{
    if tiles.len() > 0 {
        let g = tiles[0].0;
        let f1 = composed(frame, stride, g, tiles[0].1);
        lemma_composed(frame, stride, g, tiles[0].1);
        if f1[c] != frame[c] {
            let k = choose|k: int| 0 <= k < tile_len(g) && #[trigger] dst_offset(stride, g, k) == c;
            assert(dst_offset(stride, tiles[0].0, k) != c);
        }
        let rest = tiles.drop_first();
        assert forall|i: int, k: int|
            0 <= i < rest.len() && 0 <= k < tile_len(rest[i].0) implies #[trigger] dst_offset(
                stride,
                rest[i].0,
                k,
            ) != c by {
            assert(rest[i] == tiles[i + 1]);
            assert(dst_offset(stride, tiles[i + 1].0, k) != c);
        }
        lemma_all_keeps_cell(f1, stride, rest, c);
    }
}

/// After a decode whose tiles are of the native depth, inside the image and
/// pairwise disjoint, the buffer holds the pixels of every one of them.
pub proof fn lemma_decoded_frame_holds_tiles(
    frame: Seq<u16>,
    stride: nat,
    tiles: Seq<(TileGeometry, Seq<u16>)>,
)
    requires
        forall|i: int|
            0 <= i < tiles.len() ==> (#[trigger] tiles[i]).0.bpp == NATIVE_BPP && tile_within(
                frame.len(),
                stride,
                tiles[i].0,
            ),
        forall|i: int, j: int|
            0 <= i < tiles.len() && 0 <= j < tiles.len() && i != j ==> tiles_disjoint(
                stride,
                #[trigger] tiles[i].0,
                #[trigger] tiles[j].0,
            ),
    ensures
        composed_all(frame, stride, tiles).len() == frame.len(),
        forall|i: int|
            0 <= i < tiles.len() ==> holds_tile(
                composed_all(frame, stride, tiles),
                stride,
                #[trigger] tiles[i].0,
                tiles[i].1,
            ),
    decreases tiles.len(),
{
    if tiles.len() > 0 {
        let g = tiles[0].0;
        let px = tiles[0].1;
        let f1 = composed(frame, stride, g, px);
        lemma_composed(frame, stride, g, px);
        lemma_composed_holds(frame, stride, g, px);
        let rest = tiles.drop_first();
        assert forall|i: int|
            0 <= i < rest.len() implies (#[trigger] rest[i]).0.bpp == NATIVE_BPP && tile_within(
                f1.len(),
                stride,
                rest[i].0,
            ) by {
            assert(rest[i] == tiles[i + 1]);
        }
        assert forall|i: int, j: int|
            0 <= i < rest.len() && 0 <= j < rest.len() && i != j implies tiles_disjoint(
                stride,
                #[trigger] rest[i].0,
                #[trigger] rest[j].0,
            ) by {
            assert(rest[i] == tiles[i + 1]);
            assert(rest[j] == tiles[j + 1]);
        }
        lemma_decoded_frame_holds_tiles(f1, stride, rest);
        let fin = composed_all(frame, stride, tiles);
        assert(fin == composed_all(f1, stride, rest));
        assert forall|k: int|
            0 <= k < tile_len(g) && #[trigger] dst_offset(stride, g, k) < fin.len() implies fin[dst_offset(
                stride,
                g,
                k,
            )] == px[k] by {
            let c = dst_offset(stride, g, k);
            lemma_dst_nonneg(stride, g, k);
            assert forall|i: int, k2: int|
                0 <= i < rest.len() && 0 <= k2 < tile_len(rest[i].0) implies #[trigger] dst_offset(
                    stride,
                    rest[i].0,
                    k2,
                ) != c by {
                assert(rest[i] == tiles[i + 1]);
                assert(tiles_disjoint(stride, tiles[0].0, tiles[i + 1].0));
            }
            lemma_all_keeps_cell(f1, stride, rest, c);
        }
        assert forall|i: int| 0 <= i < tiles.len() implies holds_tile(
            fin,
            stride,
            #[trigger] tiles[i].0,
            tiles[i].1,
        ) by {
            if i > 0 {
                assert(rest[i - 1] == tiles[i]);
            }
        }
    }
}

/// Stale-frame fallback: after a successful decode of pairwise disjoint
/// native-depth tiles inside the image, a failed attempt on the same source
/// delivers only the first `m` of those tiles (none when the open fails), and
/// leaves the buffer bit-identical.
pub proof fn lemma_failed_redecode_keeps_frame(
    frame: Seq<u16>,
    stride: nat,
    tiles: Seq<(TileGeometry, Seq<u16>)>,
    m: int,
)
    requires
        0 <= m <= tiles.len(),
        forall|i: int|
            0 <= i < tiles.len() ==> (#[trigger] tiles[i]).0.bpp == NATIVE_BPP && tile_within(
                frame.len(),
                stride,
                tiles[i].0,
            ),
        forall|i: int, j: int|
            0 <= i < tiles.len() && 0 <= j < tiles.len() && i != j ==> tiles_disjoint(
                stride,
                #[trigger] tiles[i].0,
                #[trigger] tiles[j].0,
            ),
    ensures
        composed_all(composed_all(frame, stride, tiles), stride, tiles.take(m)) == composed_all(
            frame,
            stride,
            tiles,
        ),
{
    let decoded = composed_all(frame, stride, tiles);
    lemma_decoded_frame_holds_tiles(frame, stride, tiles);
    let prefix = tiles.take(m);
    assert forall|i: int| 0 <= i < prefix.len() implies holds_tile(
        decoded,
        stride,
        #[trigger] prefix[i].0,
        prefix[i].1,
    ) by {
        assert(prefix[i] == tiles[i]);
    }
    lemma_redelivered_tiles_keep_frame(decoded, stride, prefix);
}

/// `(origin + rel) * stride + x + col`, or `None` when it exceeds `usize`.
fn flat_offset(origin: usize, rel: usize, stride: usize, x: usize, col: usize) -> (r: Option<usize>)
    ensures
        match r {
            Some(v) => v == (origin + rel) * stride + x + col,
            None => (origin + rel) * stride + x + col > usize::MAX,
        },
{
    if stride == 0 {
        assert((origin + rel) * stride == 0) by (nonlinear_arith)
            requires
                stride == 0,
        ;
        return x.checked_add(col);
    }
    let row = match origin.checked_add(rel) {
        Some(row) => row,
        None => {
            assert((origin + rel) * stride >= origin + rel) by (nonlinear_arith)
                requires
                    stride >= 1,
                    origin + rel >= 0,
            ;
            return None;
        },
    };
    let base = match row.checked_mul(stride) {
        Some(base) => base,
        None => return None,
    };
    match base.checked_add(x) {
        Some(b) => b.checked_add(col),
        None => None,
    }
}

/// Copies one decoded tile into the frame buffer.
///
/// Pixel `(rx, ry)` of the tile goes to offset
/// `(g.y + ry) * stride + g.x + rx`. The copy runs in row-major order and
/// stops, without error, at the first pixel whose offset is not below the
/// buffer's length. Only tiles of `NATIVE_BPP` bits per pixel are copied.
pub fn composite_tile(frame: &mut [u16], stride: usize, g: TileGeometry, pixels: &[u16])
    requires
        pixels@.len() == g.width * g.height,
    ensures
        final(frame)@ == composed(old(frame)@, stride as nat, g, pixels@),
        final(frame)@.len() == old(frame)@.len(),
        changes_only_tile(old(frame)@, final(frame)@, stride as nat, g),
        g.bpp == NATIVE_BPP && tile_within(old(frame)@.len(), stride as nat, g) ==> placed_exactly(
            old(frame)@,
            final(frame)@,
            stride as nat,
            g,
            pixels@,
        ),
{
    proof {
        lemma_composed(old(frame)@, stride as nat, g, pixels@);
    }
    if g.bpp == NATIVE_BPP {
        copy_pixels(frame, stride, g, pixels);
    }
}

/// Copies the tile's pixels in row-major order until one falls outside.
fn copy_pixels(frame: &mut [u16], stride: usize, g: TileGeometry, pixels: &[u16])
    requires
        pixels@.len() == g.width * g.height,
        g.bpp == NATIVE_BPP,
    ensures
        final(frame)@ == composed(old(frame)@, stride as nat, g, pixels@),
{
    let n: usize = pixels.len();
    let flen: usize = frame.len();
    let ghost len = frame@.len();
    let mut k: usize = 0;
    while k < n
        invariant
            n == g.width * g.height,
            n == pixels@.len(),
            frame@.len() == len,
            len == flen,
            len == old(frame)@.len(),
            g.bpp == NATIVE_BPP,
            k <= n,
            scan_limit(len, stride as nat, g, 0) == scan_limit(len, stride as nat, g, k as nat),
            frame@ == written_prefix(old(frame)@, stride as nat, g, pixels@, k as nat),
        decreases n - k,
    {
        assert(g.width > 0) by (nonlinear_arith)
            requires
                k < n,
                n == g.width * g.height,
        ;
        let row = k / g.width;
        let col = k % g.width;
        match flat_offset(g.y, row, stride, g.x, col) {
            None => {
                return;
            },
            Some(dst) => {
                if dst >= flen {
                    return;
                }
                frame[dst] = pixels[k];
            },
        }
        k = k + 1;
    }
}

} // verus!
