//! Pixel addressing in RGBA frame buffers and the verified drawing
//! primitives of the frame compositor.
use vstd::prelude::*;
use vstd::utf8::encode_utf8;

verus! {

/// The byte offset of pixel `(x, y)` in an RGBA frame of the given width.
pub open spec fn pixel_index(width: int, x: int, y: int) -> int {
    (y * width + x) * 4
}

/// The column of the pixel that byte `i` belongs to.
pub open spec fn pixel_x(i: int, width: int) -> int {
    (i / 4) % width
}

/// The row of the pixel that byte `i` belongs to.
pub open spec fn pixel_y(i: int, width: int) -> int {
    (i / 4) / width
}

/// The colour channel (red, green, blue, alpha) that byte `i` holds.
pub open spec fn channel(i: int) -> int {
    i % 4
}

/// The buffer holds a `width` x `height` RGBA frame whose byte offsets fit
/// the 32-bit arithmetic of the compositor.
pub open spec fn frame_fits(len: int, width: u32, height: u32) -> bool {
    &&& width * height <= 0x4000_0000
    &&& width * height * 4 <= len
}

/// Tells whether a buffer of `len` bytes holds a `width` x `height` frame
/// that the drawing functions accept.
pub fn frame_fits_exec(len: usize, width: u32, height: u32) -> (r: bool)
    ensures
        r == frame_fits(len as int, width, height),
{
    let w = width as u64;
    let h = height as u64;
    assert(w * h <= 0xffff_ffff_ffff_ffff) by (nonlinear_arith)
        requires w <= 0xffff_ffff, h <= 0xffff_ffff;
    let pixels = w * h;
    pixels <= 0x4000_0000 && pixels * 4 <= len as u64
}

/// Byte `i` lies in the frame and its pixel in the rectangle `[x0, x1) x [y0, y1)`.
pub open spec fn in_rect(i: int, width: int, height: int, x0: int, y0: int, x1: int, y1: int) -> bool {
    &&& 0 <= i < width * height * 4
    &&& x0 <= pixel_x(i, width) < x1
    &&& y0 <= pixel_y(i, width) < y1
}

/// The buffer with every pixel of the rectangle set to `color`.
pub open spec fn painted(buf: Seq<u8>, width: int, height: int, x0: int, y0: int, x1: int, y1: int, color: Seq<u8>) -> Seq<u8> {
    Seq::new(buf.len(), |i: int| if in_rect(i, width, height, x0, y0, x1, y1) { color[channel(i)] } else { buf[i] })
}

/// The bytes of pixel `(x, y)` are exactly the bytes whose pixel is `(x, y)`.
pub proof fn lemma_pixel_bytes(width: int, x: int, y: int, i: int)
    requires
        0 <= x < width,
        0 <= y,
        0 <= i,
    ensures
        (pixel_x(i, width) == x && pixel_y(i, width) == y) <==> (pixel_index(width, x, y) <= i < pixel_index(width, x, y) + 4),
        pixel_index(width, x, y) <= i < pixel_index(width, x, y) + 4 ==> channel(i) == i - pixel_index(width, x, y),
{
    let q = i / 4;
    vstd::arithmetic::div_mod::lemma_fundamental_div_mod(i, 4);
    vstd::arithmetic::div_mod::lemma_fundamental_div_mod(q, width);
    vstd::arithmetic::div_mod::lemma_mod_pos_bound(q, width);
    vstd::arithmetic::div_mod::lemma_div_pos_is_pos(q, width);
    let base = pixel_index(width, x, y);
    if pixel_x(i, width) == x && pixel_y(i, width) == y {
        assert(q == y * width + x) by (nonlinear_arith)
            requires q == width * (q / width) + q % width, q % width == x, q / width == y;
    }
    if base <= i < base + 4 {
        assert(q == y * width + x) by (nonlinear_arith)
            requires base == (y * width + x) * 4, base <= i < base + 4, i == 4 * q + i % 4, 0 <= i % 4 < 4;
        vstd::arithmetic::div_mod::lemma_fundamental_div_mod_converse(q, width, y, x);
        assert(i % 4 == i - base) by (nonlinear_arith)
            requires base == (y * width + x) * 4, i == 4 * q + i % 4, q == y * width + x;
    }
}

/// Every byte of the frame belongs to a pixel of the frame.
pub proof fn lemma_byte_pixel(width: int, height: int, i: int)
    requires
        0 < width,
        0 <= height,
        0 <= i < width * height * 4,
    ensures
        0 <= pixel_x(i, width) < width,
        0 <= pixel_y(i, width) < height,
        0 <= channel(i) < 4,
        i == pixel_index(width, pixel_x(i, width), pixel_y(i, width)) + channel(i),
{
    let q = i / 4;
    vstd::arithmetic::div_mod::lemma_fundamental_div_mod(i, 4);
    vstd::arithmetic::div_mod::lemma_fundamental_div_mod(q, width);
    vstd::arithmetic::div_mod::lemma_mod_pos_bound(q, width);
    vstd::arithmetic::div_mod::lemma_mod_pos_bound(i, 4);
    vstd::arithmetic::div_mod::lemma_div_pos_is_pos(q, width);
    assert(q < width * height) by (nonlinear_arith)
        requires i == 4 * q + i % 4, 0 <= i % 4 < 4, i < width * height * 4;
    assert(q / width < height) by (nonlinear_arith)
        requires q == width * (q / width) + q % width, q % width >= 0, q < width * height, width > 0;
    assert(i == (q / width * width + q % width) * 4 + i % 4) by (nonlinear_arith)
        requires i == 4 * q + i % 4, q == width * (q / width) + q % width;
}

/// A pixel offset inside the frame fits the compositor's 32-bit arithmetic.
proof fn lemma_index_fits(width: u32, height: u32, x: int, y: int)
    requires
        width * height <= 0x4000_0000,
        0 <= x < width,
        0 <= y < height,
    ensures
        0 <= y * width + x < width * height,
        pixel_index(width as int, x, y) + 4 <= width * height * 4,
        width * height * 4 <= 0x1_0000_0000,
{
    assert(y * width + x < width * height) by (nonlinear_arith)
        requires 0 <= x < width, 0 <= y < height;
    assert(0 <= y * width) by (nonlinear_arith)
        requires 0 <= y, 0 <= width;
}

/// Writes the four bytes of `color` at `index`.
fn write_rgba(buffer: &mut [u8], index: usize, color: [u8; 4])
    requires
        index + 4 <= old(buffer)@.len(),
    ensures
        final(buffer)@.len() == old(buffer)@.len(),
        forall|j: int| 0 <= j < old(buffer)@.len() ==> #[trigger] final(buffer)@[j]
            == if index <= j < index + 4 { color@[j - index] } else { old(buffer)@[j] },
{
    buffer[index] = color[0];
    buffer[index + 1] = color[1];
    buffer[index + 2] = color[2];
    buffer[index + 3] = color[3];
}

/// Sets one pixel when `(x, y)` lies inside the frame; does nothing otherwise.
pub fn put_pixel(buffer: &mut [u8], width: u32, height: u32, x: i32, y: i32, color: [u8; 4])
    requires
        frame_fits(old(buffer)@.len() as int, width, height),
    ensures
        final(buffer)@ == if 0 <= x < width && 0 <= y < height {
            painted(old(buffer)@, width as int, height as int, x as int, y as int, x + 1, y + 1, color@)
        } else {
            old(buffer)@
        },
{
    if x < 0 || y < 0 || x as i64 >= width as i64 || y as i64 >= height as i64 {
        return;
    }
    let ghost old_buf = buffer@;
    proof {
        lemma_index_fits(width, height, x as int, y as int);
    }
    let index = ((y as u32 * width + x as u32) * 4) as usize;
    write_rgba(buffer, index, color);
    proof {
        let p = painted(old_buf, width as int, height as int, x as int, y as int, x + 1, y + 1, color@);
        assert forall|j: int| 0 <= j < old_buf.len() implies buffer@[j] == p[j] by {
            lemma_pixel_bytes(width as int, x as int, y as int, j);
            if in_rect(j, width as int, height as int, x as int, y as int, x + 1, y + 1) {
                assert(index <= j < index + 4);
            } else if index <= j < index + 4 {
                assert(j < width * height * 4);
            }
        }
        assert(buffer@ =~= p);
    }
}

/// Fills the rectangle `[x0, x1) x [y0, y1)` of the frame with `color`.
fn fill_rect(buffer: &mut [u8], width: u32, height: u32, x0: u32, y0: u32, x1: u32, y1: u32, color: [u8; 4])
    requires
        frame_fits(old(buffer)@.len() as int, width, height),
        x1 <= width,
        y1 <= height,
    ensures
        final(buffer)@ == painted(old(buffer)@, width as int, height as int, x0 as int, y0 as int, x1 as int, y1 as int, color@),
{
    let ghost old_buf = buffer@;
    let ghost w = width as int;
    let ghost h = height as int;
    let mut y = y0;
    while y < y1
        invariant
            frame_fits(old_buf.len() as int, width, height),
            x1 <= width,
            y1 <= height,
            w == width,
            h == height,
            y0 <= y,
            y <= y1 || y == y0,
            buffer@.len() == old_buf.len(),
            forall|i: int| 0 <= i < old_buf.len() ==> #[trigger] buffer@[i]
                == if in_rect(i, w, h, x0 as int, y0 as int, x1 as int, y as int) { color@[channel(i)] } else { old_buf[i] },
        decreases y1 - y,
    {
        let mut x = x0;
        while x < x1
            invariant
                frame_fits(old_buf.len() as int, width, height),
                x1 <= width,
                y < y1 <= height,
                y0 <= y,
                w == width,
                h == height,
                x0 <= x,
                x <= x1 || x == x0,
                buffer@.len() == old_buf.len(),
                forall|i: int| 0 <= i < old_buf.len() ==> #[trigger] buffer@[i]
                    == if in_rect(i, w, h, x0 as int, y0 as int, x1 as int, y as int)
                        || in_rect(i, w, h, x0 as int, y as int, x as int, y + 1) { color@[channel(i)] } else { old_buf[i] },
            decreases x1 - x,
        {
            proof {
                lemma_index_fits(width, height, x as int, y as int);
            }
            let index = ((y * width + x) * 4) as usize;
            assert(index == pixel_index(w, x as int, y as int));
            write_rgba(buffer, index, color);
            proof {
                assert forall|i: int| 0 <= i < old_buf.len() implies #[trigger] buffer@[i]
                    == if in_rect(i, w, h, x0 as int, y0 as int, x1 as int, y as int)
                        || in_rect(i, w, h, x0 as int, y as int, x + 1, y + 1) { color@[channel(i)] } else { old_buf[i] } by {
                    lemma_pixel_bytes(w, x as int, y as int, i);
                    if index <= i < index + 4 {
                        assert(i < w * h * 4);
                    }
                }
            }
            x = x + 1;
        }
        proof {
            assert forall|i: int| 0 <= i < old_buf.len() implies #[trigger] buffer@[i]
                == if in_rect(i, w, h, x0 as int, y0 as int, x1 as int, y + 1) { color@[channel(i)] } else { old_buf[i] } by {
            }
        }
        y = y + 1;
    }
    proof {
        let p = painted(old_buf, w, h, x0 as int, y0 as int, x1 as int, y1 as int, color@);
        assert forall|i: int| 0 <= i < old_buf.len() implies buffer@[i] == p[i] by {
            if y0 < y1 {
                assert(y == y1);
            } else {
                assert(!in_rect(i, w, h, x0 as int, y0 as int, x1 as int, y as int));
            }
        }
        assert(buffer@ =~= p);
    }
}

/// `value` clamped to `[0, high]`.
pub open spec fn clamp_to(value: i32, high: u32) -> int {
    if value < 0 { 0 } else if value > high { high as int } else { value as int }
}

/// The first coordinate of the block (of side `block`, counted from `low`)
/// that coordinate `p` falls in.
pub open spec fn block_origin(p: int, low: int, block: int) -> int {
    low + ((p - low) / block) * block
}

/// The frame after pixelating `[left, right) x [top, bottom)` with square
/// blocks of side `block`: each pixel takes the colour of its block's first
/// pixel, fully opaque.
pub open spec fn pixelated(buf: Seq<u8>, width: int, height: int, left: int, top: int, right: int, bottom: int, block: int) -> Seq<u8> {
    Seq::new(buf.len(), |i: int|
        if in_rect(i, width, height, left, top, right, bottom) {
            if channel(i) == 3 {
                255u8
            } else {
                buf[pixel_index(width, block_origin(pixel_x(i, width), left, block), block_origin(pixel_y(i, width), top, block)) + channel(i)]
            }
        } else {
            buf[i]
        })
}

/// Pixelation leaves no detail inside a block: any two pixels of the
/// pixelated region that share a block have the same colour, fully opaque.
pub proof fn lemma_pixelated_blocks_are_uniform(buf: Seq<u8>, width: int, height: int,
    left: int, top: int, right: int, bottom: int, block: int, i: int, j: int)
    requires
        0 <= i < buf.len(),
        0 <= j < buf.len(),
        in_rect(i, width, height, left, top, right, bottom),
        in_rect(j, width, height, left, top, right, bottom),
        channel(i) == channel(j),
        block_origin(pixel_x(i, width), left, block) == block_origin(pixel_x(j, width), left, block),
        block_origin(pixel_y(i, width), top, block) == block_origin(pixel_y(j, width), top, block),
    ensures
        pixelated(buf, width, height, left, top, right, bottom, block)[i]
            == pixelated(buf, width, height, left, top, right, bottom, block)[j],
        channel(i) == 3 ==> pixelated(buf, width, height, left, top, right, bottom, block)[i] == 255,
{
}

/// `p` lies in the block that starts at `low + m * block`.
proof fn lemma_block_origin(p: int, low: int, block: int, m: int)
    requires
        block > 0,
        0 <= m,
        low + m * block <= p < low + m * block + block,
    ensures
        block_origin(p, low, block) == low + m * block,
{
    vstd::arithmetic::div_mod::lemma_fundamental_div_mod_converse(p - low, block, m, p - low - m * block);
}

fn clamp_coordinate(value: i32, high: u32) -> (r: u32)
    requires
        high <= i32::MAX,
    ensures
        r == clamp_to(value, high),
{
    if value < 0 {
        0
    } else if value as i64 > high as i64 {
        high
    } else {
        value as u32
    }
}

/// Pixelates the rectangle `bounds` (left, top, right, bottom; clamped to
/// the frame) with square blocks of side `block`.
pub fn pixelate(buffer: &mut [u8], width: u32, height: u32, bounds: (i32, i32, i32, i32), block: u32)
    requires
        frame_fits(old(buffer)@.len() as int, width, height),
        width <= i32::MAX,
        height <= i32::MAX,
        block > 0,
        ({
            let l = clamp_to(bounds.0, width);
            let t = clamp_to(bounds.1, height);
            let r = clamp_to(bounds.2, width);
            let b = clamp_to(bounds.3, height);
            l < r && t < b ==> {
                &&& block_origin(b - 1, t, block as int) + block <= u32::MAX
                &&& block_origin(r - 1, l, block as int) + block <= u32::MAX
            }
        }),
    ensures
        final(buffer)@ == pixelated(old(buffer)@, width as int, height as int,
            clamp_to(bounds.0, width), clamp_to(bounds.1, height),
            clamp_to(bounds.2, width), clamp_to(bounds.3, height), block as int),
{
    let ghost old_buf = buffer@;
    let ghost w = width as int;
    let ghost h = height as int;
    let left = clamp_coordinate(bounds.0, width);
    let top = clamp_coordinate(bounds.1, height);
    let right = clamp_coordinate(bounds.2, width);
    let bottom = clamp_coordinate(bounds.3, height);
    let ghost target = pixelated(old_buf, w, h, left as int, top as int, right as int, bottom as int, block as int);
    let mut y: u64 = top as u64;
    let ghost mut k: int = 0;
    while y < bottom as u64
        invariant
            frame_fits(old_buf.len() as int, width, height),
            w == width,
            h == height,
            right <= width,
            bottom <= height,
            block > 0,
            target == pixelated(old_buf, w, h, left as int, top as int, right as int, bottom as int, block as int),
            k >= 0,
            y == top + k * block,
            y < bottom + block || y == top,
            buffer@.len() == old_buf.len(),
            forall|i: int| 0 <= i < old_buf.len() ==> #[trigger] buffer@[i]
                == if in_rect(i, w, h, left as int, top as int, right as int, y as int) { target[i] } else { old_buf[i] },
        decreases bottom + block - y,
    {
        let y_end: u64 = if y + block as u64 <= bottom as u64 { y + block as u64 } else { bottom as u64 };
        let mut x: u64 = left as u64;
        let ghost mut m: int = 0;
        while x < right as u64
            invariant
                frame_fits(old_buf.len() as int, width, height),
                w == width,
                h == height,
                right <= width,
                bottom <= height,
                block > 0,
                target == pixelated(old_buf, w, h, left as int, top as int, right as int, bottom as int, block as int),
                k >= 0,
                y == top + k * block,
                top <= y < bottom,
                y < y_end <= bottom,
                y_end <= y + block,
                m >= 0,
                x == left + m * block,
                buffer@.len() == old_buf.len(),
                forall|i: int| 0 <= i < old_buf.len() ==> #[trigger] buffer@[i]
                    == if in_rect(i, w, h, left as int, top as int, right as int, y as int)
                        || in_rect(i, w, h, left as int, y as int, if x < right { x as int } else { right as int }, y_end as int) { target[i] } else { old_buf[i] },
            decreases right + block - x,
        {
            let x_end: u64 = if x + block as u64 <= right as u64 { x + block as u64 } else { right as u64 };
            proof {
                lemma_index_fits(width, height, x as int, y as int);
            }
            let sample = ((y * width as u64 + x) * 4) as usize;
            assert(sample == pixel_index(w, x as int, y as int));
            proof {
                assert forall|j: int| sample <= j < sample + 4 implies #[trigger] buffer@[j] == old_buf[j] by {
                    lemma_pixel_bytes(w, x as int, y as int, j);
                }
            }
            let color = [buffer[sample], buffer[sample + 1], buffer[sample + 2], 255u8];
            fill_rect(buffer, width, height, x as u32, y as u32, x_end as u32, y_end as u32, color);
            proof {
                let xn: int = if x + block < right { (x + block) as int } else { right as int };
                assert forall|i: int| 0 <= i < old_buf.len() implies #[trigger] buffer@[i]
                    == if in_rect(i, w, h, left as int, top as int, right as int, y as int)
                        || in_rect(i, w, h, left as int, y as int, xn, y_end as int) { target[i] } else { old_buf[i] } by {
                    if in_rect(i, w, h, x as int, y as int, x_end as int, y_end as int) {
                        lemma_byte_pixel(w, h, i);
                        lemma_block_origin(pixel_x(i, w), left as int, block as int, m);
                        lemma_block_origin(pixel_y(i, w), top as int, block as int, k);
                    }
                }
            }
            x = x + block as u64;
            proof {
                assert(left + m * block + block == left + (m + 1) * block) by (nonlinear_arith);
                m = m + 1;
            }
        }
        proof {
            assert forall|i: int| 0 <= i < old_buf.len() implies #[trigger] buffer@[i]
                == if in_rect(i, w, h, left as int, top as int, right as int, y_end as int) { target[i] } else { old_buf[i] } by {
            }
        }
        y = y + block as u64;
        proof {
            assert(top + k * block + block == top + (k + 1) * block) by (nonlinear_arith);
            k = k + 1;
        }
    }
    proof {
        assert forall|i: int| 0 <= i < old_buf.len() implies buffer@[i] == target[i] by {
            if top < bottom {
                if in_rect(i, w, h, left as int, top as int, right as int, bottom as int) {
                    assert(in_rect(i, w, h, left as int, top as int, right as int, y as int));
                }
            }
        }
        assert(buffer@ =~= target);
    }
}

/// Colour of the cursor arrow's body.
pub open spec fn cursor_fill_color() -> Seq<u8> { seq![245u8, 247u8, 250u8, 255u8] }

/// Colour of the cursor arrow's outline.
pub open spec fn cursor_outline_color() -> Seq<u8> { seq![12u8, 16u8, 22u8, 255u8] }

/// The colour of the cursor arrow at column offset `k` of a row whose last
/// column is `c`, after the columns up to `j` were drawn: an outline pixel
/// left of the row, the body up to `c`, and the outline again just left of
/// the row's tip once the tip is drawn.
pub open spec fn cursor_row_color(k: int, c: int, j: int) -> Option<Seq<u8>> {
    if j < 0 {
        None
    } else if k == -1 {
        Some(cursor_outline_color())
    } else if j == c && c >= 1 && k == c - 1 {
        Some(cursor_outline_color())
    } else if 0 <= k <= j {
        Some(cursor_fill_color())
    } else {
        None
    }
}

/// The colour of the arrow at pixel `(px, py)` with its tip at `(x, y)`,
/// after the rows before `row` were drawn and, of row `row`, the columns up
/// to `j`.
pub open spec fn cursor_color(px: int, py: int, x: int, y: int, row: int, j: int) -> Option<Seq<u8>> {
    let r = py - y;
    if 0 <= r < row && r < 22 {
        cursor_row_color(px - x, r / 2, r / 2)
    } else if r == row && r < 22 {
        cursor_row_color(px - x, r / 2, j)
    } else {
        None
    }
}

/// The frame with the arrow drawn up to row `row`, column `j`.
pub open spec fn cursor_drawn_upto(buf: Seq<u8>, width: int, height: int, x: int, y: int, row: int, j: int) -> Seq<u8> {
    Seq::new(buf.len(), |i: int|
        if 0 <= i < width * height * 4 {
            match cursor_color(pixel_x(i, width), pixel_y(i, width), x, y, row, j) {
                Some(color) => color[channel(i)],
                None => buf[i],
            }
        } else {
            buf[i]
        })
}

/// The frame with the 22-row cursor arrow drawn with its tip at `(x, y)`,
/// clipped to the frame.
pub open spec fn cursor_drawn(buf: Seq<u8>, width: int, height: int, x: int, y: int) -> Seq<u8> {
    cursor_drawn_upto(buf, width, height, x, y, 22, 0)
}

/// Draws the cursor arrow with its tip at pixel `(x, y)`.
pub fn draw_cursor_at(buffer: &mut [u8], width: u32, height: u32, x: i32, y: i32)
    requires
        frame_fits(old(buffer)@.len() as int, width, height),
        x > i32::MIN,
        x + 10 <= i32::MAX,
        y + 21 <= i32::MAX,
    ensures
        final(buffer)@ == cursor_drawn(old(buffer)@, width as int, height as int, x as int, y as int),
{
    let ghost old_buf = buffer@;
    let ghost w = width as int;
    let ghost h = height as int;
    let mut row: i32 = 0;
    assert(buffer@ =~= cursor_drawn_upto(old_buf, w, h, x as int, y as int, 0, -1));
    while row < 22
        invariant
            0 <= row <= 22,
            frame_fits(old_buf.len() as int, width, height),
            w == width,
            h == height,
            x > i32::MIN,
            x + 10 <= i32::MAX,
            y + 21 <= i32::MAX,
            buffer@ == cursor_drawn_upto(old_buf, w, h, x as int, y as int, row as int, -1),
        decreases 22 - row,
    {
        let last = row / 2;
        let mut column: i32 = 0;
        while column <= last
            invariant
                0 <= row < 22,
                last == row / 2,
                0 <= column <= last + 1,
                frame_fits(old_buf.len() as int, width, height),
                w == width,
                h == height,
                x > i32::MIN,
                x + 10 <= i32::MAX,
                y + 21 <= i32::MAX,
                buffer@ == cursor_drawn_upto(old_buf, w, h, x as int, y as int, row as int, column - 1),
            decreases last + 1 - column,
        {
            put_pixel(buffer, width, height, x + column, y + row, [245, 247, 250, 255]);
            let ghost middle = buffer@;
            proof {
                let target = cursor_drawn_upto(old_buf, w, h, x as int, y as int, row as int, column as int);
                if column == 0 || column == last {
                    assert forall|i: int| 0 <= i < old_buf.len() && !(0 <= i < w * h * 4
                        && pixel_x(i, w) == x + column - 1 && pixel_y(i, w) == y + row) implies #[trigger] middle[i] == target[i] by {
                        if 0 <= i < w * h * 4 {
                            lemma_byte_pixel(w, h, i);
                        }
                    }
                } else {
                    assert forall|i: int| 0 <= i < old_buf.len() implies #[trigger] middle[i] == target[i] by {
                        if 0 <= i < w * h * 4 {
                            lemma_byte_pixel(w, h, i);
                        }
                    }
                    assert(middle =~= target);
                }
            }
            if column == 0 || column == last {
                put_pixel(buffer, width, height, x + column - 1, y + row, [12, 16, 22, 255]);
                proof {
                    let target = cursor_drawn_upto(old_buf, w, h, x as int, y as int, row as int, column as int);
                    assert forall|i: int| 0 <= i < old_buf.len() implies #[trigger] buffer@[i] == target[i] by {
                        if 0 <= i < w * h * 4 {
                            lemma_byte_pixel(w, h, i);
                        }
                    }
                    assert(buffer@ =~= target);
                }
            }
            column = column + 1;
        }
        proof {
            let done = cursor_drawn_upto(old_buf, w, h, x as int, y as int, row as int, row / 2);
            let next = cursor_drawn_upto(old_buf, w, h, x as int, y as int, row + 1, -1);
            assert forall|i: int| 0 <= i < old_buf.len() implies #[trigger] done[i] == next[i] by {
            }
            assert(done =~= next);
        }
        row = row + 1;
    }
    proof {
        let done = cursor_drawn_upto(old_buf, w, h, x as int, y as int, 22, -1);
        let target = cursor_drawn(old_buf, w, h, x as int, y as int);
        assert forall|i: int| 0 <= i < old_buf.len() implies #[trigger] done[i] == target[i] by {
        }
        assert(done =~= target);
    }
}

/// Colour of the shortcut card's border.
pub open spec fn card_border_color() -> Seq<u8> { seq![80u8, 88u8, 98u8, 255u8] }

/// Colour of the shortcut card's body.
pub open spec fn card_fill_color() -> Seq<u8> { seq![15u8, 18u8, 23u8, 230u8] }

/// Colour of a key chip on the shortcut card.
pub open spec fn key_chip_color() -> Seq<u8> { seq![225u8, 230u8, 236u8, 255u8] }

/// The UTF-8 length of a key label.
pub open spec fn key_bytes(key: String) -> int {
    encode_utf8(key@).len() as int
}

/// The UTF-8 length of the first `j` key labels together.
pub open spec fn keys_bytes(keys: Seq<String>, j: int) -> int
    decreases j,
{
    if j <= 0 { 0 } else { keys_bytes(keys, j - 1) + key_bytes(keys[j - 1]) }
}

pub open spec fn min_int(a: int, b: int) -> int { if a <= b { a } else { b } }

pub open spec fn max_int(a: int, b: int) -> int { if a >= b { a } else { b } }

/// The card is wide enough for the labels, at least 54 pixels, and at most
/// the frame width less a margin of 8 (never below 54).
pub open spec fn card_width(width: int, keys: Seq<String>) -> int {
    let wanted = 7 * keys_bytes(keys, keys.len() as int) + 16 * keys.len();
    let high = max_int(if width >= 8 { width - 8 } else { 0 }, 54);
    if wanted < 54 { 54 } else if wanted > high { high } else { wanted }
}

pub open spec fn card_height(height: int) -> int { min_int(30, height) }

pub open spec fn card_left(width: int, keys: Seq<String>) -> int {
    (if width >= card_width(width, keys) { width - card_width(width, keys) } else { 0 }) / 2
}

pub open spec fn card_top(height: int) -> int {
    if height >= card_height(height) + 18 { height - card_height(height) - 18 } else { 0 }
}

/// The width of the chip of one key label.
pub open spec fn chip_width(key: String) -> int { max_int(key_bytes(key) * 6 + 8, 14) }

/// Where the chip of key `j` starts, the first one at `x0`.
pub open spec fn chip_x(x0: int, keys: Seq<String>, j: int) -> int
    decreases j,
{
    if j <= 0 { x0 } else { chip_x(x0, keys, j - 1) + chip_width(keys[j - 1]) + 6 }
}

/// The frame with the card body and its one-pixel border drawn.
pub open spec fn card_drawn(buf: Seq<u8>, width: int, height: int, keys: Seq<String>) -> Seq<u8> {
    let left = card_left(width, keys);
    let top = card_top(height);
    let cw = card_width(width, keys);
    let ch = card_height(height);
    Seq::new(buf.len(), |i: int|
        if in_rect(i, width, height, left, top, min_int(left + cw, width), min_int(top + ch, height)) {
            let x = pixel_x(i, width);
            let y = pixel_y(i, width);
            if y == top || y + 1 == top + ch || x == left || x + 1 == left + cw {
                card_border_color()[channel(i)]
            } else {
                card_fill_color()[channel(i)]
            }
        } else {
            buf[i]
        })
}

/// The frame with the chips of the first `j` keys drawn over it.
pub open spec fn chips_drawn(buf: Seq<u8>, width: int, height: int, top: int, x0: int, keys: Seq<String>, j: int) -> Seq<u8>
    decreases j,
{
    if j <= 0 {
        buf
    } else {
        let x = chip_x(x0, keys, j - 1);
        painted(chips_drawn(buf, width, height, top, x0, keys, j - 1), width, height,
            x, top + 9, min_int(x + chip_width(keys[j - 1]), width), min_int(top + 21, height), key_chip_color())
    }
}

/// The frame with the shortcut card for `keys` drawn near its bottom edge.
pub open spec fn shortcut_card_drawn(buf: Seq<u8>, width: int, height: int, keys: Seq<String>) -> Seq<u8> {
    chips_drawn(card_drawn(buf, width, height, keys), width, height, card_top(height),
        card_left(width, keys) + 10, keys, keys.len() as int)
}

proof fn lemma_keys_bytes_monotone(keys: Seq<String>, j: int, k: int)
    requires
        0 <= j <= k,
    ensures
        0 <= keys_bytes(keys, j) <= keys_bytes(keys, k),
    decreases k,
{
    if j < k {
        lemma_keys_bytes_monotone(keys, j, k - 1);
    } else if k > 0 {
        lemma_keys_bytes_monotone(keys, k - 1, k - 1);
    }
}

proof fn lemma_chip_x_monotone(x0: int, keys: Seq<String>, j: int, k: int)
    requires
        0 <= j <= k,
    ensures
        chip_x(x0, keys, j) <= chip_x(x0, keys, k),
    decreases k,
{
    if j < k {
        lemma_chip_x_monotone(x0, keys, j, k - 1);
    }
}

/// Draws the card that shows a keyboard shortcut: a bordered box centred
/// near the bottom of the frame with one chip per key.
pub fn draw_shortcut_card(buffer: &mut [u8], width: u32, height: u32, keys: &[String])
    requires
        frame_fits(old(buffer)@.len() as int, width, height),
        7 * keys_bytes(keys@, keys@.len() as int) + 16 * keys@.len() <= u32::MAX,
        chip_x(card_left(width as int, keys@) + 10, keys@, keys@.len() as int) <= u32::MAX,
    ensures
        final(buffer)@ == shortcut_card_drawn(old(buffer)@, width as int, height as int, keys@),
{
    let ghost old_buf = buffer@;
    let ghost w = width as int;
    let ghost h = height as int;
    let ghost n = keys@.len() as int;
    let mut total: usize = 0;
    let mut j: usize = 0;
    while j < keys.len()
        invariant
            j <= keys@.len(),
            n == keys@.len(),
            total == keys_bytes(keys@, j as int),
            7 * keys_bytes(keys@, n) + 16 * n <= u32::MAX,
        decreases keys@.len() - j,
    {
        proof {
            lemma_keys_bytes_monotone(keys@, j + 1, n);
        }
        total = total + keys[j].as_str().len();
        j = j + 1;
    }
    let wanted = total as u32 * 7 + keys.len() as u32 * 16;
    let high = if width >= 8 { width - 8 } else { 0 };
    let high = if high >= 54 { high } else { 54 };
    let card_w = if wanted < 54 { 54 } else if wanted > high { high } else { wanted };
    let card_h = if height <= 30 { height } else { 30 };
    let left = (if width >= card_w { width - card_w } else { 0 }) / 2;
    let top = if height >= card_h + 18 { height - card_h - 18 } else { 0 };
    assert(card_w == card_width(w, keys@));
    assert(left == card_left(w, keys@));
    assert(top == card_top(h));
    let right = if left + card_w <= width { left + card_w } else { width };
    let bottom = if top + card_h <= height { top + card_h } else { height };
    fill_rect(buffer, width, height, left, top, right, bottom, [15, 18, 23, 230]);
    let top_end = if top + 1 <= bottom { top + 1 } else { bottom };
    fill_rect(buffer, width, height, left, top, right, top_end, [80, 88, 98, 255]);
    let bottom_row = if card_h > 0 { top + card_h - 1 } else { top };
    fill_rect(buffer, width, height, left, bottom_row, right, bottom, [80, 88, 98, 255]);
    let left_end = if left + 1 <= right { left + 1 } else { right };
    fill_rect(buffer, width, height, left, top, left_end, bottom, [80, 88, 98, 255]);
    fill_rect(buffer, width, height, left + card_w - 1, top, right, bottom, [80, 88, 98, 255]);
    proof {
        let card = card_drawn(old_buf, w, h, keys@);
        assert forall|i: int| 0 <= i < old_buf.len() implies buffer@[i] == card[i] by {
        }
        assert(buffer@ =~= card);
    }
    let ghost card = buffer@;
    let ghost x0 = left as int + 10;
    let chip_top = top + 9;
    let chip_bottom = if top + 21 <= height { top + 21 } else { height };
    let mut x = left + 10;
    let mut k: usize = 0;
    while k < keys.len()
        invariant
            frame_fits(old_buf.len() as int, width, height),
            w == width,
            h == height,
            n == keys@.len(),
            k <= n,
            x0 == left + 10,
            x == chip_x(x0, keys@, k as int),
            chip_x(x0, keys@, n) <= u32::MAX,
            chip_top == top + 9,
            chip_bottom == min_int(top + 21, h),
            buffer@.len() == old_buf.len(),
            buffer@ == chips_drawn(card, w, h, top as int, x0, keys@, k as int),
        decreases keys@.len() - k,
    {
        proof {
            lemma_chip_x_monotone(x0, keys@, k + 1, n);
        }
        let key_width = keys[k].as_str().len() as u32 * 6 + 8;
        let key_width = if key_width >= 14 { key_width } else { 14 };
        let x_end = if x + key_width <= width { x + key_width } else { width };
        fill_rect(buffer, width, height, x, chip_top, x_end, chip_bottom, [225, 230, 236, 255]);
        x = x + key_width + 6;
        k = k + 1;
    }
}

} // verus!
