//! Pixel work for the e-ink panel: rasterising the SVG screen with `resvg`,
//! the grey level of each rendered pixel, the copy of the grey image into
//! the framebuffer's rows, and the reading of input events from the touch
//! and key devices.
use vstd::prelude::*;

verus! {

// ---------------------------------------------------------------------------
// Rasterising
// ---------------------------------------------------------------------------

#[verifier::external_type_specification]
#[verifier::external_body]
pub struct ExPixmap(resvg::tiny_skia::Pixmap);

#[verifier::external_type_specification]
#[verifier::external_body]
pub struct ExFontDatabase(resvg::usvg::fontdb::Database);

#[verifier::external_type_specification]
#[verifier::external_body]
pub struct ExSvgTree(resvg::usvg::Tree);

/// The bytes of a pixmap: four per pixel, red, green, blue and alpha, row
/// by row.
pub uninterp spec fn pixmap_bytes(p: resvg::tiny_skia::Pixmap) -> Seq<u8>;

/// The width and height of a pixmap, in pixels.
pub uninterp spec fn pixmap_size(p: resvg::tiny_skia::Pixmap) -> (u32, u32);

/// What usvg reports when it refuses an SVG text, read with its default
/// options: `None` when it accepts the text.
pub uninterp spec fn svg_parse_error(svg: Seq<char>) -> Option<Seq<char>>;

/// Calls `Pixmap::data`, which hands out the pixmap's byte buffer.
#[verifier::external_body]
fn pixmap_data(p: &resvg::tiny_skia::Pixmap) -> (r: &[u8])
    ensures
        r@ == pixmap_bytes(*p),
{
    p.data()
}

/// Whether tiny-skia can allocate a `w` by `h` pixmap: both sides non-zero,
/// a row of at most `i32::MAX` bytes, and the whole buffer within `usize`.
pub open spec fn pixmap_fits(w: u32, h: u32) -> bool {
    0 < w && 0 < h && 4 * w <= i32::MAX && 4 * w * h <= usize::MAX
}

/// Calls `usvg::Tree::from_str` with usvg's default options and the given
/// fonts; a text that does not parse gives the parser's message. What is
/// trusted: with those options, whether the text is accepted and the message
/// when it is not depend on the text alone (the fonts shape text but refuse
/// nothing). Nothing is stated of the tree.
#[verifier::external_body]
fn parse_svg(svg: &str, fonts: &std::sync::Arc<resvg::usvg::fontdb::Database>) -> (r: Result<
    resvg::usvg::Tree,
    String,
>)
    ensures
        r is Ok <==> svg_parse_error(svg@) is None,
        r matches Err(m) ==> svg_parse_error(svg@) == Some(m@),
{
    let opt = resvg::usvg::Options { fontdb: fonts.clone(), ..Default::default() };
    resvg::usvg::Tree::from_str(svg, &opt).map_err(|e| e.to_string())
}

/// Calls `tiny_skia::Pixmap::new(w, h)`. What is trusted, as the crate's
/// source shows it: a pixmap comes back exactly when `pixmap_fits(w, h)`,
/// and it is `w` by `h` and holds `4 * w * h` zero bytes (transparent
/// black).
#[verifier::external_body]
fn new_pixmap(w: u32, h: u32) -> (r: Option<resvg::tiny_skia::Pixmap>)
    ensures
        r is Some <==> pixmap_fits(w, h),
        r matches Some(p) ==> pixmap_size(p) == (w, h),
        r matches Some(p) ==> pixmap_bytes(p) == Seq::new((4 * w * h) as nat, |i: int| 0u8),
{
    resvg::tiny_skia::Pixmap::new(w, h)
}

/// Calls `resvg::render` with the identity transform onto the pixmap. What
/// is trusted: the pixmap keeps its size, and so its byte count. The pixels
/// drawn are not stated.
#[verifier::external_body]
fn render_tree(tree: &resvg::usvg::Tree, pixmap: &mut resvg::tiny_skia::Pixmap)
    ensures
        pixmap_size(*final(pixmap)) == pixmap_size(*old(pixmap)),
        pixmap_bytes(*final(pixmap)).len() == pixmap_bytes(*old(pixmap)).len(),
{
    resvg::render(tree, resvg::tiny_skia::Transform::identity(), &mut pixmap.as_mut());
}

/// Draws a parsed SVG screen onto a new `w` by `h` pixmap. A screen that did
/// not parse gives the parser's message; a size that tiny-skia cannot
/// allocate gives `"pixmap"`.
pub fn rasterise(tree: Result<resvg::usvg::Tree, String>, w: u32, h: u32) -> (r: Result<
    resvg::tiny_skia::Pixmap,
    String,
>)
    ensures
        match tree {
            Err(e) => r matches Err(m) && m@ == e@,
            Ok(_) => if pixmap_fits(w, h) {
                r matches Ok(p) && pixmap_size(p) == (w, h) && pixmap_bytes(p).len() == 4 * w * h
            } else {
                r matches Err(m) && m@ == "pixmap"@
            },
        },
{
    match tree {
        Err(e) => Err(e),
        Ok(t) => match new_pixmap(w, h) {
            None => Err(String::from_str("pixmap")),
            Some(p) => {
                let mut p = p;
                render_tree(&t, &mut p);
                Ok(p)
            },
        },
    }
}

/// Parses the SVG screen with the given fonts and draws it onto a new `w`
/// by `h` pixmap: the parser's message when usvg refuses the text, else
/// `"pixmap"` when tiny-skia cannot allocate that size, else the drawn
/// pixmap.
pub fn render_to_pixmap(
    svg: &str,
    fonts: &std::sync::Arc<resvg::usvg::fontdb::Database>,
    w: u32,
    h: u32,
) -> (r: Result<resvg::tiny_skia::Pixmap, String>)
    ensures
        svg_parse_error(svg@) matches Some(m) ==> (r matches Err(e) && e@ == m),
        svg_parse_error(svg@) is None && !pixmap_fits(w, h) ==> (r matches Err(e) && e@
            == "pixmap"@),
        svg_parse_error(svg@) is None && pixmap_fits(w, h) ==> (r matches Ok(p) && pixmap_size(p)
            == (w, h) && pixmap_bytes(p).len() == 4 * w * h),
{
    rasterise(parse_svg(svg, fonts), w, h)
}

/// The eight bytes that open every PNG file.
pub open spec fn png_signature() -> Seq<u8> {
    seq![137u8, 80u8, 78u8, 71u8, 13u8, 10u8, 26u8, 10u8]
}

/// Calls `Pixmap::encode_png`; an encoder error gives its message. What is
/// trusted: the bytes open with the PNG signature, which the `png` encoder
/// writes first. The rest of the encoding is not stated.
#[verifier::external_body]
pub fn pixmap_to_png(pixmap: &resvg::tiny_skia::Pixmap) -> (r: Result<Vec<u8>, String>)
    ensures
        r matches Ok(b) ==> b@.len() >= 8 && b@.take(8) == png_signature(),
{
    pixmap.encode_png().map_err(|e| e.to_string())
}

// ---------------------------------------------------------------------------
// Grey levels
// ---------------------------------------------------------------------------

/// The grey level of a colour: 0.299 red + 0.587 green + 0.114 blue,
/// rounded down.
pub open spec fn luma(r: u8, g: u8, b: u8) -> int {
    (r * 299 + g * 587 + b * 114) / 1000
}

/// The grey image of RGBA bytes: one byte per whole group of four.
pub open spec fn spec_grayscale(data: Seq<u8>) -> Seq<u8> {
    Seq::new(
        data.len() / 4,
        |i: int| luma(data[4 * i], data[4 * i + 1], data[4 * i + 2]) as u8,
    )
}

proof fn lemma_luma_bound(r: u8, g: u8, b: u8)
    ensures
        0 <= luma(r, g, b) <= 255,
        r == g && g == b ==> luma(r, g, b) == r,
{
    assert(0 <= r * 299 + g * 587 + b * 114 <= 255000) by (nonlinear_arith);
    assert(r == g && g == b ==> r * 299 + g * 587 + b * 114 == 1000 * r) by (nonlinear_arith);
}

/// The grey image of RGBA bytes (`chunks_exact(4)`: a trailing group of
/// fewer than four bytes is ignored).
pub fn grayscale_from_rgba(data: &[u8]) -> (out: Vec<u8>)
    ensures
        out@ == spec_grayscale(data@),
{
    let n = data.len() / 4;
    let mut out: Vec<u8> = Vec::new();
    let mut i: usize = 0;
    while i < n
        invariant
            n == data@.len() / 4,
            i <= n,
            out@.len() == i,
            forall|k: int| 0 <= k < i ==> out@[k] == spec_grayscale(data@)[k],
        decreases n - i,
    {
        assert(4 * i + 3 < data.len()) by (nonlinear_arith)
            requires
                i < n,
                n == data.len() / 4,
        ;
        let base = 4 * i;
        let r = data[base];
        let g = data[base + 1];
        let b = data[base + 2];
        proof {
            lemma_luma_bound(r, g, b);
        }
        let v = (r as u32 * 299 + g as u32 * 587 + b as u32 * 114) / 1000;
        out.push(v as u8);
        i = i + 1;
    }
    assert(out@ =~= spec_grayscale(data@));
    out
}

/// The grey image of a rendered pixmap, one byte per pixel.
pub fn pixmap_to_grayscale(pixmap: &resvg::tiny_skia::Pixmap) -> (out: Vec<u8>)
    ensures
        out@ == spec_grayscale(pixmap_bytes(*pixmap)),
{
    grayscale_from_rgba(pixmap_data(pixmap))
}

/// A grey pixel keeps its level, and the grey image has one byte per pixel.
pub proof fn lemma_grayscale_grey_pixels(data: Seq<u8>, i: int)
    requires
        0 <= i < data.len() / 4,
        data[4 * i] == data[4 * i + 1],
        data[4 * i + 1] == data[4 * i + 2],
    ensures
        spec_grayscale(data).len() == data.len() / 4,
        spec_grayscale(data)[i] == data[4 * i],
{
    lemma_luma_bound(data[4 * i], data[4 * i + 1], data[4 * i + 2]);
}

// ---------------------------------------------------------------------------
// The framebuffer copy
// ---------------------------------------------------------------------------

/// The framebuffer after the first `rows` rows of the grey image were
/// copied in, row `iy` from `gray[iy * img_w ..]` to `frame[iy * stride ..]`,
/// `copy_w` bytes each, in order.
pub open spec fn blit_rows(
    frame: Seq<u8>,
    gray: Seq<u8>,
    img_w: int,
    stride: int,
    copy_w: int,
    rows: int,
) -> Seq<u8>
    decreases rows,
{
    if rows <= 0 {
        frame
    } else {
        let prev = blit_rows(frame, gray, img_w, stride, copy_w, rows - 1);
        let iy = rows - 1;
        prev.take(iy * stride) + gray.subrange(iy * img_w, iy * img_w + copy_w) + prev.skip(
            iy * stride + copy_w,
        )
    }
}

pub open spec fn min_usize(a: usize, b: usize) -> usize {
    if a <= b {
        a
    } else {
        b
    }
}

/// The grey image and the framebuffer are large enough for every row that
/// is copied.
pub open spec fn blit_fits(
    frame_len: int,
    gray_len: int,
    img_w: int,
    stride: int,
    copy_w: int,
    copy_h: int,
) -> bool {
    copy_h == 0 || ((copy_h - 1) * img_w + copy_w <= gray_len && (copy_h - 1) * stride + copy_w
        <= frame_len)
}

proof fn lemma_row_fits(img_w: int, stride: int, copy_w: int, copy_h: int, iy: int)
    requires
        0 <= iy < copy_h,
        img_w >= 0,
        stride >= 0,
        copy_w >= 0,
    ensures
        iy * img_w <= (copy_h - 1) * img_w,
        iy * stride <= (copy_h - 1) * stride,
        iy * img_w >= 0,
        iy * stride >= 0,
        (iy + 1) * img_w == iy * img_w + img_w,
        (iy + 1) * stride == iy * stride + stride,
{
    assert(iy * img_w <= (copy_h - 1) * img_w) by (nonlinear_arith)
        requires
            0 <= iy <= copy_h - 1,
            img_w >= 0,
    ;
    assert(iy * stride <= (copy_h - 1) * stride) by (nonlinear_arith)
        requires
            0 <= iy <= copy_h - 1,
            stride >= 0,
    ;
    assert(iy * img_w >= 0) by (nonlinear_arith)
        requires
            0 <= iy,
            img_w >= 0,
    ;
    assert(iy * stride >= 0) by (nonlinear_arith)
        requires
            0 <= iy,
            stride >= 0,
    ;
    assert((iy + 1) * img_w == iy * img_w + img_w) by (nonlinear_arith);
    assert((iy + 1) * stride == iy * stride + stride) by (nonlinear_arith);
}

proof fn lemma_blit_len(
    frame: Seq<u8>,
    gray: Seq<u8>,
    img_w: int,
    stride: int,
    copy_w: int,
    rows: int,
    copy_h: int,
)
    requires
        rows <= copy_h,
        img_w >= 0,
        stride >= 0,
        copy_w >= 0,
        blit_fits(frame.len() as int, gray.len() as int, img_w, stride, copy_w, copy_h),
    ensures
        blit_rows(frame, gray, img_w, stride, copy_w, rows).len() == frame.len(),
    decreases rows,
{
    if rows > 0 {
        lemma_blit_len(frame, gray, img_w, stride, copy_w, rows - 1, copy_h);
        lemma_row_fits(img_w, stride, copy_w, copy_h, rows - 1);
    }
}

/// Copies the grey image (`img_w` bytes per row) into the framebuffer
/// (`stride` bytes per row): as many rows and columns as both the image and
/// the screen (`fb_w` by `fb_h`) have.
pub fn blit_grayscale(
    frame: &mut Vec<u8>,
    gray: &[u8],
    img_w: usize,
    img_h: usize,
    fb_w: usize,
    fb_h: usize,
    stride: usize,
)
    requires
        blit_fits(
            old(frame)@.len() as int,
            gray@.len() as int,
            img_w as int,
            stride as int,
            min_usize(img_w, fb_w) as int,
            min_usize(img_h, fb_h) as int,
        ),
    ensures
        final(frame)@ == blit_rows(
            old(frame)@,
            gray@,
            img_w as int,
            stride as int,
            min_usize(img_w, fb_w) as int,
            min_usize(img_h, fb_h) as int,
        ),
{
    let copy_w = if img_w <= fb_w {
        img_w
    } else {
        fb_w
    };
    let copy_h = if img_h <= fb_h {
        img_h
    } else {
        fb_h
    };
    let ghost start = frame@;
    let mut iy: usize = 0;
    let mut src: usize = 0;
    let mut dst: usize = 0;
    while iy < copy_h
        invariant
            iy <= copy_h,
            copy_w == min_usize(img_w, fb_w),
            copy_h == min_usize(img_h, fb_h),
            blit_fits(start.len() as int, gray@.len() as int, img_w as int, stride as int, copy_w as int, copy_h as int),
            iy < copy_h ==> src == iy * img_w,
            iy < copy_h ==> dst == iy * stride,
            frame@ == blit_rows(start, gray@, img_w as int, stride as int, copy_w as int, iy as int),
            frame@.len() == start.len(),
        decreases copy_h - iy,
    {
        proof {
            lemma_row_fits(img_w as int, stride as int, copy_w as int, copy_h as int, iy as int);
        }
        let ghost prev = frame@;
        let mut x: usize = 0;
        while x < copy_w
            invariant
                x <= copy_w,
                src + copy_w <= gray.len(),
                dst + copy_w <= frame.len(),
                dst + copy_w <= prev.len(),
                frame@.len() == prev.len(),
                frame@ == prev.take(dst as int) + gray@.subrange(src as int, src + x) + prev.skip(
                    dst + x,
                ),
            decreases copy_w - x,
        {
            let ghost before = frame@;
            frame.set(dst + x, gray[src + x]);
            assert(frame@ =~= prev.take(dst as int) + gray@.subrange(src as int, src + x + 1)
                + prev.skip(dst + x + 1));
            x = x + 1;
        }
        proof {
            lemma_row_fits(img_w as int, stride as int, copy_w as int, copy_h as int, iy as int);
        }
        assert(frame@ =~= blit_rows(start, gray@, img_w as int, stride as int, copy_w as int, iy + 1));
        if iy + 1 < copy_h {
            proof {
                lemma_row_fits(img_w as int, stride as int, copy_w as int, copy_h as int, iy + 1);
            }
            assert(src + img_w <= gray.len());
            assert(dst + stride <= frame.len());
            src = src + img_w;
            dst = dst + stride;
        }
        iy = iy + 1;
    }
    proof {
        lemma_blit_len(start, gray@, img_w as int, stride as int, copy_w as int, copy_h as int, copy_h as int);
    }
}

/// With rows that do not overlap (`copy_w <= stride`), each copied pixel of
/// the framebuffer holds the image's pixel.
pub proof fn lemma_blit_pixels(
    frame: Seq<u8>,
    gray: Seq<u8>,
    img_w: int,
    stride: int,
    copy_w: int,
    copy_h: int,
    rows: int,
    iy: int,
    x: int,
)
    requires
        0 <= rows <= copy_h,
        img_w >= 0,
        0 <= copy_w <= stride,
        blit_fits(frame.len() as int, gray.len() as int, img_w, stride, copy_w, copy_h),
        0 <= iy < rows,
        0 <= x < copy_w,
    ensures
        blit_rows(frame, gray, img_w, stride, copy_w, rows)[iy * stride + x] == gray[iy * img_w
            + x],
    decreases rows,
{
    lemma_blit_len(frame, gray, img_w, stride, copy_w, rows - 1, copy_h);
    lemma_row_fits(img_w, stride, copy_w, copy_h, rows - 1);
    lemma_row_fits(img_w, stride, copy_w, copy_h, iy);
    let prev = blit_rows(frame, gray, img_w, stride, copy_w, rows - 1);
    let k = rows - 1;
    if iy == k {
    } else {
        lemma_blit_pixels(frame, gray, img_w, stride, copy_w, copy_h, rows - 1, iy, x);
        assert(iy * stride + x < k * stride) by (nonlinear_arith)
            requires
                0 <= iy < k,
                0 <= x < copy_w,
                copy_w <= stride,
        ;
    }
}

/// A framebuffer byte that no copied row covers keeps its value.
pub proof fn lemma_blit_keeps_other_bytes(
    frame: Seq<u8>,
    gray: Seq<u8>,
    img_w: int,
    stride: int,
    copy_w: int,
    copy_h: int,
    rows: int,
    p: int,
)
    requires
        0 <= rows <= copy_h,
        img_w >= 0,
        stride >= 0,
        copy_w >= 0,
        blit_fits(frame.len() as int, gray.len() as int, img_w, stride, copy_w, copy_h),
        0 <= p < frame.len(),
        forall|iy: int| 0 <= iy < rows ==> p < #[trigger] (iy * stride) || p >= iy * stride + copy_w,
    ensures
        blit_rows(frame, gray, img_w, stride, copy_w, rows)[p] == frame[p],
    decreases rows,
{
    if rows > 0 {
        let k = rows - 1;
        lemma_blit_len(frame, gray, img_w, stride, copy_w, k, copy_h);
        lemma_row_fits(img_w, stride, copy_w, copy_h, k);
        lemma_blit_keeps_other_bytes(frame, gray, img_w, stride, copy_w, copy_h, k, p);
        assert(p < k * stride || p >= k * stride + copy_w);
    }
}

// ---------------------------------------------------------------------------
// Input events
// ---------------------------------------------------------------------------

/// Event type `EV_SYN`: a synchronisation marker.
pub const EV_SYN: u16 = 0;

/// Event type `EV_MSC`: miscellaneous data.
pub const EV_MSC: u16 = 4;

/// Size of one `struct input_event` on the device (32-bit ARM).
pub const EVENT_SIZE: usize = 16;

/// The type of an input event record: the little-endian `u16` at bytes 8
/// and 9.
pub open spec fn event_type(event: Seq<u8>) -> int {
    event[8] + 256 * event[9]
}

/// Whether an input event record shows the user touching the screen or
/// pressing a key: anything but synchronisation and miscellaneous filler.
pub fn is_user_input_event(event: &[u8]) -> (b: bool)
    requires
        event@.len() >= 10,
    ensures
        b == (event_type(event@) != EV_SYN && event_type(event@) != EV_MSC),
{
    let etype: u16 = event[8] as u16 + (event[9] as u16) * 256;
    etype != EV_SYN && etype != EV_MSC
}

} // verus!
