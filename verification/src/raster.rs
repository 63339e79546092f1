//! Layer rasterization: mapping the polygons of one plane into an image and
//! filling them.

use vstd::prelude::*;
use crate::contour::polygons_view;
use crate::grid::{coord_in_range, PlanePoint, COORD_LIMIT};

verus! {

/// The longest side that an image may have. The fill routine counts pixels
/// in 32-bit signed integers and takes differences of them.
pub const MAX_IMAGE_SIDE: u32 = 0x3fff_ffff;

/// The value of a pixel outside every polygon.
pub const BACKGROUND: u8 = 0;

/// The value of a pixel inside a polygon.
pub const FOREGROUND: u8 = 255;

/// A pixel position: `x` counts columns from the left, `y` rows from the top.
#[derive(Clone, Copy, PartialEq, Eq, Structural, Debug)]
pub struct PixelPoint {
    pub x: i32,
    pub y: i32,
}

/// A scale given as a number of pixels for a number of grid steps.
#[derive(Clone, Copy, PartialEq, Eq, Structural, Debug)]
pub struct Scale {
    pub pixels: u32,
    pub extent: i64,
}

/// A single-channel raster of one cross-section, stored row by row from the
/// top.
#[derive(Clone, Debug)]
pub struct SliceImage {
    pub width: u32,
    pub height: u32,
    pub pixels: Vec<u8>,
}

/// The width and height are ones that an image can have.
pub open spec fn valid_image_size(width: u32, height: u32) -> bool {
    &&& 1 <= width <= MAX_IMAGE_SIDE
    &&& 1 <= height <= MAX_IMAGE_SIDE
    &&& width * height <= usize::MAX
}

/// Computes `valid_image_size`.
pub fn image_size_is_valid(width: u32, height: u32) -> (valid: bool)
    ensures
        valid == valid_image_size(width, height),
{
    if width < 1 || width > MAX_IMAGE_SIDE || height < 1 || height > MAX_IMAGE_SIDE {
        return false;
    }
    assert(width * height <= 0x3fff_ffff * 0x3fff_ffff) by (nonlinear_arith)
        requires
            0 <= width <= 0x3fff_ffff,
            0 <= height <= 0x3fff_ffff,
    ;
    (width as u64) * (height as u64) <= usize::MAX as u64
}

/// A length of `v` grid steps in pixels, rounded down. A scale without
/// extent maps every length to zero.
pub open spec fn scaled(v: int, scale: Scale) -> int {
    if scale.extent <= 0 {
        0
    } else {
        (v * scale.pixels) / (scale.extent as int)
    }
}

/// The pixel at which a point of the model falls: `x` grows with the model's
/// `x` from the left edge, `y` runs down from the image height as the model's
/// `y` grows.
pub open spec fn model_to_image_spec(
    p: PlanePoint,
    min_x: i64,
    min_y: i64,
    scale: Scale,
    image_height: u32,
) -> PixelPoint {
    PixelPoint {
        x: scaled(p.x - min_x, scale) as i32,
        y: (image_height - scaled(p.y - min_y, scale)) as i32,
    }
}

/// The scale at which a model of the given extent fills the image in one
/// direction and fits into it in the other: the smaller of width by extent
/// in `x` and height by extent in `y`, where a direction without extent does
/// not count.
pub open spec fn fitting_scale(span_x: i64, span_y: i64, width: u32, height: u32) -> Scale {
    if span_x > 0 && (span_y <= 0 || width * span_y <= height * span_x) {
        Scale { pixels: width, extent: span_x }
    } else {
        Scale { pixels: height, extent: span_y }
    }
}

/// Computes `fitting_scale`.
pub fn choose_scale(span_x: i64, span_y: i64, width: u32, height: u32) -> (scale: Scale)
    requires
        0 <= span_x <= 2 * COORD_LIMIT,
        0 <= span_y <= 2 * COORD_LIMIT,
    ensures
        scale == fitting_scale(span_x, span_y, width, height),
{
    let by_width = if span_x > 0 {
        if span_y <= 0 {
            true
        } else {
            assert(width * span_y <= 0xffff_ffff * 2_000_000_000_000) by (nonlinear_arith)
                requires
                    0 <= width <= 0xffff_ffff,
                    0 <= span_y <= 2_000_000_000_000,
            ;
            assert(height * span_x <= 0xffff_ffff * 2_000_000_000_000) by (nonlinear_arith)
                requires
                    0 <= height <= 0xffff_ffff,
                    0 <= span_x <= 2_000_000_000_000,
            ;
            (width as i128) * (span_y as i128) <= (height as i128) * (span_x as i128)
        }
    } else {
        false
    };
    if by_width {
        Scale { pixels: width, extent: span_x }
    } else {
        Scale { pixels: height, extent: span_y }
    }
}

/// Under the fitting scale no point of the model falls outside the image by
/// more than its last row or column.
pub proof fn lemma_fitting_scale_fits(
    span_x: i64,
    span_y: i64,
    width: u32,
    height: u32,
    vx: int,
    vy: int,
)
    requires
        0 <= vx <= span_x,
        0 <= vy <= span_y,
    ensures
        0 <= scaled(vx, fitting_scale(span_x, span_y, width, height)) <= width,
        0 <= scaled(vy, fitting_scale(span_x, span_y, width, height)) <= height,
{
    let scale = fitting_scale(span_x, span_y, width, height);
    let e = scale.extent as int;
    let p = scale.pixels as int;
    if e > 0 {
        assert(0 <= vx * p <= width * e) by (nonlinear_arith)
            requires
                0 <= vx <= span_x,
                0 <= vy <= span_y,
                p >= 0,
                e > 0,
                width >= 0,
                height >= 0,
                (e == span_x && p == width) || (e == span_y && p == height && (span_x <= 0
                    || width * span_y > height * span_x)),
        ;
        lemma_floor_bounds(vx * p, e, width as int);
        assert(0 <= vy * p <= height * e) by (nonlinear_arith)
            requires
                0 <= vx <= span_x,
                0 <= vy <= span_y,
                p >= 0,
                e > 0,
                width >= 0,
                height >= 0,
                (e == span_x && p == width && (span_y <= 0 || width * span_y <= height * span_x))
                    || (e == span_y && p == height),
        ;
        lemma_floor_bounds(vy * p, e, height as int);
    }
}

/// A non-negative number that is at most `bound` times the divisor has a
/// quotient between zero and `bound`.
pub proof fn lemma_floor_bounds(n: int, d: int, bound: int)
    requires
        d > 0,
        0 <= n <= bound * d,
    ensures
        0 <= n / d <= bound,
{
    vstd::arithmetic::div_mod::lemma_fundamental_div_mod(n, d);
    vstd::arithmetic::div_mod::lemma_mod_bound(n, d);
    let q = n / d;
    let r = n % d;
    assert(0 <= q) by (nonlinear_arith)
        requires
            d > 0,
            0 <= n,
            n == d * q + r,
            r < d,
    ;
    assert(q <= bound) by (nonlinear_arith)
        requires
            d > 0,
            n <= bound * d,
            n == d * q + r,
            0 <= r,
    ;
}

/// Computes `scaled` for a length that two coordinates within range can
/// have.
pub fn scale_length(v: i64, scale: Scale) -> (r: u128)
    requires
        0 <= v <= 2 * COORD_LIMIT,
    ensures
        r == scaled(v as int, scale),
{
    if scale.extent <= 0 {
        0
    } else {
        assert(v * scale.pixels <= 2_000_000_000_000 * 0xffff_ffff) by (nonlinear_arith)
            requires
                0 <= v <= 2_000_000_000_000,
                0 <= scale.pixels <= 0xffff_ffff,
        ;
        assert(0 <= v * scale.pixels) by (nonlinear_arith)
            requires
                0 <= v,
                0 <= scale.pixels,
        ;
        ((v as u128) * (scale.pixels as u128)) / (scale.extent as u128)
    }
}

/// Maps a point of the model to its pixel.
pub fn model_to_image_coords(
    model_point: &PlanePoint,
    min_x: i64,
    min_y: i64,
    scale: Scale,
    image_height: u32,
) -> (pixel: PixelPoint)
    requires
        coord_in_range(min_x as int),
        coord_in_range(min_y as int),
        model_point.in_range(),
        min_x <= model_point.x,
        min_y <= model_point.y,
        image_height <= MAX_IMAGE_SIDE,
        scaled(model_point.x - min_x, scale) <= MAX_IMAGE_SIDE,
        scaled(model_point.y - min_y, scale) <= image_height,
    ensures
        pixel == model_to_image_spec(*model_point, min_x, min_y, scale, image_height),
        0 <= pixel.x <= MAX_IMAGE_SIDE,
        0 <= pixel.y <= image_height,
        pixel.x == scaled(model_point.x - min_x, scale),
{
    let right = scale_length(model_point.x - min_x, scale);
    let up = scale_length(model_point.y - min_y, scale);
    PixelPoint { x: right as i32, y: image_height as i32 - up as i32 }
}


/// How the plane of a cross-section is laid onto an image: the model
/// position of the image's corner, the scale, and the image's size.
#[derive(Clone, Copy, PartialEq, Eq, Structural, Debug)]
pub struct Frame {
    pub min_x: i64,
    pub min_y: i64,
    pub scale: Scale,
    pub width: u32,
    pub height: u32,
}

impl Frame {
    /// The image has a valid size and the corner is within range.
    pub open spec fn wf(self) -> bool {
        &&& valid_image_size(self.width, self.height)
        &&& coord_in_range(self.min_x as int)
        &&& coord_in_range(self.min_y as int)
    }

    /// `p` lies where the frame can map it: not before the corner, and not
    /// beyond the image by more than its last row or column.
    pub open spec fn holds(self, p: PlanePoint) -> bool {
        &&& p.in_range()
        &&& self.min_x <= p.x
        &&& self.min_y <= p.y
        &&& scaled(p.x - self.min_x, self.scale) <= self.width
        &&& scaled(p.y - self.min_y, self.scale) <= self.height
    }

    /// The frame can map every corner of every polygon.
    pub open spec fn holds_all(self, polygons: Seq<Seq<PlanePoint>>) -> bool {
        forall|i: int, j: int|
            0 <= i < polygons.len() && 0 <= j < polygons[i].len() ==> self.holds(
                #[trigger] polygons[i][j],
            )
    }

    /// The pixel at which `p` falls.
    pub open spec fn pixel_of(self, p: PlanePoint) -> PixelPoint {
        model_to_image_spec(p, self.min_x, self.min_y, self.scale, self.height)
    }

    /// The pixels at which the corners of `polygon` fall.
    pub open spec fn outline_of(self, polygon: Seq<PlanePoint>) -> Seq<PixelPoint> {
        Seq::new(polygon.len(), |i: int| self.pixel_of(polygon[i]))
    }

    /// An image of the frame's size with every pixel at background.
    pub open spec fn blank(self) -> Seq<u8> {
        Seq::new((self.width * self.height) as nat, |i: int| BACKGROUND)
    }

    /// The pixels that one loop covers: what filling the loop alone, on a
    /// blank image, sets to foreground.
    pub open spec fn loop_mask(self, polygon: Seq<PlanePoint>) -> Seq<u8> {
        polygon_fill(self.blank(), self.width, self.height, self.outline_of(polygon), FOREGROUND)
    }

    /// The loop covers pixel number `i`.
    pub open spec fn covers(self, polygon: Seq<PlanePoint>, i: int) -> bool {
        self.loop_mask(polygon)[i] == FOREGROUND
    }

    /// How many of the first `upto` loops cover pixel number `i`.
    pub open spec fn cover_count(self, polygons: Seq<Seq<PlanePoint>>, upto: int, i: int) -> nat
        decreases upto,
    {
        if upto <= 0 {
            0
        } else {
            self.cover_count(polygons, upto - 1, i) + if self.covers(polygons[upto - 1], i) {
                1nat
            } else {
                0nat
            }
        }
    }

    /// The image of the first `upto` loops: a pixel is foreground where an
    /// odd number of the loops cover it, and background elsewhere. So a loop
    /// within another bounds a hole, a loop within that an island in the
    /// hole, and the order of the loops makes no difference.
    pub open spec fn render_spec(self, polygons: Seq<Seq<PlanePoint>>, upto: int) -> Seq<u8> {
        Seq::new(
            (self.width * self.height) as nat,
            |i: int|
                if self.cover_count(polygons, upto, i) % 2 == 1 {
                    FOREGROUND
                } else {
                    BACKGROUND
                },
        )
    }

    /// How many loops cover a pixel depends on the loops counted alone.
    pub proof fn lemma_cover_count_of_prefix(
        self,
        first: Seq<Seq<PlanePoint>>,
        second: Seq<Seq<PlanePoint>>,
        upto: int,
        i: int,
    )
        requires
            upto <= first.len(),
            upto <= second.len(),
            forall|k: int| 0 <= k < upto ==> first[k] == second[k],
        ensures
            self.cover_count(first, upto, i) == self.cover_count(second, upto, i),
        decreases upto,
    {
        if upto > 0 {
            self.lemma_cover_count_of_prefix(first, second, upto - 1, i);
        }
    }

    /// Of loops put one run behind another, as many cover a pixel as of the
    /// one run and of the other together.
    pub proof fn lemma_cover_count_adds(
        self,
        first: Seq<Seq<PlanePoint>>,
        second: Seq<Seq<PlanePoint>>,
        upto: int,
        i: int,
    )
        requires
            0 <= upto <= second.len(),
        ensures
            self.cover_count(first + second, first.len() + upto, i) == self.cover_count(
                first,
                first.len() as int,
                i,
            ) + self.cover_count(second, upto, i),
        decreases upto,
    {
        if upto > 0 {
            self.lemma_cover_count_adds(first, second, upto - 1, i);
            assert((first + second)[first.len() + upto - 1] == second[upto - 1]);
        } else {
            self.lemma_cover_count_of_prefix(first + second, first, first.len() as int, i);
        }
    }

    /// The order of the loops makes no difference to the image: two runs of
    /// loops give the same image whichever of them comes first.
    pub proof fn lemma_render_order(self, first: Seq<Seq<PlanePoint>>, second: Seq<Seq<PlanePoint>>)
        ensures
            self.render_spec(first + second, (first + second).len() as int) == self.render_spec(
                second + first,
                (second + first).len() as int,
            ),
    {
        let one = self.render_spec(first + second, (first + second).len() as int);
        let other = self.render_spec(second + first, (second + first).len() as int);
        assert forall|i: int| 0 <= i < one.len() implies one[i] == other[i] by {
            self.lemma_cover_count_adds(first, second, second.len() as int, i);
            self.lemma_cover_count_adds(second, first, first.len() as int, i);
        }
        assert(one =~= other);
    }

    /// A loop within another bounds a hole: of two loops, a pixel that both
    /// cover is background, a pixel that just one of them covers is
    /// foreground, and a pixel that neither covers is background.
    pub proof fn lemma_two_loops(self, outer: Seq<PlanePoint>, inner: Seq<PlanePoint>, i: int)
        requires
            0 <= i < self.width * self.height,
        ensures
            self.render_spec(seq![outer, inner], 2)[i] == (if self.covers(outer, i) != self.covers(
                inner,
                i,
            ) {
                FOREGROUND
            } else {
                BACKGROUND
            }),
    {
        let both = seq![outer, inner];
        assert(self.cover_count(both, 0, i) == 0);
        assert(self.cover_count(both, 1, i) == self.cover_count(both, 0, i) + if self.covers(
            both[0],
            i,
        ) {
            1nat
        } else {
            0nat
        });
        assert(self.cover_count(both, 2, i) == self.cover_count(both, 1, i) + if self.covers(
            both[1],
            i,
        ) {
            1nat
        } else {
            0nat
        });
    }
}

impl SliceImage {
    /// The image has a valid size, one pixel for each position, and every
    /// pixel is background or foreground.
    pub open spec fn wf(&self) -> bool {
        &&& valid_image_size(self.width, self.height)
        &&& self.pixels.len() == self.width * self.height
        &&& forall|i: int|
            0 <= i < self.pixels.len() ==> (#[trigger] self.pixels[i]) == BACKGROUND
                || self.pixels[i] == FOREGROUND
    }

    /// An image of the given size with every pixel at background, or `None`
    /// if no image can have that size.
    pub fn blank(width: u32, height: u32) -> (image: Option<SliceImage>)
        ensures
            image is Some <==> valid_image_size(width, height),
            image matches Some(img) ==> img.wf() && img.width == width && img.height == height
                && img.pixels@ == Seq::new((width * height) as nat, |i: int| BACKGROUND),
    {
        if !image_size_is_valid(width, height) {
            return None;
        }
        assert(0 <= width * height) by (nonlinear_arith)
            requires
                0 <= width,
                0 <= height,
        ;
        let count: usize = (width as usize) * (height as usize);
        let pixels: Vec<u8> = vec![BACKGROUND; count];
        assert(pixels@ =~= Seq::new((width * height) as nat, |i: int| BACKGROUND));
        Some(SliceImage { width, height, pixels })
    }

    /// The pixel in column `x` of row `y`.
    pub fn get_pixel(&self, x: u32, y: u32) -> (value: u8)
        requires
            self.wf(),
            x < self.width,
            y < self.height,
        ensures
            value == self.pixels[y * self.width + x],
    {
        assert(y * self.width + x < self.width * self.height) by (nonlinear_arith)
            requires
                x < self.width,
                y < self.height,
        ;
        assert(0 <= y * self.width) by (nonlinear_arith)
            requires
                0 <= y,
                0 <= self.width,
        ;
        self.pixels[(y as usize) * (self.width as usize) + (x as usize)]
    }
}

/// The pixels of an image after `imageproc`'s `draw_polygon_mut` has filled
/// the polygon with corners `outline` in the value `shade`.
pub uninterp spec fn polygon_fill(
    pixels: Seq<u8>,
    width: u32,
    height: u32,
    outline: Seq<PixelPoint>,
    shade: u8,
) -> Seq<u8>;

/// Fills a polygon by `imageproc::drawing::draw_polygon_mut` on a grey image
/// made of `pixels`.
///
/// Taken on trust from that function's source: it returns for every image
/// of at least one pixel whose sides, like the corners' coordinates, stay
/// within `MAX_IMAGE_SIDE`; what it draws depends on its arguments alone; and
/// it hands back the buffer that it was given, with as many pixels.
#[verifier::external_body]
fn fill_polygon(pixels: Vec<u8>, width: u32, height: u32, outline: &Vec<PixelPoint>, shade: u8)
    -> (filled: Vec<u8>)
    requires
        valid_image_size(width, height),
        pixels.len() == width * height,
        forall|i: int|
            0 <= i < outline.len() ==> -MAX_IMAGE_SIDE <= (#[trigger] outline[i]).x
                <= MAX_IMAGE_SIDE && -MAX_IMAGE_SIDE <= outline[i].y <= MAX_IMAGE_SIDE,
    ensures
        filled@ == polygon_fill(pixels@, width, height, outline@, shade),
        filled.len() == pixels.len(),
{
    let mut canvas = image::GrayImage::from_raw(width, height, pixels).unwrap();
    let corners: Vec<imageproc::point::Point<i32>> = outline.iter().map(
        |p| imageproc::point::Point::new(p.x, p.y),
    ).collect();
    imageproc::drawing::draw_polygon_mut(&mut canvas, &corners, image::Luma([shade]));
    canvas.into_raw()
}

/// The pixels at which the corners of a polygon fall.
fn outline_pixels(polygon: &Vec<PlanePoint>, frame: &Frame) -> (outline: Vec<PixelPoint>)
    requires
        frame.wf(),
        forall|j: int| 0 <= j < polygon.len() ==> frame.holds(#[trigger] polygon[j]),
    ensures
        outline@ == frame.outline_of(polygon@),
        forall|k: int|
            0 <= k < outline.len() ==> 0 <= (#[trigger] outline[k]).x <= MAX_IMAGE_SIDE && 0
                <= outline[k].y <= MAX_IMAGE_SIDE,
{
    let mut outline: Vec<PixelPoint> = Vec::new();
    let mut j: usize = 0;
    while j < polygon.len()
        invariant
            j <= polygon.len(),
            frame.wf(),
            forall|k: int| 0 <= k < polygon.len() ==> frame.holds(#[trigger] polygon[k]),
            outline.len() == j,
            forall|k: int|
                0 <= k < j ==> {
                    &&& (#[trigger] outline[k]) == frame.pixel_of(polygon[k])
                    &&& 0 <= outline[k].x <= MAX_IMAGE_SIDE
                    &&& 0 <= outline[k].y <= MAX_IMAGE_SIDE
                },
        decreases polygon.len() - j,
    {
        let pixel = model_to_image_coords(
            &polygon[j],
            frame.min_x,
            frame.min_y,
            frame.scale,
            frame.height,
        );
        outline.push(pixel);
        j += 1;
    }
    assert(outline@ =~= frame.outline_of(polygon@));
    outline
}

/// Turns round every pixel of the image that the mask has at foreground.
fn flip_covered(pixels: &mut Vec<u8>, mask: &Vec<u8>)
    requires
        old(pixels).len() == mask.len(),
    ensures
        final(pixels).len() == mask.len(),
        forall|m: int|
            0 <= m < mask.len() ==> (#[trigger] final(pixels)[m]) == (if mask[m] == FOREGROUND {
                if old(pixels)[m] == FOREGROUND {
                    BACKGROUND
                } else {
                    FOREGROUND
                }
            } else {
                old(pixels)[m]
            }),
{
    let mut j: usize = 0;
    while j < mask.len()
        invariant
            j <= mask.len(),
            pixels.len() == mask.len(),
            forall|m: int| j <= m < mask.len() ==> (#[trigger] pixels[m]) == old(pixels)[m],
            forall|m: int|
                0 <= m < j ==> (#[trigger] pixels[m]) == (if mask[m] == FOREGROUND {
                    if old(pixels)[m] == FOREGROUND {
                        BACKGROUND
                    } else {
                        FOREGROUND
                    }
                } else {
                    old(pixels)[m]
                }),
        decreases mask.len() - j,
    {
        if mask[j] == FOREGROUND {
            let turned = if pixels[j] == FOREGROUND {
                BACKGROUND
            } else {
                FOREGROUND
            };
            pixels[j] = turned;
        }
        j += 1;
    }
}

/// Draws the loops into an image of the frame's size. Each loop is filled
/// alone, and a pixel is foreground where an odd number of loops cover it:
/// a loop that lies within another is a hole in it.
pub fn rasterize_polygons(polygons: &Vec<Vec<PlanePoint>>, frame: &Frame) -> (image: SliceImage)
    requires
        frame.wf(),
        frame.holds_all(polygons_view(polygons)),
    ensures
        image.wf(),
        image.width == frame.width,
        image.height == frame.height,
        image.pixels@ == frame.render_spec(
            polygons_view(polygons),
            polygons.len() as int,
        ),
{
    let ghost all = polygons_view(polygons);
    let mut pixels: Vec<u8> = match SliceImage::blank(frame.width, frame.height) {
        Some(img) => img.pixels,
        None => Vec::new(),
    };
    let mut i: usize = 0;
    assert(pixels@ =~= frame.render_spec(all, 0));
    while i < polygons.len()
        invariant
            i <= polygons.len(),
            all == polygons_view(polygons),
            frame.wf(),
            frame.holds_all(all),
            pixels.len() == frame.width * frame.height,
            pixels@ == frame.render_spec(all, i as int),
        decreases polygons.len() - i,
    {
        assert forall|j: int| 0 <= j < polygons[i as int].len() implies frame.holds(
            #[trigger] polygons[i as int][j],
        ) by {
            assert(frame.holds(all[i as int][j]));
        }
        let outline = outline_pixels(&polygons[i], frame);
        let clear: Vec<u8> = match SliceImage::blank(frame.width, frame.height) {
            Some(img) => img.pixels,
            None => Vec::new(),
        };
        assert(clear@ =~= frame.blank());
        let mask = fill_polygon(clear, frame.width, frame.height, &outline, FOREGROUND);
        assert(mask@ == frame.loop_mask(all[i as int]));
        let ghost before = pixels@;
        flip_covered(&mut pixels, &mask);
        proof {
            let after = frame.render_spec(all, i + 1);
            assert forall|m: int| 0 <= m < pixels.len() implies pixels[m] == after[m] by {
                assert(before[m] == (if frame.cover_count(all, i as int, m) % 2 == 1 {
                    FOREGROUND
                } else {
                    BACKGROUND
                }));
                assert(frame.cover_count(all, i + 1, m) == frame.cover_count(all, i as int, m)
                    + if frame.covers(all[i as int], m) {
                    1nat
                } else {
                    0nat
                });
            }
            assert(pixels@ =~= after);
        }
        i += 1;
    }
    SliceImage { width: frame.width, height: frame.height, pixels }
}

} // verus!
