use vstd::prelude::*;
use vstd::arithmetic::div_mod::{
    lemma_div_pos_is_pos, lemma_fundamental_div_mod, lemma_hoist_over_denominator,
    lemma_mod_bound,
};

verus! {

// ------------------------------------------------------------------
// The image compositor
// ------------------------------------------------------------------
//
// Source images arrive as raw byte buffers in an auto-detected raster format.
// Each is decoded, rescaled to the maximum source height at (rounded)
// preserved aspect ratio, and the rescaled images are concatenated left to
// right on a fresh canvas, which is encoded as one JPEG buffer. The geometry
// is computed and proved here; decoding, rescaling, pixel copying and
// encoding are the image crate's work, relied on through the items below.

#[verifier::external_type_specification]
#[verifier::external_body]
pub struct ExDynamicImage(image::DynamicImage);

/// The width of a decoded image, a pure function of what it holds.
pub uninterp spec fn img_width(img: image::DynamicImage) -> u32;

/// The height of a decoded image, a pure function of what it holds.
pub uninterp spec fn img_height(img: image::DynamicImage) -> u32;

/// What decoding a byte buffer yields: the decoded image's dimensions, or
/// nothing where the bytes are not a decodable image. Decoding is a pure
/// function of the bytes.
pub uninterp spec fn decoded_dims(bytes: Seq<u8>) -> Option<(u32, u32)>;

/// Relies on image's `ImageReader` with a guessed format: the format is
/// sniffed from the bytes, never from a name, and decoding is deterministic
/// in the bytes, which names its outcome `decoded_dims`.
#[verifier::external_body]
fn decode_image(bytes: &Vec<u8>) -> (r: Result<image::DynamicImage, String>)
    ensures
        match r {
            Ok(img) => decoded_dims(bytes@) == Some((img_width(img), img_height(img))),
            Err(_) => decoded_dims(bytes@) is None,
        },
{
    let reader = match image::ImageReader::new(std::io::Cursor::new(bytes.as_slice()))
        .with_guessed_format()
    {
        Ok(r) => r,
        Err(e) => return Err(e.to_string()),
    };
    reader.decode().map_err(|e| e.to_string())
}

/// Relies on `DynamicImage::width` returning the image's width.
#[verifier::external_body]
fn image_width(img: &image::DynamicImage) -> (r: u32)
    ensures
        r == img_width(*img),
{
    img.width()
}

/// Relies on `DynamicImage::height` returning the image's height.
#[verifier::external_body]
fn image_height(img: &image::DynamicImage) -> (r: u32)
    ensures
        r == img_height(*img),
{
    img.height()
}

/// Relies on `DynamicImage::resize_exact` with the Triangle filter: the
/// result has exactly the dimensions asked for.
#[verifier::external_body]
fn resize_image(img: &image::DynamicImage, w: u32, h: u32) -> (r: image::DynamicImage)
    requires
        w >= 1,
        h >= 1,
    ensures
        img_width(r) == w,
        img_height(r) == h,
{
    img.resize_exact(w, h, image::imageops::FilterType::Triangle)
}

/// Relies on `DynamicImage::new_rgb8`: a fresh RGB image of the given size.
#[verifier::external_body]
fn new_canvas(w: u32, h: u32) -> (r: image::DynamicImage)
    ensures
        img_width(r) == w,
        img_height(r) == h,
{
    image::DynamicImage::new_rgb8(w, h)
}

/// Relies on `imageops::replace`: copies the top image's pixels onto the
/// canvas at the offset, clipping at the canvas edges, and leaves the
/// canvas dimensions unchanged.
#[verifier::external_body]
fn blit(canvas: &mut image::DynamicImage, top: &image::DynamicImage, x: u32)
    ensures
        img_width(*final(canvas)) == img_width(*old(canvas)),
        img_height(*final(canvas)) == img_height(*old(canvas)),
{
    image::imageops::replace(canvas, top, x as i64, 0);
}

/// Relies on `DynamicImage::write_to` with the JPEG format: the pixels are
/// first converted to a color type the JPEG encoder supports, at unchanged
/// dimensions, and the encoder then refuses exactly the images whose width or
/// height falls outside `1..=65535` (a JPEG frame header holds 16-bit
/// dimensions); writing to an in-memory vector cannot fail.
#[verifier::external_body]
fn encode_jpeg(img: &image::DynamicImage) -> (r: Result<Vec<u8>, String>)
    ensures
        (r is Ok) <==> (1 <= img_width(*img) <= 65535 && 1 <= img_height(*img) <= 65535),
{
    let mut out: Vec<u8> = Vec::new();
    match img.write_to(&mut std::io::Cursor::new(&mut out), image::ImageFormat::Jpeg) {
        Ok(()) => Ok(out),
        Err(e) => Err(e.to_string()),
    }
}

// ------------------------------------------------------------------
// Geometry
// ------------------------------------------------------------------

/// The rescaled width of a `w`-by-`h` source at target height `th`:
/// `w * th / h`, rounded to the nearest integer.
pub open spec fn scaled_width(w: int, h: int, th: int) -> int {
    (w * th + h / 2) / h
}

/// The maximum height among the source dimensions.
pub open spec fn max_height(dims: Seq<(u32, u32)>) -> int
    decreases dims.len(),
{
    if dims.len() == 0 {
        0
    } else {
        let m = max_height(dims.drop_last());
        if dims.last().1 > m {
            dims.last().1 as int
        } else {
            m
        }
    }
}

/// The composite width: the sum of the rescaled source widths.
pub open spec fn sum_scaled_widths(dims: Seq<(u32, u32)>, th: int) -> int
    decreases dims.len(),
{
    if dims.len() == 0 {
        0
    } else {
        sum_scaled_widths(dims.drop_last(), th)
            + scaled_width(dims.last().0 as int, dims.last().1 as int, th)
    }
}

/// The views of the submitted byte buffers.
pub open spec fn views_of(parts: Seq<Vec<u8>>) -> Seq<Seq<u8>> {
    Seq::new(parts.len(), |i: int| parts[i]@)
}

/// Every buffer decodes, to an image with no zero dimension.
pub open spec fn all_decodable(parts: Seq<Seq<u8>>) -> bool {
    forall|i: int| 0 <= i < parts.len() ==> (match #[trigger] decoded_dims(parts[i]) {
        Some(d) => d.0 >= 1 && d.1 >= 1,
        None => false,
    })
}

/// The decoded dimensions of every buffer.
pub open spec fn dims_of(parts: Seq<Seq<u8>>) -> Seq<(u32, u32)> {
    Seq::new(parts.len(), |i: int| decoded_dims(parts[i]).unwrap())
}

/// The composite geometry does not fit the raster's 32-bit dimensions.
pub open spec fn layout_overflows(dims: Seq<(u32, u32)>) -> bool {
    let th = max_height(dims);
    (exists|i: int| 0 <= i < dims.len()
        && scaled_width((#[trigger] dims[i]).0 as int, dims[i].1 as int, th) > u32::MAX)
    || sum_scaled_widths(dims, th) > u32::MAX
}

/// The composite geometry fits a JPEG frame header: the common height and
/// the total width are both at most 65535.
pub open spec fn jpeg_encodable(dims: Seq<(u32, u32)>) -> bool {
    let th = max_height(dims);
    max_height(dims) <= 65535 && sum_scaled_widths(dims, th) <= 65535
}

/// An encoded composite image with its dimensions.
pub struct Composite {
    pub bytes: Vec<u8>,
    pub width: u32,
    pub height: u32,
}

/// Why compositing failed.
#[derive(Debug)]
pub enum CompositeError {
    /// No image was provided, or a provided buffer did not decode, or decoded
    /// to an image with a zero dimension.
    Decode(String),
    /// The rescaled geometry exceeds the raster's 32-bit dimensions.
    TooLarge,
    /// The composite could not be encoded.
    Encode(String),
}

// ------------------------------------------------------------------
// Geometry facts
// ------------------------------------------------------------------

/// A rescaled width is never negative.
pub proof fn lemma_scaled_width_nonneg(w: int, h: int, th: int)
    requires
        w >= 0,
        h >= 1,
        th >= 0,
    ensures
        scaled_width(w, h, th) >= 0,
{
    assert(w * th >= 0) by (nonlinear_arith)
        requires w >= 0 && th >= 0,
    {}
    lemma_div_pos_is_pos(w * th + h / 2, h);
}

/// Rescaling to the source's own height keeps the width: with one source the
/// composite has the source's dimensions.
pub proof fn lemma_scaled_width_identity(w: int, h: int)
    requires
        w >= 0,
        h >= 1,
    ensures
        scaled_width(w, h, h) == w,
{
    lemma_hoist_over_denominator(h / 2, w, h as nat);
    assert(h / 2 + w * h == w * h + h / 2);
    assert((h / 2) / h == 0) by {
        assert(0 <= h / 2 < h);
        vstd::arithmetic::div_mod::lemma_basic_div(h / 2, h);
    }
}

/// The rescaled width preserves the source's aspect ratio to within half a
/// pixel column at the common height: `|scaled * h - w * th| <= h / 2`.
pub proof fn lemma_scaled_width_aspect(w: int, h: int, th: int)
    requires
        w >= 0,
        h >= 1,
        th >= 0,
    ensures
        -(h / 2) <= scaled_width(w, h, th) * h - w * th <= h / 2,
{
    let x = w * th + h / 2;
    let s = x / h;
    lemma_fundamental_div_mod(x, h);
    lemma_mod_bound(x, h);
    assert(s * h == h * s);
    assert(s * h - w * th == h / 2 - x % h);
    assert(2 * (h / 2) <= h) by {
        lemma_fundamental_div_mod(h, 2);
        lemma_mod_bound(h, 2);
    }
}

/// The maximum height bounds every source height, and is attained.
pub proof fn lemma_max_height_bounds(dims: Seq<(u32, u32)>)
    ensures
        forall|i: int| 0 <= i < dims.len() ==> (#[trigger] dims[i]).1 <= max_height(dims),
        max_height(dims) >= 0,
        dims.len() >= 1 ==> exists|i: int| 0 <= i < dims.len()
            && (#[trigger] dims[i]).1 == max_height(dims),
    decreases dims.len(),
{
    if dims.len() > 0 {
        lemma_max_height_bounds(dims.drop_last());
        assert forall|i: int| 0 <= i < dims.len() implies
            (#[trigger] dims[i]).1 <= max_height(dims) by {
            if i < dims.len() - 1 {
                assert(dims.drop_last()[i] == dims[i]);
            }
        }
        if dims.len() >= 2 && !(dims.last().1 > max_height(dims.drop_last())) {
            let j = choose|i: int| 0 <= i < dims.drop_last().len()
                && (#[trigger] dims.drop_last()[i]).1 == max_height(dims.drop_last());
            assert(dims[j].1 == max_height(dims));
        }
    }
}

/// Rescaling to a height at least the source's own gives at least one pixel
/// column.
pub proof fn lemma_scaled_width_pos(w: int, h: int, th: int)
    requires
        w >= 1,
        h >= 1,
        th >= h,
    ensures
        scaled_width(w, h, th) >= 1,
{
    assert(w * th >= th) by (nonlinear_arith)
        requires w >= 1 && th >= 0,
    {}
    assert(h <= w * th + h / 2);
    vstd::arithmetic::div_mod::lemma_div_is_ordered(h, w * th + h / 2, h);
    vstd::arithmetic::div_mod::lemma_div_by_self(h);
}

/// A sum of rescaled widths is never negative.
pub proof fn lemma_sum_nonneg(dims: Seq<(u32, u32)>, th: int)
    requires
        th >= 0,
        forall|j: int| 0 <= j < dims.len() ==> (#[trigger] dims[j]).1 >= 1,
    ensures
        sum_scaled_widths(dims, th) >= 0,
    decreases dims.len(),
{
    if dims.len() > 0 {
        assert(forall|j: int| 0 <= j < dims.drop_last().len()
            ==> (#[trigger] dims.drop_last()[j]).1 >= 1);
        lemma_sum_nonneg(dims.drop_last(), th);
        lemma_scaled_width_nonneg(dims.last().0 as int, dims.last().1 as int, th);
    }
}

/// With at least one source, and no zero source dimension, the composite is
/// at least one pixel in each dimension: the common height is a source
/// height, and the last source alone contributes a positive width.
pub proof fn lemma_geometry_positive(dims: Seq<(u32, u32)>)
    requires
        dims.len() >= 1,
        forall|j: int| 0 <= j < dims.len()
            ==> (#[trigger] dims[j]).0 >= 1 && dims[j].1 >= 1,
    ensures
        max_height(dims) >= 1,
        sum_scaled_widths(dims, max_height(dims)) >= 1,
{
    let th = max_height(dims);
    lemma_max_height_bounds(dims);
    assert(dims[0].1 <= th);
    assert(forall|j: int| 0 <= j < dims.drop_last().len()
        ==> (#[trigger] dims.drop_last()[j]).1 >= 1);
    lemma_sum_nonneg(dims.drop_last(), th);
    assert(dims.last() == dims[dims.len() - 1]);
    lemma_scaled_width_pos(dims.last().0 as int, dims.last().1 as int, th);
}

/// Prefix sums of rescaled widths never exceed the whole sum.
pub proof fn lemma_sum_prefix(dims: Seq<(u32, u32)>, th: int, i: int)
    requires
        0 <= i <= dims.len(),
        th >= 0,
        forall|j: int| 0 <= j < dims.len() ==> (#[trigger] dims[j]).1 >= 1,
    ensures
        sum_scaled_widths(dims.take(i), th) <= sum_scaled_widths(dims, th),
    decreases dims.len() - i,
{
    if i < dims.len() {
        lemma_sum_prefix(dims, th, i + 1);
        assert(dims.take(i + 1).drop_last() =~= dims.take(i));
        assert(dims.take(i + 1).last() == dims[i]);
        lemma_scaled_width_nonneg(dims[i].0 as int, dims[i].1 as int, th);
    } else {
        assert(dims.take(i) =~= dims);
    }
}


/// With exactly one source, the composite has the source's own dimensions:
/// the common height is its height and the rescale is the identity.
pub proof fn lemma_single_source_dims(d: (u32, u32))
    requires
        d.1 >= 1,
    ensures
        max_height(seq![d]) == d.1 as int,
        sum_scaled_widths(seq![d], d.1 as int) == d.0 as int,
{
    let s = seq![d];
    assert(s.len() == 1);
    assert(s.drop_last() =~= Seq::<(u32, u32)>::empty());
    assert(s.last() == d);
    assert(max_height(s.drop_last()) == 0);
    assert(sum_scaled_widths(s.drop_last(), d.1 as int) == 0);
    assert(max_height(s) == d.1 as int);
    lemma_scaled_width_identity(d.0 as int, d.1 as int);
    assert(sum_scaled_widths(s, d.1 as int)
        == scaled_width(d.0 as int, d.1 as int, d.1 as int));
}

// ------------------------------------------------------------------
// The compositor
// ------------------------------------------------------------------

/// Decodes the submitted buffers, rescales each to the maximum source height
/// preserving its aspect ratio, concatenates them left to right in the order
/// given, and encodes the result as one JPEG buffer. A pure transform: no
/// file is touched.
#[verifier::rlimit(100)]
pub fn composite_images(parts: &Vec<Vec<u8>>) -> (r: Result<Composite, CompositeError>)
    ensures
        (r is Ok) <==> {
            &&& parts@.len() >= 1
            &&& all_decodable(views_of(parts@))
            &&& !layout_overflows(dims_of(views_of(parts@)))
            &&& jpeg_encodable(dims_of(views_of(parts@)))
        },
        (r matches Err(CompositeError::Decode(_)))
            <==> (parts@.len() == 0 || !all_decodable(views_of(parts@))),
        (r matches Err(CompositeError::TooLarge)) <==> {
            &&& parts@.len() >= 1
            &&& all_decodable(views_of(parts@))
            &&& layout_overflows(dims_of(views_of(parts@)))
        },
        (r matches Err(CompositeError::Encode(_))) <==> {
            &&& parts@.len() >= 1
            &&& all_decodable(views_of(parts@))
            &&& !layout_overflows(dims_of(views_of(parts@)))
            &&& !jpeg_encodable(dims_of(views_of(parts@)))
        },
        (match r {
            Ok(c) => {
                &&& c.height as int == max_height(dims_of(views_of(parts@)))
                &&& c.width as int == sum_scaled_widths(dims_of(views_of(parts@)), c.height as int)
            },
            Err(_) => true,
        }),
{
    let ghost pviews = views_of(parts@);
    if parts.len() == 0 {
        return Err(CompositeError::Decode("no images provided".to_owned()));
    }

    // decode every buffer; any failure fails the whole submission
    let mut imgs: Vec<image::DynamicImage> = Vec::new();
    let mut widths: Vec<u32> = Vec::new();
    let mut heights: Vec<u32> = Vec::new();
    let mut i: usize = 0;
    while i < parts.len()
        invariant
            i <= parts@.len(),
            pviews == views_of(parts@),
            imgs@.len() == i,
            widths@.len() == i,
            heights@.len() == i,
            forall|j: int| 0 <= j < i ==> #[trigger] decoded_dims(pviews[j])
                == Some((widths@[j], heights@[j])),
            forall|j: int| 0 <= j < i ==> #[trigger] widths@[j] >= 1,
            forall|j: int| 0 <= j < i ==> #[trigger] heights@[j] >= 1,
            forall|j: int| 0 <= j < i ==> img_width(#[trigger] imgs@[j]) == widths@[j]
                && img_height(imgs@[j]) == heights@[j],
        decreases parts@.len() - i,
    {
        assert(pviews[i as int] == parts@[i as int]@);
        let img = match decode_image(&parts[i]) {
            Ok(im) => im,
            Err(e) => {
                assert(!all_decodable(pviews));
                return Err(CompositeError::Decode(e));
            },
        };
        let w = image_width(&img);
        let h = image_height(&img);
        if w == 0 || h == 0 {
            assert(!all_decodable(pviews));
            return Err(CompositeError::Decode("image has a zero dimension".to_owned()));
        }
        imgs.push(img);
        widths.push(w);
        heights.push(h);
        i = i + 1;
    }
    let ghost dims = dims_of(pviews);
    assert(all_decodable(pviews));
    assert(dims.len() == parts@.len());
    assert(forall|j: int| 0 <= j < dims.len()
        ==> #[trigger] dims[j] == (widths@[j], heights@[j]));

    // the common height is the maximum source height
    let mut th: u32 = 0;
    let mut i2: usize = 0;
    while i2 < heights.len()
        invariant
            i2 <= heights@.len(),
            heights@.len() == dims.len(),
            forall|j: int| 0 <= j < dims.len()
                ==> #[trigger] dims[j] == (widths@[j], heights@[j]),
            th as int == max_height(dims.take(i2 as int)),
        decreases heights@.len() - i2,
    {
        assert(dims.take(i2 + 1).drop_last() =~= dims.take(i2 as int));
        assert(dims.take(i2 + 1).last() == dims[i2 as int]);
        if heights[i2] > th {
            th = heights[i2];
        }
        i2 = i2 + 1;
    }
    assert(dims.take(dims.len() as int) =~= dims);
    assert(th as int == max_height(dims));

    // rescale each source to the common height at preserved aspect ratio
    let mut scaled: Vec<u32> = Vec::new();
    let mut total: u32 = 0;
    let mut i3: usize = 0;
    while i3 < imgs.len()
        invariant
            i3 <= imgs@.len(),
            imgs@.len() == dims.len(),
            parts@.len() >= 1,
            pviews == views_of(parts@),
            dims == dims_of(pviews),
            all_decodable(pviews),
            dims.len() == parts@.len(),
            widths@.len() == dims.len(),
            heights@.len() == dims.len(),
            scaled@.len() == i3,
            th as int == max_height(dims),
            forall|j: int| 0 <= j < dims.len()
                ==> #[trigger] dims[j] == (widths@[j], heights@[j]),
            forall|j: int| 0 <= j < dims.len() ==> #[trigger] heights@[j] >= 1,
            forall|j: int| 0 <= j < i3 ==> #[trigger] scaled@[j] as int
                == scaled_width(dims[j].0 as int, dims[j].1 as int, th as int),
            total as int == sum_scaled_widths(dims.take(i3 as int), th as int),
        decreases imgs@.len() - i3,
    {
        proof {
            assert((widths@[i3 as int] as int) * (th as int)
                <= 0xFFFF_FFFF * 0xFFFF_FFFF) by (nonlinear_arith)
                requires
                    widths@[i3 as int] <= 0xFFFF_FFFFu32,
                    th <= 0xFFFF_FFFFu32,
            {}
        }
        let w64: u64 = (widths[i3] as u64) * (th as u64) + ((heights[i3] as u64) / 2);
        let s64: u64 = w64 / (heights[i3] as u64);
        assert(s64 as int == scaled_width(dims[i3 as int].0 as int, dims[i3 as int].1 as int,
            th as int));
        if s64 > u32::MAX as u64 {
            proof {
                assert(scaled_width((dims[i3 as int]).0 as int, dims[i3 as int].1 as int,
                    max_height(dims)) > u32::MAX);
                assert(layout_overflows(dims));
            }
            return Err(CompositeError::TooLarge);
        }
        assert(dims.take(i3 + 1).drop_last() =~= dims.take(i3 as int));
        assert(dims.take(i3 + 1).last() == dims[i3 as int]);
        let t64: u64 = (total as u64) + s64;
        if t64 > u32::MAX as u64 {
            proof {
                assert forall|j: int| 0 <= j < dims.len() implies (#[trigger] dims[j]).1 >= 1 by {
                    assert(dims[j] == (widths@[j], heights@[j]));
                }
                lemma_sum_prefix(dims, th as int, i3 + 1);
                assert(layout_overflows(dims));
            }
            return Err(CompositeError::TooLarge);
        }
        total = t64 as u32;
        scaled.push(s64 as u32);
        i3 = i3 + 1;
    }
    assert(dims.take(dims.len() as int) =~= dims);
    assert(total as int == sum_scaled_widths(dims, th as int));
    assert(!layout_overflows(dims)) by {
        assert forall|j: int| 0 <= j < dims.len() implies
            scaled_width((#[trigger] dims[j]).0 as int, dims[j].1 as int, th as int)
                <= u32::MAX by {
            assert(scaled@[j] as int
                == scaled_width(dims[j].0 as int, dims[j].1 as int, th as int));
        }
    }

    // concatenate left to right on a fresh canvas
    let mut canvas = new_canvas(total, th);
    let mut x: u32 = 0;
    let mut i4: usize = 0;
    while i4 < imgs.len()
        invariant
            i4 <= imgs@.len(),
            imgs@.len() == dims.len(),
            scaled@.len() == dims.len(),
            parts@.len() >= 1,
            pviews == views_of(parts@),
            dims == dims_of(pviews),
            all_decodable(pviews),
            dims.len() == parts@.len(),
            !layout_overflows(dims),
            widths@.len() == dims.len(),
            heights@.len() == dims.len(),
            th as int == max_height(dims),
            img_width(canvas) == total,
            img_height(canvas) == th,
            th >= 1 || dims.len() == 0,
            total as int == sum_scaled_widths(dims, th as int),
            forall|j: int| 0 <= j < dims.len() ==> #[trigger] heights@[j] >= 1,
            forall|j: int| 0 <= j < dims.len()
                ==> #[trigger] dims[j] == (widths@[j], heights@[j]),
            forall|j: int| 0 <= j < dims.len() ==> #[trigger] scaled@[j] as int
                == scaled_width(dims[j].0 as int, dims[j].1 as int, th as int),
            x as int == sum_scaled_widths(dims.take(i4 as int), th as int),
        decreases imgs@.len() - i4,
    {
        proof {
            lemma_sum_prefix(dims, th as int, i4 + 1);
            assert(dims.take(i4 + 1).drop_last() =~= dims.take(i4 as int));
            assert(dims.take(i4 + 1).last() == dims[i4 as int]);
            lemma_scaled_width_nonneg(dims[i4 as int].0 as int, dims[i4 as int].1 as int,
                th as int);
        }
        let sw = scaled[i4];
        if sw >= 1 {
            assert(heights@[i4 as int] <= th) by {
                lemma_max_height_bounds(dims);
            }
            let resized = resize_image(&imgs[i4], sw, th);
            blit(&mut canvas, &resized, x);
        }
        x = x + sw;
        i4 = i4 + 1;
    }

    proof {
        assert forall|j: int| 0 <= j < dims.len() implies
            (#[trigger] dims[j]).0 >= 1 && dims[j].1 >= 1 by {
            assert(dims[j] == (widths@[j], heights@[j]));
        }
        lemma_geometry_positive(dims);
    }
    assert(total >= 1 && th >= 1);
    match encode_jpeg(&canvas) {
        Ok(bytes) => Ok(Composite { bytes, width: total, height: th }),
        Err(e) => Err(CompositeError::Encode(e)),
    }
}

} // verus!
