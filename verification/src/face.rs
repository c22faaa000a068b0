//! Faces: from what the detector found to the picture that is embedded.

use crate::images::{
    color_type, crop_imm, cut_length, cut_out, image_size, may_grey, pixels, resampled,
    resize_exact, rgb8, size, to_luma8, to_rgb8,
};
use vstd::prelude::*;

verus! {

/// How many numbers an embedding has.
pub const EMBED_DIM: usize = 512;

/// The side of the picture that is embedded, in pixels.
pub const CHIP: u32 = 112;

/// How many bytes such a picture has: three for each pixel.
pub const CHIP_BYTES: usize = 37632;

// ---------- Detection ----------

/// A face in an image: its box, which may start left of or above the image, and the IEEE-754 bits
/// of its score in single precision.
#[derive(Clone, Copy, Debug, PartialEq, Eq, Structural)]
pub struct Face {
    pub x: i32,
    pub y: i32,
    pub w: u32,
    pub h: u32,
    pub score: u32,
}

/// The area of a face's box.
pub open spec fn area(f: Face) -> int {
    f.w * f.h
}

/// Of two faces in the order in which they were found, the one at `i` comes before the one at
/// `j`: it is larger, or as large and found earlier.
pub open spec fn comes_before(found: Seq<Face>, i: int, j: int) -> bool {
    ||| area(found[i]) > area(found[j])
    ||| area(found[i]) == area(found[j]) && i < j
}

/// `sorted` holds the faces of `found`, the largest first and equally large ones in the order in
/// which they were found. `order` gives the place in `found` of each face of `sorted`.
pub open spec fn largest_first(found: Seq<Face>, sorted: Seq<Face>, order: Seq<int>) -> bool {
    &&& sorted.len() == found.len()
    &&& order.len() == found.len()
    &&& forall|k: int|
        0 <= k < order.len() ==> 0 <= #[trigger] order[k] < found.len() && sorted[k]
            == found[order[k]]
    &&& forall|i: int| 0 <= i < found.len() ==> #[trigger] order.contains(i)
    &&& forall|j: int, k: int|
        0 <= j < k < order.len() ==> comes_before(found, #[trigger] order[j], #[trigger] order[k])
}

fn box_area(f: &Face) -> (r: u64)
    ensures
        r == area(*f),
{
    assert(f.w * f.h <= 0xffff_ffff * 0xffff_ffff) by (nonlinear_arith)
        requires
            0 <= f.w <= 0xffff_ffff,
            0 <= f.h <= 0xffff_ffff,
    ;
    f.w as u64 * f.h as u64
}

/// The faces of an image from what the detector found in it, largest face first.
pub fn faces(found: &Vec<Face>) -> (r: Vec<Face>)
    ensures
        exists|order: Seq<int>| #[trigger] largest_first(found@, r@, order),
{
    let ghost all = found@;
    let mut r: Vec<Face> = Vec::new();
    let ghost mut order: Seq<int> = seq![];
    let mut i: usize = 0;
    assert(all.take(0) == Seq::<Face>::empty());
    while i < found.len()
        invariant
            i <= found.len(),
            all == found@,
            largest_first(all.take(i as int), r@, order),
        decreases found.len() - i,
    {
        let f = found[i];
        let a = box_area(&f);
        let mut at: usize = r.len();
        while at > 0 && box_area(&r[at - 1]) < a
            invariant
                at <= r.len(),
                a == area(f),
                forall|k: int| at <= k < r.len() ==> area(#[trigger] r[k]) < a,
            decreases at,
        {
            at = at - 1;
        }
        proof {
            let before = all.take(i as int);
            let after = all.take(i + 1);
            let placed = order.insert(at as int, i as int);
            let sorted = r@.insert(at as int, f);
            assert(after == before.push(f));
            assert forall|n: int| 0 <= n < after.len() implies #[trigger] placed.contains(n) by {
                if n == i {
                    assert(placed[at as int] == n);
                } else {
                    assert(order.contains(n));
                    let k = choose|k: int| 0 <= k < order.len() && order[k] == n;
                    assert(placed[if k < at { k } else { k + 1 }] == n);
                }
            }
            assert forall|j: int, k: int| 0 <= j < k < placed.len() implies comes_before(
                after,
                #[trigger] placed[j],
                #[trigger] placed[k],
            ) by {
                let j0 = if j < at { j } else { j - 1 };
                let k0 = if k < at { k } else { k - 1 };
                if j != at && k != at {
                    assert(comes_before(before, order[j0], order[k0]));
                } else if j == at {
                    assert(area(r[k0]) < area(f));
                    assert(r[k0] == before[order[k0]]);
                } else {
                    assert(r[j] == before[order[j]]);
                    if j < at - 1 {
                        assert(comes_before(before, order[j], order[at - 1]));
                        assert(r[at - 1] == before[order[at - 1]]);
                    }
                }
            }
            assert(largest_first(after, sorted, placed));
            order = placed;
        }
        r.insert(at, f);
        i = i + 1;
    }
    assert(all.take(i as int) == all);
    assert(largest_first(all, r@, order));
    r
}

/// The order is settled: what was found has one largest-first order only.
pub proof fn law_one_largest_first_order(
    found: Seq<Face>,
    sorted1: Seq<Face>,
    order1: Seq<int>,
    sorted2: Seq<Face>,
    order2: Seq<int>,
)
    requires
        largest_first(found, sorted1, order1),
        largest_first(found, sorted2, order2),
    ensures
        sorted1 == sorted2,
        order1 == order2,
{
    lemma_same_order(found, sorted1, order1, sorted2, order2, found.len());
    assert(order1 == order2);
    assert forall|k: int| 0 <= k < found.len() implies sorted1[k] == sorted2[k] by {
        assert(order1[k] == order2[k]);
    }
}

proof fn lemma_same_order(
    found: Seq<Face>,
    sorted1: Seq<Face>,
    order1: Seq<int>,
    sorted2: Seq<Face>,
    order2: Seq<int>,
    n: nat,
)
    requires
        largest_first(found, sorted1, order1),
        largest_first(found, sorted2, order2),
        n <= found.len(),
    ensures
        forall|k: int| 0 <= k < n ==> #[trigger] order1[k] == order2[k],
    decreases n,
{
    if n > 0 {
        let k = n - 1;
        lemma_same_order(found, sorted1, order1, sorted2, order2, k as nat);
        assert(order2.contains(order1[k]));
        assert(order1.contains(order2[k]));
        let m2 = choose|m: int| 0 <= m < order2.len() && order2[m] == order1[k];
        let m1 = choose|m: int| 0 <= m < order1.len() && order1[m] == order2[k];
        if m2 < k {
            assert(order1[m2] == order2[m2]);
            assert(comes_before(found, order1[m2], order1[k]));
        }
        if m1 < k {
            assert(order1[m1] == order2[m1]);
            assert(comes_before(found, order2[m1], order2[k]));
        }
        if m1 > k && m2 > k {
            assert(comes_before(found, order1[k], order1[m1]));
            assert(comes_before(found, order2[k], order2[m2]));
        }
    }
}

/// The first face is a largest one, and of the largest the one that was found first.
pub proof fn law_first_face_is_largest(
    found: Seq<Face>,
    sorted: Seq<Face>,
    order: Seq<int>,
    i: int,
)
    requires
        largest_first(found, sorted, order),
        0 <= i < found.len(),
    ensures
        sorted[0] == found[order[0]],
        area(sorted[0]) >= area(found[i]),
        area(sorted[0]) == area(found[i]) ==> order[0] <= i,
{
    assert(order.contains(i));
    let k = choose|k: int| 0 <= k < order.len() && order[k] == i;
    if k > 0 {
        assert(comes_before(found, order[0], order[k]));
    }
}

// ---------- Chip extraction ----------

/// A rectangle of whole pixels.
#[derive(Clone, Copy, Debug, PartialEq, Eq, Structural)]
pub struct CropBox {
    pub x: u32,
    pub y: u32,
    pub width: u32,
    pub height: u32,
}

/// The longer side of a face's box.
pub open spec fn longer_side(f: Face) -> int {
    if f.w >= f.h {
        f.w as int
    } else {
        f.h as int
    }
}

/// Where the square round a face starts along one axis, in eighths of a pixel. The box starts at
/// `start` and is `extent` long; the square shares its centre and has 1.25 times the side `side`.
pub open spec fn square_start(start: int, extent: int, side: int) -> int {
    8 * start + 4 * extent - 5 * side
}

/// Where that square ends, in eighths of a pixel.
pub open spec fn square_end(start: int, extent: int, side: int) -> int {
    8 * start + 4 * extent + 5 * side
}

/// A value moved into a range: up to `low`, then down to `high`.
pub open spec fn clamped(v: int, low: int, high: int) -> int {
    let raised = if v < low {
        low
    } else {
        v
    };
    if raised > high {
        high
    } else {
        raised
    }
}

/// The start of the square within a frame of so many pixels, in eighths of a pixel: at the last
/// pixel of the frame at the latest.
pub open spec fn cut_start(start: int, extent: int, side: int, frame: int) -> int {
    clamped(square_start(start, extent, side), 0, 8 * (frame - 1))
}

/// The end of the square within the frame, in eighths of a pixel.
pub open spec fn cut_end(start: int, extent: int, side: int, frame: int) -> int {
    clamped(square_end(start, extent, side), 0, 8 * frame)
}

/// The first whole pixel of the cut.
pub open spec fn first_pixel(start: int, extent: int, side: int, frame: int) -> int {
    if cut_start(start, extent, side, frame) < 0 {
        0
    } else {
        cut_start(start, extent, side, frame) / 8
    }
}

/// How many whole pixels the cut is long.
pub open spec fn pixel_count(start: int, extent: int, side: int, frame: int) -> int {
    (cut_end(start, extent, side, frame) - cut_start(start, extent, side, frame)) / 8
}

/// The rectangle is what is cut out of a frame of `frame_width` by `frame_height` for a face: its
/// box expanded by 25% to a square round the same centre, clamped to the frame, in whole pixels.
pub open spec fn is_crop_box(b: CropBox, frame_width: u32, frame_height: u32, f: Face) -> bool {
    &&& b.x == first_pixel(f.x as int, f.w as int, longer_side(f), frame_width as int)
    &&& b.y == first_pixel(f.y as int, f.h as int, longer_side(f), frame_height as int)
    &&& b.width == pixel_count(f.x as int, f.w as int, longer_side(f), frame_width as int)
    &&& b.height == pixel_count(f.y as int, f.h as int, longer_side(f), frame_height as int)
}

fn cut(start: i32, extent: u32, side: u32, frame: u32) -> (r: (u32, u32))
    requires
        extent <= side,
    ensures
        r.0 == first_pixel(start as int, extent as int, side as int, frame as int),
        r.1 == pixel_count(start as int, extent as int, side as int, frame as int),
{
    let centre: i64 = 8 * start as i64 + 4 * extent as i64;
    let half: i64 = 5 * side as i64;
    let last: i64 = 8 * (frame as i64 - 1);
    let mut low: i64 = if centre - half < 0 { 0 } else { centre - half };
    if low > last {
        low = last;
    }
    let mut high: i64 = if centre + half < 0 { 0 } else { centre + half };
    if high > 8 * frame as i64 {
        high = 8 * frame as i64;
    }
    let first: i64 = if low < 0 { 0 } else { low / 8 };
    (first as u32, ((high - low) / 8) as u32)
}

/// The rectangle that is cut out of a frame for a face.
pub fn crop_box(frame_width: u32, frame_height: u32, face: &Face) -> (r: CropBox)
    ensures
        is_crop_box(r, frame_width, frame_height, *face),
{
    let side: u32 = if face.w >= face.h { face.w } else { face.h };
    let (x, width) = cut(face.x, face.w, side, frame_width);
    let (y, height) = cut(face.y, face.h, side, frame_height);
    CropBox { x, y, width, height }
}

/// The rectangle lies inside the frame, whatever the detector said, and is cut out whole.
pub proof fn law_crop_box_lies_in_frame(b: CropBox, frame_width: u32, frame_height: u32, f: Face)
    requires
        is_crop_box(b, frame_width, frame_height, f),
        frame_width > 0,
        frame_height > 0,
    ensures
        b.x < frame_width,
        b.y < frame_height,
        b.x + b.width <= frame_width,
        b.y + b.height <= frame_height,
        cut_length(frame_width, b.x, b.width) == b.width,
        cut_length(frame_height, b.y, b.height) == b.height,
{
}

/// Where the frame holds the expanded square, what is cut out is a square of 1.25 times the longer
/// side of the face's box, in whole pixels.
pub proof fn law_crop_box_is_square(b: CropBox, frame_width: u32, frame_height: u32, f: Face)
    requires
        is_crop_box(b, frame_width, frame_height, f),
        longer_side(f) > 0,
        0 <= square_start(f.x as int, f.w as int, longer_side(f)),
        0 <= square_start(f.y as int, f.h as int, longer_side(f)),
        square_end(f.x as int, f.w as int, longer_side(f)) <= 8 * frame_width,
        square_end(f.y as int, f.h as int, longer_side(f)) <= 8 * frame_height,
    ensures
        b.width == b.height,
        b.width == 5 * longer_side(f) / 4,
{
}

/// A picture of `CHIP` by `CHIP` pixels: row by row, and in a row pixel by pixel the red, the
/// green and the blue.
pub struct Chip {
    pub rgb: Vec<u8>,
}

impl View for Chip {
    type V = Seq<u8>;

    open spec fn view(&self) -> Seq<u8> {
        self.rgb@
    }
}

impl Chip {
    /// The picture has three bytes for each of its pixels.
    pub open spec fn wf(&self) -> bool {
        self@.len() == CHIP_BYTES
    }
}

/// The bytes of the picture that is made of a rectangle of an image: the part of it inside the
/// image, cut out and resampled to `CHIP` by `CHIP` pixels.
pub open spec fn chip_bytes(img: image::DynamicImage, b: CropBox) -> Seq<u8> {
    let frame = image_size(img);
    let width = cut_length(frame.0, b.x, b.width);
    let height = cut_length(frame.1, b.y, b.height);
    let crop = cut_out(pixels(img), frame.0 as int, b.x as int, b.y as int, width, height);
    rgb8(
        color_type(img),
        resampled(color_type(img), (width as u32, height as u32), crop, CHIP, CHIP),
    )
}

/// The bytes are the picture of a face in an image.
pub open spec fn is_chip_of(chip: Seq<u8>, img: image::DynamicImage, f: Face) -> bool {
    exists|b: CropBox| #[trigger]
        is_crop_box(b, image_size(img).0, image_size(img).1, f) && chip == chip_bytes(img, b)
}

/// Expand detection box by 25% to a square, clamp to frame, crop, resize to 112x112. On the way the
/// crop has its full width at 16 bytes a pixel, which a vector must be able to hold; where a `usize`
/// has 64 bits it always is.
pub fn face_chip(img: &image::DynamicImage, face: &Face) -> (r: Chip)
    requires
        16 * image_size(*img).0 * CHIP <= isize::MAX,
    ensures
        r.wf(),
        is_chip_of(r@, *img, *face),
{
    let (width, height) = size(img);
    let b = crop_box(width, height, face);
    let crop = crop_imm(img, b.x, b.y, b.width, b.height);
    let chip = resize_exact(&crop, CHIP, CHIP);
    let rgb = to_rgb8(&chip);
    assert(rgb@ == chip_bytes(*img, b));
    Chip { rgb }
}

/// The pixel of an image at a place.
pub open spec fn pixel(img: image::DynamicImage, x: int, y: int) -> Seq<u32> {
    pixels(img)[y * image_size(img).0 + x]
}

/// A chip shows what is cut out and nothing else: two images of one kind and one size with the same
/// pixels inside the rectangle give the same chip. The score of the face does not matter.
pub proof fn law_chip_shows_the_crop_only(
    img1: image::DynamicImage,
    img2: image::DynamicImage,
    f1: Face,
    f2: Face,
    b: CropBox,
    chip1: Seq<u8>,
    chip2: Seq<u8>,
)
    requires
        color_type(img1) == color_type(img2),
        image_size(img1) == image_size(img2),
        (f1.x, f1.y, f1.w, f1.h) == (f2.x, f2.y, f2.w, f2.h),
        is_crop_box(b, image_size(img1).0, image_size(img1).1, f1),
        forall|x: int, y: int|
            b.x <= x < b.x + b.width && b.y <= y < b.y + b.height ==> #[trigger] pixel(img1, x, y)
                == pixel(img2, x, y),
    ensures
        is_chip_of(chip1, img1, f1) && is_chip_of(chip2, img2, f2) ==> chip1 == chip2,
{
    let frame = image_size(img1);
    let width = cut_length(frame.0, b.x, b.width);
    let height = cut_length(frame.1, b.y, b.height);
    let crop1 = cut_out(pixels(img1), frame.0 as int, b.x as int, b.y as int, width, height);
    let crop2 = cut_out(pixels(img2), frame.0 as int, b.x as int, b.y as int, width, height);
    assert forall|k: int| 0 <= k < crop1.len() implies crop1[k] == crop2[k] by {
        assert(0 <= k / width < height && 0 <= k % width < width) by (nonlinear_arith)
            requires
                0 <= k < width * height,
                0 <= width,
                0 <= height,
        ;
        let x = b.x + k % width;
        let y = b.y + k / width;
        assert(pixel(img1, x, y) == pixel(img2, x, y));
        assert(y * frame.0 + x == (b.y + k / width) * frame.0 + b.x + k % width);
    }
    assert(crop1 == crop2);
    assert(chip_bytes(img1, b) == chip_bytes(img2, b));
    if is_chip_of(chip1, img1, f1) && is_chip_of(chip2, img2, f2) {
        let b1 = choose|c: CropBox| #[trigger]
            is_crop_box(c, frame.0, frame.1, f1) && chip1 == chip_bytes(img1, c);
        let b2 = choose|c: CropBox| #[trigger]
            is_crop_box(c, frame.0, frame.1, f2) && chip2 == chip_bytes(img2, c);
        assert(b1 == b);
        assert(b2 == b);
    }
}

// ---------- Embedding ----------

/// `planes` holds the bytes of a chip in the order in which the embedding model reads them: the
/// red plane first, then the green one, then the blue one, each row by row.
pub open spec fn is_planes_of(planes: Seq<u8>, chip: Seq<u8>) -> bool {
    &&& planes.len() == CHIP_BYTES
    &&& forall|c: int, y: int, x: int|
        0 <= c < 3 && 0 <= y < CHIP && 0 <= x < CHIP ==> #[trigger] planes[(c * CHIP + y) * CHIP
            + x] == chip[(y * CHIP + x) * 3 + c]
}

/// The bytes of a chip in the order in which the embedding model reads them.
pub fn planes(chip: &Chip) -> (r: Vec<u8>)
    requires
        chip.wf(),
    ensures
        is_planes_of(r@, chip@),
{
    let mut r: Vec<u8> = Vec::new();
    let mut k: usize = 0;
    while k < CHIP_BYTES
        invariant
            k <= CHIP_BYTES,
            chip.wf(),
            r@.len() == k,
            forall|i: int| 0 <= i < k ==> #[trigger] r@[i] == chip@[(i % 12544) * 3 + i / 12544],
        decreases CHIP_BYTES - k,
    {
        r.push(chip.rgb[(k % 12544) * 3 + k / 12544]);
        k = k + 1;
    }
    assert forall|c: int, y: int, x: int| 0 <= c < 3 && 0 <= y < CHIP && 0 <= x < CHIP implies
        #[trigger] r@[(c * CHIP + y) * CHIP + x] == chip@[(y * CHIP + x) * 3 + c] by {
        let i = (c * CHIP + y) * CHIP + x;
        assert(i == c * 12544 + y * 112 + x);
        assert(r@[i] == chip@[(i % 12544) * 3 + i / 12544]);
    }
    r
}

/// The planes keep every byte of a chip: chips with the same planes are the same.
pub proof fn law_planes_tell_chips_apart(planes: Seq<u8>, chip1: Seq<u8>, chip2: Seq<u8>)
    requires
        is_planes_of(planes, chip1),
        is_planes_of(planes, chip2),
        chip1.len() == CHIP_BYTES,
        chip2.len() == CHIP_BYTES,
    ensures
        chip1 == chip2,
{
    assert forall|i: int| 0 <= i < CHIP_BYTES implies chip1[i] == chip2[i] by {
        let c = i % 3;
        let y = i / 3 / 112;
        let x = i / 3 % 112;
        assert((y * CHIP + x) * 3 + c == i);
        assert(planes[(c * CHIP + y) * CHIP + x] == chip1[i]);
    }
}

// ---------- What the detector reads ----------

/// A grey image, row by row, as the detector takes it.
pub struct GrayImage {
    pub width: u32,
    pub height: u32,
    pub levels: Vec<u8>,
}

/// The grey levels of an image, some that the image allows. Which ones is left open: they differ in
/// the last bit between machines.
pub fn gray_image(img: &image::DynamicImage) -> (r: GrayImage)
    ensures
        (r.width, r.height) == image_size(*img),
        may_grey(*img, r.levels@),
        r.levels@.len() == r.width * r.height,
{
    let (width, height) = size(img);
    GrayImage { width, height, levels: to_luma8(img) }
}

// ---------- What faces, crops and chips are ----------

/// Largest first, by width times height: no face has a larger product than one before it, so none is
/// both wider and higher than one before it.
pub proof fn law_no_larger_face_comes_later(found: &Vec<Face>, r: Vec<Face>, j: int, k: int)
    requires
        call_ensures(faces, (found,), r),
        0 <= j < k < r@.len(),
    ensures
        r@[j].w * r@[j].h >= r@[k].w * r@[k].h,
        !(r@[k].w > r@[j].w && r@[k].h > r@[j].h),
{
    let order = choose|order: Seq<int>| #[trigger] largest_first(found@, r@, order);
    assert(comes_before(found@, order[j], order[k]));
    if r@[k].w > r@[j].w && r@[k].h > r@[j].h {
        assert(r@[j].w * r@[j].h < r@[k].w * r@[k].h) by (nonlinear_arith)
            requires
                0 <= r@[j].w < r@[k].w,
                0 <= r@[j].h < r@[k].h,
        ;
    }
}

/// `order` gives each place of `r` its own place in `found` with the same face there, and faces of
/// the same width times height keep the order of `found`.
pub open spec fn is_stable_shuffle(found: Seq<Face>, r: Seq<Face>, order: Seq<int>) -> bool {
    &&& r.len() == found.len()
    &&& order.len() == found.len()
    &&& order.no_duplicates()
    &&& forall|k: int| 0 <= k < r.len() ==> 0 <= #[trigger] order[k] < found.len()
    &&& forall|k: int| 0 <= k < r.len() ==> #[trigger] r[k] == found[order[k]]
    &&& forall|j: int, k: int|
        0 <= j < k < r.len() && r[j].w * r[j].h == r[k].w * r[k].h ==> #[trigger] order[j]
            < #[trigger] order[k]
}

/// Sorting loses no face, adds none and changes none, and leaves equally large ones in the order in
/// which they were found.
pub proof fn law_sorting_keeps_every_face(found: &Vec<Face>, r: Vec<Face>)
    requires
        call_ensures(faces, (found,), r),
    ensures
        exists|order: Seq<int>| #[trigger] is_stable_shuffle(found@, r@, order),
        forall|i: int| 0 <= i < found@.len() ==> r@.contains(#[trigger] found@[i]),
{
    let order = choose|order: Seq<int>| #[trigger] largest_first(found@, r@, order);
    assert forall|j: int, k: int| 0 <= j < k < order.len() implies #[trigger] order[j]
        != #[trigger] order[k] by {
        assert(comes_before(found@, order[j], order[k]));
    }
    assert forall|k: int| 0 <= k < r@.len() implies #[trigger] r@[k] == found@[order[k]] by {
        assert(0 <= order[k] < found@.len());
    }
    assert forall|j: int, k: int|
        0 <= j < k < r@.len() && r@[j].w * r@[j].h == r@[k].w * r@[k].h implies #[trigger] order[j]
        < #[trigger] order[k] by {
        assert(comes_before(found@, order[j], order[k]));
    }
    assert(is_stable_shuffle(found@, r@, order));
    assert forall|i: int| 0 <= i < found@.len() implies r@.contains(#[trigger] found@[i]) by {
        assert(order.contains(i));
        let k = choose|k: int| 0 <= k < order.len() && order[k] == i;
        assert(r@[k] == found@[i]);
    }
}

/// Along the width, the crop is the stretch of five eighths of the longer side to either side of the
/// centre of the box, cut at the frame, in whole pixels: from the pixel in which it starts on, as
/// many as fit into it.
pub proof fn law_crop_width(frame_width: u32, frame_height: u32, f: &Face, r: CropBox)
    requires
        call_ensures(crop_box, (frame_width, frame_height, f), r),
    ensures
        frame_width > 0 ==> ({
            let side = if f.w >= f.h {
                f.w as int
            } else {
                f.h as int
            };
            let start = 8 * f.x + 4 * f.w - 5 * side;
            let end = 8 * f.x + 4 * f.w + 5 * side;
            let from = if start < 0 {
                0
            } else if start > 8 * (frame_width - 1) {
                8 * (frame_width - 1)
            } else {
                start
            };
            let to = if end < 0 {
                0
            } else if end > 8 * frame_width {
                8 * frame_width
            } else {
                end
            };
            8 * r.x <= from < 8 * r.x + 8 && 8 * r.width <= to - from < 8 * r.width + 8
        }),
        frame_width == 0 ==> r.x == 0 && r.width == 1,
{
}

/// Along the height, the crop is cut in the same way.
pub proof fn law_crop_height(frame_width: u32, frame_height: u32, f: &Face, r: CropBox)
    requires
        call_ensures(crop_box, (frame_width, frame_height, f), r),
    ensures
        frame_height > 0 ==> ({
            let side = if f.w >= f.h {
                f.w as int
            } else {
                f.h as int
            };
            let start = 8 * f.y + 4 * f.h - 5 * side;
            let end = 8 * f.y + 4 * f.h + 5 * side;
            let from = if start < 0 {
                0
            } else if start > 8 * (frame_height - 1) {
                8 * (frame_height - 1)
            } else {
                start
            };
            let to = if end < 0 {
                0
            } else if end > 8 * frame_height {
                8 * frame_height
            } else {
                end
            };
            8 * r.y <= from < 8 * r.y + 8 && 8 * r.height <= to - from < 8 * r.height + 8
        }),
        frame_height == 0 ==> r.y == 0 && r.height == 1,
{
}

/// A crop covers the box of a face that lies in the frame, but for at most its last column and its
/// last row.
pub proof fn law_crop_covers_the_face(frame_width: u32, frame_height: u32, f: &Face, r: CropBox)
    requires
        call_ensures(crop_box, (frame_width, frame_height, f), r),
        0 < f.w,
        0 < f.h,
        0 <= f.x,
        0 <= f.y,
        f.x + f.w <= frame_width,
        f.y + f.h <= frame_height,
    ensures
        r.x <= f.x,
        r.y <= f.y,
        f.x + f.w <= r.x + r.width + 1 <= frame_width + 1,
        f.y + f.h <= r.y + r.height + 1 <= frame_height + 1,
{
}

/// The score of a face has no say in its crop, and turning frame and box on their side turns the
/// crop.
pub proof fn law_crop_turns_with_the_frame(
    frame_width: u32,
    frame_height: u32,
    f: &Face,
    g: &Face,
    r: CropBox,
    turned: CropBox,
)
    requires
        call_ensures(crop_box, (frame_width, frame_height, f), r),
        call_ensures(crop_box, (frame_height, frame_width, g), turned),
        (g.x, g.y, g.w, g.h) == (f.y, f.x, f.h, f.w),
    ensures
        (turned.x, turned.y, turned.width, turned.height) == (r.y, r.x, r.height, r.width),
{
}

/// `crop` holds the pixels of a whole rectangle of an image, row by row.
pub open spec fn is_whole_rectangle(
    crop: Seq<Seq<u32>>,
    img: image::DynamicImage,
    b: CropBox,
) -> bool {
    &&& crop.len() == b.width * b.height
    &&& forall|i: int, j: int|
        0 <= i < b.width && 0 <= j < b.height ==> #[trigger] pixel(img, b.x + i, b.y + j) == crop[j
            * b.width + i]
}

/// A chip is made of its whole crop: the resampled pixels are exactly those of the crop's rectangle,
/// all of them in place, as an image of the rectangle's size, also where the frame cuts the
/// rectangle so that it is no square.
pub proof fn law_chip_is_made_of_the_whole_crop(
    img: &image::DynamicImage,
    f: &Face,
    b: CropBox,
    r: Chip,
)
    requires
        call_ensures(face_chip, (img, f), r),
        call_ensures(crop_box, (image_size(*img).0, image_size(*img).1, f), b),
        image_size(*img).0 > 0,
        image_size(*img).1 > 0,
    ensures
        exists|crop: Seq<Seq<u32>>| #[trigger]
            is_whole_rectangle(crop, *img, b) && r.rgb@ == rgb8(
                color_type(*img),
                resampled(color_type(*img), (b.width, b.height), crop, 112, 112),
            ),
        r.rgb@.len() == 3 * 112 * 112,
{
    let frame = image_size(*img);
    let width = b.width as int;
    let height = b.height as int;
    law_crop_box_lies_in_frame(b, frame.0, frame.1, *f);
    let crop = cut_out(pixels(*img), frame.0 as int, b.x as int, b.y as int, width, height);
    assert(b.width * b.height >= 0) by (nonlinear_arith)
        requires
            b.width >= 0,
            b.height >= 0,
    ;
    assert forall|i: int, j: int| 0 <= i < width && 0 <= j < height implies #[trigger] pixel(
        *img,
        b.x + i,
        b.y + j,
    ) == crop[j * width + i] by {
        let k = j * width + i;
        assert(0 <= k < width * height && k / width == j && k % width == i) by (nonlinear_arith)
            requires
                k == j * width + i,
                0 <= i < width,
                0 <= j < height,
        ;
    }
    assert(is_whole_rectangle(crop, *img, b));
    let c = choose|c: CropBox| #[trigger]
        is_crop_box(c, frame.0, frame.1, *f) && r@ == chip_bytes(*img, c);
    assert(c == b);
    assert(r.rgb@ == rgb8(
        color_type(*img),
        resampled(color_type(*img), (b.width, b.height), crop, 112, 112),
    ));
}

/// The model reads all of a chip: the red of every pixel, row by row, then the green, then the blue.
pub proof fn law_model_reads_every_pixel(chip: &Chip, r: Vec<u8>, x: int, y: int)
    requires
        call_ensures(planes, (chip,), r),
        0 <= x < 112,
        0 <= y < 112,
    ensures
        r@.len() == 3 * 112 * 112,
        r@[112 * y + x] == chip.rgb@[3 * (112 * y + x)],
        r@[112 * 112 + 112 * y + x] == chip.rgb@[3 * (112 * y + x) + 1],
        r@[2 * 112 * 112 + 112 * y + x] == chip.rgb@[3 * (112 * y + x) + 2],
{
    assert(r@[(0 * CHIP + y) * CHIP + x] == chip@[(y * CHIP + x) * 3 + 0]);
    assert(r@[(1 * CHIP + y) * CHIP + x] == chip@[(y * CHIP + x) * 3 + 1]);
    assert(r@[(2 * CHIP + y) * CHIP + x] == chip@[(y * CHIP + x) * 3 + 2]);
}

/// The detector reads the grey levels of the image, all of them, at the image's size.
pub proof fn law_detector_reads_the_image(img: &image::DynamicImage, r: GrayImage)
    requires
        call_ensures(gray_image, (img,), r),
    ensures
        r.width == image_size(*img).0,
        r.height == image_size(*img).1,
        may_grey(*img, r.levels@),
        r.levels@.len() == image_size(*img).0 * image_size(*img).1,
{
}

/// Of an image without pixels nothing is resampled.
pub proof fn law_chip_of_an_empty_image(
    img: &image::DynamicImage,
    f: &Face,
    b: CropBox,
    r: Chip,
)
    requires
        call_ensures(face_chip, (img, f), r),
        call_ensures(crop_box, (image_size(*img).0, image_size(*img).1, f), b),
        image_size(*img).0 == 0 || image_size(*img).1 == 0,
    ensures
        r.rgb@ == rgb8(
            color_type(*img),
            resampled(
                color_type(*img),
                (
                    if image_size(*img).0 == 0 {
                        0u32
                    } else {
                        b.width
                    },
                    if image_size(*img).1 == 0 {
                        0u32
                    } else {
                        b.height
                    },
                ),
                Seq::empty(),
                112,
                112,
            ),
        ),
{
    let frame = image_size(*img);
    let c = choose|c: CropBox| #[trigger]
        is_crop_box(c, frame.0, frame.1, *f) && r@ == chip_bytes(*img, c);
    assert(c == b);
    let width = cut_length(frame.0, b.x, b.width);
    let height = cut_length(frame.1, b.y, b.height);
    assert(width * height == 0) by (nonlinear_arith)
        requires
            width == 0 || height == 0,
    ;
    assert(cut_out(pixels(*img), frame.0 as int, b.x as int, b.y as int, width, height)
        == Seq::<Seq<u32>>::empty());
}

} // verus!
