use image::{DynamicImage, Luma, Rgb, RgbImage};
use valkey_faces::face::{
    crop_box, face_chip, faces, gray_image, planes, Chip, CropBox, Face, CHIP, CHIP_BYTES,
};

fn found(x: i32, y: i32, w: u32, h: u32, score: u32) -> Face {
    Face { x, y, w, h, score }
}

fn face(x: i32, y: i32, w: u32, h: u32) -> Face {
    found(x, y, w, h, 0)
}

fn halves(width: u32, height: u32) -> DynamicImage {
    DynamicImage::ImageRgb8(RgbImage::from_fn(width, height, |x, _| {
        if x < width / 2 {
            Rgb([200, 10, 20])
        } else {
            Rgb([30, 40, 250])
        }
    }))
}

#[test]
fn largest_face_first() {
    let r = faces(&vec![
        found(1, 2, 20, 20, 7),
        found(3, 4, 50, 40, 8),
        found(5, 6, 40, 50, 9),
        found(7, 8, 60, 60, 10),
    ]);
    let scores: Vec<u32> = r.iter().map(|f| f.score).collect();
    assert_eq!(scores, [10, 8, 9, 7]);
    assert_eq!(r[0], Face { x: 7, y: 8, w: 60, h: 60, score: 10 });
    assert!(faces(&vec![]).is_empty());
}

#[test]
fn a_box_that_starts_outside_keeps_its_place() {
    let r = faces(&vec![found(-1, -8, 20, 21, 0)]);
    assert_eq!(r[0], Face { x: -1, y: -8, w: 20, h: 21, score: 0 });
    assert_eq!(crop_box(640, 480, &r[0]), CropBox { x: 0, y: 0, width: 22, height: 15 });
}

#[test]
fn huge_boxes_keep_their_order() {
    let r = faces(&vec![found(0, 0, 2, 2, 1), found(0, 0, 65536, 65536, 2)]);
    assert_eq!(r[0].score, 2);
}

#[test]
fn crop_of_a_face_in_the_middle() {
    assert_eq!(
        crop_box(640, 480, &face(100, 100, 80, 80)),
        CropBox { x: 90, y: 90, width: 100, height: 100 }
    );
    assert_eq!(
        crop_box(640, 480, &face(100, 100, 40, 80)),
        CropBox { x: 70, y: 90, width: 100, height: 100 }
    );
}

#[test]
fn crop_is_clamped_to_the_frame() {
    assert_eq!(
        crop_box(200, 100, &face(0, 20, 80, 80)),
        CropBox { x: 0, y: 10, width: 90, height: 90 }
    );
    assert_eq!(
        crop_box(200, 100, &face(i32::MAX, 10, 80, 80)),
        CropBox { x: 199, y: 0, width: 1, height: 100 }
    );
    assert_eq!(
        crop_box(200, 100, &face(-20, -30, 80, 80)),
        CropBox { x: 0, y: 0, width: 70, height: 60 }
    );
    assert_eq!(
        crop_box(200, 100, &face(i32::MIN, 10, 80, 80)),
        CropBox { x: 0, y: 0, width: 0, height: 100 }
    );
}

fn crop_in_single_precision(iw: u32, ih: u32, face: &Face) -> CropBox {
    let cx = face.x as f32 + face.w as f32 / 2.0;
    let cy = face.y as f32 + face.h as f32 / 2.0;
    let side = (face.w.max(face.h) as f32) * 1.25;
    let half = side / 2.0;
    let x0 = (cx - half).max(0.0).min(iw as f32 - 1.0);
    let y0 = (cy - half).max(0.0).min(ih as f32 - 1.0);
    let x1 = (cx + half).max(0.0).min(iw as f32);
    let y1 = (cy + half).max(0.0).min(ih as f32);
    CropBox {
        x: x0 as u32,
        y: y0 as u32,
        width: (x1 - x0) as u32,
        height: (y1 - y0) as u32,
    }
}

#[test]
fn crop_agrees_with_single_precision() {
    let mut state: u64 = 0x2545_F491_4F6C_DD1D;
    let mut next = |bound: u64| {
        state ^= state << 13;
        state ^= state >> 7;
        state ^= state << 17;
        (state % bound) as u32
    };
    for _ in 0..200_000u32 {
        let iw = next(8000);
        let ih = next(8000);
        let f = face(next(12_000) as i32 - 3000, next(12_000) as i32 - 3000, next(3000), next(3000));
        assert_eq!(crop_box(iw, ih, &f), crop_in_single_precision(iw, ih, &f), "{iw}x{ih} {f:?}");
    }
}

#[test]
fn a_chip_shows_the_face_only() {
    let img = halves(640, 480);
    let left = face_chip(&img, &face(40, 100, 160, 160));
    let right = face_chip(&img, &face(400, 100, 160, 160));
    assert_eq!(left.rgb.len(), CHIP_BYTES);
    assert!(left.rgb.chunks(3).all(|p| p == [200, 10, 20]));
    assert!(right.rgb.chunks(3).all(|p| p == [30, 40, 250]));
    let both = face_chip(&img, &face(240, 160, 160, 160));
    assert_eq!(both.rgb[..3], [200, 10, 20]);
    assert_eq!(both.rgb[3 * 111..3 * 112], [30, 40, 250]);
}

#[test]
fn pixels_outside_the_crop_do_not_matter() {
    let textured = |x: u32, y: u32| Rgb([(x * 7 % 256) as u8, (y * 5 % 256) as u8, (x * y % 256) as u8]);
    let f = found(60, 40, 50, 70, 1);
    let b = crop_box(200, 150, &f);
    let inside = |x: u32, y: u32| {
        b.x <= x && x < b.x + b.width && b.y <= y && y < b.y + b.height
    };
    let whole = DynamicImage::ImageRgb8(RgbImage::from_fn(200, 150, textured));
    let rest_blank = DynamicImage::ImageRgb8(RgbImage::from_fn(200, 150, |x, y| {
        if inside(x, y) {
            textured(x, y)
        } else {
            Rgb([0, 0, 0])
        }
    }));
    let crop_blank = DynamicImage::ImageRgb8(RgbImage::from_fn(200, 150, |x, y| {
        if inside(x, y) {
            Rgb([0, 0, 0])
        } else {
            textured(x, y)
        }
    }));
    assert_eq!(face_chip(&whole, &f).rgb, face_chip(&rest_blank, &Face { score: 2, ..f }).rgb);
    assert_eq!(face_chip(&crop_blank, &f).rgb, vec![0; CHIP_BYTES]);
}

#[test]
fn a_chip_keeps_the_kind_of_the_image() {
    let wide = image::ImageBuffer::from_fn(120, 90, |x, y| {
        image::Rgba([(x * 500) as u16, (y * 700) as u16, (x * y) as u16, 40_000u16])
    });
    let img = DynamicImage::ImageRgba16(wide);
    let f = face(20, 10, 40, 50);
    let b = crop_box(120, 90, &f);
    let expected = img
        .crop_imm(b.x, b.y, b.width, b.height)
        .resize_exact(CHIP, CHIP, image::imageops::FilterType::Triangle)
        .to_rgb8()
        .into_raw();
    assert_eq!(face_chip(&img, &f).rgb, expected);
}

#[test]
fn a_chip_of_an_empty_image_is_black() {
    assert_eq!(face_chip(&DynamicImage::new_rgb8(0, 0), &face(3, 4, 20, 20)).rgb, vec![0; CHIP_BYTES]);
    let img = halves(640, 480);
    assert_eq!(face_chip(&img, &face(-500, 100, 160, 160)).rgb, vec![0; CHIP_BYTES]);
}

#[test]
fn a_chip_is_what_the_image_crate_makes_of_the_crop() {
    let img = DynamicImage::ImageRgb8(RgbImage::from_fn(300, 200, |x, y| {
        Rgb([(x % 256) as u8, (y % 256) as u8, ((x * y) % 256) as u8])
    }));
    let f = face(31, 17, 77, 64);
    let b = crop_box(300, 200, &f);
    let expected = img
        .crop_imm(b.x, b.y, b.width, b.height)
        .resize_exact(CHIP, CHIP, image::imageops::FilterType::Triangle)
        .to_rgb8()
        .into_raw();
    assert_eq!(face_chip(&img, &f).rgb, expected);
}

#[test]
fn a_grey_image_gives_a_chip_in_three_colours() {
    let img = DynamicImage::ImageLuma8(image::GrayImage::from_pixel(50, 50, Luma([77])));
    let chip = face_chip(&img, &face(10, 10, 20, 20));
    assert_eq!(chip.rgb, vec![77; CHIP_BYTES]);
}

#[test]
fn planes_are_red_then_green_then_blue() {
    let rgb: Vec<u8> = (0..CHIP_BYTES).map(|i| (i % 251) as u8).collect();
    let chip = Chip { rgb };
    let r = planes(&chip);
    assert_eq!(r.len(), CHIP_BYTES);
    for c in 0..3 {
        for y in 0..112 {
            for x in 0..112 {
                assert_eq!(r[(c * 112 + y) * 112 + x], chip.rgb[(y * 112 + x) * 3 + c]);
            }
        }
    }
}

#[test]
fn grey_levels_of_an_image() {
    let gray = gray_image(&DynamicImage::ImageRgb8(RgbImage::from_pixel(7, 5, Rgb([255, 255, 255]))));
    assert_eq!((gray.width, gray.height), (7, 5));
    assert_eq!(gray.levels, vec![255; 35]);
    let black = gray_image(&DynamicImage::new_rgb8(3, 2));
    assert_eq!(black.levels, vec![0; 6]);
}
