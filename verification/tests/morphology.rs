use morphology::buffer::Image;
use morphology::element::circle;
use morphology::element::plus;
use morphology::element::square;
use morphology::morph::closing;
use morphology::morph::dilation;
use morphology::morph::erosion;
use morphology::morph::invert;
use morphology::morph::opening;
use morphology::recon::closing_by_reconstruction;
use morphology::recon::op_cl_rec_counted;
use morphology::recon::opening_by_reconstruction;

fn img_from(width: usize, height: usize, pixels: Vec<u8>) -> Image {
    assert_eq!(pixels.len(), width * height);
    Image::from_pixels(width, height, pixels)
}

fn pixels_of(img: &Image) -> Vec<u8> {
    let mut out: Vec<u8> = Vec::new();
    for y in 0..img.height() {
        for x in 0..img.width() {
            out.push(img.get_pixel(x, y));
        }
    }
    out
}

fn assert_same(a: &Image, b: &Image) {
    assert_eq!(a.width(), b.width());
    assert_eq!(a.height(), b.height());
    assert_eq!(pixels_of(a), pixels_of(b));
}

#[test]
fn square_radius2_offsets() {
    let offs = square(2);
    assert_eq!(
        offs,
        vec![
            (-1, -1),
            (-1, 0),
            (-1, 1),
            (0, -1),
            (0, 0),
            (0, 1),
            (1, -1),
            (1, 0),
            (1, 1)
        ]
    );
}

#[test]
fn circle_radius2_offsets() {
    let offs = circle(2);
    assert_eq!(offs, vec![(-1, 0), (0, -1), (0, 0), (0, 1), (1, 0)]);
}

#[test]
fn circle_radius3_keeps_distance_two() {
    let offs = circle(3);
    assert_eq!(offs.len(), 13);
    assert!(offs.contains(&(2, 0)));
    assert!(offs.contains(&(1, 1)));
    assert!(!offs.contains(&(2, 2)));
}

#[test]
fn plus_radius2_offsets() {
    let offs = plus(2);
    assert_eq!(offs.len(), 5);
    assert_eq!(offs, vec![(-1, 0), (0, -1), (0, 0), (1, 0), (0, 1)]);
}

#[test]
fn radius1_degenerates_to_origin() {
    assert_eq!(square(1), vec![(0, 0)]);
    assert_eq!(circle(1), vec![(0, 0)]);
    assert_eq!(plus(1), vec![(0, 0)]);
}

#[test]
fn radius1_operators_are_identity() {
    let data: Vec<u8> = vec![
        3, 1, 4, 1, 5, //
        9, 2, 6, 5, 3, //
        5, 8, 9, 7, 9, //
        3, 2, 3, 8, 4, //
        6, 2, 6, 4, 3,
    ];
    let img = img_from(5, 5, data.clone());
    let offs = square(1);
    assert_eq!(pixels_of(&erosion(&img, &offs)), data);
    assert_eq!(pixels_of(&dilation(&img, &offs)), data);
    assert_eq!(pixels_of(&opening(&img, &offs)), data);
    assert_eq!(pixels_of(&closing(&img, &offs)), data);
}

fn single_bright_pixel() -> Image {
    let mut data: Vec<u8> = vec![0; 25];
    data[2 * 5 + 2] = 255;
    img_from(5, 5, data)
}

#[test]
fn dilation_grows_single_pixel_to_block() {
    let img = single_bright_pixel();
    let out = dilation(&img, &square(2));
    let mut expected: Vec<u8> = vec![0; 25];
    for y in 1..4 {
        for x in 1..4 {
            expected[y * 5 + x] = 255;
        }
    }
    assert_eq!(pixels_of(&out), expected);
}

#[test]
fn erosion_removes_single_pixel() {
    let img = single_bright_pixel();
    let out = erosion(&img, &square(2));
    assert_eq!(pixels_of(&out), vec![0; 25]);
}

#[test]
fn erosion_below_dilation_above_input() {
    let data: Vec<u8> = vec![
        10, 200, 30, 40, 7, //
        50, 60, 255, 80, 90, //
        0, 110, 120, 130, 140, //
        150, 160, 170, 180, 190, //
        200, 210, 220, 230, 240,
    ];
    let img = img_from(5, 5, data.clone());
    for offs in [square(2), circle(2), plus(3)] {
        let er = pixels_of(&erosion(&img, &offs));
        let di = pixels_of(&dilation(&img, &offs));
        for i in 0..25 {
            assert!(er[i] <= data[i]);
            assert!(di[i] >= data[i]);
        }
    }
}

#[test]
fn opening_and_closing_idempotent() {
    let data: Vec<u8> = vec![
        12, 200, 30, 47, 7, //
        50, 60, 255, 80, 90, //
        0, 110, 128, 130, 140, //
        150, 160, 170, 180, 190, //
        200, 210, 220, 230, 240,
    ];
    let img = img_from(5, 5, data);
    for offs in [square(2), circle(3), plus(2)] {
        let once = opening(&img, &offs);
        let twice = opening(&once, &offs);
        assert_same(&once, &twice);
        let conce = closing(&img, &offs);
        let ctwice = closing(&conce, &offs);
        assert_same(&conce, &ctwice);
    }
}

#[test]
fn dilation_of_inverted_is_inverted_erosion() {
    let data: Vec<u8> = vec![
        12, 200, 30, 47, 7, //
        50, 60, 255, 80, 90, //
        0, 110, 128, 130, 140, //
        150, 160, 170, 180, 190, //
        200, 210, 220, 230, 240,
    ];
    let img = img_from(5, 5, data);
    for offs in [square(2), circle(2), plus(3)] {
        let lhs = dilation(&invert(&img), &offs);
        let rhs = invert(&erosion(&img, &offs));
        assert_same(&lhs, &rhs);
    }
}

#[test]
fn corner_pixels_use_only_inbounds_neighbors() {
    let data: Vec<u8> = vec![
        9, 2, 0, //
        4, 0, 0, //
        0, 0, 7,
    ];
    let img = img_from(3, 3, data);
    let offs = square(2);
    let er = erosion(&img, &offs);
    let di = dilation(&img, &offs);
    // top-left corner sees only the 2x2 in-bounds part of its window
    assert_eq!(er.get_pixel(0, 0), 0);
    assert_eq!(di.get_pixel(0, 0), 9);
    // bottom-right corner sees only {0, 0, 0, 7}
    assert_eq!(er.get_pixel(2, 2), 0);
    assert_eq!(di.get_pixel(2, 2), 7);
}

#[test]
fn offsets_pointing_outside_are_skipped() {
    // an element far larger than the image: every pixel sees the whole image
    let data: Vec<u8> = vec![5, 9, 1, 7];
    let img = img_from(2, 2, data);
    let offs = square(10);
    let er = pixels_of(&erosion(&img, &offs));
    let di = pixels_of(&dilation(&img, &offs));
    assert_eq!(er, vec![1, 1, 1, 1]);
    assert_eq!(di, vec![9, 9, 9, 9]);
}

#[test]
fn opening_by_reconstruction_bounded() {
    let mut data: Vec<u8> = vec![0; 49];
    for y in 1..4 {
        for x in 1..4 {
            data[y * 7 + x] = 255;
        }
    }
    data[5 * 7 + 5] = 80;
    let img = img_from(7, 7, data.clone());
    let offs = square(2);
    let out = opening_by_reconstruction(&img, &offs);
    let ero = pixels_of(&erosion(&img, &offs));
    let res = pixels_of(&out);
    for i in 0..49 {
        assert!(res[i] <= data[i]);
        assert!(res[i] >= ero[i]);
    }
    // the 3x3 block survives the erosion and is reconstructed in full,
    // while the isolated dim pixel is erased
    let mut expected: Vec<u8> = vec![0; 49];
    for y in 1..4 {
        for x in 1..4 {
            expected[y * 7 + x] = 255;
        }
    }
    assert_eq!(res, expected);
}

#[test]
fn reconstruction_does_not_cross_diagonal_contact() {
    // a 3x3 block whose corner touches a 2x2 block only diagonally:
    // the 4-connected pass must not bleed reconstruction across the corner
    let mut data: Vec<u8> = vec![0; 49];
    for y in 1..4 {
        for x in 1..4 {
            data[y * 7 + x] = 255;
        }
    }
    for y in 4..6 {
        for x in 4..6 {
            data[y * 7 + x] = 255;
        }
    }
    let img = img_from(7, 7, data);
    let out = opening_by_reconstruction(&img, &square(2));
    let mut expected: Vec<u8> = vec![0; 49];
    for y in 1..4 {
        for x in 1..4 {
            expected[y * 7 + x] = 255;
        }
    }
    assert_eq!(pixels_of(&out), expected);
}

#[test]
fn reconstruction_reports_pass_count() {
    // marker after erosion is the block center alone; the cross fills the
    // block in two changing passes, and one more pass detects convergence
    let mut data: Vec<u8> = vec![0; 49];
    for y in 1..4 {
        for x in 1..4 {
            data[y * 7 + x] = 255;
        }
    }
    let img = img_from(7, 7, data.clone());
    let (out, iterations) = op_cl_rec_counted(&img, &square(2), true);
    assert_eq!(pixels_of(&out), data);
    assert_eq!(iterations, 3);
    // an already-flat image converges on the very first pass
    let flat = img_from(4, 4, vec![42; 16]);
    let (out2, iterations2) = op_cl_rec_counted(&flat, &square(2), true);
    assert_eq!(pixels_of(&out2), vec![42; 16]);
    assert_eq!(iterations2, 1);
}

#[test]
fn closing_by_reconstruction_bounded() {
    let data: Vec<u8> = vec![
        255, 255, 255, 255, 255, 255, //
        255, 0, 0, 255, 200, 255, //
        255, 0, 0, 255, 255, 255, //
        255, 0, 0, 255, 255, 255, //
        255, 255, 255, 255, 255, 255, //
        255, 255, 255, 255, 255, 255,
    ];
    let img = img_from(6, 6, data.clone());
    let offs = square(2);
    let out = closing_by_reconstruction(&img, &offs);
    let dil = pixels_of(&dilation(&img, &offs));
    let res = pixels_of(&out);
    for i in 0..36 {
        assert!(res[i] >= data[i]);
        assert!(res[i] <= dil[i]);
    }
}

#[test]
fn reconstruction_of_converged_marker_is_stable() {
    // a flat image is already a fixed point: the loop returns at once
    let img = img_from(4, 4, vec![17; 16]);
    let offs = circle(2);
    let out = opening_by_reconstruction(&img, &offs);
    assert_eq!(pixels_of(&out), vec![17; 16]);
    let out2 = closing_by_reconstruction(&img, &offs);
    assert_eq!(pixels_of(&out2), vec![17; 16]);
}

#[test]
fn opening_closing_exact_values() {
    let data: Vec<u8> = vec![
        0, 0, 0, 0, 0, //
        0, 9, 9, 0, 0, //
        0, 9, 9, 0, 0, //
        0, 0, 0, 0, 0, //
        0, 0, 0, 0, 5,
    ];
    let img = img_from(5, 5, data);
    let offs = square(2);
    // a 2x2 bright block cannot host a full 3x3 window: opening erases it
    assert_eq!(pixels_of(&opening(&img, &offs)), vec![0; 25]);
    // closing fills nothing here but keeps the blocks
    let closed = closing(&img, &offs);
    assert_eq!(closed.get_pixel(1, 1), 9);
    assert_eq!(closed.get_pixel(2, 2), 9);
}

#[test]
fn image_accessors() {
    let img = Image::new(3, 2);
    assert_eq!(img.width(), 3);
    assert_eq!(img.height(), 2);
    assert_eq!(pixels_of(&img), vec![0; 6]);
    let mut img = img;
    img.put_pixel(2, 1, 77);
    assert_eq!(img.get_pixel(2, 1), 77);
    assert_eq!(img.get_pixel(0, 0), 0);
    let inv = invert(&img);
    assert_eq!(inv.get_pixel(2, 1), 178);
    assert_eq!(inv.get_pixel(0, 0), 255);
}
