use alpha_fix::{fix_alpha, set_alpha, Bitmap};

type Px = (u8, u8, u8, u8);

const T: Px = (1, 2, 3, 0);

fn bitmap(width: u32, height: u32, pixels: &[Px]) -> Bitmap {
    let mut img = image::RgbaImage::new(width, height);
    for (i, p) in pixels.iter().enumerate() {
        let x = i as u32 % width;
        let y = i as u32 / width;
        img.put_pixel(x, y, image::Rgba([p.0, p.1, p.2, p.3]));
    }
    Bitmap::from_raw(width, height, img.into_raw()).unwrap()
}

fn pixels(width: u32, height: u32, bitmap: Bitmap) -> Vec<Px> {
    let img = image::RgbaImage::from_raw(width, height, bitmap.into_raw()).unwrap();
    let mut out = Vec::new();
    for y in 0..height {
        for x in 0..width {
            let image::Rgba([r, g, b, a]) = *img.get_pixel(x, y);
            out.push((r, g, b, a));
        }
    }
    out
}

fn fixed(width: u32, height: u32, before: &[Px], set_opaque: bool) -> Vec<Px> {
    let mut img = bitmap(width, height, before);
    assert_eq!(fix_alpha(&mut img, set_opaque), Ok(()));
    pixels(width, height, img)
}

#[test]
fn pixel_between_two_opaque_pixels_takes_their_mean() {
    let before = [(255, 0, 0, 255), (0, 0, 0, 0), (0, 0, 255, 255)];
    let after = fixed(3, 1, &before, false);
    assert_eq!(after, vec![(255, 0, 0, 255), (127, 0, 127, 0), (0, 0, 255, 255)]);
}

#[test]
fn single_opaque_centre_colours_the_whole_image() {
    let mut before = vec![(0, 0, 0, 0); 25];
    before[12] = (255, 0, 0, 255);
    let after = fixed(5, 5, &before, false);
    for (i, p) in after.iter().enumerate() {
        if i == 12 {
            assert_eq!(*p, (255, 0, 0, 255));
        } else {
            assert_eq!(*p, (255, 0, 0, 0), "pixel {}", i);
        }
    }
    // the ring around the centre, then a pixel two steps away, then a corner
    assert_eq!(after[6], (255, 0, 0, 0));
    assert_eq!(after[13], (255, 0, 0, 0));
    assert_eq!(after[10], (255, 0, 0, 0));
    assert_eq!(after[0], (255, 0, 0, 0));
    assert_eq!(after[24], (255, 0, 0, 0));
}

#[test]
fn uniform_alpha_keeps_colours() {
    let before = [(255, 0, 0, 255), T, (9, 8, 7, 128), (0, 0, 0, 0), (250, 251, 252, 1), T];
    let mut img = bitmap(3, 2, &before);
    set_alpha(&mut img, 200);
    let after = pixels(3, 2, img);
    assert_eq!(
        after,
        vec![
            (255, 0, 0, 200),
            (1, 2, 3, 200),
            (9, 8, 7, 200),
            (0, 0, 0, 200),
            (250, 251, 252, 200),
            (1, 2, 3, 200),
        ]
    );
}

#[test]
fn uniform_alpha_on_empty_image() {
    let mut img = bitmap(0, 0, &[]);
    set_alpha(&mut img, 200);
    assert_eq!(pixels(0, 0, img), vec![]);
}

#[test]
fn opaque_pixels_stay_byte_identical() {
    let before = [(255, 0, 0, 255), (1, 1, 1, 1), (9, 8, 7, 128), (0, 0, 0, 254)];
    assert_eq!(fixed(2, 2, &before, false), before.to_vec());
    assert_eq!(fixed(2, 2, &before, true), before.to_vec());
    assert_eq!(fixed(4, 1, &before, false), before.to_vec());
    assert_eq!(fixed(1, 4, &before, true), before.to_vec());
}

#[test]
fn opaque_pixels_stay_beside_resolved_ones() {
    let before = [T, (10, 20, 30, 1), T, (40, 50, 60, 255), T, T];
    let after = fixed(3, 2, &before, true);
    assert_eq!(after[1], (10, 20, 30, 1));
    assert_eq!(after[3], (40, 50, 60, 255));
}

#[test]
fn all_transparent_image_is_unchanged() {
    let before = [T, (0, 0, 0, 0), (255, 255, 255, 0), T, (7, 7, 7, 0), T];
    assert_eq!(fixed(3, 2, &before, false), before.to_vec());
    assert_eq!(fixed(3, 2, &before, true), before.to_vec());
    assert_eq!(fixed(6, 1, &before, true), before.to_vec());
}

#[test]
fn empty_images_are_accepted() {
    assert_eq!(fixed(0, 0, &[], false), vec![]);
    assert_eq!(fixed(0, 5, &[], true), vec![]);
    assert_eq!(fixed(5, 0, &[], false), vec![]);
}

#[test]
fn single_pixel_images() {
    assert_eq!(fixed(1, 1, &[T], false), vec![T]);
    assert_eq!(fixed(1, 1, &[(5, 6, 7, 8)], true), vec![(5, 6, 7, 8)]);
}

#[test]
fn force_opaque_sets_alpha_255() {
    let before = [T, T, T, (9, 8, 7, 128)];
    let after = fixed(2, 2, &before, true);
    assert_eq!(after, vec![(9, 8, 7, 255), (9, 8, 7, 255), (9, 8, 7, 255), (9, 8, 7, 128)]);
}

#[test]
fn bleed_to_transparent_sets_alpha_0() {
    let before = [T, T, T, (9, 8, 7, 128)];
    let after = fixed(2, 2, &before, false);
    assert_eq!(after, vec![(9, 8, 7, 0), (9, 8, 7, 0), (9, 8, 7, 0), (9, 8, 7, 128)]);
}

#[test]
fn row_zero_and_column_zero_are_neighbours() {
    // the only opaque pixel sits in the last row and column: everything it
    // can reach lies in row 0 or column 0
    let before = [T, T, T, (200, 100, 50, 255)];
    let after = fixed(2, 2, &before, false);
    assert_eq!(after[0], (200, 100, 50, 0));
    assert_eq!(after[1], (200, 100, 50, 0));
    assert_eq!(after[2], (200, 100, 50, 0));
}

#[test]
fn one_column_image_does_not_wrap_around() {
    let before = [(200, 100, 50, 255), T, T];
    let after = fixed(1, 3, &before, false);
    assert_eq!(after, vec![(200, 100, 50, 255), (200, 100, 50, 0), (200, 100, 50, 0)]);
}

#[test]
fn one_row_image_does_not_wrap_around() {
    let before = [T, T, (200, 100, 50, 255)];
    let after = fixed(3, 1, &before, false);
    assert_eq!(after, vec![(200, 100, 50, 0), (200, 100, 50, 0), (200, 100, 50, 255)]);
}

#[test]
fn wide_image_is_scanned_over_its_full_width() {
    // the opaque pixel lies in a column beyond the height of the image
    let before = [T, T, T, T, T, (60, 70, 80, 255), T, T, T, T, T, T];
    let after = fixed(6, 2, &before, false);
    for (i, p) in after.iter().enumerate() {
        if i == 5 {
            assert_eq!(*p, (60, 70, 80, 255));
        } else {
            assert_eq!(*p, (60, 70, 80, 0), "pixel {}", i);
        }
    }
}

#[test]
fn tall_image_is_scanned_over_its_full_height() {
    let before = [T, T, T, T, T, T, T, T, T, T, T, (60, 70, 80, 255)];
    let after = fixed(2, 6, &before, true);
    for (i, p) in after.iter().enumerate() {
        if i == 11 {
            assert_eq!(*p, (60, 70, 80, 255));
        } else {
            assert_eq!(*p, (60, 70, 80, 255), "pixel {}", i);
        }
    }
}

#[test]
fn an_opaque_pixel_seeds_one_neighbour_only() {
    // the pixel to the right is seeded; the pixel to the left touches no
    // other pixel and is never reached
    let before = [T, (10, 20, 30, 255), T];
    let after = fixed(3, 1, &before, false);
    assert_eq!(after, vec![(1, 2, 3, 0), (10, 20, 30, 255), (10, 20, 30, 0)]);
}

#[test]
fn unseeded_neighbour_is_resolved_in_a_later_round() {
    let a = (100, 0, 0, 255);
    let b = (0, 100, 0, 255);
    let before = [T, a, T, T, b, T, T, T, T];
    let after = fixed(3, 3, &before, false);
    assert_eq!(
        after,
        vec![
            (47, 52, 0, 0),
            (100, 0, 0, 255),
            (50, 50, 0, 0),
            (41, 58, 0, 0),
            (0, 100, 0, 255),
            (50, 50, 0, 0),
            (12, 87, 0, 0),
            (25, 75, 0, 0),
            (25, 75, 0, 0),
        ]
    );
}

#[test]
fn mean_is_rounded_down() {
    // 0 + 0 + 1 over three resolved neighbours is 0, 255 + 255 + 254 is 254
    let before = [(0, 255, 9, 255), (0, 255, 9, 255), (1, 254, 10, 255), T, T, T];
    let after = fixed(3, 2, &before, false);
    // (1, 1) has all three opaque pixels around it once it is reached
    assert_eq!(after[4].3, 0);
    assert_eq!(after[0], (0, 255, 9, 255));
    let seeded = after[3];
    // (0, 1) is the first unresolved neighbour of (0, 0): right is opaque,
    // the row above is outside, left is outside, below-left is outside, below
    // is (0, 1)
    assert_eq!(seeded, (0, 255, 9, 0));
}

#[test]
fn pixels_of_one_layer_do_not_see_each_other() {
    // both transparent pixels are seeded in the first layer; each takes the
    // colour of the opaque pixels only
    let before = [(10, 0, 0, 255), T, T, (30, 0, 0, 255)];
    let after = fixed(4, 1, &before, false);
    assert_eq!(after, vec![(10, 0, 0, 255), (10, 0, 0, 0), (30, 0, 0, 0), (30, 0, 0, 255)]);
}

#[test]
fn barely_visible_pixel_counts_as_opaque() {
    let before = [T, T, (255, 255, 255, 1), T, T, T];
    let after = fixed(3, 2, &before, false);
    assert_eq!(
        after,
        vec![
            (255, 255, 255, 0),
            (255, 255, 255, 0),
            (255, 255, 255, 1),
            (255, 255, 255, 0),
            (255, 255, 255, 0),
            (255, 255, 255, 0),
        ]
    );
}

#[test]
fn fixing_twice_changes_nothing_when_made_opaque() {
    let before = [T, T, (9, 8, 7, 128), T];
    let once = fixed(2, 2, &before, true);
    let twice = fixed(2, 2, &once, true);
    assert_eq!(once, twice);
}

#[test]
fn from_raw_refuses_short_data() {
    assert!(Bitmap::from_raw(2, 2, vec![0u8; 15]).is_none());
    assert!(Bitmap::from_raw(2, 2, vec![0u8; 16]).is_some());
    assert!(Bitmap::from_raw(0, 7, Vec::new()).is_some());
    assert!(Bitmap::from_raw(u32::MAX, u32::MAX, vec![0u8; 16]).is_none());
}

#[test]
fn raw_bytes_come_back_in_order() {
    let data: Vec<u8> = (0u8..24).collect();
    let img = Bitmap::from_raw(3, 2, data.clone()).unwrap();
    assert_eq!(img.into_raw(), data);
}

#[test]
fn raw_bytes_are_red_green_blue_alpha() {
    let data = vec![1, 2, 3, 0, 10, 20, 30, 255];
    let mut img = Bitmap::from_raw(2, 1, data).unwrap();
    assert_eq!(fix_alpha(&mut img, false), Ok(()));
    assert_eq!(img.into_raw(), vec![10, 20, 30, 0, 10, 20, 30, 255]);
}

#[test]
fn storage_behind_the_last_pixel_is_carried_along() {
    let data = vec![1, 2, 3, 0, 10, 20, 30, 255, 77, 88, 99];
    let mut img = Bitmap::from_raw(2, 1, data).unwrap();
    assert_eq!(fix_alpha(&mut img, true), Ok(()));
    set_alpha(&mut img, 5);
    assert_eq!(img.into_raw(), vec![10, 20, 30, 5, 10, 20, 30, 5, 77, 88, 99]);
}

#[test]
fn storage_of_an_empty_image_is_kept() {
    let mut img = Bitmap::from_raw(0, 3, vec![4, 5, 6]).unwrap();
    assert_eq!(fix_alpha(&mut img, false), Ok(()));
    assert_eq!(img.into_raw(), vec![4, 5, 6]);
}

#[test]
fn from_raw_refuses_a_row_too_long_for_the_machine() {
    let row_fits = 4u128 * (1u128 << 30) <= usize::MAX as u128;
    assert_eq!(Bitmap::from_raw(1 << 30, 0, Vec::new()).is_some(), row_fits);
    assert!(Bitmap::from_raw(3, 0, Vec::new()).is_some());
}
