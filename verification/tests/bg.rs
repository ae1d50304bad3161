use score_sync::bg::{
    thumbnail_rgb,
    bg_aspect_from_inputs, bg_rgb_from_inputs,
    color_u32, cycle_index, push_bg_recent, rgb_to_bgra, sample_paper_rgb, solid_bg_size, thumbnail_dims,
    Rgb8, RgbRaster, BG_RECENT_MAX,
};

fn c(r: u8, g: u8, b: u8) -> Rgb8 {
    Rgb8 { r, g, b }
}

#[test]
fn packs_colours() {
    assert_eq!(color_u32(c(0x12, 0x34, 0x56)), 0x123456);
    assert_eq!(color_u32(c(255, 255, 255)), 0xffffff);
    assert_eq!(color_u32(c(0, 0, 0)), 0);
}

#[test]
fn recent_colours_move_to_front() {
    let mut v = vec![c(1, 1, 1), c(2, 2, 2), c(3, 3, 3)];
    push_bg_recent(&mut v, c(2, 2, 2));
    assert_eq!(v, vec![c(2, 2, 2), c(1, 1, 1), c(3, 3, 3)]);
    push_bg_recent(&mut v, c(9, 9, 9));
    assert_eq!(v, vec![c(9, 9, 9), c(2, 2, 2), c(1, 1, 1), c(3, 3, 3)]);
}

#[test]
fn recent_strip_is_capped() {
    let mut v = Vec::new();
    for i in 0..40u8 {
        push_bg_recent(&mut v, c(i, 0, 0));
    }
    assert_eq!(v.len(), BG_RECENT_MAX);
    assert_eq!(v[0], c(39, 0, 0));
    assert_eq!(v[BG_RECENT_MAX - 1], c(16, 0, 0));
}

#[test]
fn solid_background_sizes() {
    assert_eq!(solid_bg_size(16, 9, &[1000]), (2560, 1440));
    assert_eq!(solid_bg_size(16, 9, &[5000, 200]), (8192, 4608));
    assert_eq!(solid_bg_size(3, 4, &[1500, 1600]), (3200, 4266));
    assert_eq!(solid_bg_size(0, 0, &[]), (2560, 2560));
    assert_eq!(solid_bg_size(1, 100, &[2000]), (4000, 8192));
}

#[test]
fn thumbnails() {
    assert_eq!(thumbnail_dims(4000, 2000, 1000), Some((1000, 500)));
    assert_eq!(thumbnail_dims(2000, 4000, 1000), Some((500, 1000)));
    assert_eq!(thumbnail_dims(500, 400, 1000), None);
    assert_eq!(thumbnail_dims(5000, 1, 1000), Some((1000, 1)));
}

#[test]
fn bgra_bytes() {
    assert_eq!(rgb_to_bgra(&[1, 2, 3, 4, 5, 6, 7]), vec![3, 2, 1, 255, 6, 5, 4, 255]);
    assert_eq!(rgb_to_bgra(&[]), Vec::<u8>::new());
}

#[test]
fn cycling_wraps() {
    assert_eq!(cycle_index(0, -1, 5), Some(4));
    assert_eq!(cycle_index(4, 1, 5), Some(0));
    assert_eq!(cycle_index(2, 1, 5), Some(3));
    assert_eq!(cycle_index(0, 1, 0), None);
    assert_eq!(cycle_index(3, 0, 5), None);
}

#[test]
fn paper_colour() {
    assert_eq!(sample_paper_rgb(None), c(0xE8, 0xD4, 0xB0));
    let w = 10u32;
    let h = 12u32;
    let mut data = Vec::new();
    for _ in 0..(w * h) {
        data.extend_from_slice(&[200, 190, 170]);
    }
    let img = RgbRaster { width: w, height: h, data };
    assert_eq!(sample_paper_rgb(Some(&img)), c(200, 190, 170));
    let empty = RgbRaster { width: 0, height: 5, data: vec![] };
    assert_eq!(sample_paper_rgb(Some(&empty)), c(0xE8, 0xD4, 0xB0));
}

#[test]
fn paper_colour_averages_the_grid() {
    // left half black, right half white, 8 columns sampled over 16 pixels
    let w = 16u32;
    let h = 8u32;
    let mut data = Vec::new();
    for _y in 0..h {
        for x in 0..w {
            let v = if x < 8 { 0 } else { 255 };
            data.extend_from_slice(&[v, v, v]);
        }
    }
    let img = RgbRaster { width: w, height: h, data };
    // grid x = (15 * i) / 7 for i in 0..8 -> 0,2,4,6,8,10,12,15: half white
    assert_eq!(sample_paper_rgb(Some(&img)), c(127, 127, 127));
}

#[test]
fn typed_colours() {
    let cur = c(1, 2, 3);
    assert_eq!(bg_rgb_from_inputs(" 10", "20 ", "30", cur), Some(c(10, 20, 30)));
    assert_eq!(bg_rgb_from_inputs("1", "2", "3", cur), None);
    assert_eq!(bg_rgb_from_inputs("256", "2", "3", cur), None);
    assert_eq!(bg_rgb_from_inputs("", "2", "3", cur), None);
    assert_eq!(bg_rgb_from_inputs("+9", "2", "3", cur), Some(c(9, 2, 3)));
}

#[test]
fn typed_aspects() {
    assert_eq!(bg_aspect_from_inputs("16", "9", 4, 3), Some((16, 9)));
    assert_eq!(bg_aspect_from_inputs("4", "3", 4, 3), None);
    assert_eq!(bg_aspect_from_inputs("0", "3", 4, 3), None);
    assert_eq!(bg_aspect_from_inputs("x", "3", 4, 3), None);
    assert_eq!(bg_aspect_from_inputs(" 4 ", "5", 4, 3), Some((4, 5)));
}

#[test]
fn thumbnails_are_resized_with_the_triangle_filter() {
    let (w, h) = (40u32, 20u32);
    let mut data = Vec::new();
    for y in 0..h {
        for x in 0..w {
            data.extend_from_slice(&[(x * 6) as u8, (y * 12) as u8, 77]);
        }
    }
    let img = RgbRaster { width: w, height: h, data: data.clone() };
    let t = thumbnail_rgb(&img, 10);
    assert_eq!((t.width, t.height), (10, 5));
    let want = image::imageops::resize(
        &image::RgbImage::from_raw(w, h, data.clone()).unwrap(),
        10,
        5,
        image::imageops::FilterType::Triangle,
    )
    .into_raw();
    assert_eq!(t.data, want);
    assert_eq!(t.data.len(), 10 * 5 * 3);
    let same = thumbnail_rgb(&img, 40);
    assert_eq!((same.width, same.height), (40, 20));
    assert_eq!(same.data, data);
}
