use seam_carving::{
    compute_bottom_up_min_cumulative_energy, compute_energy, compute_intensity, dp_fits_u64, draw_vertical_seams,
    draw_vertical_seams_by_energy, find_vertical_seam, find_vertical_seams, m_fits_u32, remove_vertical_seam,
    remove_vertical_seams, shrink_width, ColorLayout, Image, VerticalSeam,
};

fn image(width: u32, height: u32, layout: ColorLayout, data: Vec<u8>) -> Image<u8> {
    Image::from_raw(width, height, layout, data).expect("valid image")
}

/// A 6x4 gray image whose seams wander.
fn varied() -> Image<u8> {
    image(
        6,
        4,
        ColorLayout::Luma,
        vec![
            10, 200, 50, 180, 20, 160, //
            190, 30, 170, 40, 150, 60, //
            100, 120, 80, 140, 90, 110, //
            70, 200, 30, 180, 50, 210,
        ],
    )
}

fn rgba_pixels(img: &Image<u8>) -> Vec<[u8; 4]> {
    img.as_raw().chunks(4).map(|c| [c[0], c[1], c[2], c[3]]).collect()
}

#[test]
fn intensity_uses_srgb_luma_weights() {
    let img = image(3, 1, ColorLayout::Rgb, vec![255, 0, 0, 0, 255, 0, 0, 0, 255]);
    let luma = compute_intensity(&img);
    assert_eq!(luma.as_raw(), &vec![54u8, 182, 18]);
    assert_eq!(luma.layout(), ColorLayout::Luma);
}

#[test]
fn intensity_of_rgba_ignores_alpha() {
    let img = image(2, 1, ColorLayout::Rgba, vec![255, 255, 255, 0, 10, 20, 30, 200]);
    assert_eq!(compute_intensity(&img).as_raw(), &vec![255u8, 18]);
}

#[test]
fn intensity_of_luma_alpha_is_the_gray_value() {
    let img = image(2, 1, ColorLayout::LumaA, vec![77, 9, 200, 0]);
    assert_eq!(compute_intensity(&img).as_raw(), &vec![77u8, 200]);
}

#[test]
fn drawing_no_seams_converts_each_layout_to_rgba() {
    let cases = [
        (ColorLayout::Luma, vec![7u8], [7u8, 7, 7, 255]),
        (ColorLayout::LumaA, vec![7, 9], [7, 7, 7, 9]),
        (ColorLayout::Rgb, vec![1, 2, 3], [1, 2, 3, 255]),
        (ColorLayout::Rgba, vec![1, 2, 3, 4], [1, 2, 3, 4]),
    ];
    for (layout, data, expected) in cases {
        let img = image(1, 1, layout, data);
        let drawn = draw_vertical_seams(&img, &[], false);
        assert_eq!(drawn.layout(), ColorLayout::Rgba);
        assert_eq!(rgba_pixels(&drawn), vec![expected]);
    }
}

#[test]
fn seams_of_varied_image() {
    let seams = find_vertical_seams(&varied());
    assert_eq!(seams.seam_energies(), &[920u64, 475, 300, 360, 315, 810]);
    let paths: Vec<Vec<u32>> = seams.to_vec().into_iter().map(|s| s.0).collect();
    assert_eq!(
        paths,
        vec![
            vec![0, 0, 0, 0],
            vec![1, 1, 1, 1],
            vec![3, 2, 2, 2],
            vec![2, 3, 4, 3],
            vec![4, 4, 3, 4],
            vec![5, 5, 5, 5],
        ]
    );
    assert_eq!(seams.width(), 6);
    assert_eq!(seams.height(), 4);
}

#[test]
fn seams_never_share_a_pixel_and_step_at_most_one_column() {
    let img = varied();
    let seams = find_vertical_seams(&img).to_vec();
    for row in 0..4 {
        let mut xs: Vec<u32> = seams.iter().map(|s| s.0[row]).collect();
        xs.sort();
        assert_eq!(xs, vec![0, 1, 2, 3, 4, 5]);
    }
    for s in &seams {
        for pair in s.0.windows(2) {
            assert!(pair[0].abs_diff(pair[1]) <= 1);
        }
    }
}

#[test]
fn lowest_seam_has_least_energy() {
    let img = varied();
    let seams = find_vertical_seams(&img);
    let seam = find_vertical_seam(&img);
    assert_eq!(seam.0, vec![3, 2, 2, 2]);
    let least = *seams.seam_energies().iter().min().unwrap();
    assert_eq!(seams.seam_energies()[2], least);
    assert_eq!(seams.to_vec_lowest(1)[0].0, seam.0);
}

#[test]
fn lowest_energy_seams_follow_energy_order() {
    let seams = find_vertical_seams(&varied());
    assert_eq!(seams.lowest_energy_seams(1), vec![2]);
    assert_eq!(seams.lowest_energy_seams(2), vec![2, 4]);
    assert_eq!(seams.lowest_energy_seams(3), vec![2, 3, 4]);
    assert_eq!(seams.lowest_energy_seams(5), vec![1, 2, 3, 4, 5]);
}

#[test]
fn lowest_energy_seams_break_ties_by_column() {
    let img = image(5, 3, ColorLayout::Luma, vec![9u8; 15]);
    let seams = find_vertical_seams(&img);
    assert_eq!(seams.lowest_energy_seams(2), vec![0, 1]);
}

#[test]
fn to_vec_lowest_beyond_width_gives_every_seam() {
    let seams = find_vertical_seams(&varied());
    let all: Vec<Vec<u32>> = seams.to_vec().into_iter().map(|s| s.0).collect();
    let lowest: Vec<Vec<u32>> = seams.to_vec_lowest(100).into_iter().map(|s| s.0).collect();
    assert_eq!(all, lowest);
}

#[test]
fn uniform_color_image_has_zero_energy_and_zero_seam_energies() {
    let data: Vec<u8> = [10u8, 20, 30].iter().copied().cycle().take(4 * 3 * 3).collect();
    let img = image(4, 3, ColorLayout::Rgb, data);
    let energy = compute_energy(&compute_intensity(&img));
    assert!(energy.as_raw().iter().all(|&e| e == 0));
    let seams = find_vertical_seams(&img);
    assert_eq!(seams.seam_energies(), &[0u64, 0, 0, 0]);
}

/// The least energy of a path from `(x, y)` to the bottom row, by trying every path.
fn cheapest_path(e: &[u16], w: usize, h: usize, x: usize, y: usize) -> u64 {
    let here = e[y * w + x] as u64;
    if y + 1 == h {
        return here;
    }
    let mut best = u64::MAX;
    for nx in x.saturating_sub(1)..=(x + 1).min(w - 1) {
        best = best.min(cheapest_path(e, w, h, nx, y + 1));
    }
    here + best
}

#[test]
fn cumulative_energy_is_the_cheapest_path() {
    let energy = compute_energy(&compute_intensity(&varied()));
    assert_eq!(
        energy.as_raw(),
        &vec![370u16, 210, 140, 170, 150, 240, 250, 50, 20, 30, 45, 140, 140, 95, 80, 75, 65, 170, 160, 120, 70, 60, 70, 260]
    );
    let m = compute_bottom_up_min_cumulative_energy(&energy);
    assert_eq!(
        m.as_raw(),
        &vec![560u64, 365, 295, 325, 305, 410, 415, 190, 155, 155, 170, 265, 260, 165, 140, 135, 125, 240, 160, 120, 70, 60, 70, 260]
    );
    for y in 0..4 {
        for x in 0..6 {
            assert_eq!(m.as_raw()[y * 6 + x], cheapest_path(energy.as_raw(), 6, 4, x, y));
        }
    }
}

#[test]
fn removing_lowest_seams_cuts_the_pixels_they_cross() {
    let img = varied();
    let seams = find_vertical_seams(&img);
    let out = remove_vertical_seams(&img, &seams, 3);
    assert_eq!(out.dimensions(), (3, 4));
    assert_eq!(out.as_raw(), &vec![10u8, 200, 160, 190, 30, 60, 100, 120, 110, 70, 200, 210]);
}

#[test]
fn shrink_width_removes_the_lowest_seams() {
    let img = varied();
    let out = shrink_width(&img, 3);
    assert_eq!(out.as_raw(), &vec![10u8, 200, 160, 190, 30, 60, 100, 120, 110, 70, 200, 210]);
    let same = shrink_width(&img, 6);
    assert_eq!(same.as_raw(), img.as_raw());
}

#[test]
fn removing_seams_keeps_every_channel() {
    let data: Vec<u8> = (0u8..24).collect();
    let img = image(3, 2, ColorLayout::Rgba, data);
    let seams = find_vertical_seams(&img);
    let out = remove_vertical_seams(&img, &seams, 2);
    assert_eq!(out.layout(), ColorLayout::Rgba);
    assert_eq!(out.dimensions(), (1, 2));
    let raw = out.as_raw();
    for y in 0..2usize {
        let p = &raw[y * 4..y * 4 + 4];
        let x = (p[0] as usize - y * 12) / 4;
        assert_eq!(p, &img.as_raw()[y * 12 + x * 4..y * 12 + x * 4 + 4]);
    }
}

#[test]
fn draw_by_energy_colours_seams_from_green_to_red() {
    let img = varied();
    let seams = find_vertical_seams(&img);
    let drawn = draw_vertical_seams_by_energy(&img, &seams, 3);
    let g = |v: u8| [v, v, v, 255];
    let green = [0, 255, 0, 255];
    let red = [255, 0, 0, 255];
    let mid = [127, 255, 0, 255];
    assert_eq!(
        rgba_pixels(&drawn),
        vec![
            g(10), g(200), green, red, mid, g(160), //
            g(190), g(30), green, mid, red, g(60), //
            g(100), g(120), green, red, mid, g(110), //
            g(70), g(200), red, green, mid, g(210),
        ]
    );
}

#[test]
fn draw_by_energy_paints_equal_energies_green() {
    let img = image(3, 2, ColorLayout::Luma, vec![5u8; 6]);
    let seams = find_vertical_seams(&img);
    let drawn = draw_vertical_seams_by_energy(&img, &seams, 2);
    let green = [0, 255, 0, 255];
    let plain = [5, 5, 5, 255];
    assert_eq!(rgba_pixels(&drawn), vec![green, green, plain, green, green, plain]);
}

#[test]
fn draw_by_energy_with_no_seams_only_converts() {
    let img = varied();
    let seams = find_vertical_seams(&img);
    let drawn = draw_vertical_seams_by_energy(&img, &seams, 0);
    let expected: Vec<[u8; 4]> = img.as_raw().iter().map(|&v| [v, v, v, 255]).collect();
    assert_eq!(rgba_pixels(&drawn), expected);
}

#[test]
fn draw_in_original_coordinates_marks_each_entry() {
    let img = image(3, 2, ColorLayout::Luma, vec![1, 2, 3, 4, 5, 6]);
    let drawn = draw_vertical_seams(&img, &[VerticalSeam(vec![2, 0])], false);
    let red = [255, 0, 0, 255];
    // The seam is stored bottom row first: column 2 in the bottom row, 0 in the top row.
    assert_eq!(rgba_pixels(&drawn), vec![red, [2, 2, 2, 255], [3, 3, 3, 255], [4, 4, 4, 255], [5, 5, 5, 255], red]);
}

#[test]
fn cumulative_fits_u32_up_to_its_height_limit() {
    assert!(m_fits_u32(0));
    assert!(m_fits_u32(8421504));
    assert!(!m_fits_u32(8421505));
}

#[test]
fn matching_fits_u64_up_to_its_size_limit() {
    assert!(dp_fits_u64(70921738076545, 2));
    assert!(!dp_fits_u64(70921738076546, 2));
    assert!(dp_fits_u64(65536, 65536));
    assert!(dp_fits_u64(1_000_000, 1));
}

#[test]
fn from_raw_checks_the_buffer_length() {
    assert!(Image::from_raw(2, 2, ColorLayout::Rgb, vec![0u8; 11]).is_none());
    assert!(Image::from_raw(2, 2, ColorLayout::Rgb, vec![0u8; 13]).is_none());
    let img = Image::from_raw(2, 2, ColorLayout::Rgb, vec![0u8; 12]).expect("valid image");
    assert_eq!(img.dimensions(), (2, 2));
    assert_eq!(img.pixel_count(), 4);
    assert_eq!(img.into_raw().len(), 12);
}

#[test]
fn single_row_seams_are_single_pixels() {
    let img = image(3, 1, ColorLayout::Luma, vec![0, 100, 200]);
    let seams = find_vertical_seams(&img);
    assert_eq!(seams.seam_energies(), &[100u64, 200, 100]);
    for x in 0..3usize {
        assert_eq!(seams.get_seam(x).0, vec![x as u32]);
    }
    assert_eq!(seams.lowest_energy_seams(2), vec![0, 2]);
}

#[test]
fn removing_the_lowest_seam_alone_or_at_once_agrees() {
    let img = varied();
    let seams = find_vertical_seams(&img);
    let at_once = remove_vertical_seams(&img, &seams, 1);
    let alone = remove_vertical_seam(&img, &find_vertical_seam(&img));
    assert_eq!(at_once.dimensions(), (5, 4));
    assert_eq!(at_once.as_raw(), alone.as_raw());
    assert_eq!(alone.as_raw(), &vec![10u8, 200, 180, 20, 160, 190, 30, 40, 150, 60, 100, 120, 140, 90, 110, 70, 200, 30, 50, 210]);
}

#[test]
fn seams_removed_one_by_one_are_drawn_where_they_were_cut() {
    let img = image(4, 3, ColorLayout::Luma, (10u8..22).collect());
    let first = VerticalSeam(vec![1, 1, 1]);
    let second = VerticalSeam(vec![2, 2, 2]);
    let once = remove_vertical_seam(&img, &first);
    let twice = remove_vertical_seam(&once, &second);
    // Columns 0 and 2 of the original remain.
    assert_eq!(twice.as_raw(), &vec![10u8, 12, 14, 16, 18, 20]);
    let drawn = draw_vertical_seams(&img, &[first, second], true);
    let red = [255, 0, 0, 255];
    let g = |v: u8| [v, v, v, 255];
    assert_eq!(
        rgba_pixels(&drawn),
        vec![g(10), red, g(12), red, g(14), red, g(16), red, g(18), red, g(20), red]
    );
}

#[test]
fn seam_taking_the_column_of_an_earlier_seam_is_drawn_beside_it() {
    let img = image(4, 3, ColorLayout::Luma, (1u8..13).collect());
    let seams = [VerticalSeam(vec![0, 0, 0]), VerticalSeam(vec![0, 0, 0])];
    let drawn = draw_vertical_seams(&img, &seams, true);
    let red = [255, 0, 0, 255];
    let g = |v: u8| [v, v, v, 255];
    assert_eq!(
        rgba_pixels(&drawn),
        vec![red, red, g(3), g(4), red, red, g(7), g(8), red, red, g(11), g(12)]
    );
    let original = [VerticalSeam(vec![0, 0, 0]), VerticalSeam(vec![1, 1, 1])];
    let drawn_original = draw_vertical_seams(&img, &original, false);
    assert_eq!(drawn_original.as_raw(), drawn.as_raw());
}

#[test]
fn seams_removed_one_by_one_skip_every_earlier_column() {
    // The third seam's entry 1 is the second of the columns {1, 3} left after
    // columns 0 and 2 were taken: column 3.
    let img = image(4, 1, ColorLayout::Luma, vec![1, 2, 3, 4]);
    let seams = [VerticalSeam(vec![2]), VerticalSeam(vec![0]), VerticalSeam(vec![1])];
    let drawn = draw_vertical_seams(&img, &seams, true);
    let red = [255, 0, 0, 255];
    assert_eq!(rgba_pixels(&drawn), vec![red, [2, 2, 2, 255], red, red]);
}
