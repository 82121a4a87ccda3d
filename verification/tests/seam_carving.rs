use seam_carving::{
    compute_bottom_up_min_cumulative_energy, compute_energy, compute_intensity, draw_vertical_seams,
    find_vertical_seams, remove_vertical_seam, remove_vertical_seams, shrink_width, ColorLayout, Image,
    VerticalSeam,
};

/// A gray image built from its rows.
fn gray_rows(rows: &[&[u8]]) -> Image<u8> {
    let height = rows.len() as u32;
    let width = if rows.is_empty() { 0 } else { rows[0].len() as u32 };
    let data: Vec<u8> = rows.iter().flat_map(|r| r.iter().copied()).collect();
    Image::from_raw(width, height, ColorLayout::Luma, data).expect("valid image")
}

fn gray(width: u32, height: u32, data: Vec<u8>) -> Image<u8> {
    Image::from_raw(width, height, ColorLayout::Luma, data).expect("valid image")
}

fn rgba_at(img: &Image<u8>, x: u32, y: u32) -> [u8; 4] {
    let k = ((y * img.width() + x) * 4) as usize;
    let d = img.as_raw();
    [d[k], d[k + 1], d[k + 2], d[k + 3]]
}

// -------------------------------------------------------------------------
// compute_energy
// -------------------------------------------------------------------------

#[test]
fn energy_uniform_image_is_zero() {
    let width = 4u32;
    let height = 4u32;
    let intensity = gray(width, height, vec![100u8; (width * height) as usize]);
    let energy = compute_energy(&intensity);
    assert!(
        energy.as_raw().iter().all(|&e| e == 0),
        "uniform image must have zero energy everywhere"
    );
}

#[test]
fn energy_single_column() {
    let intensity = gray_rows(&[&[0], &[100], &[200]]);
    let energy = compute_energy(&intensity);
    assert_eq!(energy.as_raw(), &vec![100u16, 200u16, 100u16]);
}

#[test]
fn energy_single_row() {
    let intensity = gray_rows(&[&[0, 100, 200]]);
    let energy = compute_energy(&intensity);
    assert_eq!(energy.as_raw(), &vec![100u16, 200u16, 100u16]);
}

#[test]
fn energy_horizontal_gradient_3x3() {
    let intensity = gray_rows(&[&[0, 64, 128], &[0, 0, 0], &[0, 64, 128]]);
    let energy = compute_energy(&intensity);
    let expected: Vec<u16> = vec![64, 192, 192, 0, 0, 0, 64, 192, 192];
    assert_eq!(energy.as_raw(), &expected);
}

#[test]
fn energy_vertical_gradient_3x3() {
    let intensity = gray_rows(&[&[0, 0, 0], &[64, 64, 64], &[128, 128, 128]]);
    let energy = compute_energy(&intensity);
    let expected: Vec<u16> = vec![64, 64, 64, 128, 64, 128, 64, 64, 64];
    assert_eq!(energy.as_raw(), &expected);
}

// -------------------------------------------------------------------------
// compute_bottom_up_min_cumulative_energy
// -------------------------------------------------------------------------

#[test]
fn cumulative_energy_single_row() {
    let energy: Image<u16> = Image::from_raw(3, 1, ColorLayout::Luma, vec![10, 20, 30]).expect("valid image");
    let m = compute_bottom_up_min_cumulative_energy(&energy);
    assert_eq!(m.as_raw(), &vec![10u64, 20, 30]);
}

#[test]
fn cumulative_energy_two_rows() {
    let energy: Image<u16> =
        Image::from_raw(3, 2, ColorLayout::Luma, vec![10, 20, 30, 5, 15, 25]).expect("valid image");
    let m = compute_bottom_up_min_cumulative_energy(&energy);
    assert_eq!(m.as_raw(), &vec![15u64, 25, 45, 5, 15, 25]);
}

#[test]
fn cumulative_energy_steers_toward_minimum() {
    let energy: Image<u16> =
        Image::from_raw(3, 2, ColorLayout::Luma, vec![100, 100, 100, 100, 1, 100]).expect("valid image");
    let m = compute_bottom_up_min_cumulative_energy(&energy);
    assert_eq!(m.as_raw(), &vec![101u64, 101, 101, 100, 1, 100]);
}

// -------------------------------------------------------------------------
// find_vertical_seams / VerticalSeams::to_vec
// -------------------------------------------------------------------------

#[test]
fn find_seams_produces_correct_count() {
    let width = 5u32;
    let height = 4u32;
    let img = gray(width, height, vec![128u8; (width * height) as usize]);
    let seams = find_vertical_seams(&img);
    assert_eq!(seams.to_vec().len(), width as usize);
}

#[test]
fn find_seams_each_seam_has_correct_length() {
    let width = 6u32;
    let height = 8u32;
    let img = gray(width, height, vec![0u8; (width * height) as usize]);
    let seams = find_vertical_seams(&img);
    for seam in seams.to_vec() {
        assert_eq!(seam.0.len(), height as usize, "each seam must have one entry per row");
    }
}

#[test]
fn find_seams_adjacency_constraint() {
    let width = 8u32;
    let height = 6u32;
    let img = gray(width, height, vec![0u8; (width * height) as usize]);
    let seams = find_vertical_seams(&img);
    for seam in seams.to_vec() {
        for w in seam.0.windows(2) {
            assert!(
                w[0].abs_diff(w[1]) <= 1,
                "seam adjacency violated: {} and {} differ by more than 1",
                w[0],
                w[1]
            );
        }
    }
}

#[test]
fn lowest_energy_seam_has_minimum_energy() {
    let img = gray_rows(&[
        &[0, 255, 128, 0, 255],
        &[255, 0, 128, 255, 0],
        &[0, 255, 128, 0, 255],
        &[255, 0, 128, 255, 0],
    ]);
    let seams = find_vertical_seams(&img);
    let energies = seams.seam_energies();
    let min_energy = *energies.iter().min().unwrap();
    let max_energy = *energies.iter().max().unwrap();
    assert!(min_energy < max_energy, "expected seam energies to differ, got all equal: {min_energy}");
    assert_eq!(min_energy, energies[2], "third column should have lowest energy");
    let lowest = seams.to_vec_lowest(1);
    assert_eq!(lowest.len(), 1);
}

#[test]
fn lowest_energy_seams_count_boundary() {
    let width = 4u32;
    let height = 3u32;
    let img = gray(width, height, vec![128u8; (width * height) as usize]);
    let seams = find_vertical_seams(&img);
    assert_eq!(seams.lowest_energy_seams(0).len(), 0);
    assert_eq!(seams.lowest_energy_seams(1).len(), 1);
    assert_eq!(seams.lowest_energy_seams(4).len(), 4);
    assert_eq!(seams.lowest_energy_seams(10).len(), 4);
}

// -------------------------------------------------------------------------
// remove_vertical_seams
// -------------------------------------------------------------------------

#[test]
fn remove_zero_seams_returns_clone() {
    let img = gray_rows(&[&[1, 2, 3, 4], &[5, 6, 7, 8], &[9, 10, 11, 12]]);
    let seams = find_vertical_seams(&img);
    let result = remove_vertical_seams(&img, &seams, 0);
    assert_eq!(result.dimensions(), img.dimensions());
    assert_eq!(result.as_raw(), img.as_raw());
}

#[test]
fn remove_one_seam_reduces_width_by_one() {
    let width = 5u32;
    let height = 4u32;
    let img = gray(width, height, vec![128u8; (width * height) as usize]);
    let seams = find_vertical_seams(&img);
    let result = remove_vertical_seams(&img, &seams, 1);
    assert_eq!(result.width(), width - 1);
    assert_eq!(result.height(), height);
}

#[test]
fn remove_all_but_one_column() {
    let width = 5u32;
    let height = 3u32;
    let img = gray(width, height, vec![128u8; (width * height) as usize]);
    let seams = find_vertical_seams(&img);
    let result = remove_vertical_seams(&img, &seams, (width - 1) as usize);
    assert_eq!(result.width(), 1);
    assert_eq!(result.height(), height);
}

#[test]
fn remove_seam_pixel_correctness() {
    let img = gray_rows(&[&[10, 20, 30], &[40, 50, 60]]);
    let seams = find_vertical_seams(&img);
    let result = remove_vertical_seams(&img, &seams, 1);
    assert_eq!(result.width(), 2);
    assert_eq!(result.height(), 2);
    let raw = result.as_raw();
    assert_eq!(raw[0], 20, "top-left should be 20");
    assert_eq!(raw[1], 30, "top-right should be 30");
    assert_eq!(raw[2], 50, "bottom-left should be 50");
    assert_eq!(raw[3], 60, "bottom-right should be 60");
}

// -------------------------------------------------------------------------
// shrink_width
// -------------------------------------------------------------------------

#[test]
fn shrink_width_noop() {
    let width = 4u32;
    let height = 3u32;
    let pixels: Vec<u8> = (0u8..(width * height) as u8).collect();
    let img = gray(width, height, pixels);
    let result = shrink_width(&img, width);
    assert_eq!(result.dimensions(), img.dimensions());
    assert_eq!(result.as_raw(), img.as_raw());
}

#[test]
fn shrink_width_correct_dimensions() {
    let width = 10u32;
    let height = 6u32;
    let img = gray(width, height, vec![128u8; (width * height) as usize]);
    let target_width = 7u32;
    let result = shrink_width(&img, target_width);
    assert_eq!(result.width(), target_width);
    assert_eq!(result.height(), height);
}

// -------------------------------------------------------------------------
// VerticalSeams internal consistency
// -------------------------------------------------------------------------

#[test]
fn to_vec_and_to_vec_lowest_full_agree() {
    let img = gray_rows(&[
        &[10, 200, 50, 180, 20, 160],
        &[190, 30, 170, 40, 150, 60],
        &[100, 120, 80, 140, 90, 110],
        &[70, 200, 30, 180, 50, 210],
    ]);
    let seams = find_vertical_seams(&img);
    let all = seams.to_vec();
    let lowest_all = seams.to_vec_lowest(6);
    assert_eq!(all.len(), lowest_all.len());
    for (a, b) in all.iter().zip(lowest_all.iter()) {
        assert_eq!(a.0, b.0, "seam paths from to_vec and to_vec_lowest(width) must match on varied image");
    }
}

#[test]
fn seam_energies_equal_for_uniform_image() {
    let width = 4u32;
    let height = 3u32;
    let img = gray(width, height, vec![100u8; (width * height) as usize]);
    let seams = find_vertical_seams(&img);
    let energies = seams.seam_energies();
    let first = energies[0];
    assert!(
        energies.iter().all(|&e| e == first),
        "all seams in a uniform image must have equal energy, got: {:?}",
        energies
    );
}

#[test]
fn rgb_image_shrinks_correctly() {
    let width = 6u32;
    let height = 4u32;
    let pixels: Vec<u8> = (0u8..=254).cycle().take((width * height * 3) as usize).collect();
    let img = Image::from_raw(width, height, ColorLayout::Rgb, pixels).unwrap();
    let target_width = 4u32;
    let result = shrink_width(&img, target_width);
    assert_eq!(result.width(), target_width);
    assert_eq!(result.height(), height);
}

#[test]
fn draw_lowest_seams_uses_original_coordinates() {
    let width = 8u32;
    let height = 6u32;
    let pixels: Vec<u8> = (0u8..=254).cycle().take((width * height * 3) as usize).collect();
    let img = Image::from_raw(width, height, ColorLayout::Rgb, pixels).unwrap();
    let vertical_seams = find_vertical_seams(&img);
    let selected_seams = vertical_seams.to_vec_lowest(4);
    let annotated = draw_vertical_seams(&img, &selected_seams, false);
    assert_eq!(annotated.width(), width);
    assert_eq!(annotated.height(), height);
}

// -------------------------------------------------------------------------
// draw_vertical_seams
// -------------------------------------------------------------------------

#[test]
fn draw_vertical_seams_removed_individually_matches_original_coordinates() {
    let img = gray_rows(&[&[10, 20, 30, 40], &[50, 60, 70, 80], &[90, 100, 110, 120]]);
    let individually_removed = vec![VerticalSeam(vec![0, 0, 0]), VerticalSeam(vec![1, 1, 1])];
    let original_coordinates = vec![VerticalSeam(vec![0, 0, 0]), VerticalSeam(vec![2, 2, 2])];
    let drawn_individually = draw_vertical_seams(&img, &individually_removed, true);
    let drawn_original = draw_vertical_seams(&img, &original_coordinates, false);
    assert_eq!(
        (drawn_individually.dimensions(), drawn_individually.layout(), drawn_individually.as_raw()),
        (drawn_original.dimensions(), drawn_original.layout(), drawn_original.as_raw()),
        "drawing individually-removed seams should match drawing the same seams in original coordinates"
    );
    let red = [255, 0, 0, 255];
    for y in 0..3 {
        assert_eq!(rgba_at(&drawn_individually, 0, y), red);
        assert_eq!(rgba_at(&drawn_individually, 2, y), red);
        let expected_col_1 = img.as_raw()[(y * 4 + 1) as usize];
        let expected_col_3 = img.as_raw()[(y * 4 + 3) as usize];
        assert_eq!(rgba_at(&drawn_individually, 1, y), [expected_col_1, expected_col_1, expected_col_1, 255]);
        assert_eq!(rgba_at(&drawn_individually, 3, y), [expected_col_3, expected_col_3, expected_col_3, 255]);
    }
}

// -------------------------------------------------------------------------
// Edge case tests for minimum dimension images
// -------------------------------------------------------------------------

#[test]
fn energy_width_two_height_one() {
    let intensity = gray_rows(&[&[128, 255]]);
    let energy = compute_energy(&intensity);
    assert_eq!(energy.as_raw(), &vec![127u16, 127]);
}

#[test]
fn shrink_two_width_to_one() {
    let img = gray_rows(&[&[1, 2], &[3, 4], &[5, 6]]);
    let result = shrink_width(&img, 1);
    assert_eq!(result.width(), 1u32);
    assert_eq!(result.height(), 3u32);
}

#[test]
fn find_seams_on_two_pixel_width() {
    let img = gray(2, 3, vec![1u8, 2, 3, 4, 5, 6]);
    let seams = find_vertical_seams(&img);
    assert_eq!(seams.to_vec().len(), 2u32 as usize);
    for seam in seams.to_vec() {
        assert_eq!(seam.0.len(), 3u32 as usize);
        for &x in &seam.0 {
            assert!(x < 2, "seam x={x} out of bounds for 2-width image");
        }
    }
}

#[test]
fn energy_two_by_two() {
    let intensity = gray_rows(&[&[10, 50], &[30, 90]]);
    let energy = compute_energy(&intensity);
    assert_eq!(energy.as_raw(), &vec![60u16, 80, 80, 100]);
}

// -------------------------------------------------------------------------
// Pixel-correctness: removed seam is an interior column
// -------------------------------------------------------------------------

#[test]
fn remove_seam_interior_column_pixel_correctness() {
    let img = gray_rows(&[&[200, 10, 10, 10, 200], &[200, 10, 10, 10, 200]]);
    let seams = find_vertical_seams(&img);
    let result = remove_vertical_seams(&img, &seams, 1);
    assert_eq!(result.width(), 4);
    assert_eq!(result.height(), 2);
    let raw = result.as_raw();
    assert_eq!(raw[0], 200, "row0 col0");
    assert_eq!(raw[1], 10, "row0 col1");
    assert_eq!(raw[2], 10, "row0 col2");
    assert_eq!(raw[3], 200, "row0 col3");
    assert_eq!(raw[4], 200, "row1 col0");
    assert_eq!(raw[5], 10, "row1 col1");
    assert_eq!(raw[6], 10, "row1 col2");
    assert_eq!(raw[7], 200, "row1 col3");
}

// -------------------------------------------------------------------------
// seam_energy_matches_sum_along_path
// -------------------------------------------------------------------------

#[test]
fn seam_energy_matches_sum_along_reconstructed_path() {
    let img = gray_rows(&[&[0, 100, 50, 200], &[150, 25, 175, 75], &[80, 220, 10, 130]]);
    let intensity = compute_intensity(&img);
    let energy_img = compute_energy(&intensity);
    let energy_raw = energy_img.as_raw();
    let width = img.width() as usize;
    let seams = find_vertical_seams(&img);
    let seam_energies = seams.seam_energies();
    for (start_x, seam) in seams.to_vec().iter().enumerate() {
        let path_sum: u64 = seam
            .0
            .iter()
            .rev()
            .enumerate()
            .map(|(y, &x)| energy_raw[y * width + x as usize] as u64)
            .sum();
        assert_eq!(
            seam_energies[start_x], path_sum,
            "seam energy mismatch for start_x={start_x}: stored={} computed={}",
            seam_energies[start_x], path_sum
        );
    }
}

// -------------------------------------------------------------------------
// remove_vertical_seam
// -------------------------------------------------------------------------

fn grid_3x4() -> Image<u8> {
    gray_rows(&[&[0, 1, 2, 3], &[10, 11, 12, 13], &[20, 21, 22, 23]])
}

#[test]
fn test_remove_vertical_seam_left_edge() {
    let image = grid_3x4();
    let expected = gray_rows(&[&[1, 2, 3], &[11, 12, 13], &[21, 22, 23]]);
    let seam = VerticalSeam(vec![0, 0, 0]);
    let carved = remove_vertical_seam(&image, &seam);
    assert_eq!(carved.dimensions(), expected.dimensions());
    assert_eq!(carved.as_raw(), expected.as_raw());
}

#[test]
fn test_remove_vertical_seam_right_edge() {
    let image = grid_3x4();
    let expected = gray_rows(&[&[0, 1, 2], &[10, 11, 12], &[20, 21, 22]]);
    let seam = VerticalSeam(vec![3, 3, 3]);
    let carved = remove_vertical_seam(&image, &seam);
    assert_eq!(carved.dimensions(), expected.dimensions());
    assert_eq!(carved.as_raw(), expected.as_raw());
}

#[test]
fn test_remove_vertical_seam_zig_zag() {
    let image = grid_3x4();
    let expected = gray_rows(&[&[1, 2, 3], &[10, 12, 13], &[20, 21, 23]]);
    let seam = VerticalSeam(vec![2, 1, 0]);
    let carved = remove_vertical_seam(&image, &seam);
    assert_eq!(carved.dimensions(), expected.dimensions());
    assert_eq!(carved.as_raw(), expected.as_raw());
}

#[test]
fn test_remove_vertical_seam_single_column() {
    let image = gray_rows(&[&[0], &[10], &[20]]);
    let seam = VerticalSeam(vec![0, 0, 0]);
    let carved = remove_vertical_seam(&image, &seam);
    assert_eq!(carved.dimensions(), (0, 3));
    assert!(carved.as_raw().is_empty());
}
