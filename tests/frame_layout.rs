use raymarcher::frame::{
    assemble_frame, band_pixel, band_rows, batch_count, batch_pixel, collect_batch,
    lanes_in_batch, pixel_offset, Rgb,
};

#[test]
fn bands_of_even_split() {
    for n in 0..10 {
        assert_eq!(band_rows(300, 10, n), (30 * n, 30 * n + 30));
    }
}

#[test]
fn bands_of_uneven_split() {
    assert_eq!(band_rows(10, 3, 0), (0, 3));
    assert_eq!(band_rows(10, 3, 1), (3, 6));
    assert_eq!(band_rows(10, 3, 2), (6, 10));
}

#[test]
fn more_workers_than_rows_gives_empty_bands() {
    let bands: Vec<(usize, usize)> = (0..4).map(|n| band_rows(2, 4, n)).collect();
    assert_eq!(bands, vec![(0, 0), (0, 1), (1, 1), (1, 2)]);
}

#[test]
fn batches_cover_a_band() {
    assert_eq!(batch_count(0), 0);
    assert_eq!(batch_count(16), 1);
    assert_eq!(batch_count(17), 2);
    assert_eq!(batch_count(9000), 563);
    assert_eq!(lanes_in_batch(9000, 561), 16);
    assert_eq!(lanes_in_batch(9000, 562), 8);
}

#[test]
fn last_batch_repeats_last_pixel() {
    assert_eq!(batch_pixel(20, 0, 5), 5);
    assert_eq!(batch_pixel(20, 1, 3), 19);
    assert_eq!(batch_pixel(20, 1, 4), 19);
    assert_eq!(batch_pixel(20, 1, 15), 19);
}

#[test]
fn band_pixels_run_in_raster_order() {
    assert_eq!(band_pixel(300, 30, 0), (0, 30));
    assert_eq!(band_pixel(300, 30, 299), (299, 30));
    assert_eq!(band_pixel(300, 30, 300), (0, 31));
    assert_eq!(band_pixel(300, 30, 8999), (299, 59));
}

#[test]
fn pixel_offsets_are_rgba_strided() {
    assert_eq!(pixel_offset(300, 0, 0), 0);
    assert_eq!(pixel_offset(300, 1, 0), 4);
    assert_eq!(pixel_offset(300, 0, 1), 1200);
    assert_eq!(pixel_offset(300, 299, 299), 4 * 89999);
}

#[test]
fn collect_batch_keeps_only_real_lanes() {
    let mut colors: Vec<Rgb> = vec![(9, 9, 9)];
    let batch: Vec<Rgb> = (0..16).map(|i| (i as u8, 0, 255)).collect();
    collect_batch(&mut colors, &batch, 3);
    assert_eq!(colors, vec![(9, 9, 9), (0, 0, 255), (1, 0, 255), (2, 0, 255)]);
}

#[test]
fn frame_is_rgba_of_bands_in_order() {
    let bands: Vec<Vec<Rgb>> = vec![vec![(1, 2, 3)], vec![], vec![(4, 5, 6), (7, 8, 9)]];
    assert_eq!(
        assemble_frame(&bands),
        vec![1, 2, 3, 255, 4, 5, 6, 255, 7, 8, 9, 255]
    );
}

fn split(colors: &[Rgb], width: usize, rows: usize, workers: usize) -> Vec<Vec<Rgb>> {
    (0..workers)
        .map(|n| {
            let (s, e) = band_rows(rows, workers, n);
            colors[s * width..e * width].to_vec()
        })
        .collect()
}

#[test]
fn frame_does_not_depend_on_worker_count() {
    let (width, rows) = (7usize, 5usize);
    let colors: Vec<Rgb> = (0..width * rows)
        .map(|k| ((k * 3) as u8, (k * 5) as u8, (k * 11) as u8))
        .collect();
    let one = assemble_frame(&split(&colors, width, rows, 1));
    assert_eq!(one.len(), 4 * width * rows);
    for workers in 2..9 {
        assert_eq!(assemble_frame(&split(&colors, width, rows, workers)), one);
    }
    let x = 3;
    let y = 2;
    let off = pixel_offset(width, x, y);
    assert_eq!(&one[off..off + 4], &[((x + y * width) * 3) as u8, ((x + y * width) * 5) as u8, ((x + y * width) * 11) as u8, 255]);
}

#[test]
fn same_colors_give_identical_frames() {
    let colors: Vec<Rgb> = (0..300).map(|k| (k as u8, 255 - k as u8, 7)).collect();
    let a = assemble_frame(&split(&colors, 20, 15, 10));
    let b = assemble_frame(&split(&colors, 20, 15, 10));
    assert_eq!(a, b);
}
