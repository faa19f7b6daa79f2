use ray_tracer::tiles::{assemble_image, job_columns, ThreadResult};

#[test]
fn jobs_cover_every_column_once() {
    for (width, n_jobs) in [(600u32, 256u32), (1600, 32), (7, 3), (5, 8), (1, 1), (0, 4)] {
        let mut count = vec![0u32; width as usize];
        let mut prev_end = 0;
        for j in 0..n_jobs {
            let (start, end) = job_columns(width, n_jobs, j);
            assert_eq!(start, prev_end);
            assert!(start <= end && end <= width);
            for x in start..end {
                count[x as usize] += 1;
            }
            prev_end = end;
        }
        assert_eq!(prev_end, width);
        assert!(count.iter().all(|&c| c == 1));
    }
}

#[test]
fn job_columns_formula() {
    assert_eq!(job_columns(600, 256, 0), (0, 2));
    assert_eq!(job_columns(600, 256, 1), (2, 4));
    assert_eq!(job_columns(600, 256, 255), (597, 600));
    assert_eq!(job_columns(5, 8, 1), (0, 1));
}

fn column(x: u32, height: u32) -> ThreadResult {
    let color = (0..height).map(|y| [x as u8, y as u8, (x * 10 + y) as u8]).collect();
    ThreadResult { x, color }
}

#[test]
fn assembled_image_places_each_column_with_bottom_row_last() {
    let cols = vec![column(0, 2), column(1, 2), column(2, 2)];
    let img = assemble_image(3, 2, &cols);
    assert_eq!(img.len(), 6);
    // top row shows y = 1
    assert_eq!(img[0], [0, 1, 1]);
    assert_eq!(img[1], [1, 1, 11]);
    assert_eq!(img[2], [2, 1, 21]);
    // bottom row shows y = 0
    assert_eq!(img[3], [0, 0, 0]);
    assert_eq!(img[4], [1, 0, 10]);
    assert_eq!(img[5], [2, 0, 20]);
}

#[test]
fn assembled_image_is_independent_of_arrival_order() {
    let (w, h) = (8u32, 5u32);
    let forward: Vec<ThreadResult> = (0..w).map(|x| column(x, h)).collect();
    let scrambled: Vec<ThreadResult> = [5u32, 2, 7, 0, 3, 6, 1, 4].iter().map(|&x| column(x, h)).collect();
    assert_eq!(assemble_image(w, h, &forward), assemble_image(w, h, &scrambled));
}

#[test]
fn missing_columns_stay_black() {
    let cols = vec![column(1, 2)];
    let img = assemble_image(3, 2, &cols);
    assert_eq!(img[0], [0, 0, 0]);
    assert_eq!(img[2], [0, 0, 0]);
    assert_eq!(img[1], [1, 1, 11]);
}
