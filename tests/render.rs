use raytracer::render::{
    assemble, chunk_columns, chunk_count, chunk_size, default_chunk_count, fill_chunk, nearest_hit,
    pixel_value,
    ray_index,
    AssembleError, BACKGROUND,
};

/// Builds each chunk the way a worker does: column by column, each column
/// top to bottom, with `value(x, y)` per pixel.
fn chunk_parts(width: u32, height: u32, chunks: u32, value: &dyn Fn(u32, u32) -> u8) -> Vec<Option<Vec<u8>>> {
    let size = chunk_size(width, chunks);
    (0..chunks).map(|step| Some(fill_chunk(step, size, width, height, &value))).collect()
}

#[test]
fn chunk_count_is_four_per_cpu() {
    assert_eq!(chunk_count(1), 4);
    assert_eq!(chunk_count(6), 24);
}

#[test]
fn default_chunk_count_uses_the_machine() {
    let n = default_chunk_count();
    assert!(n >= 4);
    assert_eq!(n % 4, 0);
}

#[test]
fn chunk_size_rounds_up() {
    assert_eq!(chunk_size(250, 8), 32);
    assert_eq!(chunk_size(256, 8), 32);
    assert_eq!(chunk_size(3, 8), 1);
    assert_eq!(chunk_size(0, 4), 0);
    assert_eq!(chunk_size(u32::MAX, 2), 2_147_483_648);
}

#[test]
fn chunk_columns_cover_the_width() {
    assert_eq!(chunk_columns(0, 32, 250), (0, 32));
    assert_eq!(chunk_columns(7, 32, 250), (224, 250));
    assert_eq!(chunk_columns(8, 32, 250), (250, 250));
    let (w, n) = (250u32, 24u32);
    let size = chunk_size(w, n);
    let mut next = 0;
    for step in 0..n {
        let (s, e) = chunk_columns(step, size, w);
        assert_eq!(s, next);
        assert!(e >= s);
        next = e;
    }
    assert_eq!(next, w);
}

#[test]
fn ray_index_is_column_major() {
    assert_eq!(ray_index(0, 0, 10), 0);
    assert_eq!(ray_index(2, 3, 10), 23);
    assert_eq!(ray_index(249, 249, 250), 62_499);
}

#[test]
fn assemble_places_every_pixel() {
    let (w, h, n) = (5u32, 3u32, 2u32);
    let parts = chunk_parts(w, h, n, &|x, y| (10 * y + x) as u8);
    let img = assemble(w, h, n, &parts).unwrap();
    assert_eq!(img.len(), 15);
    for y in 0..h {
        for x in 0..w {
            assert_eq!(img[(y * w + x) as usize], (10 * y + x) as u8);
        }
    }
}

#[test]
fn assemble_with_more_chunks_than_columns() {
    let (w, h, n) = (3u32, 2u32, 8u32);
    let parts = chunk_parts(w, h, n, &|x, y| (x + 7 * y) as u8);
    let img = assemble(w, h, n, &parts).unwrap();
    assert_eq!(img, vec![0, 1, 2, 7, 8, 9]);
}

#[test]
fn assemble_is_deterministic() {
    let (w, h, n) = (7u32, 4u32, 3u32);
    let parts = chunk_parts(w, h, n, &|x, y| (x * 31 + y * 17) as u8);
    let a = assemble(w, h, n, &parts).unwrap();
    let b = assemble(w, h, n, &parts.clone()).unwrap();
    assert_eq!(a, b);
}

#[test]
fn missing_worker_fails_the_render() {
    let (w, h, n) = (6u32, 2u32, 3u32);
    let mut parts = chunk_parts(w, h, n, &|_, _| 9);
    parts[1] = None;
    assert_eq!(assemble(w, h, n, &parts), Err(AssembleError::WorkerFailed(1)));
}

#[test]
fn short_chunk_fails_the_render() {
    let (w, h, n) = (6u32, 2u32, 3u32);
    let mut parts = chunk_parts(w, h, n, &|_, _| 9);
    parts[2].as_mut().unwrap().pop();
    assert_eq!(assemble(w, h, n, &parts), Err(AssembleError::WrongLength(2)));
    parts[0] = None;
    assert_eq!(assemble(w, h, n, &parts), Err(AssembleError::WorkerFailed(0)));
}

#[test]
fn wrong_number_of_chunks_fails() {
    let parts = chunk_parts(6, 2, 3, &|_, _| 9);
    assert_eq!(assemble(6, 2, 4, &parts), Err(AssembleError::WrongCount));
}

#[test]
fn pixel_value_keeps_background_apart() {
    assert_eq!(pixel_value(None), BACKGROUND);
    assert_eq!(pixel_value(Some(0)), 1);
    assert_eq!(pixel_value(Some(200)), 200);
    assert_eq!(pixel_value(Some(255)), 255);
}

#[test]
fn scene_with_no_hits_is_all_background() {
    let (w, h, n) = (9u32, 5u32, 4u32);
    // every pixel has candidates, and no candidate is hit
    let candidates: Vec<usize> = vec![0, 1, 2, 1];
    let miss = |_i: usize| -> Option<f64> { None };
    let closer = |a: f64, b: f64| a < b;
    let shade = |_x: u32, _y: u32| {
        let level = nearest_hit(&candidates, &miss, &closer).map(|d| (255.0 - d) as u8);
        pixel_value(level)
    };
    let parts = chunk_parts(w, h, n, &shade);
    let img = assemble(w, h, n, &parts).unwrap();
    assert!(img.iter().all(|&p| p == BACKGROUND));
}

#[test]
fn nearest_hit_keeps_the_smallest() {
    let dist: Vec<Option<u32>> = vec![Some(7), None, Some(3), Some(9), Some(3)];
    let hit = |i: usize| dist[i];
    let closer = |a: u32, b: u32| a < b;
    assert_eq!(nearest_hit(&vec![0, 1, 2, 3, 4], &hit, &closer), Some(3));
    assert_eq!(nearest_hit(&vec![3, 0, 3], &hit, &closer), Some(7));
    assert_eq!(nearest_hit(&vec![1, 1], &hit, &closer), None);
    assert_eq!(nearest_hit(&Vec::<usize>::new(), &hit, &closer), None);
}

#[test]
fn nearest_hit_over_distances() {
    // two triangles hit at 5.0 and 2.5, one behind the origin filtered out
    let t: Vec<f64> = vec![5.0, -1.0, 2.5];
    let hit = |i: usize| Some(t[i]).filter(|&d| d > 0.0);
    let closer = |a: f64, b: f64| a < b;
    assert_eq!(nearest_hit(&vec![0, 1, 2, 0], &hit, &closer), Some(2.5));
    assert_eq!(nearest_hit(&vec![1], &hit, &closer), None);
}

#[test]
fn fill_chunk_lists_columns_top_to_bottom() {
    // width 5 in 2 chunks of 3 columns: chunk 1 holds columns 3 and 4
    let v = fill_chunk(1, 3, 5, 2, &|x: u32, y: u32| (10 * x + y) as u8);
    assert_eq!(v, vec![30, 31, 40, 41]);
    assert!(fill_chunk(2, 3, 5, 2, &|x: u32, y: u32| (x + y) as u8).is_empty());
}
