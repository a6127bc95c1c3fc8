use color_histogram::histogram::Histogram;
use color_histogram::quantize::bucket_index;

fn count_total(h: &Histogram) -> usize {
    h.counts.iter().sum()
}

#[test]
fn new_histogram_is_zeroed() {
    let h = Histogram::new(8);
    assert_eq!(h.counts.len(), 32 * 32 * 32);
    assert_eq!(h.pixels, 0);
    assert!(h.counts.iter().all(|&c| c == 0));
}

#[test]
fn counts_always_sum_to_pixel_total() {
    let mut h = Histogram::new(8);
    assert_eq!(count_total(&h), h.pixels);
    let pixels = [(0u8, 0u8, 0u8), (1, 1, 1), (200, 13, 77), (200, 13, 77), (255, 255, 255)];
    for (i, &(r, g, b)) in pixels.iter().enumerate() {
        h.add(r, g, b);
        assert_eq!(h.pixels, i + 1);
        assert_eq!(count_total(&h), h.pixels);
    }
}

#[test]
fn accumulation_order_does_not_matter() {
    let pixels = vec![(3u8, 14u8, 15u8), (9, 26, 53), (58, 97, 93), (3, 14, 15), (238, 46, 26)];
    let mut forward = Histogram::new(8);
    forward.add_all(&pixels);
    let mut backward = Histogram::new(8);
    let mut rev = pixels.clone();
    rev.reverse();
    backward.add_all(&rev);
    assert_eq!(forward.counts, backward.counts);
    assert_eq!(forward.pixels, backward.pixels);
    assert_eq!(forward.histo(), backward.histo());
}

#[test]
fn rank_covers_whole_bucket_space() {
    let mut h = Histogram::new(8);
    h.add(4, 4, 4);
    let ranked = h.histo();
    assert_eq!(ranked.len(), 32 * 32 * 32);
    // Zero-count buckets are included.
    assert!(ranked.iter().filter(|e| e.0 == 0).count() == 32 * 32 * 32 - 1);
}

#[test]
fn rank_sorts_by_count_then_bucket_index() {
    let mut h = Histogram::new(8);
    // Two distinct colors with intentionally equal counts.
    h.add(16, 0, 0);
    h.add(16, 0, 0);
    h.add(0, 16, 0);
    h.add(0, 16, 0);
    h.add(80, 80, 80);
    let ranked = h.histo();
    for w in ranked.windows(2) {
        let (a, b) = (&w[0], &w[1]);
        assert!(a.0 >= b.0);
        if a.0 == b.0 {
            let ka = bucket_index(a.1, a.2, a.3, 8);
            let kb = bucket_index(b.1, b.2, b.3, 8);
            assert!(ka < kb);
        }
    }
    // The tied buckets come in ascending index order: (0,16,0) sits at a
    // lower row-major index than (16,0,0).
    assert_eq!(ranked[0], (2, 0, 16, 0));
    assert_eq!(ranked[1], (2, 16, 0, 0));
    assert_eq!(ranked[2], (1, 80, 80, 80));
}

#[test]
fn end_to_end_two_by_two_image() {
    // One 2x2 image: (0,0,0), (0,0,0), (255,255,255), (8,0,0), factor 8.
    let mut h = Histogram::new(8);
    h.add_all(&vec![(0, 0, 0), (0, 0, 0), (255, 255, 255), (8, 0, 0)]);
    assert_eq!(h.pixels, 4);
    assert_eq!(h.counts[0], 2);
    assert_eq!(h.counts[bucket_index(255, 255, 255, 8)], 1);
    assert_eq!(h.counts[bucket_index(8, 0, 0, 8)], 1);
    let ranked = h.histo();
    assert_eq!(ranked.len(), 32768);
    // The count-2 bucket first, then the two count-1 buckets by ascending
    // bucket index, then every remaining bucket with count 0, ascending.
    assert_eq!(ranked[0], (2, 0, 0, 0));
    assert_eq!(ranked[1], (1, 8, 0, 0));
    assert_eq!(ranked[2], (1, 248, 248, 248));
    assert_eq!(ranked[3], (0, 0, 0, 8));
    assert_eq!(ranked[32767], (0, 248, 248, 240));
    assert!(ranked[3..].iter().all(|e| e.0 == 0));
    let zero_indices: Vec<usize> =
        ranked[3..].iter().map(|e| bucket_index(e.1, e.2, e.3, 8)).collect();
    assert!(zero_indices.windows(2).all(|w| w[0] < w[1]));
}

#[test]
fn failed_decode_contributes_nothing() {
    // One valid file and one corrupt file: only the valid one counts,
    // and processing carries on.
    let valid: Option<Vec<(u8, u8, u8)>> = Some(vec![(10, 10, 10), (10, 10, 10), (0, 200, 0)]);
    let corrupt: Option<Vec<(u8, u8, u8)>> = None;
    let mut h = Histogram::new(8);
    h.add_decoded(&valid);
    h.add_decoded(&corrupt);
    assert_eq!(h.pixels, 3);
    assert_eq!(count_total(&h), 3);
    assert_eq!(h.counts[bucket_index(10, 10, 10, 8)], 2);
    assert_eq!(h.counts[bucket_index(0, 200, 0, 8)], 1);

    let mut only_valid = Histogram::new(8);
    only_valid.add_decoded(&valid);
    assert_eq!(h.counts, only_valid.counts);
    assert_eq!(h.pixels, only_valid.pixels);
}
