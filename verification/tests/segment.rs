use ipts::segment::heatmap_touch_sums;

fn blank() -> [u8; 2816] {
    [0xC0; 2816]
}

fn fill(h: &mut [u8; 2816], rows: std::ops::Range<usize>, cols: std::ops::Range<usize>, v: u8) {
    for r in rows {
        for c in cols.clone() {
            h[r * 64 + c] = v;
        }
    }
}

#[test]
fn no_touch() {
    assert_eq!(heatmap_touch_sums(&blank()), Some(vec![]));
}

#[test]
fn one_square_touch() {
    let mut h = blank();
    fill(&mut h, 10..13, 20..23, 0x50);
    assert_eq!(heatmap_touch_sums(&h), Some(vec![(864, 18144, 9504)]));
}

#[test]
fn deep_pixels_weigh_as_signed_bytes() {
    let mut h = blank();
    fill(&mut h, 30..33, 40..44, 0x00);
    fill(&mut h, 2..4, 5..7, 0x90);
    assert_eq!(
        heatmap_touch_sums(&h),
        Some(vec![(-960, -39840, -29760), (128, 704, 320)])
    );
}

#[test]
fn unsettled_blob_is_no_touch() {
    let mut h = blank();
    fill(&mut h, 20..21, 0..64, 0x10);
    h[5 * 64 + 5] = 0x80;
    assert_eq!(heatmap_touch_sums(&h), Some(vec![(48, 240, 240)]));
}

#[test]
fn more_than_ten_touches() {
    let mut h = blank();
    for k in 0..11 {
        h[(k * 4) * 64 + k * 5] = 0x80;
    }
    assert_eq!(heatmap_touch_sums(&h), None);
    h[40 * 64 + 50] = 0xC0;
    assert_eq!(heatmap_touch_sums(&h).map(|v| v.len()), Some(10));
}

#[test]
fn left_edge_reaches_right_edge_of_next_row() {
    let mut h = blank();
    h[5 * 64] = 0x80;
    h[6 * 64 + 63] = 0x70;
    assert_eq!(heatmap_touch_sums(&h), Some(vec![(112, 4032, 624)]));
}
