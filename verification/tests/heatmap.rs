use ipts::get_heatmap;

/// A 3500-byte touch frame whose heatmap starts and ends with 0xB4.
fn frame() -> Vec<u8> {
    let mut data = vec![0u8; 3500];
    for (i, b) in data.iter_mut().enumerate() {
        *b = (i % 251) as u8;
    }
    data[26] = 0xB4;
    data[26 + 44 * 64 - 1] = 0xB4;
    data
}

#[test]
fn heatmap_it_works() {
    let data = frame();
    let data: &[u8; 3500] = &data.try_into().unwrap();
    let result = get_heatmap(data);
    assert_eq!(*result.first().unwrap(), 0xB4);
    assert_eq!(*result.last().unwrap(), 0xB4);
    assert_eq!(result.len(), 44 * 64);
}

#[test]
fn heatmap_is_the_window_from_offset_26() {
    let data = frame();
    let data: &[u8; 3500] = &data.try_into().unwrap();
    let result = get_heatmap(data);
    assert_eq!(&result[..], &data[26..26 + 2816]);
}
