use ipts::ipts::{IptsState, IPTS_BUFFERS};
use ipts::singletouch::singletouch_position;
use ipts::{DeviceInfo, HeaderAndBuffer};

fn driver_buffer() -> Vec<u8> {
    let mut buf = vec![0u8; 16384];
    buf[0..4].copy_from_slice(&3u32.to_le_bytes());
    buf[4..8].copy_from_slice(&3500u32.to_le_bytes());
    buf[8..12].copy_from_slice(&0x0102_0304u32.to_le_bytes());
    buf[64] = 0x0B;
    buf[65] = 0x77;
    buf[64 + 3499] = 0x55;
    buf[16383] = 0x99;
    buf
}

#[test]
fn header_fields_are_little_endian() {
    let buf = driver_buffer();
    let buf: &[u8; 16384] = buf.as_slice().try_into().unwrap();
    let h = HeaderAndBuffer::from(buf);
    assert_eq!(h.typ, 3);
    assert_eq!(h.size, 3500);
    assert_eq!(h.buffer, 0x0102_0304);
    assert_eq!(h.data[0], 0x0B);
    assert_eq!(h.data[1], 0x77);
    assert_eq!(h.data[16319], 0x99);
    assert!(h.is_heatmap());
    let frame = h.heatmap_frame();
    assert_eq!(frame[0], 0x0B);
    assert_eq!(frame[3499], 0x55);
}

#[test]
fn header_not_a_heatmap() {
    let mut buf = driver_buffer();
    buf[64] = 0x0C;
    let buf: &[u8; 16384] = buf.as_slice().try_into().unwrap();
    assert!(!HeaderAndBuffer::from(buf).is_heatmap());
}

#[test]
fn device_support() {
    assert!(DeviceInfo::new(0x45E, 0x99F, 19088656, 16384, 10).is_supported());
    assert!(!DeviceInfo::new(0x45E, 0x99F, 19088656, 16384, 9).is_supported());
    assert!(!DeviceInfo::default().is_supported());
    let d = DeviceInfo::default();
    assert_eq!((d.vendor, d.product, d.version, d.buffer_size, d.max_contacts), (0, 0, 0, 0, 0));
}

#[test]
fn buffers_rotate_with_the_doorbell() {
    let mut s = IptsState::new();
    assert_eq!(s.current_file(), 0);
    for i in 1..=20usize {
        s.send_feedback_impl();
        assert_eq!(s.current_file(), i % IPTS_BUFFERS);
    }
}

#[test]
fn doorbell_reset_follows_the_device_down() {
    let mut s = IptsState::new();
    for _ in 0..5 {
        s.send_feedback_impl();
    }
    assert_eq!(s.doorbell_impl(7), (7, false));
    assert_eq!(s.current_file(), 5);
    assert_eq!(s.doorbell_impl(2), (2, true));
    assert_eq!(s.current_file(), 2);
}

#[test]
fn waiting_backs_off() {
    let mut s = IptsState::new();
    s.begin_wait_for_doorbell(true);
    let mut delays = Vec::new();
    for _ in 0..17 {
        delays.push(s.keep_waiting_for_doorbell(0).unwrap());
    }
    let expected: Vec<u64> = (2..=16).chain([16, 16]).collect();
    assert_eq!(delays, expected);
    assert_eq!(s.keep_waiting_for_doorbell(1), None);
    s.begin_wait_for_doorbell(false);
    assert_eq!(s.keep_waiting_for_doorbell(0), Some(16));
}

#[test]
fn singletouch_reports() {
    use_singletouch();
}

fn use_singletouch() {
    let mut buf = vec![0u8; 16384];
    buf[0..4].copy_from_slice(&3u32.to_le_bytes());
    buf[4..8].copy_from_slice(&6u32.to_le_bytes());
    buf[64] = 0x40;
    buf[65] = 1;
    buf[66..68].copy_from_slice(&16384u16.to_le_bytes());
    buf[68..70].copy_from_slice(&32767u16.to_le_bytes());
    let b: &[u8; 16384] = buf.as_slice().try_into().unwrap();
    assert_eq!(singletouch_position(&HeaderAndBuffer::from(b)), Some(Some((1368, 1823))));
    buf[65] = 0;
    let b: &[u8; 16384] = buf.as_slice().try_into().unwrap();
    assert_eq!(singletouch_position(&HeaderAndBuffer::from(b)), Some(None));
    buf[64] = 0x0B;
    let b: &[u8; 16384] = buf.as_slice().try_into().unwrap();
    assert_eq!(singletouch_position(&HeaderAndBuffer::from(b)), None);
}
