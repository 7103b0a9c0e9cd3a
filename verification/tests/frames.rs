use ipts::pointers::network;
use ipts::tcp;
use ipts::Report;

fn sample() -> [Report; 10] {
    [
        Report::Down((1, 2)),
        Report::Idle,
        Report::Up,
        Report::UpDown((2735, 1823)),
        Report::Move((0x0102_0304, 0x0506_0708)),
        Report::Idle,
        Report::Idle,
        Report::Idle,
        Report::Idle,
        Report::Move((7, 9)),
    ]
}

#[test]
fn tcp_frame_layout() {
    let mut data = [0xAAu8; 98];
    tcp::serialize_reports(&sample(), &mut data);
    assert_eq!(&data[0..4], b"IPTS");
    assert_eq!(&data[94..98], b"IPTS");
    assert_eq!(&data[4..13], &[3, 0, 0, 0, 1, 0, 0, 0, 2]);
    assert_eq!(&data[13..22], &[0; 9]);
    assert_eq!(&data[22..31], &[1, 0, 0, 0, 0, 0, 0, 0, 0]);
    assert_eq!(&data[31..40], &[2, 0, 0, 0x0A, 0xAF, 0, 0, 0x07, 0x1F]);
    assert_eq!(&data[40..49], &[4, 1, 2, 3, 4, 5, 6, 7, 8]);
}

#[test]
fn tcp_frame_roundtrip() {
    let mut data = [0u8; 98];
    tcp::serialize_reports(&sample(), &mut data);
    let mut back = [Report::Up; 10];
    tcp::deserialize_reports(&data, &mut back);
    assert_eq!(back, sample());
}

#[test]
fn tcp_bad_magic_reads_idle() {
    let mut data = [0u8; 98];
    tcp::serialize_reports(&sample(), &mut data);
    data[97] = b'X';
    let mut back = [Report::Up; 10];
    tcp::deserialize_reports(&data, &mut back);
    assert_eq!(back, [Report::Idle; 10]);
}

#[test]
fn tcp_unknown_id_reads_idle() {
    let mut data = [0u8; 98];
    tcp::serialize_reports(&sample(), &mut data);
    data[4] = 9;
    let mut back = [Report::Up; 10];
    tcp::deserialize_reports(&data, &mut back);
    assert_eq!(back[0], Report::Idle);
    assert_eq!(back[3], Report::UpDown((2735, 1823)));
}

#[test]
fn network_frame_roundtrip() {
    let mut data = [0u8; 98];
    network::serialize_reports(&sample(), &mut data);
    assert_eq!(&data[0..4], b"IPTS");
    assert_eq!(&data[4..13], &[3, 0, 0, 0, 1, 0, 0, 0, 2]);
    let mut back = [Report::Idle; 10];
    network::deserialize_reports(&data, &mut back);
    assert_eq!(back, sample());
}

#[test]
fn network_reads_reports_whatever_the_magic() {
    let mut data = [0u8; 98];
    network::serialize_reports(&sample(), &mut data);
    data[0] = b'X';
    let mut back = [Report::Idle; 10];
    network::deserialize_reports(&data, &mut back);
    assert_eq!(back, sample());
}
