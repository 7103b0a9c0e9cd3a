use ipts::quic::{alpn_protocol, transport_settings, trust_anchor};
use ipts::DATAGRAM_SIZE;

#[test]
fn server_and_client_settings() {
    let s = transport_settings(true);
    let c = transport_settings(false);
    assert_eq!(s.datagram_receive_buffer_size, Some(DATAGRAM_SIZE));
    assert_eq!(s.datagram_send_buffer_size, 0);
    assert_eq!(c.datagram_receive_buffer_size, None);
    assert_eq!(c.datagram_send_buffer_size, 168);
    for t in [s, c] {
        assert_eq!((t.max_concurrent_bidi_streams, t.max_concurrent_uni_streams), (0, 0));
        assert_eq!(t.max_idle_timeout_ms, 5000);
        assert_eq!(t.keep_alive_interval_ms, 1000);
        assert_eq!((t.stream_receive_window, t.receive_window, t.send_window), (0, 0, 0));
        assert_eq!((t.max_tlps, t.packet_threshold, t.persistent_congestion_threshold), (2, 10, 3));
        assert_eq!(t.initial_rtt_ms, 10);
        assert_eq!(t.crypto_buffer_size, 4096);
        assert!(!t.allow_spin);
    }
}

#[test]
fn protocol_and_anchor() {
    assert_eq!(alpn_protocol(), b"ipts".to_vec());
    let chain = vec![vec![1u8], vec![2u8, 2], vec![3u8, 3, 3]];
    assert_eq!(trust_anchor(&chain), &vec![3u8, 3, 3]);
}
