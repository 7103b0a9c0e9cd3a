//! The QUIC settings that the server and the client share: the transport
//! limits and timers, the application protocol, and which certificate of a
//! chain is trusted.
use crate::session::alpn_ipts;
use crate::DATAGRAM_SIZE;
use vstd::prelude::*;

verus! {

/// The transport settings of one end, times in milliseconds. (The loss
/// detection's time threshold, a factor of 2, is not among them.)
pub struct TransportSettings {
    pub max_concurrent_bidi_streams: u32,
    pub max_concurrent_uni_streams: u32,
    pub max_idle_timeout_ms: u64,
    pub stream_receive_window: u32,
    pub receive_window: u32,
    pub send_window: u64,
    pub max_tlps: u32,
    pub packet_threshold: u32,
    pub initial_rtt_ms: u64,
    pub persistent_congestion_threshold: u32,
    pub keep_alive_interval_ms: u64,
    pub crypto_buffer_size: usize,
    pub allow_spin: bool,
    pub datagram_receive_buffer_size: Option<usize>,
    pub datagram_send_buffer_size: usize,
}

/// The settings of the server (`server`) or the client: no streams at all,
/// a five-second idle timeout with a keep-alive every second, and datagrams
/// of one report frame flowing from the client to the server only.
pub fn transport_settings(server: bool) -> (r: TransportSettings)
    ensures
        r.max_concurrent_bidi_streams == 0,
        r.max_concurrent_uni_streams == 0,
        r.max_idle_timeout_ms == 5000,
        r.stream_receive_window == 0,
        r.receive_window == 0,
        r.send_window == 0,
        r.max_tlps == 2,
        r.packet_threshold == 10,
        r.initial_rtt_ms == 10,
        r.persistent_congestion_threshold == 3,
        r.keep_alive_interval_ms == 1000,
        r.crypto_buffer_size == 4096,
        !r.allow_spin,
        r.datagram_receive_buffer_size == if server {
            Some(DATAGRAM_SIZE)
        } else {
            None::<usize>
        },
        r.datagram_send_buffer_size == if server {
            0
        } else {
            DATAGRAM_SIZE
        },
{
    TransportSettings {
        max_concurrent_bidi_streams: 0,
        max_concurrent_uni_streams: 0,
        max_idle_timeout_ms: 5000,
        stream_receive_window: 0,
        receive_window: 0,
        send_window: 0,
        max_tlps: 2,
        packet_threshold: 10,
        initial_rtt_ms: 10,
        persistent_congestion_threshold: 3,
        keep_alive_interval_ms: 1000,
        crypto_buffer_size: 4096,
        allow_spin: false,
        datagram_receive_buffer_size: if server {
            Some(DATAGRAM_SIZE)
        } else {
            None
        },
        datagram_send_buffer_size: if server {
            0
        } else {
            DATAGRAM_SIZE
        },
    }
}

/// The application protocol both ends offer: `ipts`.
pub fn alpn_protocol() -> (r: Vec<u8>)
    ensures
        r@ == alpn_ipts(),
{
    let r = vec![105u8, 112u8, 116u8, 115u8];
    assert(r@ =~= alpn_ipts());
    r
}

/// The certificate of a chain of three that is trusted as the root: the last.
pub fn trust_anchor(certs: &Vec<Vec<u8>>) -> (r: &Vec<u8>)
    requires
        certs@.len() == 3,
    ensures
        r@ == certs@[2]@,
{
    &certs[2]
}

} // verus!
