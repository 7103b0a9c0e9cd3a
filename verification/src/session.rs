//! The decisions of the QUIC server and client around the report transport:
//! which handshakes to accept, and what a received datagram asks of the input
//! multiplexer.
use crate::config::{dns_name_valid, is_valid_dns_name};
use crate::datagram::{lifted_pos, offer_ok, receive_spec, ReportTransport, TransportView};
use crate::pointers::pointers::follows;
use crate::pointers::report::Report;
use crate::DATAGRAM_SIZE;
use vstd::prelude::*;

verus! {

/// The tracker's events may be offered to a transport that last offered the
/// tracker's previous events, except where a slot goes from `UpDown` straight
/// to `Move`, which the transport's own check refuses, and where a counter is full.
pub proof fn lemma_tracker_events_offerable(v: TransportView, next: Seq<Report>)
    requires
        v.reports.len() == 10,
        next.len() == 10,
        forall|s: int| 0 <= s < 10 ==> follows(v.reports[s], #[trigger] next[s]),
        forall|s: int| 0 <= s < 10 ==> !(v.reports[s] is UpDown && #[trigger] next[s] is Move),
        v.last_no < u64::MAX,
        forall|s: int|
            0 <= s < 10 && (#[trigger] next[s] is Up || next[s] is UpDown) ==> v.ids[s] < u64::MAX,
    ensures
        offer_ok(v, next),
{
}

/// The application protocol (ALPN) both ends speak.
pub open spec fn alpn_ipts() -> Seq<u8> {
    seq![105u8, 112u8, 116u8, 115u8]
}

/// Why a handshake is refused.
#[derive(Debug, PartialEq, Eq, Structural, Clone, Copy)]
pub enum HandshakeError {
    MissingSni,
    WrongSni,
    MissingAlpn,
    WrongAlpn,
}

fn is_alpn_ipts(protocol: &Vec<u8>) -> (r: bool)
    ensures
        r == (protocol@ == alpn_ipts()),
{
    let r = protocol.len() == 4 && protocol[0] == 105 && protocol[1] == 112 && protocol[2] == 116
        && protocol[3] == 115;
    proof {
        if protocol@.len() == 4 {
            if r {
                assert(protocol@ =~= alpn_ipts());
            } else {
                assert(protocol@[0] != 105 || protocol@[1] != 112 || protocol@[2] != 116
                    || protocol@[3] != 115);
            }
        }
    }
    r
}

/// The client checks the server's handshake: it must speak `ipts`.
pub fn check_client_handshake(protocol: &Option<Vec<u8>>) -> (r: Result<(), HandshakeError>)
    ensures
        r == match protocol {
            None => Err(HandshakeError::MissingAlpn),
            Some(p) => if p@ == alpn_ipts() {
                Ok(())
            } else {
                Err(HandshakeError::WrongAlpn)
            },
        },
{
    match protocol {
        None => Err(HandshakeError::MissingAlpn),
        Some(p) => if is_alpn_ipts(p) {
            Ok(())
        } else {
            Err(HandshakeError::WrongAlpn)
        },
    }
}

/// The server checks a client's handshake: it must name the server (SNI) as
/// configured, then speak `ipts`.
pub fn check_server_handshake(
    server_name: &Option<String>,
    protocol: &Option<Vec<u8>>,
    expected_server_name: &String,
) -> (r: Result<(), HandshakeError>)
    ensures
        r == match server_name {
            None => Err(HandshakeError::MissingSni),
            Some(n) => if n@ != expected_server_name@ {
                Err(HandshakeError::WrongSni)
            } else {
                match protocol {
                    None => Err(HandshakeError::MissingAlpn),
                    Some(p) => if p@ == alpn_ipts() {
                        Ok(())
                    } else {
                        Err(HandshakeError::WrongAlpn)
                    },
                }
            },
        },
{
    match server_name {
        None => Err(HandshakeError::MissingSni),
        Some(n) => {
            if !(*n == *expected_server_name) {
                return Err(HandshakeError::WrongSni);
            }
            check_client_handshake(protocol)
        },
    }
}

/// Whether `webpki` parses `cert` as a DER end-entity certificate.
pub uninterp spec fn cert_parses(cert: Seq<u8>) -> bool;

/// Whether `webpki` finds the DER end-entity certificate `cert` valid for
/// the DNS name `name`.
pub uninterp spec fn cert_valid_for_name(cert: Seq<u8>, name: Seq<char>) -> bool;

/// `webpki::EndEntityCert::try_from` of the `webpki` crate: whether it parses
/// `cert` (which depends on the bytes alone).
#[verifier::external_body]
fn end_entity_parses(cert: &[u8]) -> (r: bool)
    ensures
        r == cert_parses(cert@),
{
    webpki::EndEntityCert::try_from(cert).is_ok()
}

/// `webpki::EndEntityCert::verify_is_valid_for_dns_name` of the `webpki`
/// crate, on the certificate parsed from `cert` and the name `name`: whether
/// the certificate is valid for the name (which depends on the two alone).
#[verifier::external_body]
fn cert_valid_for(cert: &[u8], name: &str) -> (r: bool)
    requires
        cert_parses(cert@),
        dns_name_valid(name@),
    ensures
        r == cert_valid_for_name(cert@, name@),
{
    match (webpki::EndEntityCert::try_from(cert), webpki::DnsNameRef::try_from_ascii_str(name)) {
        (Ok(c), Ok(n)) => c.verify_is_valid_for_dns_name(n).is_ok(),
        _ => false,
    }
}

/// A peer's certificate is accepted when it is valid for one of the names
/// that the peer may have.
pub fn peer_cert_accepted(cert: &[u8], names: &Vec<String>) -> (r: bool)
    requires
        cert_parses(cert@),
        forall|i: int| 0 <= i < names@.len() ==> dns_name_valid(#[trigger] names@[i]@),
    ensures
        r == exists|i: int| 0 <= i < names@.len() && cert_valid_for_name(cert@, #[trigger] names@[i]@),
{
    let mut i: usize = 0;
    while i < names.len()
        invariant
            0 <= i <= names@.len(),
            cert_parses(cert@),
            forall|j: int| 0 <= j < names@.len() ==> dns_name_valid(#[trigger] names@[j]@),
            forall|j: int| 0 <= j < i ==> !cert_valid_for_name(cert@, #[trigger] names@[j]@),
        decreases names@.len() - i,
    {
        assert(dns_name_valid(names@[i as int]@));
        if cert_valid_for(cert, names[i].as_str()) {
            return true;
        }
        i += 1;
    }
    false
}

/// Checks a peer's certificate against the names the peer may have: `None`
/// when the certificate does not parse or a name is no DNS name, else
/// whether the certificate is accepted.
pub fn check_peer_cert(cert: &[u8], names: &Vec<String>) -> (r: Option<bool>)
    ensures
        r == if cert_parses(cert@) && forall|i: int|
            0 <= i < names@.len() ==> dns_name_valid(#[trigger] names@[i]@) {
            Some(
                exists|i: int|
                    0 <= i < names@.len() && cert_valid_for_name(cert@, #[trigger] names@[i]@),
            )
        } else {
            None
        },
{
    let mut i: usize = 0;
    while i < names.len()
        invariant
            0 <= i <= names@.len(),
            forall|j: int| 0 <= j < i ==> dns_name_valid(#[trigger] names@[j]@),
        decreases names@.len() - i,
    {
        if !is_valid_dns_name(names[i].as_str()) {
            return None;
        }
        i += 1;
    }
    if !end_entity_parses(cert) {
        return None;
    }
    Some(peer_cert_accepted(cert, names))
}

/// What the server does with the input device after a datagram.
#[derive(Debug, PartialEq, Eq, Structural, Clone, Copy)]
pub enum MuxAction {
    /// Nothing to pass on.
    Nothing,
    /// The connection stopped touching: give the device back.
    Release,
    /// Pass the reports on, the connection holding the device.
    Send,
    /// The connection started touching: take the device over and pass the reports on.
    ClaimSend,
}

/// Some slot has an event.
pub open spec fn any_event(reports: Seq<Report>) -> bool {
    exists|i: int| 0 <= i < 10 && !(#[trigger] reports[i] is Idle)
}

/// The action for a connection that was (not) touching and now has `reports`.
pub open spec fn mux_action(was_active: bool, reports: Seq<Report>) -> MuxAction {
    if !any_event(reports) {
        if was_active {
            MuxAction::Release
        } else {
            MuxAction::Nothing
        }
    } else if was_active {
        MuxAction::Send
    } else {
        MuxAction::ClaimSend
    }
}

fn are_events_active(events: &[Report; 10]) -> (r: bool)
    ensures
        r == any_event(events@),
{
    let mut i: usize = 0;
    while i < 10
        invariant
            0 <= i <= 10,
            forall|j: int| 0 <= j < i ==> #[trigger] events@[j] is Idle,
        decreases 10 - i,
    {
        match events[i] {
            Report::Idle => {},
            _ => {
                return true;
            },
        }
        i += 1;
    }
    false
}

/// The server side of one client connection: its transport and whether its
/// last reports had any event.
pub struct InputConnection {
    pub transport: ReportTransport,
    pub was_active: bool,
}

impl InputConnection {
    pub fn new() -> (r: InputConnection)
        ensures
            r.transport@.last_no == 0,
            r.transport@.reports == Seq::new(10, |i: int| Report::Idle),
            r.transport@.ids == Seq::new(10, |i: int| 0u64),
            r.transport@.positions == Seq::new(10, |i: int| lifted_pos()),
            !r.was_active,
    {
        InputConnection { transport: ReportTransport::new(), was_active: false }
    }

    /// Takes a datagram: `Err(())` when the client misbehaved, otherwise the
    /// action for the input device (`Nothing` for a stale datagram); the
    /// reports to pass on are then those of the transport.
    pub fn receive(&mut self, data: &[u8; DATAGRAM_SIZE]) -> (r: Result<MuxAction, ()>)
        ensures
            final(self).transport@ == receive_spec(old(self).transport@, data@).1,
            receive_spec(old(self).transport@, data@).0 matches Err(_) ==> r == Err::<MuxAction, ()>(
                ()) && final(self).was_active == old(self).was_active,
            receive_spec(old(self).transport@, data@).0 == Ok::<bool, ()>(false) ==> r == Ok::<
                MuxAction,
                (),
            >(MuxAction::Nothing) && final(self).was_active == old(self).was_active,
            receive_spec(old(self).transport@, data@).0 == Ok::<bool, ()>(true) ==> {
                let reports = final(self).transport@.reports;
                &&& r == Ok::<MuxAction, ()>(mux_action(old(self).was_active, reports))
                &&& final(self).was_active == any_event(reports)
            },
    {
        if !self.transport.deserialize(data)? {
            return Ok(MuxAction::Nothing);
        }
        let reports = self.transport.take();
        let was_active = self.was_active;
        let is_active = are_events_active(reports);
        self.was_active = is_active;
        if !is_active {
            if was_active {
                return Ok(MuxAction::Release);
            }
            return Ok(MuxAction::Nothing);
        }
        if was_active {
            Ok(MuxAction::Send)
        } else {
            Ok(MuxAction::ClaimSend)
        }
    }
}

} // verus!
