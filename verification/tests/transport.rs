use ipts::datagram::ReportTransport;
use ipts::session::{
    check_client_handshake, check_server_handshake, HandshakeError, InputConnection, MuxAction,
};
use ipts::{Report, DATAGRAM_SIZE};

fn idle_but(slot: usize, r: Report) -> [Report; 10] {
    let mut reports = [Report::Idle; 10];
    reports[slot] = r;
    reports
}

fn datagram(t: &ReportTransport) -> [u8; DATAGRAM_SIZE] {
    let mut d = [0u8; DATAGRAM_SIZE];
    t.serialize(&mut d);
    d
}

#[test]
fn datagram_layout() {
    let mut sender = ReportTransport::new();
    let reports = idle_but(0, Report::Down((10, 20)));
    assert!(sender.can_offer(&reports));
    sender.offer(&reports);
    let d = datagram(&sender);
    assert_eq!(&d[0..8], &[0, 0, 0, 0, 0, 0, 0, 1]);
    assert_eq!(&d[8..88], &[0u8; 80][..]);
    assert_eq!(&d[88..96], &[0, 0, 0, 10, 0, 0, 0, 20]);
    assert_eq!(&d[96..168], &[0xFFu8; 72][..]);
}

#[test]
fn datagram_roundtrip_through_a_touch() {
    let mut sender = ReportTransport::new();
    let mut receiver = ReportTransport::new();
    let steps = [
        idle_but(2, Report::Down((10, 20))),
        idle_but(2, Report::Move((11, 21))),
        idle_but(2, Report::UpDown((500, 600))),
        idle_but(2, Report::Up),
        [Report::Idle; 10],
    ];
    for step in steps.iter() {
        assert!(sender.can_offer(step));
        sender.offer(step);
        let d = datagram(&sender);
        assert_eq!(receiver.deserialize(&d), Ok(true));
        assert_eq!(receiver.take(), step);
    }
}

#[test]
fn datagram_stale_is_ignored() {
    let mut sender = ReportTransport::new();
    let mut receiver = ReportTransport::new();
    sender.offer(&idle_but(0, Report::Down((1, 1))));
    let first = datagram(&sender);
    sender.offer(&idle_but(0, Report::Move((300, 300))));
    let second = datagram(&sender);
    assert_eq!(receiver.deserialize(&second), Ok(true));
    assert_eq!(receiver.deserialize(&first), Ok(false));
    assert_eq!(receiver.deserialize(&second), Ok(false));
    assert_eq!(receiver.take(), &idle_but(0, Report::Down((300, 300))));
}

#[test]
fn datagram_missed_lift_reads_up_down() {
    let mut sender = ReportTransport::new();
    let mut receiver = ReportTransport::new();
    sender.offer(&idle_but(4, Report::Down((5, 5))));
    assert_eq!(receiver.deserialize(&datagram(&sender)), Ok(true));
    sender.offer(&idle_but(4, Report::Up));
    sender.offer(&idle_but(4, Report::Down((9, 9))));
    assert_eq!(receiver.deserialize(&datagram(&sender)), Ok(true));
    assert_eq!(receiver.take(), &idle_but(4, Report::UpDown((9, 9))));
}

#[test]
fn datagram_reserved_position_is_misbehaviour() {
    let mut receiver = ReportTransport::new();
    let mut d = [0xFFu8; DATAGRAM_SIZE];
    d[0..8].copy_from_slice(&[0, 0, 0, 0, 0, 0, 0, 1]);
    d[8..88].copy_from_slice(&[0u8; 80]);
    d[88..96].copy_from_slice(&[0, 0, 0x0B, 0xB8, 0, 0, 0, 5]);
    assert_eq!(receiver.deserialize(&d), Err(()));
}

#[test]
fn datagram_id_going_back_is_misbehaviour() {
    let mut sender = ReportTransport::new();
    let mut receiver = ReportTransport::new();
    sender.offer(&idle_but(1, Report::Down((5, 5))));
    sender.offer(&idle_but(1, Report::Up));
    assert_eq!(receiver.deserialize(&datagram(&sender)), Ok(true));
    let mut d = datagram(&sender);
    d[7] = 9;
    d[23] = 0;
    assert_eq!(receiver.deserialize(&d), Err(()));
}

#[test]
fn datagram_lift_without_new_id_is_misbehaviour() {
    let mut sender = ReportTransport::new();
    let mut receiver = ReportTransport::new();
    sender.offer(&idle_but(1, Report::Down((5, 5))));
    assert_eq!(receiver.deserialize(&datagram(&sender)), Ok(true));
    let mut d = datagram(&sender);
    d[7] = 2;
    d[96..104].copy_from_slice(&[0xFF; 8]);
    assert_eq!(receiver.deserialize(&d), Err(()));
}

#[test]
fn offer_refuses_impossible_transitions() {
    let t = ReportTransport::new();
    assert!(!t.can_offer(&idle_but(0, Report::Up)));
    assert!(!t.can_offer(&idle_but(0, Report::Move((1, 1)))));
    assert!(t.can_offer(&[Report::Idle; 10]));
}

#[test]
fn handshakes() {
    assert_eq!(check_client_handshake(&Some(b"ipts".to_vec())), Ok(()));
    assert_eq!(check_client_handshake(&None), Err(HandshakeError::MissingAlpn));
    assert_eq!(check_client_handshake(&Some(b"http".to_vec())), Err(HandshakeError::WrongAlpn));
    let name = String::from("server.local");
    assert_eq!(
        check_server_handshake(&Some(String::from("server.local")), &Some(b"ipts".to_vec()), &name),
        Ok(())
    );
    assert_eq!(
        check_server_handshake(&None, &Some(b"ipts".to_vec()), &name),
        Err(HandshakeError::MissingSni)
    );
    assert_eq!(
        check_server_handshake(&Some(String::from("other")), &Some(b"ipts".to_vec()), &name),
        Err(HandshakeError::WrongSni)
    );
    assert_eq!(
        check_server_handshake(&Some(String::from("server.local")), &None, &name),
        Err(HandshakeError::MissingAlpn)
    );
}

#[test]
fn connection_actions() {
    let mut sender = ReportTransport::new();
    let mut conn = InputConnection::new();
    sender.offer(&idle_but(0, Report::Down((1, 2))));
    assert_eq!(conn.receive(&datagram(&sender)), Ok(MuxAction::ClaimSend));
    assert_eq!(conn.receive(&datagram(&sender)), Ok(MuxAction::Nothing));
    sender.offer(&idle_but(0, Report::Move((100, 200))));
    assert_eq!(conn.receive(&datagram(&sender)), Ok(MuxAction::Send));
    sender.offer(&idle_but(0, Report::Up));
    assert_eq!(conn.receive(&datagram(&sender)), Ok(MuxAction::Send));
    sender.offer(&[Report::Idle; 10]);
    assert_eq!(conn.receive(&datagram(&sender)), Ok(MuxAction::Release));
    sender.offer(&[Report::Idle; 10]);
    assert_eq!(conn.receive(&datagram(&sender)), Ok(MuxAction::Nothing));
}

#[test]
fn datagram_loss_and_reordering() {
    let mut sender = ReportTransport::new();
    let mut receiver = ReportTransport::new();
    let steps = [
        idle_but(3, Report::Down((10, 10))),
        idle_but(3, Report::Move((40, 10))),
        idle_but(3, Report::Up),
        idle_but(3, Report::Down((70, 70))),
        idle_but(3, Report::UpDown((90, 90))),
        idle_but(3, Report::Move((120, 90))),
    ];
    let mut sent = Vec::new();
    for step in steps.iter() {
        sender.offer(step);
        sent.push(datagram(&sender));
    }
    assert_eq!(receiver.deserialize(&sent[1]), Ok(true));
    assert_eq!(receiver.take(), &idle_but(3, Report::Down((40, 10))));
    assert_eq!(receiver.deserialize(&sent[4]), Ok(true));
    assert_eq!(receiver.take(), &idle_but(3, Report::UpDown((90, 90))));
    assert_eq!(receiver.deserialize(&sent[2]), Ok(false));
    assert_eq!(receiver.deserialize(&sent[5]), Ok(true));
    assert_eq!(receiver.take(), &idle_but(3, Report::Move((120, 90))));
}
