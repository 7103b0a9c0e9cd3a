use ipts::session::check_peer_cert;

/// A self-signed certificate for `client.example.com`, DER-encoded.
const CLIENT_CERT: [u8; 409] = [
    0x30, 0x82, 0x01, 0x95, 0x30, 0x82, 0x01, 0x3C, 0xA0, 0x03, 0x02, 0x01, 0x02, 0x02, 0x14, 0x00,
    0xBE, 0x58, 0xC4, 0x57, 0x08, 0xA9, 0xE4, 0x5E, 0x18, 0xE8, 0x91, 0x35, 0xBE, 0x2F, 0x09, 0x8F,
    0x83, 0x87, 0x05, 0x30, 0x0A, 0x06, 0x08, 0x2A, 0x86, 0x48, 0xCE, 0x3D, 0x04, 0x03, 0x02, 0x30,
    0x11, 0x31, 0x0F, 0x30, 0x0D, 0x06, 0x03, 0x55, 0x04, 0x03, 0x0C, 0x06, 0x63, 0x6C, 0x69, 0x65,
    0x6E, 0x74, 0x30, 0x1E, 0x17, 0x0D, 0x32, 0x36, 0x31, 0x31, 0x31, 0x39, 0x31, 0x33, 0x31, 0x39,
    0x31, 0x31, 0x5A, 0x17, 0x0D, 0x33, 0x36, 0x31, 0x31, 0x31, 0x36, 0x31, 0x33, 0x31, 0x39, 0x31,
    0x31, 0x5A, 0x30, 0x11, 0x31, 0x0F, 0x30, 0x0D, 0x06, 0x03, 0x55, 0x04, 0x03, 0x0C, 0x06, 0x63,
    0x6C, 0x69, 0x65, 0x6E, 0x74, 0x30, 0x59, 0x30, 0x13, 0x06, 0x07, 0x2A, 0x86, 0x48, 0xCE, 0x3D,
    0x02, 0x01, 0x06, 0x08, 0x2A, 0x86, 0x48, 0xCE, 0x3D, 0x03, 0x01, 0x07, 0x03, 0x42, 0x00, 0x04,
    0x96, 0x27, 0x15, 0x13, 0x43, 0x23, 0x71, 0xC7, 0xF2, 0x5E, 0xEA, 0x31, 0xF9, 0xC8, 0x51, 0x16,
    0x0D, 0xB5, 0x95, 0x39, 0xD3, 0x19, 0x16, 0x01, 0x9F, 0x3F, 0x07, 0x35, 0x1D, 0x3B, 0x36, 0x2F,
    0xBD, 0x4B, 0x22, 0x91, 0x96, 0x10, 0xD4, 0xC1, 0x5C, 0x24, 0xF3, 0x3C, 0x79, 0x72, 0x3D, 0x09,
    0x70, 0x4F, 0xB9, 0x4D, 0x06, 0x41, 0xA4, 0x06, 0x36, 0xA6, 0x93, 0x5A, 0x02, 0x6E, 0x78, 0xC0,
    0xA3, 0x72, 0x30, 0x70, 0x30, 0x1D, 0x06, 0x03, 0x55, 0x1D, 0x0E, 0x04, 0x16, 0x04, 0x14, 0xAC,
    0xCC, 0xAC, 0xF7, 0xEF, 0x4A, 0xF5, 0x1E, 0xE6, 0xD5, 0xF4, 0x1D, 0x54, 0xB8, 0xB4, 0xC2, 0xE6,
    0x21, 0x01, 0x58, 0x30, 0x1F, 0x06, 0x03, 0x55, 0x1D, 0x23, 0x04, 0x18, 0x30, 0x16, 0x80, 0x14,
    0xAC, 0xCC, 0xAC, 0xF7, 0xEF, 0x4A, 0xF5, 0x1E, 0xE6, 0xD5, 0xF4, 0x1D, 0x54, 0xB8, 0xB4, 0xC2,
    0xE6, 0x21, 0x01, 0x58, 0x30, 0x0F, 0x06, 0x03, 0x55, 0x1D, 0x13, 0x01, 0x01, 0xFF, 0x04, 0x05,
    0x30, 0x03, 0x01, 0x01, 0xFF, 0x30, 0x1D, 0x06, 0x03, 0x55, 0x1D, 0x11, 0x04, 0x16, 0x30, 0x14,
    0x82, 0x12, 0x63, 0x6C, 0x69, 0x65, 0x6E, 0x74, 0x2E, 0x65, 0x78, 0x61, 0x6D, 0x70, 0x6C, 0x65,
    0x2E, 0x63, 0x6F, 0x6D, 0x30, 0x0A, 0x06, 0x08, 0x2A, 0x86, 0x48, 0xCE, 0x3D, 0x04, 0x03, 0x02,
    0x03, 0x47, 0x00, 0x30, 0x44, 0x02, 0x20, 0x0B, 0xE5, 0x71, 0x71, 0x7C, 0xAF, 0xA1, 0x21, 0x15,
    0x5E, 0x45, 0x72, 0x27, 0xCF, 0xE8, 0x0F, 0x56, 0x3C, 0x1C, 0x84, 0xF1, 0x96, 0x00, 0x7B, 0x73,
    0x91, 0x96, 0x38, 0x1A, 0x7B, 0x50, 0x66, 0x02, 0x20, 0x2C, 0xFC, 0x33, 0xA1, 0x78, 0xAA, 0x0C,
    0x3B, 0x24, 0xDE, 0xBB, 0x9F, 0xA6, 0x4D, 0x2D, 0xDD, 0xEB, 0x0A, 0x60, 0x7F, 0xD2, 0xA2, 0xCD,
    0xCB, 0x1D, 0x8C, 0xD9, 0x1B, 0xA0, 0x22, 0xA1, 0xF7,
];

fn names(list: &[&str]) -> Vec<String> {
    list.iter().map(|x| String::from(*x)).collect()
}

#[test]
fn peer_cert_names() {
    assert_eq!(check_peer_cert(&CLIENT_CERT, &names(&["client.example.com"])), Some(true));
    assert_eq!(
        check_peer_cert(&CLIENT_CERT, &names(&["other.example.com", "client.example.com"])),
        Some(true)
    );
    assert_eq!(check_peer_cert(&CLIENT_CERT, &names(&["other.example.com"])), Some(false));
    assert_eq!(check_peer_cert(&CLIENT_CERT, &names(&[])), Some(false));
}

#[test]
fn peer_cert_refused_inputs() {
    assert_eq!(check_peer_cert(&[0x30, 0x00], &names(&["client.example.com"])), None);
    assert_eq!(check_peer_cert(&CLIENT_CERT, &names(&["not a name!"])), None);
}
