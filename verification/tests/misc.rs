use ipts::config::{check_config, validate_config, ConfigError};
use ipts::dump::{parse_hex, parse_nibble};
use ipts::engine::{find_starts, unpack_positions};
use ipts::pem::{collect_certs_and_key, PemError, PemItem};

#[test]
fn nibbles_and_bytes() {
    assert_eq!(parse_nibble(b'0'), 0);
    assert_eq!(parse_nibble(b'9'), 9);
    assert_eq!(parse_nibble(b'A'), 10);
    assert_eq!(parse_nibble(b'F'), 15);
    assert_eq!(parse_hex(b"B4"), 0xB4);
    assert_eq!(parse_hex(b"0F"), 0x0F);
    assert_eq!(parse_hex(b"FF"), 0xFF);
}

#[test]
fn blob_starts() {
    let mut labels = vec![0u32; 50];
    labels[3] = 1;
    labels[17] = 5;
    labels[49] = 2;
    let (starts, count) = find_starts(&labels).unwrap();
    assert_eq!(count, 3);
    assert_eq!(&starts[..3], &[3, 17, 49]);
    assert_eq!(&starts[3..], &[!0u32; 7]);
    assert_eq!(find_starts(&[0u32; 8]), Some(([!0u32; 10], 0)));
}

#[test]
fn too_many_blobs() {
    let labels = vec![1u32; 11];
    assert_eq!(find_starts(&labels), None);
    let labels = vec![1u32; 10];
    assert_eq!(find_starts(&labels).map(|x| x.1), Some(10));
}

#[test]
fn positions_unpack() {
    let mut out = [(9u32, 9u32); 10];
    unpack_positions(&[0x0001_0002, 0xABCD_1234], &mut out);
    assert_eq!(out[0], (1, 2));
    assert_eq!(out[1], (0xABCD, 0x1234));
    assert_eq!(out[2], (9, 9));
}

fn cert(b: u8) -> PemItem {
    PemItem::X509Certificate(vec![b, b])
}

#[test]
fn pem_chain_and_key() {
    let items = vec![cert(1), PemItem::RsaKey(vec![7]), cert(2), PemItem::Pkcs8Key(vec![9, 9, 9]), cert(3)];
    let (certs, key) = collect_certs_and_key(&items).unwrap();
    assert_eq!(certs, vec![vec![1, 1], vec![2, 2], vec![3, 3]]);
    assert_eq!(key, vec![9, 9, 9]);
}

#[test]
fn pem_errors() {
    let two_keys = vec![PemItem::Pkcs8Key(vec![1]), PemItem::Pkcs8Key(vec![2])];
    assert_eq!(collect_certs_and_key(&two_keys).err(), Some(PemError::TooManyKeys));
    let two_certs = vec![cert(1), cert(2), PemItem::Pkcs8Key(vec![1])];
    assert_eq!(collect_certs_and_key(&two_certs).err(), Some(PemError::WrongCertificateCount));
    let no_key = vec![cert(1), cert(2), cert(3)];
    assert_eq!(collect_certs_and_key(&no_key).err(), Some(PemError::MissingPrivateKey));
}

#[test]
fn config_verdicts() {
    assert_eq!(check_config(1, true, &vec![true, true]), Ok(()));
    assert_eq!(check_config(2, true, &vec![]), Err(ConfigError::UnsupportedVersion));
    assert_eq!(check_config(1, false, &vec![false]), Err(ConfigError::InvalidServerDnsName));
    assert_eq!(check_config(1, true, &vec![true, false]), Err(ConfigError::InvalidClientDnsName));
}

#[test]
fn config_names() {
    let server = String::from("server.example.com");
    let clients = vec![String::from("client.example.com")];
    assert_eq!(validate_config(1, &server, &clients), Ok(()));
    assert_eq!(validate_config(0, &server, &clients), Err(ConfigError::UnsupportedVersion));
    let bad = String::from("not a name!");
    assert_eq!(validate_config(1, &bad, &clients), Err(ConfigError::InvalidServerDnsName));
    assert_eq!(
        validate_config(1, &server, &vec![String::from("ok.example"), bad.clone()]),
        Err(ConfigError::InvalidClientDnsName)
    );
}
