use ipts::dump::parse_dump;
use ipts::HeaderAndBuffer;

fn buffer(size: u32) -> Vec<u8> {
    let mut buf = vec![0u8; 16384];
    buf[0..4].copy_from_slice(&3u32.to_le_bytes());
    buf[4..8].copy_from_slice(&size.to_le_bytes());
    for i in 64..16384 {
        buf[i] = ((i * 7 + 3) % 256) as u8;
    }
    buf
}

fn dump_of(buf: &[u8; 16384]) -> Vec<u8> {
    let h = HeaderAndBuffer::from(buf);
    let mut txt = format!("====== Buffer: {} == Type: {} == Size: {} ======\n", h.buffer, h.typ, h.size)
        .into_bytes();
    txt.extend_from_slice(&h.printed_text());
    txt
}

#[test]
fn printed_text_layout() {
    let buf = buffer(66);
    let buf: &[u8; 16384] = buf.as_slice().try_into().unwrap();
    let h = HeaderAndBuffer::from(buf);
    let text = String::from_utf8(h.printed_text()).unwrap();
    let lines: Vec<&str> = text.split('\n').collect();
    assert_eq!(lines.len(), 4);
    assert_eq!(lines[0].len(), 64 * 3 - 1);
    assert!(lines[0].starts_with("C3 CA D1 "));
    assert_eq!(lines[1], format!("{:02X} {:02X}", buf[64 + 64], buf[64 + 65]));
    assert_eq!(lines[2], "");
    assert_eq!(lines[3], "");
    let empty = buffer(0);
    let empty: &[u8; 16384] = empty.as_slice().try_into().unwrap();
    assert_eq!(HeaderAndBuffer::from(empty).printed_text(), b"\n\n".to_vec());
}

#[test]
fn dump_reads_back_what_was_printed() {
    let buf = buffer(3500);
    let buf: &[u8; 16384] = buf.as_slice().try_into().unwrap();
    let mut txt = b"some other output\n====== Buffer: 0 == Type: 3 == Size: 16 ======\n00 01\n\n".to_vec();
    txt.extend_from_slice(&dump_of(buf));
    txt.extend_from_slice(b"====== Buffer: 2 == Type: 3 == Size: 3500 ======\n00\n");
    assert_eq!(parse_dump(&txt), Some(buf[64..64 + 3500].to_vec()));
}

#[test]
fn dump_with_crlf_and_trailing_spaces() {
    let buf = buffer(3500);
    let buf: &[u8; 16384] = buf.as_slice().try_into().unwrap();
    let txt = String::from_utf8(dump_of(buf)).unwrap();
    let crlf = txt.replace('\n', "\r\n");
    assert_eq!(parse_dump(crlf.as_bytes()), Some(buf[64..64 + 3500].to_vec()));
    let first_end = txt.find('\n').unwrap();
    let second_end = first_end + 1 + txt[first_end + 1..].find('\n').unwrap();
    let mut spaced = txt.clone();
    spaced.insert_str(second_end, " \t\u{a0}\u{3000}");
    assert_eq!(parse_dump(spaced.as_bytes()), Some(buf[64..64 + 3500].to_vec()));
    let blank_with_spaces = txt.replace("\n\n", "\n \n");
    assert_eq!(parse_dump(blank_with_spaces.as_bytes()), None);
}

#[test]
fn dump_errors() {
    let buf = buffer(3500);
    let buf: &[u8; 16384] = buf.as_slice().try_into().unwrap();
    let good = dump_of(buf);
    let mut lower = good.clone();
    let at = lower.iter().position(|b| *b == b'\n').unwrap() + 1;
    lower[at] = b'c';
    assert_eq!(parse_dump(&lower), None);
    let mut double_space = good.clone();
    double_space.insert(at + 2, b' ');
    assert_eq!(parse_dump(&double_space), None);
    let short = buffer(3499);
    let short: &[u8; 16384] = short.as_slice().try_into().unwrap();
    let mut txt = b"====== Size: 3500 ======\n".to_vec();
    txt.extend_from_slice(&HeaderAndBuffer::from(short).printed_text());
    assert_eq!(parse_dump(&txt), None);
    assert_eq!(parse_dump(b"no dump here\n"), None);
    assert_eq!(parse_dump(b""), None);
}
