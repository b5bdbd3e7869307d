use kcp::message::{MSG_OVERHEAD, MSS_MAX};
use kcp::{Header, Message, MessageCmd, ParseError};

fn header_of(cmd: u8, sn: u32, len: u32) -> Header {
    Header { conv: 9, cmd, frg: 0, wnd: 32, ts: 1000, sn, una: 0, len, opt: 0 }
}

#[test]
fn test_message_convert_u8_into_cmd() {
    let one: MessageCmd = 1u8.into();
    assert_eq!(one, MessageCmd::Ack);

    let three: MessageCmd = 3u8.into();
    assert_eq!(three, MessageCmd::Wask);

    let invalid: MessageCmd = 200u8.into();
    assert_eq!(invalid, MessageCmd::Inv);
}

#[test]
fn test_message_how_big_is_the_header() {
    assert_eq!(MSG_OVERHEAD, 28);
    assert_eq!(Message::Ack(header_of(1, 0, 0)).encode().len(), MSG_OVERHEAD);
}

#[test]
fn test_message_check() {
    let not_available_buf = [1];
    assert_eq!(Message::check(&not_available_buf[..]), 0);

    let invalid_header_buf = [1u8; 225];
    assert_eq!(Message::check(&invalid_header_buf[..]), 0);
}

#[test]
fn test_message_parse() {
    let mut h = header_of(2, 4, 3);
    h.frg = 1;
    let bytes = Message::Psh(h, vec![7, 8, 9]).encode();
    assert_eq!(Message::parse(&bytes), Ok(Message::Psh(h, vec![7, 8, 9])));
    let ack = Message::Ack(header_of(1, 4, 0));
    assert_eq!(Message::parse(&ack.encode()), Ok(ack));
    let ask = Message::Wack(header_of(3, 0, 0));
    assert_eq!(Message::parse(&ask.encode()), Ok(ask));
    let wins = Message::Wins(header_of(4, 0, 0));
    assert_eq!(Message::parse(&wins.encode()), Ok(wins));
}

#[test]
fn convert_every_command_code() {
    assert_eq!(MessageCmd::from(2u8), MessageCmd::Psh);
    assert_eq!(MessageCmd::from(4u8), MessageCmd::Wins);
    assert_eq!(MessageCmd::from(0u8), MessageCmd::Inv);
    assert_eq!(MessageCmd::from(5u8), MessageCmd::Inv);
}

#[test]
fn header_is_laid_out_little_endian() {
    let h = Header {
        conv: 0x11223344,
        cmd: 2,
        frg: 3,
        wnd: 0x0102,
        ts: 0x0a0b0c0d,
        sn: 7,
        una: 5,
        len: 2,
        opt: 0x00000080,
    };
    let bytes = Message::Psh(h, vec![0xaa, 0xbb]).encode();
    let expected: Vec<u8> = vec![
        0x44, 0x33, 0x22, 0x11, 0x02, 0x03, 0x02, 0x01, 0x0d, 0x0c, 0x0b, 0x0a, 0x07, 0x00, 0x00,
        0x00, 0x05, 0x00, 0x00, 0x00, 0x02, 0x00, 0x00, 0x00, 0x80, 0x00, 0x00, 0x00, 0xaa, 0xbb,
    ];
    assert_eq!(bytes, expected);
}

#[test]
fn header_is_read_little_endian() {
    let bytes: Vec<u8> = vec![
        0x44, 0x33, 0x22, 0x11, 0x01, 0x09, 0x02, 0x01, 0x0d, 0x0c, 0x0b, 0x0a, 0xff, 0xff, 0xff,
        0xff, 0x05, 0x00, 0x00, 0x80, 0x00, 0x00, 0x00, 0x00, 0x01, 0x02, 0x03, 0x04,
    ];
    let expected = Header {
        conv: 0x11223344,
        cmd: 1,
        frg: 9,
        wnd: 0x0102,
        ts: 0x0a0b0c0d,
        sn: 0xffffffff,
        una: 0x80000005,
        len: 0,
        opt: 0x04030201,
    };
    assert_eq!(Message::parse(&bytes), Ok(Message::Ack(expected)));
}

#[test]
fn header_agrees_with_bincode() {
    let h = Header { conv: 77, cmd: 4, frg: 0, wnd: 65535, ts: 123456, sn: 1, una: 2, len: 0, opt: 9 };
    let fields = (h.conv, h.cmd, h.frg, h.wnd, h.ts, h.sn, h.una, h.len, h.opt);
    assert_eq!(Message::Wins(h).encode(), bincode::serialize(&fields).unwrap());
}

#[test]
fn check_waits_for_the_whole_segment() {
    let bytes = Message::Psh(header_of(2, 0, 5), vec![1, 2, 3, 4, 5]).encode();
    assert_eq!(bytes.len(), 33);
    assert_eq!(Message::check(&bytes), 33);
    assert_eq!(Message::check(&bytes[..32]), 0);
    assert_eq!(Message::check(&bytes[..28]), 0);
    assert_eq!(Message::check(&bytes[..27]), 0);
    assert_eq!(Message::check(&[]), 0);
}

#[test]
fn check_counts_only_the_first_segment() {
    let mut bytes = Message::Psh(header_of(2, 0, 2), vec![1, 2]).encode();
    bytes.extend_from_slice(&Message::Ack(header_of(1, 0, 0)).encode());
    assert_eq!(Message::check(&bytes), 30);
    assert_eq!(Message::check(&bytes[30..]), 28);
}

#[test]
fn check_refuses_a_payload_beyond_the_bound() {
    let too_long = Message::Ack(header_of(2, 0, MSS_MAX + 1)).encode();
    let mut bytes = too_long.clone();
    bytes.resize(28 + 1501, 0);
    assert_eq!(Message::check(&bytes), 0);

    let at_bound = Message::Psh(header_of(2, 0, MSS_MAX), vec![0u8; 1500]).encode();
    assert_eq!(Message::check(&at_bound), 1528);
}

#[test]
fn parse_reports_not_available() {
    assert_eq!(Message::parse(&[]), Err(ParseError::NotAvailable));
    assert_eq!(Message::parse(&[1u8; 27]), Err(ParseError::NotAvailable));
}

#[test]
fn parse_reports_invalid_header() {
    // The payload that the header declares is longer than the bound.
    assert_eq!(Message::parse(&[1u8; 225]), Err(ParseError::InvalidHeader));
    // The payload that the header declares is not all there.
    let bytes = Message::Psh(header_of(2, 0, 5), vec![1, 2, 3, 4, 5]).encode();
    assert_eq!(Message::parse(&bytes[..32]), Err(ParseError::InvalidHeader));
    // Only a data segment has a payload.
    let mut ack = Message::Ack(header_of(1, 0, 3)).encode();
    ack.extend_from_slice(&[1, 2, 3]);
    assert_eq!(Message::parse(&ack), Err(ParseError::InvalidHeader));
}

#[test]
fn parse_reports_invalid_cmd() {
    let bytes = Message::Ack(header_of(0, 0, 0)).encode();
    assert_eq!(Message::parse(&bytes), Err(ParseError::InvalidCmd));
    let mut other = Message::Ack(header_of(200, 0, 2)).encode();
    other.extend_from_slice(&[1, 2]);
    assert_eq!(Message::parse(&other), Err(ParseError::InvalidCmd));
    assert_eq!(Message::check(&other), 30);
}

#[test]
fn parse_ignores_what_follows_the_segment() {
    let mut bytes = Message::Psh(header_of(2, 1, 2), vec![5, 6]).encode();
    bytes.extend_from_slice(&[9, 9, 9]);
    assert_eq!(Message::parse(&bytes), Ok(Message::Psh(header_of(2, 1, 2), vec![5, 6])));
}

#[test]
fn header_validity() {
    assert!(header_of(1, 0, 0).is_valid());
    assert!(header_of(2, 0, 1500).is_valid());
    assert!(header_of(2, 0, 0).is_valid());
    assert!(!header_of(2, 0, 1501).is_valid());
    assert!(!header_of(1, 0, 1).is_valid());
    assert!(!header_of(3, 0, 7).is_valid());
    assert!(!header_of(0, 0, 0).is_valid());
    assert!(!header_of(5, 0, 0).is_valid());
}

#[test]
fn round_trip_of_every_command() {
    let mut data = Vec::new();
    for i in 0..1500u32 {
        data.push((i % 251) as u8);
    }
    let all = vec![
        Message::Ack(Header { conv: 1, cmd: 1, frg: 0, wnd: 0, ts: 0, sn: 0, una: 0, len: 0, opt: 0 }),
        Message::Psh(
            Header {
                conv: u32::MAX,
                cmd: 2,
                frg: 255,
                wnd: u16::MAX,
                ts: u32::MAX,
                sn: u32::MAX,
                una: u32::MAX,
                len: 1500,
                opt: u32::MAX,
            },
            data,
        ),
        Message::Psh(header_of(2, 3, 0), vec![]),
        Message::Wack(header_of(3, 0, 0)),
        Message::Wins(header_of(4, 0, 0)),
    ];
    for m in all {
        assert_eq!(Message::parse(&m.encode()), Ok(m));
    }
}

#[test]
fn framing_recovers_concatenated_segments() {
    let sent = vec![
        Message::Psh(header_of(2, 0, 3), vec![1, 2, 3]),
        Message::Ack(header_of(1, 7, 0)),
        Message::Psh(header_of(2, 1, 0), vec![]),
        Message::Wins(header_of(4, 0, 0)),
        Message::Psh(header_of(2, 2, 1), vec![255]),
    ];
    let mut bytes = Vec::new();
    for m in &sent {
        bytes.extend_from_slice(&m.encode());
    }
    let mut read = Vec::new();
    let mut start = 0;
    loop {
        let len = Message::check(&bytes[start..]);
        if len == 0 {
            break;
        }
        read.push(Message::parse(&bytes[start..]).unwrap());
        start += len;
    }
    assert_eq!(start, bytes.len());
    assert_eq!(read, sent);
}
