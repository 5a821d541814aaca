//! Tests for the NSID option codec.

use dns_pending::nsid::{Nsid, OptBuilder, Parser, OPTION_CODE_NSID};

#[test]
fn code_is_the_registered_one() {
    let nsid = Nsid::new(vec![1, 2, 3]);
    assert_eq!(nsid.code(), 3);
    assert_eq!(OPTION_CODE_NSID, 3);
}

#[test]
fn parse_takes_exactly_len_bytes() {
    let mut parser = Parser::new(vec![0xAA, 0xBB, 0xCC, 0xDD]);
    let parsed = Nsid::parse(OPTION_CODE_NSID, 3, &mut parser).unwrap().unwrap();
    assert_eq!(parsed.as_bytes(), &vec![0xAA, 0xBB, 0xCC]);
    assert_eq!(parser.remaining(), 1);
}

#[test]
fn parse_of_another_code_is_none_and_consumes_nothing() {
    let mut parser = Parser::new(vec![0xAA, 0xBB]);
    let parsed = Nsid::parse(8, 2, &mut parser).unwrap();
    assert!(parsed.is_none());
    assert_eq!(parser.remaining(), 2);
}

#[test]
fn parse_past_the_end_is_short_buf() {
    let mut parser = Parser::new(vec![0xAA, 0xBB]);
    assert!(Nsid::parse(OPTION_CODE_NSID, 3, &mut parser).is_err());
    assert_eq!(parser.remaining(), 2);
}

#[test]
fn push_writes_code_length_and_payload() {
    let mut builder = OptBuilder::new(64);
    Nsid::push(&mut builder, &[0xDE, 0xAD]).unwrap();
    assert_eq!(builder.as_bytes(), &vec![0x00, 0x03, 0x00, 0x02, 0xDE, 0xAD]);
}

#[test]
fn push_beyond_the_limit_is_short_buf_and_writes_nothing() {
    let mut builder = OptBuilder::new(5);
    assert!(Nsid::push(&mut builder, &[0xDE, 0xAD]).is_err());
    assert_eq!(builder.as_bytes().len(), 0);
    let mut tight = OptBuilder::new(6);
    Nsid::push(&mut tight, &[0xDE, 0xAD]).unwrap();
    assert!(Nsid::push(&mut tight, &[]).is_err());
}

#[test]
fn hex_form_has_two_digits_per_octet() {
    let nsid = Nsid::new(vec![0x0A, 0xDE, 0x00, 0x7F]);
    assert_eq!(nsid.to_hex(), "0ADE007F");
    assert_eq!(Nsid::new(Vec::new()).to_hex(), "");
}

#[test]
fn compose_appends_the_payload() {
    let nsid = Nsid::new(vec![0x01, 0x02, 0x03]);
    assert_eq!(nsid.compose_len(), 3);
    let mut buf = vec![0xFF];
    nsid.compose(&mut buf);
    assert_eq!(buf, vec![0xFF, 0x01, 0x02, 0x03]);
}

#[test]
fn compose_round_trips_with_parse() {
    let sent = Nsid::new(vec![9, 8, 7, 6]);
    let mut wire = Vec::new();
    sent.compose(&mut wire);
    let mut parser = Parser::new(wire);
    let back = Nsid::parse(OPTION_CODE_NSID, 4, &mut parser).unwrap().unwrap();
    assert_eq!(back.as_bytes(), sent.as_bytes());
    assert_eq!(parser.remaining(), 0);
}
