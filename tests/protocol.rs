use gitstore::fetch::{
    parse_advertisement, parse_ref_line, ref_header_verdict, strip_nak, upload_request,
    validate_ref_header,
};
use gitstore::pkt::{flush_pkt, pkt_line, read_pkt, read_pkts, FetchError, PktLine};

fn advertisement() -> Vec<u8> {
    let mut body = Vec::new();
    body.extend(pkt_line(b"# service=git-upload-pack\n"));
    body.extend(flush_pkt());
    body.extend(pkt_line(
        b"1111111111111111111111111111111111111111 HEAD\0multi_ack side-band-64k\n",
    ));
    body.extend(pkt_line(b"1111111111111111111111111111111111111111 refs/heads/main\n"));
    body.extend(pkt_line(b"2222222222222222222222222222222222222222 refs/tags/v1\n"));
    body.extend(flush_pkt());
    body
}

#[test]
fn pkt_line_write_then_read() {
    let line = pkt_line(b"hello\n");
    assert_eq!(line, b"000ahello\n".to_vec());
    assert_eq!(read_pkt(&line).unwrap(), (PktLine::Data(b"hello\n".to_vec()), 10));
    assert_eq!(pkt_line(b""), b"0004".to_vec());
    assert_eq!(flush_pkt(), b"0000".to_vec());
    assert_eq!(read_pkt(b"0000rest").unwrap(), (PktLine::Flush, 4));
    let payloads: Vec<Vec<u8>> = vec![b"a".to_vec(), vec![], vec![b'z'; 300], b"done\n".to_vec()];
    let mut all = Vec::new();
    for p in &payloads {
        all.extend(pkt_line(p));
    }
    let lines = read_pkts(&all).unwrap();
    let back: Vec<PktLine> = payloads.iter().map(|p| PktLine::Data(p.clone())).collect();
    assert_eq!(lines, back);
    assert_eq!(&pkt_line(&vec![b'z'; 300])[..4], b"0130");
}

#[test]
fn pkt_line_bad_lengths() {
    assert_eq!(read_pkt(b"00").unwrap_err(), FetchError::BadPktLine);
    assert_eq!(read_pkt(b"zzzz").unwrap_err(), FetchError::BadPktLine);
    assert_eq!(read_pkt(b"0002").unwrap_err(), FetchError::BadPktLine);
    assert_eq!(read_pkt(b"000Ahello\n").unwrap_err(), FetchError::BadPktLine);
    assert_eq!(read_pkt(b"0010abc").unwrap_err(), FetchError::BadPktLine);
    assert_eq!(read_pkts(b"0005a000").unwrap_err(), FetchError::BadPktLine);
}

#[test]
fn ref_advertisement_parse() {
    let ad = parse_advertisement(&advertisement()).unwrap();
    assert_eq!(ad.head, b"1111111111111111111111111111111111111111".to_vec());
    let names: Vec<Vec<u8>> = ad.refs.iter().map(|r| r.name.clone()).collect();
    assert_eq!(
        names,
        vec![b"HEAD".to_vec(), b"refs/heads/main".to_vec(), b"refs/tags/v1".to_vec()]
    );
    assert_eq!(ad.refs[2].hash, b"2222222222222222222222222222222222222222".to_vec());
    let line = parse_ref_line(b"3333333333333333333333333333333333333333 refs/x").unwrap();
    assert_eq!(line.name, b"refs/x".to_vec());
    assert!(parse_ref_line(b"33333333333333333333333333333333333333zz refs/x").is_none());
    assert!(parse_ref_line(b"3333333333333333333333333333333333333333-refs/x").is_none());
}

#[test]
fn ref_advertisement_errors() {
    let mut no_flush = Vec::new();
    no_flush.extend(pkt_line(b"# service=git-upload-pack\n"));
    no_flush.extend(pkt_line(b"1111111111111111111111111111111111111111 HEAD\n"));
    assert_eq!(parse_advertisement(&no_flush).unwrap_err(), FetchError::MalformedAdvertisement);
    let mut not_head = Vec::new();
    not_head.extend(pkt_line(b"# service=git-upload-pack\n"));
    not_head.extend(flush_pkt());
    not_head.extend(pkt_line(b"1111111111111111111111111111111111111111 refs/heads/main\n"));
    not_head.extend(flush_pkt());
    assert_eq!(parse_advertisement(&not_head).unwrap_err(), FetchError::MalformedAdvertisement);
    let mut unterminated = advertisement();
    unterminated.truncate(unterminated.len() - 4);
    assert_eq!(
        parse_advertisement(&unterminated).unwrap_err(),
        FetchError::MalformedAdvertisement
    );
    assert_eq!(parse_advertisement(b"00zz").unwrap_err(), FetchError::BadPktLine);
}

#[test]
fn ref_header_validation() {
    let body = advertisement();
    assert_eq!(validate_ref_header(200, &body), Ok(()));
    assert_eq!(validate_ref_header(304, &body), Ok(()));
    assert_eq!(validate_ref_header(404, &body), Err(FetchError::UnexpectedStatus));
    assert_eq!(
        validate_ref_header(200, b"001e# service=git-receive-pack\n"),
        Err(FetchError::MissingService)
    );
    assert_eq!(
        validate_ref_header(200, b"001E# service=git-upload-pack\n"),
        Err(FetchError::MissingService)
    );
    assert_eq!(ref_header_verdict(200, Some(true)), Ok(()));
    assert_eq!(ref_header_verdict(500, Some(true)), Err(FetchError::UnexpectedStatus));
    assert_eq!(ref_header_verdict(304, Some(false)), Err(FetchError::MissingService));
    assert_eq!(ref_header_verdict(200, None), Err(FetchError::BadPattern));
}

#[test]
fn upload_request_body() {
    let a = b"1111111111111111111111111111111111111111".to_vec();
    let b = b"2222222222222222222222222222222222222222".to_vec();
    let body = upload_request(&vec![a.clone(), b.clone(), a.clone()]);
    let mut want = Vec::new();
    want.extend(b"0032want 1111111111111111111111111111111111111111\n");
    want.extend(b"0032want 2222222222222222222222222222222222222222\n");
    want.extend(b"0000");
    want.extend(b"0009done\n");
    assert_eq!(body, want);
    assert_eq!(upload_request(&vec![]), b"00000009done\n".to_vec());
}

#[test]
fn nak_preamble() {
    assert_eq!(strip_nak(b"0008NAK\nPACKdata").unwrap(), b"PACKdata".to_vec());
    assert_eq!(strip_nak(b"0008NAK\n").unwrap(), Vec::<u8>::new());
    assert_eq!(strip_nak(b"0008ACK\nPACK").unwrap_err(), FetchError::MissingNak);
    assert_eq!(strip_nak(b"0008").unwrap_err(), FetchError::MissingNak);
}
