use tinyweb::codec::{
    decode_body, encode_form, parse_form, percent_decode, percent_encode, BodyError, ParsedBody,
};
use tinyweb::multipart::parse_multipart_form_data;

#[test]
fn percent_decoding_unescapes_and_rejects_bad_escapes() {
    let d = percent_decode(b"a%20b%2Fc").unwrap();
    assert_eq!(d, b"a b/c".to_vec());
    assert!(percent_decode(b"broken%G1").is_none());
    assert!(percent_decode(b"trailing%2").is_none());
    assert!(percent_decode(b"trailing%").is_none());
}

#[test]
fn percent_encoding_round_trips() {
    let raw = b"two words & more=stuff~".to_vec();
    let enc = percent_encode(&raw);
    assert_eq!(percent_decode(&enc).unwrap(), raw);
    // and agrees with the reference encoder on text
    let reference = urlencoding::encode("two words");
    assert_eq!(String::from_utf8(percent_encode(b"two words")).unwrap(), reference.as_ref());
}

#[test]
fn url_encoded_round_trip_reproduces_the_mapping() {
    let pairs: Vec<(Vec<u8>, Vec<u8>)> = vec![
        (b"a".to_vec(), b"1".to_vec()),
        (b"b".to_vec(), b"two words".to_vec()),
    ];
    let body = encode_form(&pairs);
    assert_eq!(String::from_utf8(body.clone()).unwrap(), "a=1&b=two%20words");
    let decoded = parse_form(&body).unwrap();
    assert_eq!(decoded, pairs);
    // through the body codec as well
    match decode_body("application/x-www-form-urlencoded", &body).unwrap() {
        ParsedBody::Form(fields) => {
            assert_eq!(fields.get("a").unwrap().as_str(), "1");
            assert_eq!(fields.get("b").unwrap().as_str(), "two words");
            assert_eq!(fields.count(), 2);
        },
        _ => panic!("expected form fields"),
    }
}

#[test]
fn undecodable_escape_is_invalid_encoding() {
    match decode_body("application/x-www-form-urlencoded", &b"a=%zz".to_vec()) {
        Err(e) => assert_eq!(e, BodyError::InvalidEncoding),
        Ok(_) => panic!("expected an encoding error"),
    }
}

#[test]
fn json_bodies_are_checked_and_passed_through() {
    let good = b"{\"name\": \"x\", \"n\": 3}".to_vec();
    match decode_body("application/json", &good).unwrap() {
        ParsedBody::Json(b) => assert_eq!(b, good),
        _ => panic!("expected raw json"),
    }
    let bad = b"{not json".to_vec();
    match decode_body("application/json", &bad) {
        Err(e) => assert_eq!(e, BodyError::InvalidJson),
        Ok(_) => panic!("expected a json error"),
    }
}

#[test]
fn unknown_content_type_yields_no_structured_body() {
    match decode_body("text/csv", &b"a,b".to_vec()).unwrap() {
        ParsedBody::Unstructured => {},
        _ => panic!("expected no structured body"),
    }
}

#[test]
fn multipart_without_boundary_fails() {
    match decode_body("multipart/form-data", &Vec::new()) {
        Err(e) => assert_eq!(e, BodyError::MissingBoundary),
        Ok(_) => panic!("expected a boundary error"),
    }
}

fn sample_multipart(boundary: &str, file_bytes: &[u8]) -> Vec<u8> {
    let mut body = Vec::new();
    body.extend_from_slice(format!("--{}\r\n", boundary).as_bytes());
    body.extend_from_slice(b"Content-Disposition: form-data; name=\"name\"\r\n\r\n");
    body.extend_from_slice(b"Ashok\r\n");
    body.extend_from_slice(format!("--{}\r\n", boundary).as_bytes());
    body.extend_from_slice(
        b"Content-Disposition: form-data; name=\"cv\"; filename=\"resume.pdf\"\r\n",
    );
    body.extend_from_slice(b"Content-Type: application/pdf\r\n\r\n");
    body.extend_from_slice(file_bytes);
    body.extend_from_slice(b"\r\n");
    body.extend_from_slice(format!("--{}--", boundary).as_bytes());
    body
}

#[test]
fn multipart_round_trip_yields_field_and_file() {
    let payload: Vec<u8> = (0u8..=255).collect();
    let body = sample_multipart("X", &payload);
    let (fields, files) = parse_multipart_form_data(&body, "X");
    assert_eq!(fields.get("name").unwrap().as_str(), "Ashok");
    assert_eq!(files.len(), 1);
    let (fname, file) = &files[0];
    assert_eq!(fname.as_str(), "cv");
    assert_eq!(file.filename.as_str(), "resume.pdf");
    assert_eq!(file.extension.as_str(), "pdf");
    assert_eq!(file.content, payload);
    assert_eq!(file.size, payload.len() as u64);
    assert_eq!(file.content_type.as_ref().unwrap().as_str(), "application/pdf");
}

#[test]
fn multipart_through_the_body_codec() {
    let body = sample_multipart("frontier", b"PDFDATA");
    match decode_body("multipart/form-data; boundary=frontier", &body).unwrap() {
        ParsedBody::Multipart(fields, files) => {
            assert_eq!(fields.get("name").unwrap().as_str(), "Ashok");
            assert_eq!(files.len(), 1);
            assert_eq!(files[0].1.content, b"PDFDATA".to_vec());
        },
        _ => panic!("expected multipart"),
    }
}

#[test]
fn parts_after_the_terminal_marker_are_ignored() {
    let mut body = Vec::new();
    body.extend_from_slice(b"--B\r\n");
    body.extend_from_slice(b"Content-Disposition: form-data; name=\"kept\"\r\n\r\n");
    body.extend_from_slice(b"yes\r\n");
    body.extend_from_slice(b"--B--");
    // a well-formed part smuggled in after the terminal marker
    body.extend_from_slice(b"\r\n--B\r\n");
    body.extend_from_slice(b"Content-Disposition: form-data; name=\"smuggled\"\r\n\r\n");
    body.extend_from_slice(b"no\r\n");
    body.extend_from_slice(b"--B--");
    let (fields, files) = parse_multipart_form_data(&body, "B");
    assert_eq!(fields.get("kept").unwrap().as_str(), "yes");
    assert!(fields.get("smuggled").is_none());
    assert_eq!(fields.count(), 1);
    assert_eq!(files.len(), 0);
}

#[test]
fn payload_without_trailing_crlf_keeps_its_bytes() {
    let mut body = Vec::new();
    body.extend_from_slice(b"--B\r\n");
    body.extend_from_slice(b"Content-Disposition: form-data; name=\"a\"\r\n\r\n");
    body.extend_from_slice(b"XY");
    let (fields, _) = parse_multipart_form_data(&body, "B");
    assert_eq!(fields.get("a").unwrap().as_str(), "XY");
}

#[test]
fn empty_file_parts_are_dropped() {
    let mut body = Vec::new();
    body.extend_from_slice(b"--B\r\n");
    body.extend_from_slice(
        b"Content-Disposition: form-data; name=\"cv\"; filename=\"empty.txt\"\r\n\r\n",
    );
    body.extend_from_slice(b"\r\n");
    body.extend_from_slice(b"--B--");
    let (fields, files) = parse_multipart_form_data(&body, "B");
    assert_eq!(fields.count(), 0);
    assert_eq!(files.len(), 0);
}
