use kvs::codec::{DecodeError, Entry, read_entry, read_text};
use kvs::protocol::{Request, Response};

fn text_field(s: &str) -> Vec<u8> {
    let mut out = (s.len() as u64).to_le_bytes().to_vec();
    out.extend_from_slice(s.as_bytes());
    out
}

#[test]
fn put_record_bytes_are_tag_then_length_prefixed_texts() {
    let e = Entry::Put("a".to_string(), "1".to_string());
    let mut expected = vec![1u8];
    expected.extend(text_field("a"));
    expected.extend(text_field("1"));
    assert_eq!(e.to_bytes(), expected);
    assert_eq!(e.to_bytes().len(), 19);
}

#[test]
fn remove_record_bytes() {
    let e = Entry::Remove("key".to_string());
    let mut expected = vec![2u8];
    expected.extend(text_field("key"));
    assert_eq!(e.to_bytes(), expected);
}

#[test]
fn record_round_trip() {
    for e in [
        Entry::Put("k".to_string(), "v".to_string()),
        Entry::Put("ключ".to_string(), "värde ✓".to_string()),
        Entry::Remove("gone".to_string()),
    ] {
        let b = e.to_bytes();
        let (back, next) = read_entry(&b, 0).unwrap().unwrap();
        assert_eq!(back, e);
        assert_eq!(next, b.len());
    }
}

#[test]
fn two_records_parse_one_after_the_other() {
    let e1 = Entry::Put("a".to_string(), "1".to_string());
    let e2 = Entry::Remove("b".to_string());
    let mut b = e1.to_bytes();
    let first_len = b.len();
    b.extend(e2.to_bytes());
    let (x1, n1) = read_entry(&b, 0).unwrap().unwrap();
    assert_eq!(x1, e1);
    assert_eq!(n1, first_len);
    let (x2, n2) = read_entry(&b, n1).unwrap().unwrap();
    assert_eq!(x2, e2);
    assert_eq!(n2, b.len());
    assert_eq!(read_entry(&b, n2), Ok(None));
}

#[test]
fn truncated_record_is_an_error_not_the_end() {
    let b = Entry::Put("abc".to_string(), "def".to_string()).to_bytes();
    for cut in 1..b.len() {
        assert_eq!(read_entry(&b[..cut], 0), Err(DecodeError::Truncated));
    }
    assert_eq!(read_entry(&b[..0], 0), Ok(None));
}

#[test]
fn unknown_tag_is_rejected() {
    let mut b = Entry::Remove("x".to_string()).to_bytes();
    b[0] = 9;
    assert_eq!(read_entry(&b, 0), Err(DecodeError::UnknownTag));
}

#[test]
fn invalid_utf8_text_is_rejected() {
    let mut b = vec![2u8];
    b.extend(2u64.to_le_bytes());
    b.extend([0xff, 0xfe]);
    assert_eq!(read_entry(&b, 0), Err(DecodeError::InvalidText));
    let good = text_field("héllo");
    let (t, next) = read_text(&good, 0).unwrap();
    assert_eq!(t, "héllo");
    assert_eq!(next, good.len());
}

#[test]
fn request_round_trip() {
    for r in [
        Request::Put("k".to_string(), "v".to_string()),
        Request::Get("k".to_string()),
        Request::Remove("k".to_string()),
    ] {
        let b = r.to_bytes();
        let (back, next) = Request::read_at(&b, 0).unwrap().unwrap();
        assert_eq!(back, r);
        assert_eq!(next, b.len());
    }
    assert_eq!(Request::Get("k".to_string()).to_bytes()[0], 3);
}

#[test]
fn response_round_trip() {
    for r in [
        Response::Done,
        Response::Get(None),
        Response::Get(Some("value".to_string())),
        Response::Error("Key not found".to_string()),
    ] {
        let b = r.to_bytes();
        let (back, next) = Response::read_at(&b, 0).unwrap().unwrap();
        assert_eq!(back, r);
        assert_eq!(next, b.len());
    }
    assert_eq!(Response::Done.to_bytes(), vec![16u8]);
    assert_eq!(Response::Get(None).to_bytes(), vec![17u8]);
}

#[test]
fn truncated_request_is_rejected() {
    let b = Request::Put("k".to_string(), "v".to_string()).to_bytes();
    assert_eq!(Request::read_at(&b[..b.len() - 1], 0), Err(DecodeError::Truncated));
    assert_eq!(Response::read_at(&[42u8], 0), Err(DecodeError::UnknownTag));
}
