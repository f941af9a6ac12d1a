use kvs::engine::{removal_outcome, stored_value, SledKvsEngine};
use kvs::error::KvsError;
use kvs::pool::WorkerCensus;
use kvs::protocol::Response;
use kvs::segment_name::{segment_id, segment_ids};
use kvs::service::{get_reply, put_reply, read_response, remove_reply, write_response};

#[test]
fn write_outcomes_become_responses() {
    assert_eq!(write_response(Ok(())), Response::Done);
    assert_eq!(
        write_response(Err(KvsError::KeyNotFound)),
        Response::Error("Key not found".to_string())
    );
    assert_eq!(
        write_response(Err(KvsError::Io("disk full".to_string()))),
        Response::Error("disk full".to_string())
    );
}

#[test]
fn read_outcomes_become_responses() {
    assert_eq!(read_response(Ok(None)), Response::Get(None));
    assert_eq!(read_response(Ok(Some("v".to_string()))), Response::Get(Some("v".to_string())));
    assert_eq!(
        read_response(Err(KvsError::LogInconsistent)),
        Response::Error("Log entry is not a value".to_string())
    );
}

#[test]
fn client_maps_replies() {
    assert_eq!(put_reply(Response::Done), Ok(()));
    assert_eq!(put_reply(Response::Error("boom".to_string())), Err(KvsError::Server("boom".to_string())));
    assert_eq!(put_reply(Response::Get(None)), Err(KvsError::Protocol));
    assert_eq!(get_reply(Response::Get(Some("v".to_string()))), Ok(Some("v".to_string())));
    assert_eq!(get_reply(Response::Done), Err(KvsError::Protocol));
    assert_eq!(remove_reply(Response::Error("Key not found".to_string())), Err(KvsError::KeyNotFound));
    assert_eq!(remove_reply(Response::Error("other".to_string())), Err(KvsError::Server("other".to_string())));
    assert_eq!(remove_reply(Response::Done), Ok(()));
}

#[test]
fn missing_key_round_trips_to_key_not_found() {
    let resp = write_response(Err(KvsError::KeyNotFound));
    assert_eq!(remove_reply(resp), Err(KvsError::KeyNotFound));
}

#[test]
fn stored_bytes_become_values() {
    assert_eq!(stored_value(None), Ok(None));
    assert_eq!(stored_value(Some(b"hi".to_vec())), Ok(Some("hi".to_string())));
    assert_eq!(stored_value(Some(vec![0xff, 0x00])), Err(KvsError::Utf8));
    assert_eq!(removal_outcome(None), Err(KvsError::KeyNotFound));
    assert_eq!(removal_outcome(Some(vec![1])), Ok(()));
}

#[test]
fn segment_names() {
    assert_eq!(segment_id("1.log"), Some(1));
    assert_eq!(segment_id("42.log"), Some(42));
    assert_eq!(segment_id("18446744073709551615.log"), Some(u64::MAX));
    assert_eq!(segment_id("18446744073709551616.log"), None);
    assert_eq!(segment_id("0.log"), None);
    assert_eq!(segment_id("01.log"), None);
    assert_eq!(segment_id("a1.log"), None);
    assert_eq!(segment_id(".log"), None);
    assert_eq!(segment_id("12.txt"), None);
    assert_eq!(segment_id(".engine_flag"), None);
}

#[test]
fn segment_ids_ascend_without_repeats() {
    let names: Vec<String> = ["3.log", "1.log", "notes", "3.log", "10.log", "2.log"]
        .iter()
        .map(|s| s.to_string())
        .collect();
    assert_eq!(segment_ids(&names), vec![1, 2, 3, 10]);
    assert_eq!(segment_ids(&Vec::new()), Vec::<u64>::new());
}

#[test]
fn panicked_worker_is_replaced() {
    let mut c = WorkerCensus::new(4);
    assert_eq!(c.missing(), 4);
    for _ in 0..4 {
        c.started();
    }
    assert_eq!(c.missing(), 0);
    assert_eq!(c.panicked(), 1);
    assert_eq!(c.running(), 3);
    c.started();
    assert_eq!(c.missing(), 0);
}

#[test]
fn failed_database_open_is_a_sled_error() {
    let r = SledKvsEngine::from_opened(Err(sled::Error::Unsupported("no such thing".to_string())));
    assert!(matches!(r, Err(KvsError::Sled(_))));
}
