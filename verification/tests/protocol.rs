use kvs::kvs::{Directory, KvStore, LogIndex};
use kvs::server::{check_or_save_engine, process_message, DispatcherAction, MessageKind, State};
use kvs::shared::{
    decode_command, decode_response, encode_command, encode_response, Command, CommandResponse,
    Get, Remove, ResultWithNoResponse, ResultWithPossibleValue, SetCmd,
};
use kvs::{KvsEngine, KvsError, SledKvsEngine};

#[test]
fn command_round_trip_set() {
    let cmd = Command::SetCmd(SetCmd { key: "key1".to_owned(), value: "value1".to_owned() });
    let bytes = encode_command(&cmd);
    let (decoded, end) = decode_command(&bytes, 0).unwrap();
    assert_eq!(end, bytes.len());
    match decoded {
        Command::SetCmd(c) => {
            assert_eq!(c.key, "key1");
            assert_eq!(c.value, "value1");
        },
        _ => panic!("decoded the wrong command"),
    }
}

#[test]
fn command_round_trip_get_and_rm() {
    let get = Command::Get(Get { key: "a key".to_owned() });
    let bytes = encode_command(&get);
    match decode_command(&bytes, 0).unwrap().0 {
        Command::Get(c) => assert_eq!(c.key, "a key"),
        _ => panic!("decoded the wrong command"),
    }
    let rm = Command::Rm(Remove { key: "gone".to_owned() });
    let bytes = encode_command(&rm);
    match decode_command(&bytes, 0).unwrap().0 {
        Command::Rm(c) => assert_eq!(c.key, "gone"),
        _ => panic!("decoded the wrong command"),
    }
}

// A multi-byte string survives the byte framing untouched
#[test]
fn command_round_trip_non_ascii() {
    let cmd = Command::SetCmd(SetCmd { key: "clé".to_owned(), value: "värde — 値".to_owned() });
    let bytes = encode_command(&cmd);
    match decode_command(&bytes, 0).unwrap().0 {
        Command::SetCmd(c) => {
            assert_eq!(c.key, "clé");
            assert_eq!(c.value, "värde — 値");
        },
        _ => panic!("decoded the wrong command"),
    }
}

// Records are self-delimiting: two in a row decode one after the other
#[test]
fn commands_decode_in_sequence() {
    let first = Command::SetCmd(SetCmd { key: "k1".to_owned(), value: "v1".to_owned() });
    let second = Command::Rm(Remove { key: "k2".to_owned() });
    let mut bytes = encode_command(&first);
    bytes.extend_from_slice(&encode_command(&second));
    let (_, mid) = decode_command(&bytes, 0).unwrap();
    let (decoded, end) = decode_command(&bytes, mid).unwrap();
    assert_eq!(end, bytes.len());
    match decoded {
        Command::Rm(c) => assert_eq!(c.key, "k2"),
        _ => panic!("decoded the wrong command"),
    }
}

#[test]
fn decode_rejects_truncated_and_unknown() {
    let cmd = Command::SetCmd(SetCmd { key: "key".to_owned(), value: "value".to_owned() });
    let mut bytes = encode_command(&cmd);
    bytes.pop();
    assert!(matches!(decode_command(&bytes, 0), Err(KvsError::SerializationError)));
    let junk = vec![9u8, 1, 2, 3];
    assert!(matches!(decode_command(&junk, 0), Err(KvsError::SerializationError)));
    assert!(matches!(decode_command(&[], 0), Err(KvsError::SerializationError)));
}

// A record whose field bytes are not UTF-8 is a decode error like any other
#[test]
fn decode_rejects_invalid_utf8() {
    let mut bytes = vec![2u8]; // a Rm record
    bytes.extend_from_slice(&1u64.to_le_bytes());
    bytes.push(0xFF); // not a UTF-8 sequence
    assert!(matches!(decode_command(&bytes, 0), Err(KvsError::SerializationError)));
}

// The byte layout is pinned: a tag, then length-prefixed UTF-8 fields
#[test]
fn encoding_layout_is_fixed() {
    let rm = Command::Rm(Remove { key: "A".to_owned() });
    let mut expected = vec![2u8];
    expected.extend_from_slice(&1u64.to_le_bytes());
    expected.push(b'A');
    assert_eq!(encode_command(&rm), expected);

    let set = Command::SetCmd(SetCmd { key: "k".to_owned(), value: "vw".to_owned() });
    let mut expected = vec![0u8];
    expected.extend_from_slice(&1u64.to_le_bytes());
    expected.push(b'k');
    expected.extend_from_slice(&2u64.to_le_bytes());
    expected.extend_from_slice(b"vw");
    assert_eq!(encode_command(&set), expected);
}

#[test]
fn response_round_trips() {
    let shapes = vec![
        CommandResponse::ResultWithNoResponse(ResultWithNoResponse::Done),
        CommandResponse::ResultWithNoResponse(ResultWithNoResponse::Failed("boom".to_owned())),
        CommandResponse::ResultWithPossibleValue(ResultWithPossibleValue::Value(None)),
        CommandResponse::ResultWithPossibleValue(ResultWithPossibleValue::Value(Some(
            "value1".to_owned(),
        ))),
        CommandResponse::ResultWithPossibleValue(ResultWithPossibleValue::Failed(
            "Key not found".to_owned(),
        )),
    ];
    for shape in shapes {
        let bytes = encode_response(&shape);
        let (decoded, end) = decode_response(&bytes, 0).unwrap();
        assert_eq!(end, bytes.len());
        assert_eq!(decoded.text(), shape.text());
        assert_eq!(decoded.is_err(), shape.is_err());
    }
}

#[test]
fn response_text_and_is_err() {
    let ok_unit = CommandResponse::ResultWithNoResponse(ResultWithNoResponse::Done);
    assert_eq!(ok_unit.text(), "");
    assert!(!ok_unit.is_err());

    let err_unit = CommandResponse::ResultWithNoResponse(ResultWithNoResponse::Failed(
        "Key not found".to_owned(),
    ));
    assert_eq!(err_unit.text(), "Key not found\n");
    assert!(err_unit.is_err());

    let value = CommandResponse::ResultWithPossibleValue(ResultWithPossibleValue::Value(Some(
        "value1".to_owned(),
    )));
    assert_eq!(value.text(), "value1\n");
    assert!(!value.is_err());

    let empty_value =
        CommandResponse::ResultWithPossibleValue(ResultWithPossibleValue::Value(Some(
            "".to_owned(),
        )));
    assert_eq!(empty_value.text(), "");

    let no_value = CommandResponse::ResultWithPossibleValue(ResultWithPossibleValue::Value(None));
    assert_eq!(no_value.text(), "");
}

#[test]
fn error_messages() {
    assert_eq!(KvsError::KeyNotFound.message(), "Key not found");
    assert_eq!(KvsError::WrongEngine.message(), "Wrong engine selected");
    assert_eq!(KvsError::SerializationError.message(), "Can't serialize data");
    assert_eq!(KvsError::IoError("broken pipe".to_owned()).message(), "IO Error: broken pipe");
    assert_eq!(KvsError::EmptyResponse.message(), "");
}

#[test]
fn command_value() {
    let set = Command::SetCmd(SetCmd { key: "k".to_owned(), value: "v".to_owned() });
    assert_eq!(set.value(), Some(&"v".to_owned()));
    let get = Command::Get(Get { key: "k".to_owned() });
    assert_eq!(get.value(), None);
    let rm = Command::Rm(Remove { key: "k".to_owned() });
    assert_eq!(rm.value(), None);
}

#[test]
fn process_runs_commands_on_engine() -> Result<(), KvsError> {
    let mut store = KvStore::open(Directory { segments: Vec::new() })?;

    let set = Command::SetCmd(SetCmd { key: "key1".to_owned(), value: "value1".to_owned() });
    let reply = set.process(&mut store);
    assert!(!reply.is_err());
    assert_eq!(reply.text(), "");

    let get = Command::Get(Get { key: "key1".to_owned() });
    let reply = get.process(&mut store);
    assert!(!reply.is_err());
    assert_eq!(reply.text(), "value1\n");

    let missing = Command::Get(Get { key: "key2".to_owned() });
    let reply = missing.process(&mut store);
    assert!(reply.is_err());
    assert_eq!(reply.text(), "Key not found\n");

    let rm = Command::Rm(Remove { key: "key1".to_owned() });
    let reply = rm.process(&mut store);
    assert!(!reply.is_err());

    let rm_again = Command::Rm(Remove { key: "key1".to_owned() });
    let reply = rm_again.process(&mut store);
    assert!(reply.is_err());
    assert_eq!(reply.text(), "Key not found\n");

    Ok(())
}

#[test]
fn sled_engine_behaves_like_a_store() -> Result<(), KvsError> {
    let mut engine = SledKvsEngine::open()?;
    engine.set("key1".to_owned(), "value1".to_owned())?;
    assert_eq!(engine.get("key1".to_owned())?, Some("value1".to_owned()));
    assert_eq!(engine.get("key2".to_owned())?, None);
    engine.set("key1".to_owned(), "value2".to_owned())?;
    assert_eq!(engine.get("key1".to_owned())?, Some("value2".to_owned()));
    engine.remove("key1".to_owned())?;
    assert_eq!(engine.get("key1".to_owned())?, None);
    assert!(matches!(engine.remove("key1".to_owned()), Err(KvsError::KeyNotFound)));
    Ok(())
}

#[test]
fn dispatcher_state_machine() {
    assert_eq!(
        process_message(State::Starting, MessageKind::Ready),
        (State::Ready, DispatcherAction::Proceed)
    );
    assert_eq!(
        process_message(State::Ready, MessageKind::Stream),
        (State::Ready, DispatcherAction::ServeConnection)
    );
    assert_eq!(
        process_message(State::Ready, MessageKind::ShuttingDown),
        (State::Ready, DispatcherAction::StopAcceptors)
    );
    assert_eq!(
        process_message(State::Ready, MessageKind::Shutdown),
        (State::Shutdown, DispatcherAction::Exit)
    );
}

#[test]
fn engine_sentinel_check() {
    let engine = "kvs".to_owned();
    assert_eq!(check_or_save_engine(None, &engine), Ok(Some("kvs".to_owned())));
    assert_eq!(check_or_save_engine(Some("kvs".to_owned()), &engine), Ok(None));
    assert_eq!(
        check_or_save_engine(Some("sled".to_owned()), &engine),
        Err(KvsError::WrongEngine)
    );
}

#[test]
fn file_log_ids_parse_and_sort() {
    let names = vec!["2".to_owned(), "10".to_owned(), "1".to_owned()];
    assert_eq!(LogIndex::get_file_log_ids(&names), Ok(vec![1, 2, 10]));

    let empty: Vec<String> = Vec::new();
    assert_eq!(LogIndex::get_file_log_ids(&empty), Ok(vec![0]));

    let bad = vec!["engine".to_owned()];
    assert_eq!(LogIndex::get_file_log_ids(&bad), Err(KvsError::LogIndexParseError));

    let too_big = vec!["99999999999999999999999".to_owned()];
    assert_eq!(LogIndex::get_file_log_ids(&too_big), Err(KvsError::LogIndexParseError));
}
