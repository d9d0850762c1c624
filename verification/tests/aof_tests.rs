use spatio::aof::{
    delete_command, deserialize_command, replay_commands, serialize_command, set_command, write_command,
    AOFCommand, AOFConfig, AofState,
};
use spatio::error::SpatioError;
use spatio::types::{SetOptions, NANOS_PER_SEC};

fn log_of(commands: &[AOFCommand]) -> Vec<u8> {
    let mut bytes = Vec::new();
    for c in commands {
        bytes.extend_from_slice(&serialize_command(c));
    }
    bytes
}

#[test]
fn test_aof_creation() {
    let state = AofState::open(0, AOFConfig::default());
    assert_eq!(state.size(), 0);
}

#[test]
fn test_set_command_serialization() {
    let bytes = serialize_command(&set_command(b"key1", b"value1", None));
    assert!(bytes.len() > 0);
    assert_eq!(
        bytes,
        vec![0, 0, 0, 0, 4, b'k', b'e', b'y', b'1', 0, 0, 0, 6, b'v', b'a', b'l', b'u', b'e', b'1', 0]
    );
}

#[test]
fn test_command_replay() {
    let bytes = log_of(&[set_command(b"key1", b"value1", None), delete_command(b"key2")]);

    let commands = replay_commands(&bytes).unwrap();
    assert_eq!(commands.len(), 2);

    match &commands[0] {
        AOFCommand::SetItem { key, value, expires_at } => {
            assert_eq!(key.as_ref(), b"key1");
            assert_eq!(value.as_ref(), b"value1");
            assert!(expires_at.is_none());
        }
        _ => panic!("Expected SET command"),
    }

    match &commands[1] {
        AOFCommand::Delete { key } => {
            assert_eq!(key.as_ref(), b"key2");
        }
        _ => panic!("Expected DELETE command"),
    }
}

#[test]
fn test_expiration_serialization() {
    let expires_at = 1_700_000_000 * NANOS_PER_SEC + 3600 * NANOS_PER_SEC + 123;
    let options = SetOptions { ttl: None, expires_at: Some(expires_at) };

    let bytes = log_of(&[set_command(b"key1", b"value1", Some(&options))]);
    let commands = replay_commands(&bytes).unwrap();
    assert_eq!(commands.len(), 1);

    match &commands[0] {
        AOFCommand::SetItem { expires_at: exp, .. } => {
            assert!(exp.is_some());
            let secs = exp.unwrap();
            let diff = ((expires_at / NANOS_PER_SEC) as u64).abs_diff(secs);
            assert!(diff < 2);
        }
        _ => panic!("Expected SET command with expiration"),
    }
}

#[test]
fn test_synchronous_rewrite() {
    let config = AOFConfig { rewrite_size_threshold: 100 };
    let mut state = AofState::open(0, config);
    let mut rewrites = 0;
    for i in 0..50 {
        let key = format!("key{}", i);
        let value = format!("value{}", i);
        state.check_write().unwrap();
        let bytes = serialize_command(&set_command(key.as_bytes(), value.as_bytes(), None));
        state.record_write(bytes.len());
        if state.should_rewrite() {
            state.begin_rewrite().unwrap();
            state.finish_rewrite(Some(0));
            rewrites += 1;
        }
    }
    assert!(rewrites > 0);
}

#[test]
fn truncated_record_is_an_io_error() {
    let bytes = serialize_command(&set_command(b"key", b"value", None));
    match replay_commands(&bytes[..bytes.len() - 1]) {
        Err(SpatioError::Io(e)) => assert_eq!(e.kind(), std::io::ErrorKind::UnexpectedEof),
        _ => panic!("expected an I/O error"),
    }
}

#[test]
fn unknown_record_tag_is_invalid_format() {
    match replay_commands(&[7u8, 0, 0, 0, 0]) {
        Err(SpatioError::InvalidFormat) => {}
        _ => panic!("expected InvalidFormat"),
    }
}

#[test]
fn empty_file_replays_to_nothing() {
    assert!(replay_commands(&[]).unwrap().is_empty());
}

#[test]
fn deserialize_reports_the_next_position() {
    let bytes = log_of(&[delete_command(b"ab"), delete_command(b"c")]);
    let (first, next) = deserialize_command(&bytes, 0).unwrap();
    assert_eq!(next, 7);
    match first {
        AOFCommand::Delete { key } => assert_eq!(key.as_ref(), b"ab"),
        _ => panic!("expected DELETE"),
    }
    let (_, end) = deserialize_command(&bytes, next).unwrap();
    assert_eq!(end, bytes.len());
}

#[test]
fn ttl_alone_is_not_recorded() {
    let opts = SetOptions::with_ttl(5 * NANOS_PER_SEC);
    match set_command(b"k", b"v", Some(&opts)) {
        AOFCommand::SetItem { expires_at, .. } => assert!(expires_at.is_none()),
        _ => panic!("expected SET"),
    }
}

#[test]
fn writes_are_refused_during_a_rewrite() {
    let mut state = AofState::open(10, AOFConfig::default());
    assert_eq!(AOFConfig::default().rewrite_size_threshold, 64 * 1024 * 1024);
    state.begin_rewrite().unwrap();
    assert!(matches!(state.check_write(), Err(SpatioError::RewriteInProgress)));
    assert!(matches!(state.begin_rewrite(), Err(SpatioError::RewriteInProgress)));
    assert!(!state.should_rewrite());
    state.finish_rewrite(None);
    assert!(state.check_write().is_ok());
    assert_eq!(state.size(), 10);
}

#[test]
fn a_write_records_the_expiry_its_ttl_gives() {
    let opts = SetOptions::with_ttl(5 * NANOS_PER_SEC);
    match write_command(b"k", b"v", Some(&opts), 10 * NANOS_PER_SEC + 7) {
        AOFCommand::SetItem { expires_at, .. } => assert_eq!(expires_at, Some(15)),
        _ => panic!("expected SET"),
    }
    let both = SetOptions { ttl: Some(5 * NANOS_PER_SEC), expires_at: Some(40 * NANOS_PER_SEC) };
    match write_command(b"k", b"v", Some(&both), 0) {
        AOFCommand::SetItem { expires_at, .. } => assert_eq!(expires_at, Some(40)),
        _ => panic!("expected SET"),
    }
    match write_command(b"k", b"v", None, 0) {
        AOFCommand::SetItem { expires_at, .. } => assert!(expires_at.is_none()),
        _ => panic!("expected SET"),
    }
}
