use cachem::cache::Cache;
use cachem::codec::value_eq;
use cachem::command::Command;
use cachem::codec::{Schema, Value};
use cachem::error::{CachemError, CodecError, ProtocolError};
use cachem::server::Server;

fn u32_server() -> Server {
    let mut server = Server::new();
    server.add(0, Cache::new(Schema::U32, Schema::U32));
    server.add(1, Cache::new(Schema::U32, Schema::U32));
    server
}

fn be32(x: u32) -> [u8; 4] {
    x.to_be_bytes()
}

fn set_frame(ns: u8, key: u32, val: u32) -> Vec<u8> {
    let mut f = vec![5, ns];
    f.extend_from_slice(&be32(key));
    f.extend_from_slice(&be32(val));
    f
}

fn get_frame(ns: u8, key: u32) -> Vec<u8> {
    let mut f = vec![0, ns];
    f.extend_from_slice(&be32(key));
    f
}

#[test]
fn round_trip_set_get() {
    let mut server = u32_server();
    let (reply, used, bc) = server.connection_step(&set_frame(0, 42, 7), 0).unwrap();
    assert_eq!(reply, vec![0x00]);
    assert_eq!(used, 10);
    assert!(bc.is_none());

    let (reply, _, _) = server.connection_step(&get_frame(0, 42), 0).unwrap();
    assert_eq!(reply, vec![0x01, 0x00, 0x00, 0x00, 0x07]);

    let (reply, _, _) = server.connection_step(&get_frame(0, 43), 0).unwrap();
    assert_eq!(reply, vec![0x00]);
}

#[test]
fn mget_ordering() {
    let mut server = u32_server();
    // MSet {1 -> 10, 2 -> 20, 3 -> 30}
    let mut frame = vec![6, 0, 0, 0, 0, 3];
    for (k, v) in [(1u32, 10u32), (2, 20), (3, 30)] {
        frame.extend_from_slice(&be32(k));
        frame.extend_from_slice(&be32(v));
    }
    let (reply, _, _) = server.connection_step(&frame, 0).unwrap();
    assert_eq!(reply, vec![0x00]);

    // MGet [3, 99, 1]: replies keep request order, misses read as None
    let mut frame = vec![1, 0, 0, 0, 0, 3];
    for k in [3u32, 99, 1] {
        frame.extend_from_slice(&be32(k));
    }
    let (reply, _, _) = server.connection_step(&frame, 0).unwrap();
    let expected = vec![
        0, 0, 0, 3, // three answers
        1, 0, 0, 0, 30, // Some(30)
        0, // None
        1, 0, 0, 0, 10, // Some(10)
    ];
    assert_eq!(reply, expected);
}

#[test]
fn ping_interleaving() {
    let mut server = u32_server();
    let (reply, used, bc) = server.connection_step(&[0xFE], 0).unwrap();
    assert_eq!(reply, vec![0xFF]);
    assert_eq!(used, 1);
    assert!(bc.is_none());

    let (_, _, _) = server.connection_step(&set_frame(0, 1, 5), 0).unwrap();
    let (reply, _, _) = server.connection_step(&get_frame(0, 1), 0).unwrap();
    assert_eq!(reply, vec![1, 0, 0, 0, 5]);

    // the connection is still usable: another ping still answers pong
    let (reply, _, _) = server.connection_step(&[0xFE], 0).unwrap();
    assert_eq!(reply, vec![0xFF]);
}

#[test]
fn bad_opcode_closes_connection() {
    let mut server = u32_server();
    // opcode 0x7A followed by garbage: the step refuses, the caller closes
    let garbage = vec![0x7A, 0x01, 0x02, 0x03];
    let err = server.connection_step(&garbage, 0).unwrap_err();
    assert_eq!(err, CachemError::ProtocolError(ProtocolError::UnknownOpcode));

    // a fresh connection against the same server still works
    let (reply, _, _) = server.connection_step(&set_frame(0, 9, 9), 0).unwrap();
    assert_eq!(reply, vec![0x00]);
}

#[test]
fn namespace_isolation() {
    let mut server = u32_server();
    let (_, _, _) = server.connection_step(&set_frame(0, 5, 50), 0).unwrap();
    let (_, _, _) = server.connection_step(&set_frame(1, 5, 99), 0).unwrap();
    // the write to namespace 1 never touched namespace 0
    let (reply, _, _) = server.connection_step(&get_frame(0, 5), 0).unwrap();
    assert_eq!(reply, vec![1, 0, 0, 0, 50]);
    let (reply, _, _) = server.connection_step(&get_frame(1, 5), 0).unwrap();
    assert_eq!(reply, vec![1, 0, 0, 0, 99]);
}

#[test]
fn unknown_namespace_closes() {
    let mut server = u32_server();
    let err = server.connection_step(&get_frame(7, 1), 0).unwrap_err();
    assert_eq!(err, CachemError::ProtocolError(ProtocolError::UnknownNamespace));
}

#[test]
fn truncated_frame_closes() {
    let mut server = u32_server();
    // opcode only, namespace byte missing
    let err = server.connection_step(&[0x00], 0).unwrap_err();
    assert_eq!(err, CachemError::CodecError(CodecError::UnexpectedEnd));
    // key truncated after the header
    let err = server.connection_step(&[0x00, 0x00, 0x01], 0).unwrap_err();
    assert_eq!(err, CachemError::CodecError(CodecError::UnexpectedEnd));
}

#[test]
fn control_namespace_broadcasts() {
    let mut server = u32_server();
    // a Save against the control id broadcasts the opcode to every
    // namespace and answers the empty marker
    let (reply, used, bc) = server.connection_step(&[9, 255], 0).unwrap();
    assert_eq!(reply, vec![0]);
    assert_eq!(used, 2);
    assert_eq!(bc, Some(9));
}

#[test]
fn opcode_coverage() {
    // every request opcode gets exactly one response on one connection
    let mut server = u32_server();
    let mut frames: Vec<Vec<u8>> = Vec::new();
    frames.push(get_frame(0, 1)); // Get
    let mut f = vec![1, 0, 0, 0, 0, 1];
    f.extend_from_slice(&be32(1));
    frames.push(f); // MGet
    frames.push(vec![2, 0]); // Keys
    frames.push(get_frame(0, 1)[..].to_vec());
    frames[3][0] = 3; // Exists
    let mut f = vec![4, 0, 0, 0, 0, 1];
    f.extend_from_slice(&be32(1));
    frames.push(f); // MExists
    frames.push(set_frame(0, 1, 2)); // Set
    frames.push(vec![6, 0, 0, 0, 0, 0]); // MSet of nothing
    let mut f = vec![7, 0];
    f.extend_from_slice(&be32(1));
    frames.push(f); // Del
    let mut f = vec![8, 0, 0, 0, 0, 1];
    f.extend_from_slice(&be32(1));
    frames.push(f); // MDel
    frames.push(vec![9, 0]); // Save
    for frame in frames {
        let (reply, used, _) = server.connection_step(&frame, 0).unwrap();
        assert!(!reply.is_empty());
        assert_eq!(used, frame.len());
    }
}

#[test]
fn exists_del_keys_replies() {
    let mut server = u32_server();
    server.connection_step(&set_frame(0, 3, 33), 0).unwrap();

    let mut exists = vec![3, 0];
    exists.extend_from_slice(&be32(3));
    let (reply, _, _) = server.connection_step(&exists, 0).unwrap();
    assert_eq!(reply, vec![1]);

    let (reply, _, _) = server.connection_step(&[2, 0], 0).unwrap();
    assert_eq!(reply, vec![0, 0, 0, 1, 0, 0, 0, 3]);

    let mut del = vec![7, 0];
    del.extend_from_slice(&be32(3));
    let (reply, _, _) = server.connection_step(&del, 0).unwrap();
    assert_eq!(reply, vec![0]);

    let (reply, _, _) = server.connection_step(&exists, 0).unwrap();
    assert_eq!(reply, vec![0]);
}

#[test]
fn save_replies_in_band_error() {
    // this namespace keeps no snapshotter: Save answers a nonzero status
    let mut server = u32_server();
    let (reply, _, _) = server.connection_step(&[9, 0], 0).unwrap();
    assert_eq!(reply, vec![1]);
}

#[test]
fn cache_direct_capabilities() {
    let mut cache = Cache::new(Schema::U32, Schema::U32);
    assert_eq!(cache.count(), 0);
    cache.set(Value::U32(1), Value::U32(10));
    cache.set(Value::U32(2), Value::U32(20));
    cache.set(Value::U32(1), Value::U32(11));
    assert_eq!(cache.count(), 2);
    assert!(cache.contains_key(&Value::U32(1)));
    let got = cache.get(&Value::U32(1)).unwrap();
    assert!(value_eq(got, &Value::U32(11)));
    cache.del(&Value::U32(1));
    assert!(!cache.contains_key(&Value::U32(1)));
    assert_eq!(cache.count(), 1);
}

#[test]
fn ping_never_reaches_a_namespace() {
    let mut cache = Cache::new(Schema::U32, Schema::U32);
    let err = cache.handle(Command::Ping, &[], 0).unwrap_err();
    assert_eq!(err, CachemError::ProtocolError(ProtocolError::UnsupportedCapability));
}
