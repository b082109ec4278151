use cachem::client::{
    del_request, exists_request, get_request, is_pong, keys_request, mdel_request, mexists_request,
    mget_request, mset_request, ping_frame, save_request, set_request, CommandHeader,
};
use cachem::codec::{Schema, Value};
use cachem::command::Command;
use cachem::protocol::{EmptyMsg, Protocol};

#[test]
fn ping_and_pong_bytes() {
    assert_eq!(ping_frame(), vec![0xFE]);
    assert!(is_pong(0xFF));
    assert!(!is_pong(0x00));
}

#[test]
fn command_opcodes() {
    assert_eq!(Command::from_u8(0), Command::Get);
    assert_eq!(Command::from_u8(5), Command::Put);
    assert_eq!(Command::from_u8(9), Command::Save);
    assert_eq!(Command::from_u8(254), Command::Ping);
    // every unassigned byte reads as Pong, the forgiving choice
    assert_eq!(Command::from_u8(123), Command::Pong);
    assert_eq!(Command::MDel.as_u8(), 8);
    assert_eq!(Command::Pong.as_u8(), 255);
}

#[test]
fn request_frames() {
    assert_eq!(get_request(0, &Value::U32(42)), vec![0, 0, 0, 0, 0, 42]);
    assert_eq!(
        set_request(0, &Value::U32(42), &Value::U32(7)),
        vec![5, 0, 0, 0, 0, 42, 0, 0, 0, 7]
    );
    assert_eq!(keys_request(3), vec![2, 3]);
    assert_eq!(save_request(1), vec![9, 1]);
    assert_eq!(exists_request(0, &Value::U8(1)), vec![3, 0, 1]);
    assert_eq!(del_request(0, &Value::U8(1)), vec![7, 0, 1]);
    assert_eq!(
        mget_request(0, vec![Value::U8(1), Value::U8(2)]),
        vec![1, 0, 0, 0, 0, 2, 1, 2]
    );
    assert_eq!(
        mexists_request(0, vec![Value::U8(9)]),
        vec![4, 0, 0, 0, 0, 1, 9]
    );
    assert_eq!(
        mdel_request(2, vec![Value::U8(9)]),
        vec![8, 2, 0, 0, 0, 1, 9]
    );
    assert_eq!(
        mset_request(0, vec![(Value::U8(1), Value::U8(10))]),
        vec![6, 0, 0, 0, 0, 1, 1, 10]
    );
}

#[test]
fn protocol_frames() {
    let header = CommandHeader { cmd: Command::Get, ns: 4 };
    let frame = Protocol::request(&header, &Value::U16(7));
    assert_eq!(frame, vec![0, 4, 0, 7]);

    let mut out = Vec::new();
    Protocol::response(&mut out, &Value::Bool(true));
    assert_eq!(out, vec![1]);
}

#[test]
fn protocol_read_decodes_replies() {
    let reply = vec![0, 7];
    let (v, used) = Protocol::read(&Schema::U16, &reply, 0).unwrap();
    assert!(cachem::codec::value_eq(&v, &Value::U16(7)));
    assert_eq!(used, 2);
    assert!(Protocol::read(&Schema::U32, &reply, 0).is_err());
}

#[test]
fn empty_msg_is_one_byte() {
    let mut out = Vec::new();
    EmptyMsg.write_to(&mut out);
    assert_eq!(out, vec![0]);
    let (_, used) = EmptyMsg::read_from(&out, 0).unwrap();
    assert_eq!(used, 1);
    assert!(EmptyMsg::read_from(&out, 1).is_none());
}
