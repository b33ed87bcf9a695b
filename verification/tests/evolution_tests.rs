use pidcodec::model::{DecodeError, Msg, Msg2, NodeId, Pid, PidV2};
use pidcodec::{compact, positional, selfdesc, text};

fn node1() -> NodeId {
    NodeId { name: "node1".to_owned(), addr: "127.0.0.1:5000".to_owned() }
}

fn pid1() -> Pid {
    Pid { group: Some("haret".to_owned()), name: "r1".to_owned(), node: node1() }
}

fn pid1_v2() -> PidV2 {
    PidV2 {
        group: Some("haret".to_owned()),
        name: "r1".to_owned(),
        node: node1(),
        owner: None,
    }
}

#[test]
fn deserialize_old_version_bincode() {
    // The positional adapter has no field names and no count: the old
    // bytes end exactly where the added field would begin, and that is
    // a schema mismatch, never a silent success.
    let encoded = positional::encode_pid(&pid1());
    let r = positional::decode_pid_v2(&encoded);
    assert_eq!(r, Err(DecodeError::SchemaMismatch));
}

#[test]
fn deserialize_old_version_json() {
    let encoded = text::encode_pid(&pid1());
    let pid_v2 = text::decode_pid_v2(&encoded).unwrap();
    println!("{:?}", pid_v2);
    assert_eq!(pid_v2.owner, None);
    assert!(pid_v2 == pid1_v2());
}

#[test]
fn deserialize_old_version_cbor() {
    let encoded = compact::encode_pid(&pid1());
    let pid_v2 = compact::decode_pid_v2(&encoded).unwrap();
    assert_eq!(pid_v2.owner, None);
    assert!(pid_v2 == pid1_v2());
}

#[test]
fn deserialize_old_version_cbor_packed() {
    let encoded = compact::encode_pid_packed(&pid1());
    let pid_v2 = compact::decode_pid_v2_packed(&encoded).unwrap();
    assert_eq!(pid_v2.owner, None);
    assert!(pid_v2 == pid1_v2());
}

#[test]
fn deserialize_old_version_msgpack() {
    let encoded = selfdesc::encode_pid(&pid1());
    let pid_v2 = selfdesc::decode_pid_v2(&encoded).unwrap();
    assert_eq!(pid_v2.owner, None);
    assert!(pid_v2 == pid1_v2());
}

#[test]
fn old_enum_decodes_into_new_enum_positional() {
    let msg = Msg::Pid(pid1());
    let encoded = positional::encode_msg(&msg);
    let msg2 = positional::decode_msg2(&encoded).unwrap();
    assert!(msg2 == Msg2::Pid(pid1()));
}

#[test]
fn old_enum_decodes_into_new_enum_selfdesc() {
    let msg = Msg::Pid(pid1());
    let encoded = selfdesc::encode_msg(&msg);
    let msg2 = selfdesc::decode_msg2(&encoded).unwrap();
    assert!(msg2 == Msg2::Pid(pid1()));
}

#[test]
fn old_enum_node_variant_keeps_its_tag() {
    let msg = Msg::NodeId(node1());
    let encoded = positional::encode_msg(&msg);
    let msg2 = positional::decode_msg2(&encoded).unwrap();
    assert!(msg2 == Msg2::NodeId(node1()));
}

#[test]
fn new_enum_variant_round_trips() {
    let owned = PidV2 {
        group: Some("haret".to_owned()),
        name: "r1".to_owned(),
        node: node1(),
        owner: Some("boss".to_owned()),
    };
    let msg2 = Msg2::Pid2(owned);
    let encoded = positional::encode_msg2(&msg2);
    let back = positional::decode_msg2(&encoded).unwrap();
    assert!(back == msg2);
}

#[test]
fn full_new_schema_round_trips_everywhere() {
    let v = PidV2 {
        group: None,
        name: "r9".to_owned(),
        node: node1(),
        owner: Some("boss".to_owned()),
    };
    assert!(positional::decode_pid_v2(&positional::encode_pid_v2(&v)).unwrap() == v);
    assert!(selfdesc::decode_pid_v2(&selfdesc::encode_pid_v2(&v)).unwrap() == v);
    assert!(compact::decode_pid_v2(&compact::encode_pid_v2(&v)).unwrap() == v);
    assert!(compact::decode_pid_v2_packed(&compact::encode_pid_v2_packed(&v)).unwrap() == v);
    assert!(text::decode_pid_v2(&text::encode_pid_v2(&v)).unwrap() == v);
}

#[test]
fn truncated_buffers_are_malformed() {
    let mut encoded = positional::encode_pid(&pid1());
    encoded.pop();
    assert_eq!(positional::decode_pid(&encoded), Err(DecodeError::Malformed));
    let empty: Vec<u8> = Vec::new();
    assert_eq!(positional::decode_pid(&empty), Err(DecodeError::Malformed));
    assert_eq!(text::decode_pid(&empty), Err(DecodeError::Malformed));
}

#[test]
fn invalid_utf8_payload_is_malformed() {
    // A positional node whose first string claims one byte that is not
    // valid UTF-8.
    let mut bad: Vec<u8> = vec![1, 0, 0, 0, 0, 0, 0, 0, 0xff];
    bad.extend_from_slice(&[0, 0, 0, 0, 0, 0, 0, 0]);
    assert_eq!(positional::decode_node_id(&bad), Err(DecodeError::Malformed));
}

#[test]
fn wrong_field_count_is_a_schema_mismatch() {
    // A two-entry node map decoded as a three-entry pid.
    let encoded = compact::encode_node_id(&node1());
    assert_eq!(compact::decode_pid(&encoded), Err(DecodeError::SchemaMismatch));
    let packed = compact::encode_node_id_packed(&node1());
    assert_eq!(compact::decode_pid_packed(&packed), Err(DecodeError::SchemaMismatch));
}
