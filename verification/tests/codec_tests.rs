use pidcodec::model::{NodeId, NodeIdBorrowed, Pid, PidBorrowed, PidV2};
use pidcodec::{compact, positional, selfdesc, text};

fn node() -> NodeId {
    NodeId { name: "node1".to_owned(), addr: "127.0.0.1:5000".to_owned() }
}

fn pid() -> Pid {
    Pid { group: Some("haret".to_owned()), name: "r1".to_owned(), node: node() }
}

fn pid_no_group() -> Pid {
    Pid { group: None, name: "r2".to_owned(), node: node() }
}

#[test]
fn node_round_trips_everywhere() {
    let n = node();
    assert!(positional::decode_node_id(&positional::encode_node_id(&n)).unwrap() == n);
    assert!(selfdesc::decode_node_id(&selfdesc::encode_node_id(&n)).unwrap() == n);
    assert!(compact::decode_node_id(&compact::encode_node_id(&n)).unwrap() == n);
    assert!(text::decode_node_id(&text::encode_node_id(&n)).unwrap() == n);
}

#[test]
fn pid_round_trips_everywhere() {
    for p in [pid(), pid_no_group()] {
        assert!(positional::decode_pid(&positional::encode_pid(&p)).unwrap() == p);
        assert!(selfdesc::decode_pid(&selfdesc::encode_pid(&p)).unwrap() == p);
        assert!(compact::decode_pid(&compact::encode_pid(&p)).unwrap() == p);
        assert!(compact::decode_pid_packed(&compact::encode_pid_packed(&p)).unwrap() == p);
        assert!(text::decode_pid(&text::encode_pid(&p)).unwrap() == p);
    }
}

#[test]
fn empty_strings_round_trip() {
    let p = Pid {
        group: Some(String::new()),
        name: String::new(),
        node: NodeId { name: String::new(), addr: String::new() },
    };
    assert!(positional::decode_pid(&positional::encode_pid(&p)).unwrap() == p);
    assert!(text::decode_pid(&text::encode_pid(&p)).unwrap() == p);
}

#[test]
fn text_encoding_is_the_documented_text() {
    // The byte length comes first in decimal digits, least-significant
    // digit first, then a colon, then the bytes; 14 is written "41".
    let encoded = text::encode_node_id(&node());
    assert_eq!(encoded, b"{4:name5:node14:addr41:127.0.0.1:5000}".to_vec());
}

#[test]
fn text_encoding_marks_absent_group() {
    let encoded = text::encode_pid(&pid_no_group());
    assert_eq!(
        encoded,
        b"{5:group-4:name2:r24:node{4:name5:node14:addr41:127.0.0.1:5000}}".to_vec()
    );
}

#[test]
fn borrowed_and_owned_encode_to_identical_bytes() {
    let nb = NodeIdBorrowed { name: "node1", addr: "127.0.0.1:5000" };
    let pb = PidBorrowed { group: Some("haret"), name: "r1", node: nb.clone() };
    let p = pid();
    assert_eq!(text::encode_pid_borrowed(&pb), text::encode_pid(&p));
    assert_eq!(selfdesc::encode_pid_borrowed(&pb), selfdesc::encode_pid(&p));
    assert_eq!(compact::encode_pid_borrowed(&pb), compact::encode_pid(&p));
    assert_eq!(positional::encode_pid_borrowed(&pb), positional::encode_pid(&p));
    assert_eq!(text::encode_node_id_borrowed(&nb), text::encode_node_id(&node()));
    assert_eq!(selfdesc::encode_node_id_borrowed(&nb), selfdesc::encode_node_id(&node()));
    assert_eq!(positional::encode_node_id_borrowed(&nb), positional::encode_node_id(&node()));
}

#[test]
fn zero_copy_decode_borrows_from_the_buffer() {
    let encoded = positional::encode_pid(&pid());
    let borrowed = positional::decode_pid_borrowed(&encoded).unwrap();
    assert_eq!(borrowed.name, "r1");
    assert_eq!(borrowed.group, Some("haret"));
    assert_eq!(borrowed.node.addr, "127.0.0.1:5000");
    assert!(borrowed.to_pid() == pid());
    let node_bytes = positional::encode_node_id(&node());
    let nb = positional::decode_node_id_borrowed(&node_bytes).unwrap();
    assert!(nb.to_node_id() == node());
}

#[test]
fn borrowed_decode_path_materializes_equal_value() {
    let buffer = String::from("node1 127.0.0.1:5000 haret r1");
    let nb = NodeIdBorrowed { name: &buffer[0..5], addr: &buffer[6..20] };
    let pb = PidBorrowed { group: Some(&buffer[21..26]), name: &buffer[27..29], node: nb };
    let owned = pb.to_pid();
    assert!(owned == pid());
    assert!(pb.node.to_node_id() == node());
}
