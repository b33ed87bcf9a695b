use pidcodec::model::{Msg, Msg2, NodeId, NodeIdBorrowed, Pid, PidBorrowed, PidV2};

fn node1() -> NodeId {
    NodeId { name: "node1".to_owned(), addr: "127.0.0.1:5000".to_owned() }
}

fn node2() -> NodeId {
    NodeId { name: "node2".to_owned(), addr: "127.0.0.1:6000".to_owned() }
}

fn pid1() -> Pid {
    Pid { group: Some("haret".to_owned()), name: "r1".to_owned(), node: node1() }
}

#[test]
fn compare_pids_equal_success() {
    let p1 = pid1();
    let p2 = p1.clone();
    assert!(p1 == p2);
}

#[test]
fn compare_pids_equal_fail() {
    let p1 = pid1();
    let p2 = Pid { group: Some("haret".to_owned()), name: "r2".to_owned(), node: node2() };
    assert!(!(p1 == p2));
}

#[test]
fn clone_is_structurally_equal() {
    let n = node1();
    assert!(n.clone() == n);
    let p = pid1();
    assert!(p.clone() == p);
    let v2 = PidV2 {
        group: None,
        name: "r1".to_owned(),
        node: node1(),
        owner: Some("boss".to_owned()),
    };
    assert!(v2.clone() == v2);
    let m = Msg::Pid(pid1());
    assert!(m.clone() == m);
    let m2 = Msg2::NodeId(node1());
    assert!(m2.clone() == m2);
}

#[test]
fn equality_is_field_by_field() {
    let a = node1();
    let mut b = node1();
    assert!(a == b);
    b.addr = "127.0.0.1:6000".to_owned();
    assert!(!(a == b));
    let p = pid1();
    let q = Pid { group: None, name: "r1".to_owned(), node: node1() };
    assert!(!(p == q));
    let m = Msg::Pid(pid1());
    let n = Msg::NodeId(node1());
    assert!(!(m == n));
}

#[test]
fn borrowed_clone_duplicates_the_views() {
    let nb = NodeIdBorrowed { name: "node1", addr: "127.0.0.1:5000" };
    let pb = PidBorrowed { group: Some("haret"), name: "r1", node: nb };
    let pc = pb.clone();
    assert_eq!(pc.name, "r1");
    assert_eq!(pc.group, Some("haret"));
    assert_eq!(pc.node.name, "node1");
    assert!(pc.to_pid() == pb.to_pid());
}
