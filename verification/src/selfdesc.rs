//! The self-describing binary map adapter.  A struct is a map header (a
//! map kind byte and an entry count) followed by field-name/value
//! entries; every value carries a kind byte (null, string, or map), so a
//! reader can tell what it is looking at without the schema.  An enum is
//! a one-entry map whose key is the variant name: tags are stable names,
//! not ordinals.  Because fields are addressed by name and the entry
//! count is explicit, old-schema bytes decode into a struct with one
//! added optional field, which resolves to absent.

use vstd::prelude::*;
use vstd::string::StringExecFns;
use crate::model::{DecodeError, Msg, Msg2, Msg2V, MsgV, NodeId, NodeIdBorrowed, NodeV, Pid,
    PidBorrowed, PidV, PidV2, PidV2V, upgraded, widened};
use crate::wire::{lemma_starts_concat, lemma_starts_str_fits, lemma_starts_whole, lemma_sub_split,
    msg2_fits, msg_fits,
    node_fits, opt_enc, pid_fits, pid_v2_fits, read_byte, read_exact_str, read_opt,
    read_str, starts, str_enc, v2_pid_part, write_byte, write_opt, write_str};

verus! {

/// Wire shape of a `NodeId`: a two-entry map of named string values.
pub open spec fn node_val(nv: NodeV) -> Seq<u8> {
    seq![2u8, 2u8] + str_enc("name"@) + opt_enc(Some(nv.name)) + str_enc("addr"@) + opt_enc(
        Some(nv.addr),
    )
}

/// The three entries shared by `Pid` and `PidV2`.
pub open spec fn base_entries(pv: PidV) -> Seq<u8> {
    str_enc("group"@) + opt_enc(pv.group) + str_enc("name"@) + opt_enc(Some(pv.name)) + str_enc(
        "node"@,
    ) + node_val(pv.node)
}

/// Wire shape of a `Pid`: a three-entry map.
pub open spec fn pid_val(pv: PidV) -> Seq<u8> {
    seq![2u8, 3u8] + base_entries(pv)
}

/// Wire shape of a `PidV2`: a four-entry map, `owner` last.
pub open spec fn pid_v2_val(w: PidV2V) -> Seq<u8> {
    seq![2u8, 4u8] + base_entries(v2_pid_part(w)) + str_enc("owner"@) + opt_enc(w.owner)
}

/// Wire shape of a `Msg`: a one-entry map keyed by the variant name.
pub open spec fn msg_val(m: MsgV) -> Seq<u8> {
    match m {
        MsgV::NodeId(nv) => seq![2u8, 1u8] + str_enc("NodeId"@) + node_val(nv),
        MsgV::Pid(pv) => seq![2u8, 1u8] + str_enc("Pid"@) + pid_val(pv),
    }
}

/// Wire shape of a `Msg2`: the two original variant names are unchanged.
pub open spec fn msg2_val(m: Msg2V) -> Seq<u8> {
    match m {
        Msg2V::NodeId(nv) => seq![2u8, 1u8] + str_enc("NodeId"@) + node_val(nv),
        Msg2V::Pid(pv) => seq![2u8, 1u8] + str_enc("Pid"@) + pid_val(pv),
        Msg2V::Pid2(w) => seq![2u8, 1u8] + str_enc("Pid2"@) + pid_v2_val(w),
    }
}

/// A `Msg` and its widened `Msg2` counterpart have the same bytes.
pub proof fn lemma_msg_val_widened(m: MsgV)
    ensures
        msg2_val(widened(m)) == msg_val(m),
        msg2_fits(widened(m)) == msg_fits(m),
{
}

fn write_node(out: &mut Vec<u8>, name: &str, addr: &str)
    ensures
        final(out)@ == old(out)@ + node_val(NodeV { name: name@, addr: addr@ }),
        node_fits(NodeV { name: name@, addr: addr@ }),
{
    write_byte(out, 2);
    write_byte(out, 2);
    write_str(out, "name");
    write_opt(out, Some(name));
    write_str(out, "addr");
    write_opt(out, Some(addr));
    proof {
        assert(out@ =~= old(out)@ + node_val(NodeV { name: name@, addr: addr@ }));
    }
}

fn write_base(out: &mut Vec<u8>, group: Option<&str>, name: &str, node_name: &str, node_addr: &str)
    ensures
        final(out)@ == old(out)@ + base_entries(
            PidV {
                group: group.deep_view(),
                name: name@,
                node: NodeV { name: node_name@, addr: node_addr@ },
            },
        ),
        pid_fits(
            PidV {
                group: group.deep_view(),
                name: name@,
                node: NodeV { name: node_name@, addr: node_addr@ },
            },
        ),
{
    write_str(out, "group");
    write_opt(out, group);
    write_str(out, "name");
    write_opt(out, Some(name));
    write_str(out, "node");
    write_node(out, node_name, node_addr);
    proof {
        let pv = PidV {
            group: group.deep_view(),
            name: name@,
            node: NodeV { name: node_name@, addr: node_addr@ },
        };
        assert(out@ =~= old(out)@ + base_entries(pv));
    }
}

/// Encodes a `NodeId`; deterministic and total.
pub fn encode_node_id(v: &NodeId) -> (r: Vec<u8>)
    ensures
        r@ == node_val(v@),
        node_fits(v@),
{
    let mut out: Vec<u8> = Vec::new();
    write_node(&mut out, v.name.as_str(), v.addr.as_str());
    out
}

/// Encodes a `NodeIdBorrowed`: byte-identical to the owned encoding of
/// the same field values.
pub fn encode_node_id_borrowed(v: &NodeIdBorrowed<'_>) -> (r: Vec<u8>)
    ensures
        r@ == node_val(v@),
        node_fits(v@),
{
    let mut out: Vec<u8> = Vec::new();
    write_node(&mut out, v.name, v.addr);
    out
}

/// Encodes a `Pid`; deterministic and total.
pub fn encode_pid(v: &Pid) -> (r: Vec<u8>)
    ensures
        r@ == pid_val(v@),
        pid_fits(v@),
{
    let mut out: Vec<u8> = Vec::new();
    write_byte(&mut out, 2);
    write_byte(&mut out, 3);
    let g = match &v.group {
        Some(s) => Some(s.as_str()),
        None => None,
    };
    write_base(&mut out, g, v.name.as_str(), v.node.name.as_str(), v.node.addr.as_str());
    proof {
        assert(out@ =~= pid_val(v@));
    }
    out
}

/// Encodes a `PidBorrowed`: byte-identical to the owned encoding of the
/// same field values.
pub fn encode_pid_borrowed(v: &PidBorrowed<'_>) -> (r: Vec<u8>)
    ensures
        r@ == pid_val(v@),
        pid_fits(v@),
{
    let mut out: Vec<u8> = Vec::new();
    write_byte(&mut out, 2);
    write_byte(&mut out, 3);
    write_base(&mut out, v.group, v.name, v.node.name, v.node.addr);
    proof {
        assert(out@ =~= pid_val(v@));
    }
    out
}

/// Encodes a `PidV2`; deterministic and total.
pub fn encode_pid_v2(v: &PidV2) -> (r: Vec<u8>)
    ensures
        r@ == pid_v2_val(v@),
        pid_v2_fits(v@),
{
    let mut out: Vec<u8> = Vec::new();
    write_byte(&mut out, 2);
    write_byte(&mut out, 4);
    let g = match &v.group {
        Some(s) => Some(s.as_str()),
        None => None,
    };
    write_base(&mut out, g, v.name.as_str(), v.node.name.as_str(), v.node.addr.as_str());
    write_str(&mut out, "owner");
    let w = match &v.owner {
        Some(s) => Some(s.as_str()),
        None => None,
    };
    write_opt(&mut out, w);
    proof {
        assert(out@ =~= pid_v2_val(v@));
    }
    out
}

/// Encodes a `Msg`; deterministic and total.
pub fn encode_msg(v: &Msg) -> (r: Vec<u8>)
    ensures
        r@ == msg_val(v@),
        msg_fits(v@),
{
    let mut out: Vec<u8> = Vec::new();
    write_byte(&mut out, 2);
    write_byte(&mut out, 1);
    match v {
        Msg::NodeId(n) => {
            write_str(&mut out, "NodeId");
            write_node(&mut out, n.name.as_str(), n.addr.as_str());
        },
        Msg::Pid(p) => {
            write_str(&mut out, "Pid");
            let inner = encode_pid(p);
            let mut tail = inner;
            out.append(&mut tail);
        },
    }
    proof {
        assert(out@ =~= msg_val(v@));
    }
    out
}

/// Encodes a `Msg2`; deterministic and total.
pub fn encode_msg2(v: &Msg2) -> (r: Vec<u8>)
    ensures
        r@ == msg2_val(v@),
        msg2_fits(v@),
{
    let mut out: Vec<u8> = Vec::new();
    write_byte(&mut out, 2);
    write_byte(&mut out, 1);
    match v {
        Msg2::NodeId(n) => {
            write_str(&mut out, "NodeId");
            write_node(&mut out, n.name.as_str(), n.addr.as_str());
        },
        Msg2::Pid(p) => {
            write_str(&mut out, "Pid");
            let inner = encode_pid(p);
            let mut tail = inner;
            out.append(&mut tail);
        },
        Msg2::Pid2(p) => {
            write_str(&mut out, "Pid2");
            let inner = encode_pid_v2(p);
            let mut tail = inner;
            out.append(&mut tail);
        },
    }
    proof {
        assert(out@ =~= msg2_val(v@));
    }
    out
}

/// The layout of a node map: header bytes, then the two named entries.
proof fn lemma_node_val_layout(b: Seq<u8>, pos: int, nv: NodeV)
    requires
        node_fits(nv),
        starts(b, pos, node_val(nv)),
    ensures
        pos + 2 <= b.len(),
        b[pos] == 2,
        b[pos + 1] == 2,
        starts(b, pos + 2, str_enc("name"@)),
        starts(b, pos + 2 + str_enc("name"@).len(), opt_enc(Some(nv.name))),
        starts(
            b,
            pos + 2 + str_enc("name"@).len() + opt_enc(Some(nv.name)).len(),
            str_enc("addr"@),
        ),
        starts(
            b,
            pos + 2 + str_enc("name"@).len() + opt_enc(Some(nv.name)).len() + str_enc(
                "addr"@,
            ).len(),
            opt_enc(Some(nv.addr)),
        ),
        node_val(nv).len() == 2 + str_enc("name"@).len() + opt_enc(Some(nv.name)).len() + str_enc(
            "addr"@,
        ).len() + opt_enc(Some(nv.addr)).len(),
{
    let h = seq![2u8, 2u8];
    let kn = str_enc("name"@);
    let sn = opt_enc(Some(nv.name));
    let ka = str_enc("addr"@);
    lemma_starts_concat(b, pos, h + kn + sn + ka, opt_enc(Some(nv.addr)));
    lemma_starts_concat(b, pos, h + kn + sn, ka);
    lemma_starts_concat(b, pos, h + kn, sn);
    lemma_starts_concat(b, pos, h, kn);
    assert(b.subrange(pos, pos + 2)[0] == b[pos]);
    assert(b.subrange(pos, pos + 2)[1] == b[pos + 1]);
}

/// The layout of the three shared entries.
proof fn lemma_base_layout(b: Seq<u8>, pos: int, pv: PidV)
    requires
        pid_fits(pv),
        starts(b, pos, base_entries(pv)),
    ensures
        starts(b, pos, str_enc("group"@)),
        starts(b, pos + str_enc("group"@).len(), opt_enc(pv.group)),
        starts(
            b,
            pos + str_enc("group"@).len() + opt_enc(pv.group).len(),
            str_enc("name"@),
        ),
        starts(
            b,
            pos + str_enc("group"@).len() + opt_enc(pv.group).len() + str_enc("name"@).len(),
            opt_enc(Some(pv.name)),
        ),
        starts(
            b,
            pos + str_enc("group"@).len() + opt_enc(pv.group).len() + str_enc("name"@).len()
                + opt_enc(Some(pv.name)).len(),
            str_enc("node"@),
        ),
        starts(
            b,
            pos + str_enc("group"@).len() + opt_enc(pv.group).len() + str_enc("name"@).len()
                + opt_enc(Some(pv.name)).len() + str_enc("node"@).len(),
            node_val(pv.node),
        ),
        base_entries(pv).len() == str_enc("group"@).len() + opt_enc(pv.group).len() + str_enc(
            "name"@,
        ).len() + opt_enc(Some(pv.name)).len() + str_enc("node"@).len() + node_val(pv.node).len(),
{
    let kg = str_enc("group"@);
    let vg = opt_enc(pv.group);
    let kn = str_enc("name"@);
    let vn = opt_enc(Some(pv.name));
    let ko = str_enc("node"@);
    lemma_starts_concat(b, pos, kg + vg + kn + vn + ko, node_val(pv.node));
    lemma_starts_concat(b, pos, kg + vg + kn + vn, ko);
    lemma_starts_concat(b, pos, kg + vg + kn, vn);
    lemma_starts_concat(b, pos, kg + vg, kn);
    lemma_starts_concat(b, pos, kg, vg);
}

/// Reads a node map at `pos`.
fn read_node_val(b: &[u8], pos: usize) -> (r: Option<(NodeId, usize)>)
    requires
        pos <= b@.len(),
    ensures
        r matches Some(t) ==> {
            &&& node_fits(t.0@)
            &&& t.1 == pos + node_val(t.0@).len()
            &&& t.1 <= b@.len()
            &&& b@.subrange(pos as int, t.1 as int) == node_val(t.0@)
        },
        forall|nv: NodeV| #![trigger node_val(nv)]
            node_fits(nv) && starts(b@, pos as int, node_val(nv)) ==> (r matches Some(t) && t.0@
                == nv && t.1 == pos + node_val(nv).len()),
{
    let t1 = match read_byte(b, pos) {
        Some((t, p)) => {
            if t == 2 {
                p
            } else {
                proof {
                    assert forall|nv: NodeV|
                        node_fits(nv) && starts(b@, pos as int, node_val(nv)) implies false by {
                        lemma_node_val_layout(b@, pos as int, nv);
                    }
                }
                return None;
            }
        },
        None => {
            proof {
                assert forall|nv: NodeV|
                    node_fits(nv) && starts(b@, pos as int, node_val(nv)) implies false by {
                    lemma_node_val_layout(b@, pos as int, nv);
                }
            }
            return None;
        },
    };
    let t2 = match read_byte(b, t1) {
        Some((c, p)) => {
            if c == 2 {
                p
            } else {
                proof {
                    assert forall|nv: NodeV|
                        node_fits(nv) && starts(b@, pos as int, node_val(nv)) implies false by {
                        lemma_node_val_layout(b@, pos as int, nv);
                    }
                }
                return None;
            }
        },
        None => {
            proof {
                assert forall|nv: NodeV|
                    node_fits(nv) && starts(b@, pos as int, node_val(nv)) implies false by {
                    lemma_node_val_layout(b@, pos as int, nv);
                }
            }
            return None;
        },
    };
    let p1 = match read_exact_str(b, t2, "name") {
        Some(p) => p,
        None => {
            proof {
                assert forall|nv: NodeV|
                    node_fits(nv) && starts(b@, pos as int, node_val(nv)) implies false by {
                    lemma_node_val_layout(b@, pos as int, nv);
                }
            }
            return None;
        },
    };
    let (name, p2) = match read_opt(b, p1) {
        Some((Some(s), p)) => (s, p),
        _ => {
            proof {
                assert forall|nv: NodeV|
                    node_fits(nv) && starts(b@, pos as int, node_val(nv)) implies false by {
                    lemma_node_val_layout(b@, pos as int, nv);
                    assert(starts(b@, p1 as int, opt_enc(Some(nv.name))));
                }
            }
            return None;
        },
    };
    let p3 = match read_exact_str(b, p2, "addr") {
        Some(p) => p,
        None => {
            proof {
                assert forall|nv: NodeV|
                    node_fits(nv) && starts(b@, pos as int, node_val(nv)) implies false by {
                    lemma_node_val_layout(b@, pos as int, nv);
                    assert(starts(b@, p1 as int, opt_enc(Some(nv.name))));
                    assert(starts(b@, p2 as int, str_enc("addr"@)));
                }
            }
            return None;
        },
    };
    let (addr, p4) = match read_opt(b, p3) {
        Some((Some(s), p)) => (s, p),
        _ => {
            proof {
                assert forall|nv: NodeV|
                    node_fits(nv) && starts(b@, pos as int, node_val(nv)) implies false by {
                    lemma_node_val_layout(b@, pos as int, nv);
                    assert(starts(b@, p1 as int, opt_enc(Some(nv.name))));
                    assert(starts(b@, p3 as int, opt_enc(Some(nv.addr))));
                }
            }
            return None;
        },
    };
    proof {
        let got = NodeV { name: name@, addr: addr@ };
        lemma_sub_split(b@, pos as int, t2 as int, p1 as int);
        lemma_sub_split(b@, pos as int, p1 as int, p2 as int);
        lemma_sub_split(b@, pos as int, p2 as int, p3 as int);
        lemma_sub_split(b@, pos as int, p3 as int, p4 as int);
        assert(b@.subrange(pos as int, t2 as int) =~= seq![2u8, 2u8]);
        assert(b@.subrange(pos as int, p4 as int) =~= node_val(got));
        assert forall|nv: NodeV|
            node_fits(nv) && starts(b@, pos as int, node_val(nv)) implies nv =~= got by {
            lemma_node_val_layout(b@, pos as int, nv);
            assert(starts(b@, p1 as int, opt_enc(Some(nv.name))));
            assert(starts(b@, p3 as int, opt_enc(Some(nv.addr))));
        }
    }
    Some((NodeId { name, addr }, p4))
}

/// Reads the three shared entries at `pos`.
fn read_base(b: &[u8], pos: usize) -> (r: Option<(Pid, usize)>)
    requires
        pos <= b@.len(),
    ensures
        r matches Some(t) ==> {
            &&& pid_fits(t.0@)
            &&& t.1 == pos + base_entries(t.0@).len()
            &&& t.1 <= b@.len()
            &&& b@.subrange(pos as int, t.1 as int) == base_entries(t.0@)
        },
        forall|pv: PidV| #![trigger base_entries(pv)]
            pid_fits(pv) && starts(b@, pos as int, base_entries(pv)) ==> (r matches Some(t)
                && t.0@ == pv && t.1 == pos + base_entries(pv).len()),
{
    let p1 = match read_exact_str(b, pos, "group") {
        Some(p) => p,
        None => {
            proof {
                assert forall|pv: PidV|
                    pid_fits(pv) && starts(b@, pos as int, base_entries(pv)) implies false by {
                    lemma_base_layout(b@, pos as int, pv);
                }
            }
            return None;
        },
    };
    let (group, p2) = match read_opt(b, p1) {
        Some((g, p)) => (g, p),
        None => {
            proof {
                assert forall|pv: PidV|
                    pid_fits(pv) && starts(b@, pos as int, base_entries(pv)) implies false by {
                    lemma_base_layout(b@, pos as int, pv);
                    assert(starts(b@, p1 as int, opt_enc(pv.group)));
                }
            }
            return None;
        },
    };
    let p3 = match read_exact_str(b, p2, "name") {
        Some(p) => p,
        None => {
            proof {
                assert forall|pv: PidV|
                    pid_fits(pv) && starts(b@, pos as int, base_entries(pv)) implies false by {
                    lemma_base_layout(b@, pos as int, pv);
                    assert(starts(b@, p1 as int, opt_enc(pv.group)));
                    assert(starts(b@, p2 as int, str_enc("name"@)));
                }
            }
            return None;
        },
    };
    let (name, p4) = match read_opt(b, p3) {
        Some((Some(s), p)) => (s, p),
        _ => {
            proof {
                assert forall|pv: PidV|
                    pid_fits(pv) && starts(b@, pos as int, base_entries(pv)) implies false by {
                    lemma_base_layout(b@, pos as int, pv);
                    assert(starts(b@, p1 as int, opt_enc(pv.group)));
                    assert(starts(b@, p3 as int, opt_enc(Some(pv.name))));
                }
            }
            return None;
        },
    };
    let p5 = match read_exact_str(b, p4, "node") {
        Some(p) => p,
        None => {
            proof {
                assert forall|pv: PidV|
                    pid_fits(pv) && starts(b@, pos as int, base_entries(pv)) implies false by {
                    lemma_base_layout(b@, pos as int, pv);
                    assert(starts(b@, p1 as int, opt_enc(pv.group)));
                    assert(starts(b@, p3 as int, opt_enc(Some(pv.name))));
                    assert(starts(b@, p4 as int, str_enc("node"@)));
                }
            }
            return None;
        },
    };
    let (node, p6) = match read_node_val(b, p5) {
        Some((n, p)) => (n, p),
        None => {
            proof {
                assert forall|pv: PidV|
                    pid_fits(pv) && starts(b@, pos as int, base_entries(pv)) implies false by {
                    lemma_base_layout(b@, pos as int, pv);
                    assert(starts(b@, p1 as int, opt_enc(pv.group)));
                    assert(starts(b@, p3 as int, opt_enc(Some(pv.name))));
                    assert(starts(b@, p5 as int, node_val(pv.node)));
                }
            }
            return None;
        },
    };
    proof {
        let got = PidV { group: group.deep_view(), name: name@, node: node@ };
        lemma_sub_split(b@, pos as int, p1 as int, p2 as int);
        lemma_sub_split(b@, pos as int, p2 as int, p3 as int);
        lemma_sub_split(b@, pos as int, p3 as int, p4 as int);
        lemma_sub_split(b@, pos as int, p4 as int, p5 as int);
        lemma_sub_split(b@, pos as int, p5 as int, p6 as int);
        assert(b@.subrange(pos as int, p6 as int) =~= base_entries(got));
        assert forall|pv: PidV|
            pid_fits(pv) && starts(b@, pos as int, base_entries(pv)) implies pv =~= got by {
            lemma_base_layout(b@, pos as int, pv);
            assert(starts(b@, p1 as int, opt_enc(pv.group)));
            assert(starts(b@, p3 as int, opt_enc(Some(pv.name))));
            assert(starts(b@, p5 as int, node_val(pv.node)));
        }
    }
    Some((Pid { group, name, node }, p6))
}

/// The layout of a whole-buffer `Pid` map.
proof fn lemma_pid_whole(b: Seq<u8>, pv: PidV)
    requires
        pid_fits(pv),
        b == pid_val(pv),
    ensures
        b.len() >= 2,
        b[0] == 2,
        b[1] == 3,
        starts(b, 2, base_entries(pv)),
        b.len() == 2 + base_entries(pv).len(),
{
    lemma_starts_whole(b, pid_val(pv));
    lemma_starts_concat(b, 0, seq![2u8, 3u8], base_entries(pv));
    assert(b.subrange(0, 2)[0] == b[0]);
    assert(b.subrange(0, 2)[1] == b[1]);
}

/// The layout of a whole-buffer `PidV2` map.
proof fn lemma_pid_v2_whole(b: Seq<u8>, w2: PidV2V)
    requires
        pid_v2_fits(w2),
        b == pid_v2_val(w2),
    ensures
        b.len() >= 2,
        b[0] == 2,
        b[1] == 4,
        pid_fits(v2_pid_part(w2)),
        starts(b, 2, base_entries(v2_pid_part(w2))),
        starts(b, 2 + base_entries(v2_pid_part(w2)).len() as int, str_enc("owner"@)),
        starts(
            b,
            2 + base_entries(v2_pid_part(w2)).len() as int + str_enc("owner"@).len() as int,
            opt_enc(w2.owner),
        ),
        b.len() == 2 + base_entries(v2_pid_part(w2)).len() + str_enc("owner"@).len() + opt_enc(
            w2.owner,
        ).len(),
{
    let h = seq![2u8, 4u8];
    let be = base_entries(v2_pid_part(w2));
    let ko = str_enc("owner"@);
    lemma_starts_whole(b, pid_v2_val(w2));
    lemma_starts_concat(b, 0, h + be + ko, opt_enc(w2.owner));
    lemma_starts_concat(b, 0, h + be, ko);
    lemma_starts_concat(b, 0, h, be);
    assert(b.subrange(0, 2)[0] == b[0]);
    assert(b.subrange(0, 2)[1] == b[1]);
}

/// Decodes a whole buffer as a `NodeId`.
pub fn decode_node_id(b: &[u8]) -> (r: Result<NodeId, DecodeError>)
    ensures
        r matches Ok(w) ==> node_fits(w@) && b@ == node_val(w@),
        forall|nv: NodeV| node_fits(nv) && b@ == node_val(nv) ==> (r matches Ok(w) && w@ == nv),
{
    proof {
        assert forall|nv: NodeV| node_fits(nv) && b@ == node_val(nv) implies starts(
            b@,
            0,
            node_val(nv),
        ) by {
            lemma_starts_whole(b@, node_val(nv));
        }
    }
    match read_node_val(b, 0) {
        None => Err(DecodeError::Malformed),
        Some((w, p)) => {
            if p == b.len() {
                proof {
                    assert(b@.subrange(0, p as int) =~= b@);
                }
                Ok(w)
            } else {
                Err(DecodeError::Malformed)
            }
        },
    }
}

/// Decodes a whole buffer as a `Pid`.
pub fn decode_pid(b: &[u8]) -> (r: Result<Pid, DecodeError>)
    ensures
        r matches Ok(w) ==> pid_fits(w@) && b@ == pid_val(w@),
        forall|pv: PidV| pid_fits(pv) && b@ == pid_val(pv) ==> (r matches Ok(w) && w@ == pv),
{
    let p1 = match read_byte(b, 0) {
        Some((t, p)) => {
            if t == 2 {
                p
            } else {
                proof {
                    assert forall|pv: PidV| pid_fits(pv) && b@ == pid_val(pv) implies false by {
                        lemma_pid_whole(b@, pv);
                    }
                }
                return Err(DecodeError::Malformed);
            }
        },
        None => {
            proof {
                assert forall|pv: PidV| pid_fits(pv) && b@ == pid_val(pv) implies false by {
                    lemma_pid_whole(b@, pv);
                }
            }
            return Err(DecodeError::Malformed);
        },
    };
    let p2 = match read_byte(b, p1) {
        Some((c, p)) => {
            if c == 3 {
                p
            } else {
                proof {
                    assert forall|pv: PidV| pid_fits(pv) && b@ == pid_val(pv) implies false by {
                        lemma_pid_whole(b@, pv);
                    }
                }
                return Err(DecodeError::SchemaMismatch);
            }
        },
        None => {
            proof {
                assert forall|pv: PidV| pid_fits(pv) && b@ == pid_val(pv) implies false by {
                    lemma_pid_whole(b@, pv);
                }
            }
            return Err(DecodeError::Malformed);
        },
    };
    proof {
        assert forall|pv: PidV| pid_fits(pv) && b@ == pid_val(pv) implies starts(
            b@,
            p2 as int,
            base_entries(pv),
        ) by {
            lemma_pid_whole(b@, pv);
        }
    }
    match read_base(b, p2) {
        None => Err(DecodeError::Malformed),
        Some((w, p)) => {
            if p == b.len() {
                proof {
                    lemma_sub_split(b@, 0, 2, p as int);
                    assert(b@.subrange(0, 2) =~= seq![2u8, 3u8]);
                    assert(b@.subrange(0, p as int) =~= b@);
                    assert(b@ =~= pid_val(w@));
                }
                Ok(w)
            } else {
                proof {
                    assert forall|pv: PidV| pid_fits(pv) && b@ == pid_val(pv) implies false by {
                        lemma_pid_whole(b@, pv);
                    }
                }
                Err(DecodeError::Malformed)
            }
        },
    }
}

/// Decodes a whole buffer as a `PidV2`.
///
/// Fields are addressed by name and the entry count is explicit, so a
/// three-entry map written for the old `Pid` schema decodes with the
/// added `owner` field resolving to its declared default, absent; a
/// four-entry map decodes all four fields.
#[verifier::rlimit(100)]
pub fn decode_pid_v2(b: &[u8]) -> (r: Result<PidV2, DecodeError>)
    ensures
        r matches Ok(w) ==> pid_v2_fits(w@) && (b@ == pid_v2_val(w@) || (w@.owner is None && b@
            == pid_val(v2_pid_part(w@)))),
        forall|w2: PidV2V|
            pid_v2_fits(w2) && b@ == pid_v2_val(w2) ==> (r matches Ok(w) && w@ == w2),
        forall|pv: PidV|
            pid_fits(pv) && b@ == pid_val(pv) ==> (r matches Ok(w) && w@ == upgraded(pv)),
{
    let p1 = match read_byte(b, 0) {
        Some((t, p)) => {
            if t == 2 {
                p
            } else {
                proof {
                    assert forall|pv: PidV| pid_fits(pv) && b@ == pid_val(pv) implies false by {
                        lemma_pid_whole(b@, pv);
                    }
                    assert forall|w2: PidV2V|
                        pid_v2_fits(w2) && b@ == pid_v2_val(w2) implies false by {
                        lemma_pid_v2_whole(b@, w2);
                    }
                }
                return Err(DecodeError::Malformed);
            }
        },
        None => {
            proof {
                assert forall|pv: PidV| pid_fits(pv) && b@ == pid_val(pv) implies false by {
                    lemma_pid_whole(b@, pv);
                }
                assert forall|w2: PidV2V|
                    pid_v2_fits(w2) && b@ == pid_v2_val(w2) implies false by {
                    lemma_pid_v2_whole(b@, w2);
                }
            }
            return Err(DecodeError::Malformed);
        },
    };
    let (cnt, p2) = match read_byte(b, p1) {
        Some((c, p)) => (c, p),
        None => {
            proof {
                assert forall|pv: PidV| pid_fits(pv) && b@ == pid_val(pv) implies false by {
                    lemma_pid_whole(b@, pv);
                }
                assert forall|w2: PidV2V|
                    pid_v2_fits(w2) && b@ == pid_v2_val(w2) implies false by {
                    lemma_pid_v2_whole(b@, w2);
                }
            }
            return Err(DecodeError::Malformed);
        },
    };
    if cnt == 3 {
        proof {
            assert forall|w2: PidV2V| pid_v2_fits(w2) && b@ == pid_v2_val(w2) implies false by {
                lemma_pid_v2_whole(b@, w2);
            }
            assert forall|pv: PidV| pid_fits(pv) && b@ == pid_val(pv) implies starts(
                b@,
                p2 as int,
                base_entries(pv),
            ) && b@.len() == 2 + base_entries(pv).len() by {
                lemma_pid_whole(b@, pv);
            }
        }
        match read_base(b, p2) {
            None => Err(DecodeError::Malformed),
            Some((base, p)) => {
                if p == b.len() {
                    let w = PidV2 {
                        group: base.group,
                        name: base.name,
                        node: base.node,
                        owner: None,
                    };
                    proof {
                        lemma_sub_split(b@, 0, 2, p as int);
                        assert(b@.subrange(0, 2) =~= seq![2u8, 3u8]);
                        assert(b@.subrange(0, p as int) =~= b@);
                        assert(b@ =~= pid_val(v2_pid_part(w@)));
                        assert forall|pv: PidV|
                            pid_fits(pv) && b@ == pid_val(pv) implies upgraded(pv) =~= w@ by {
                            lemma_pid_whole(b@, pv);
                        }
                    }
                    Ok(w)
                } else {
                    Err(DecodeError::Malformed)
                }
            },
        }
    } else if cnt == 4 {
        proof {
            assert forall|pv: PidV| pid_fits(pv) && b@ == pid_val(pv) implies false by {
                lemma_pid_whole(b@, pv);
            }
            assert forall|w2: PidV2V| pid_v2_fits(w2) && b@ == pid_v2_val(w2) implies starts(
                b@,
                p2 as int,
                base_entries(v2_pid_part(w2)),
            ) && starts(
                b@,
                p2 + base_entries(v2_pid_part(w2)).len() as int,
                str_enc("owner"@),
            ) && starts(
                b@,
                p2 + base_entries(v2_pid_part(w2)).len() as int + str_enc("owner"@).len() as int,
                opt_enc(w2.owner),
            ) && b@.len() == 2 + base_entries(v2_pid_part(w2)).len() + str_enc("owner"@).len()
                + opt_enc(w2.owner).len() by {
                lemma_pid_v2_whole(b@, w2);
            }
        }
        match read_base(b, p2) {
            None => Err(DecodeError::Malformed),
            Some((base, p)) => {
                let p3 = match read_exact_str(b, p, "owner") {
                    Some(q) => q,
                    None => {
                        return Err(DecodeError::SchemaMismatch);
                    },
                };
                match read_opt(b, p3) {
                    None => Err(DecodeError::Malformed),
                    Some((owner, p4)) => {
                        if p4 == b.len() {
                            let w = PidV2 {
                                group: base.group,
                                name: base.name,
                                node: base.node,
                                owner,
                            };
                            proof {
                                lemma_sub_split(b@, 2, p as int, p3 as int);
                                lemma_sub_split(b@, 2, p3 as int, p4 as int);
                                lemma_sub_split(b@, 0, 2, p4 as int);
                                assert(b@.subrange(0, 2) =~= seq![2u8, 4u8]);
                                assert(b@.subrange(0, p4 as int) =~= b@);
                                assert(b@ =~= pid_v2_val(w@));
                                assert forall|w2: PidV2V|
                                    pid_v2_fits(w2) && b@ == pid_v2_val(w2) implies w2 =~= w@ by {
                                    lemma_pid_v2_whole(b@, w2);
                                }
                            }
                            Ok(w)
                        } else {
                            Err(DecodeError::Malformed)
                        }
                    },
                }
            },
        }
    } else {
        proof {
            assert forall|pv: PidV| pid_fits(pv) && b@ == pid_val(pv) implies false by {
                lemma_pid_whole(b@, pv);
            }
            assert forall|w2: PidV2V| pid_v2_fits(w2) && b@ == pid_v2_val(w2) implies false by {
                lemma_pid_v2_whole(b@, w2);
            }
        }
        Err(DecodeError::SchemaMismatch)
    }
}

/// The layout of a whole-buffer `Msg` map.
proof fn lemma_msg_whole(b: Seq<u8>, m: MsgV)
    requires
        msg_fits(m),
        b == msg_val(m),
    ensures
        b.len() >= 2,
        b[0] == 2,
        b[1] == 1,
        m matches MsgV::NodeId(nv) ==> node_fits(nv) && starts(b, 2, str_enc("NodeId"@)) && starts(
            b,
            2 + str_enc("NodeId"@).len() as int,
            node_val(nv),
        ) && b.len() == 2 + str_enc("NodeId"@).len() + node_val(nv).len(),
        m matches MsgV::Pid(pv) ==> pid_fits(pv) && starts(b, 2, str_enc("Pid"@)) && starts(
            b,
            2 + str_enc("Pid"@).len() as int,
            pid_val(pv),
        ) && b.len() == 2 + str_enc("Pid"@).len() + pid_val(pv).len(),
{
    lemma_starts_whole(b, msg_val(m));
    match m {
        MsgV::NodeId(nv) => {
            lemma_starts_concat(b, 0, seq![2u8, 1u8] + str_enc("NodeId"@), node_val(nv));
            lemma_starts_concat(b, 0, seq![2u8, 1u8], str_enc("NodeId"@));
        },
        MsgV::Pid(pv) => {
            lemma_starts_concat(b, 0, seq![2u8, 1u8] + str_enc("Pid"@), pid_val(pv));
            lemma_starts_concat(b, 0, seq![2u8, 1u8], str_enc("Pid"@));
        },
    }
    assert(b.subrange(0, 2)[0] == b[0]);
    assert(b.subrange(0, 2)[1] == b[1]);
}

/// Decodes a whole buffer as a `Msg`.  The variant is recognized by its
/// stable name.
#[verifier::rlimit(50)]
pub fn decode_msg(b: &[u8]) -> (r: Result<Msg, DecodeError>)
    ensures
        r matches Ok(w) ==> msg_fits(w@) && b@ == msg_val(w@),
        forall|m: MsgV| msg_fits(m) && b@ == msg_val(m) ==> (r matches Ok(w) && w@ == m),
{
    let total = b.len();
    proof {
        reveal_strlit("NodeId");
        reveal_strlit("Pid");
        assert(b@.len() <= usize::MAX);
    }
    let p1 = match read_byte(b, 0) {
        Some((t, p)) => {
            if t == 2 {
                p
            } else {
                proof {
                    assert forall|m: MsgV| msg_fits(m) && b@ == msg_val(m) implies false by {
                        lemma_msg_whole(b@, m);
                    }
                }
                return Err(DecodeError::Malformed);
            }
        },
        None => {
            proof {
                assert forall|m: MsgV| msg_fits(m) && b@ == msg_val(m) implies false by {
                    lemma_msg_whole(b@, m);
                }
            }
            return Err(DecodeError::Malformed);
        },
    };
    let p2 = match read_byte(b, p1) {
        Some((c, p)) => {
            if c == 1 {
                p
            } else {
                proof {
                    assert forall|m: MsgV| msg_fits(m) && b@ == msg_val(m) implies false by {
                        lemma_msg_whole(b@, m);
                    }
                }
                return Err(DecodeError::SchemaMismatch);
            }
        },
        None => {
            proof {
                assert forall|m: MsgV| msg_fits(m) && b@ == msg_val(m) implies false by {
                    lemma_msg_whole(b@, m);
                }
            }
            return Err(DecodeError::Malformed);
        },
    };
    let (key, p3) = match read_str(b, p2) {
        Some((s, p)) => (s, p),
        None => {
            proof {
                assert forall|m: MsgV| msg_fits(m) && b@ == msg_val(m) implies false by {
                    lemma_msg_whole(b@, m);
                    match m {
                        MsgV::NodeId(nv) => {
                            lemma_starts_str_fits(b@, 2, "NodeId"@);
                        },
                        MsgV::Pid(pv) => {
                            lemma_starts_str_fits(b@, 2, "Pid"@);
                        },
                    }
                }
            }
            return Err(DecodeError::Malformed);
        },
    };
    proof {
        assert forall|m: MsgV| msg_fits(m) && b@ == msg_val(m) implies (m matches MsgV::NodeId(nv)
            ==> key@ == "NodeId"@ && starts(b@, p3 as int, node_val(nv)) && b@.len() == p3
            + node_val(nv).len()) && (m matches MsgV::Pid(pv) ==> key@ == "Pid"@ && starts(
            b@,
            p3 as int,
            pid_val(pv),
        ) && b@.len() == p3 + pid_val(pv).len()) by {
            lemma_msg_whole(b@, m);
            match m {
                MsgV::NodeId(nv) => {
                    lemma_starts_str_fits(b@, 2, "NodeId"@);
                },
                MsgV::Pid(pv) => {
                    lemma_starts_str_fits(b@, 2, "Pid"@);
                },
            }
        }
    }
    if key.eq(&String::from_str("NodeId")) {
        proof {
            assert forall|m: MsgV| msg_fits(m) && b@ == msg_val(m) implies m matches MsgV::NodeId(
                nv,
            ) && starts(b@, p3 as int, node_val(nv)) by {
                lemma_msg_whole(b@, m);
            }
        }
        match read_node_val(b, p3) {
            None => Err(DecodeError::Malformed),
            Some((n, p4)) => {
                if p4 == b.len() {
                    proof {
                        lemma_sub_split(b@, 2, p3 as int, p4 as int);
                        lemma_sub_split(b@, 0, 2, p4 as int);
                        assert(b@.subrange(0, 2) =~= seq![2u8, 1u8]);
                        assert(b@.subrange(0, p4 as int) =~= b@);
                        assert(b@ =~= msg_val(MsgV::NodeId(n@)));
                    }
                    Ok(Msg::NodeId(n))
                } else {
                    Err(DecodeError::Malformed)
                }
            },
        }
    } else if key.eq(&String::from_str("Pid")) {
        proof {
            assert forall|m: MsgV| msg_fits(m) && b@ == msg_val(m) implies m matches MsgV::Pid(pv)
                && starts(b@, p3 as int, pid_val(pv)) && b@.len() == p3 + pid_val(pv).len() by {
                lemma_msg_whole(b@, m);
            }
        }
        let p4 = match read_byte(b, p3) {
            Some((t, p)) => {
                if t == 2 {
                    p
                } else {
                    proof {
                        assert forall|m: MsgV| msg_fits(m) && b@ == msg_val(m) implies false by {
                            lemma_msg_whole(b@, m);
                            match m {
                                MsgV::Pid(pv) => {
                                    lemma_pid_val_at(b@, p3 as int, pv);
                                },
                                _ => {},
                            }
                        }
                    }
                    return Err(DecodeError::Malformed);
                }
            },
            None => {
                proof {
                    assert forall|m: MsgV| msg_fits(m) && b@ == msg_val(m) implies false by {
                        lemma_msg_whole(b@, m);
                        match m {
                            MsgV::Pid(pv) => {
                                lemma_pid_val_at(b@, p3 as int, pv);
                            },
                            _ => {},
                        }
                    }
                }
                return Err(DecodeError::Malformed);
            },
        };
        let p5 = match read_byte(b, p4) {
            Some((c, p)) => {
                if c == 3 {
                    p
                } else {
                    proof {
                        assert forall|m: MsgV| msg_fits(m) && b@ == msg_val(m) implies false by {
                            lemma_msg_whole(b@, m);
                            match m {
                                MsgV::Pid(pv) => {
                                    lemma_pid_val_at(b@, p3 as int, pv);
                                },
                                _ => {},
                            }
                        }
                    }
                    return Err(DecodeError::SchemaMismatch);
                }
            },
            None => {
                proof {
                    assert forall|m: MsgV| msg_fits(m) && b@ == msg_val(m) implies false by {
                        lemma_msg_whole(b@, m);
                        match m {
                            MsgV::Pid(pv) => {
                                lemma_pid_val_at(b@, p3 as int, pv);
                            },
                            _ => {},
                        }
                    }
                }
                return Err(DecodeError::Malformed);
            },
        };
        proof {
            assert forall|m: MsgV| msg_fits(m) && b@ == msg_val(m) implies m matches MsgV::Pid(pv)
                && starts(b@, p5 as int, base_entries(pv)) by {
                lemma_msg_whole(b@, m);
                match m {
                    MsgV::Pid(pv) => {
                        lemma_pid_val_at(b@, p3 as int, pv);
                    },
                    _ => {},
                }
            }
        }
        match read_base(b, p5) {
            None => Err(DecodeError::Malformed),
            Some((p, p6)) => {
                if p6 == b.len() {
                    proof {
                        lemma_sub_split(b@, p3 as int, p5 as int, p6 as int);
                        lemma_sub_split(b@, 2, p3 as int, p6 as int);
                        lemma_sub_split(b@, 0, 2, p6 as int);
                        assert(b@.subrange(0, 2) =~= seq![2u8, 1u8]);
                        assert(b@.subrange(p3 as int, p5 as int) =~= seq![2u8, 3u8]);
                        assert(b@.subrange(0, p6 as int) =~= b@);
                        assert(b@ =~= msg_val(MsgV::Pid(p@)));
                    }
                    Ok(Msg::Pid(p))
                } else {
                    Err(DecodeError::Malformed)
                }
            },
        }
    } else {
        proof {
            assert forall|m: MsgV| msg_fits(m) && b@ == msg_val(m) implies false by {
                lemma_msg_whole(b@, m);
            }
        }
        Err(DecodeError::SchemaMismatch)
    }
}

/// The layout of a `Pid` map found inside a larger buffer.
proof fn lemma_pid_val_at(b: Seq<u8>, pos: int, pv: PidV)
    requires
        pid_fits(pv),
        starts(b, pos, pid_val(pv)),
    ensures
        pos + 2 <= b.len(),
        b[pos] == 2,
        b[pos + 1] == 3,
        starts(b, pos + 2, base_entries(pv)),
{
    lemma_starts_concat(b, pos, seq![2u8, 3u8], base_entries(pv));
    assert(b.subrange(pos, pos + 2)[0] == b[pos]);
    assert(b.subrange(pos, pos + 2)[1] == b[pos + 1]);
}

/// The layout of a whole-buffer `Msg2` map.
proof fn lemma_msg2_whole(b: Seq<u8>, m2: Msg2V)
    requires
        msg2_fits(m2),
        b == msg2_val(m2),
    ensures
        b.len() >= 2,
        b[0] == 2,
        b[1] == 1,
        m2 matches Msg2V::NodeId(nv) ==> node_fits(nv) && starts(b, 2, str_enc("NodeId"@))
            && starts(b, 2 + str_enc("NodeId"@).len() as int, node_val(nv)) && b.len() == 2
            + str_enc("NodeId"@).len() + node_val(nv).len(),
        m2 matches Msg2V::Pid(pv) ==> pid_fits(pv) && starts(b, 2, str_enc("Pid"@)) && starts(
            b,
            2 + str_enc("Pid"@).len() as int,
            pid_val(pv),
        ) && b.len() == 2 + str_enc("Pid"@).len() + pid_val(pv).len(),
        m2 matches Msg2V::Pid2(w2) ==> pid_v2_fits(w2) && starts(b, 2, str_enc("Pid2"@))
            && starts(b, 2 + str_enc("Pid2"@).len() as int, pid_v2_val(w2)) && b.len() == 2
            + str_enc("Pid2"@).len() + pid_v2_val(w2).len(),
{
    lemma_starts_whole(b, msg2_val(m2));
    match m2 {
        Msg2V::NodeId(nv) => {
            lemma_starts_concat(b, 0, seq![2u8, 1u8] + str_enc("NodeId"@), node_val(nv));
            lemma_starts_concat(b, 0, seq![2u8, 1u8], str_enc("NodeId"@));
        },
        Msg2V::Pid(pv) => {
            lemma_starts_concat(b, 0, seq![2u8, 1u8] + str_enc("Pid"@), pid_val(pv));
            lemma_starts_concat(b, 0, seq![2u8, 1u8], str_enc("Pid"@));
        },
        Msg2V::Pid2(w2) => {
            lemma_starts_concat(b, 0, seq![2u8, 1u8] + str_enc("Pid2"@), pid_v2_val(w2));
            lemma_starts_concat(b, 0, seq![2u8, 1u8], str_enc("Pid2"@));
        },
    }
    assert(b.subrange(0, 2)[0] == b[0]);
    assert(b.subrange(0, 2)[1] == b[1]);
}

/// The layout of a `PidV2` map found inside a larger buffer.
proof fn lemma_pid_v2_val_at(b: Seq<u8>, pos: int, w2: PidV2V)
    requires
        pid_v2_fits(w2),
        starts(b, pos, pid_v2_val(w2)),
    ensures
        pos + 2 <= b.len(),
        b[pos] == 2,
        b[pos + 1] == 4,
        pid_fits(v2_pid_part(w2)),
        starts(b, pos + 2, base_entries(v2_pid_part(w2))),
        starts(b, pos + 2 + base_entries(v2_pid_part(w2)).len(), str_enc("owner"@)),
        starts(
            b,
            pos + 2 + base_entries(v2_pid_part(w2)).len() + str_enc("owner"@).len(),
            opt_enc(w2.owner),
        ),
        pid_v2_val(w2).len() == 2 + base_entries(v2_pid_part(w2)).len() + str_enc(
            "owner"@,
        ).len() + opt_enc(w2.owner).len(),
{
    let h = seq![2u8, 4u8];
    let be = base_entries(v2_pid_part(w2));
    let ko = str_enc("owner"@);
    lemma_starts_concat(b, pos, h + be + ko, opt_enc(w2.owner));
    lemma_starts_concat(b, pos, h + be, ko);
    lemma_starts_concat(b, pos, h, be);
    assert(b.subrange(pos, pos + 2)[0] == b[pos]);
    assert(b.subrange(pos, pos + 2)[1] == b[pos + 1]);
}

/// Decodes a whole buffer as a `Msg2`.
///
/// The variant is recognized by its stable name, so the two original
/// names decode to the unchanged variants and bytes written for the
/// smaller `Msg` decode to the widened value.
#[verifier::rlimit(100)]
pub fn decode_msg2(b: &[u8]) -> (r: Result<Msg2, DecodeError>)
    ensures
        r matches Ok(w) ==> msg2_fits(w@) && b@ == msg2_val(w@),
        forall|m2: Msg2V| msg2_fits(m2) && b@ == msg2_val(m2) ==> (r matches Ok(w) && w@ == m2),
        forall|m: MsgV|
            msg_fits(m) && b@ == msg_val(m) ==> (r matches Ok(w) && w@ == widened(m)),
{
    let total = b.len();
    proof {
        reveal_strlit("NodeId");
        reveal_strlit("Pid");
        reveal_strlit("Pid2");
        assert(b@.len() <= usize::MAX);
        assert forall|m: MsgV| msg_fits(m) && b@ == msg_val(m) implies msg2_fits(widened(m)) && b@
            == msg2_val(widened(m)) by {
            lemma_msg_val_widened(m);
        }
    }
    let p1 = match read_byte(b, 0) {
        Some((t, p)) => {
            if t == 2 {
                p
            } else {
                proof {
                    assert forall|m2: Msg2V| msg2_fits(m2) && b@ == msg2_val(m2) implies false by {
                        lemma_msg2_whole(b@, m2);
                    }
                }
                return Err(DecodeError::Malformed);
            }
        },
        None => {
            proof {
                assert forall|m2: Msg2V| msg2_fits(m2) && b@ == msg2_val(m2) implies false by {
                    lemma_msg2_whole(b@, m2);
                }
            }
            return Err(DecodeError::Malformed);
        },
    };
    let p2 = match read_byte(b, p1) {
        Some((c, p)) => {
            if c == 1 {
                p
            } else {
                proof {
                    assert forall|m2: Msg2V| msg2_fits(m2) && b@ == msg2_val(m2) implies false by {
                        lemma_msg2_whole(b@, m2);
                    }
                }
                return Err(DecodeError::SchemaMismatch);
            }
        },
        None => {
            proof {
                assert forall|m2: Msg2V| msg2_fits(m2) && b@ == msg2_val(m2) implies false by {
                    lemma_msg2_whole(b@, m2);
                }
            }
            return Err(DecodeError::Malformed);
        },
    };
    let (key, p3) = match read_str(b, p2) {
        Some((s, p)) => (s, p),
        None => {
            proof {
                assert forall|m2: Msg2V| msg2_fits(m2) && b@ == msg2_val(m2) implies false by {
                    lemma_msg2_whole(b@, m2);
                    match m2 {
                        Msg2V::NodeId(nv) => lemma_starts_str_fits(b@, 2, "NodeId"@),
                        Msg2V::Pid(pv) => lemma_starts_str_fits(b@, 2, "Pid"@),
                        Msg2V::Pid2(w2) => lemma_starts_str_fits(b@, 2, "Pid2"@),
                    }
                }
            }
            return Err(DecodeError::Malformed);
        },
    };
    proof {
        assert forall|m2: Msg2V| msg2_fits(m2) && b@ == msg2_val(m2) implies (m2 matches
            Msg2V::NodeId(nv) ==> key@ == "NodeId"@ && starts(b@, p3 as int, node_val(nv))
            && b@.len() == p3 + node_val(nv).len()) && (m2 matches Msg2V::Pid(pv) ==> key@
            == "Pid"@ && starts(b@, p3 as int, pid_val(pv)) && b@.len() == p3 + pid_val(pv).len())
            && (m2 matches Msg2V::Pid2(w2) ==> key@ == "Pid2"@ && starts(
            b@,
            p3 as int,
            pid_v2_val(w2),
        ) && b@.len() == p3 + pid_v2_val(w2).len()) by {
            lemma_msg2_whole(b@, m2);
            match m2 {
                Msg2V::NodeId(nv) => lemma_starts_str_fits(b@, 2, "NodeId"@),
                Msg2V::Pid(pv) => lemma_starts_str_fits(b@, 2, "Pid"@),
                Msg2V::Pid2(w2) => lemma_starts_str_fits(b@, 2, "Pid2"@),
            }
        }
    }
    if key.eq(&String::from_str("NodeId")) {
        match read_node_val(b, p3) {
            None => Err(DecodeError::Malformed),
            Some((n, p4)) => {
                if p4 == b.len() {
                    proof {
                        lemma_sub_split(b@, 2, p3 as int, p4 as int);
                        lemma_sub_split(b@, 0, 2, p4 as int);
                        assert(b@.subrange(0, 2) =~= seq![2u8, 1u8]);
                        assert(b@.subrange(0, p4 as int) =~= b@);
                        assert(b@ =~= msg2_val(Msg2V::NodeId(n@)));
                    }
                    Ok(Msg2::NodeId(n))
                } else {
                    Err(DecodeError::Malformed)
                }
            },
        }
    } else if key.eq(&String::from_str("Pid")) {
        let p4 = match read_byte(b, p3) {
            Some((t, p)) => {
                if t == 2 {
                    p
                } else {
                    proof {
                        assert forall|m2: Msg2V|
                            msg2_fits(m2) && b@ == msg2_val(m2) implies false by {
                            lemma_msg2_whole(b@, m2);
                            match m2 {
                                Msg2V::Pid(pv) => lemma_pid_val_at(b@, p3 as int, pv),
                                _ => (),
                            }
                        }
                    }
                    return Err(DecodeError::Malformed);
                }
            },
            None => {
                proof {
                    assert forall|m2: Msg2V| msg2_fits(m2) && b@ == msg2_val(m2) implies false by {
                        lemma_msg2_whole(b@, m2);
                        match m2 {
                            Msg2V::Pid(pv) => lemma_pid_val_at(b@, p3 as int, pv),
                            _ => (),
                        }
                    }
                }
                return Err(DecodeError::Malformed);
            },
        };
        let p5 = match read_byte(b, p4) {
            Some((c, p)) => {
                if c == 3 {
                    p
                } else {
                    proof {
                        assert forall|m2: Msg2V|
                            msg2_fits(m2) && b@ == msg2_val(m2) implies false by {
                            lemma_msg2_whole(b@, m2);
                            match m2 {
                                Msg2V::Pid(pv) => lemma_pid_val_at(b@, p3 as int, pv),
                                _ => (),
                            }
                        }
                    }
                    return Err(DecodeError::SchemaMismatch);
                }
            },
            None => {
                proof {
                    assert forall|m2: Msg2V| msg2_fits(m2) && b@ == msg2_val(m2) implies false by {
                        lemma_msg2_whole(b@, m2);
                        match m2 {
                            Msg2V::Pid(pv) => lemma_pid_val_at(b@, p3 as int, pv),
                            _ => (),
                        }
                    }
                }
                return Err(DecodeError::Malformed);
            },
        };
        proof {
            assert forall|m2: Msg2V| msg2_fits(m2) && b@ == msg2_val(m2) implies m2 matches
                Msg2V::Pid(pv) && starts(b@, p5 as int, base_entries(pv)) by {
                lemma_msg2_whole(b@, m2);
                match m2 {
                    Msg2V::Pid(pv) => lemma_pid_val_at(b@, p3 as int, pv),
                    _ => (),
                }
            }
        }
        match read_base(b, p5) {
            None => Err(DecodeError::Malformed),
            Some((p, p6)) => {
                if p6 == b.len() {
                    proof {
                        lemma_sub_split(b@, p3 as int, p5 as int, p6 as int);
                        lemma_sub_split(b@, 2, p3 as int, p6 as int);
                        lemma_sub_split(b@, 0, 2, p6 as int);
                        assert(b@.subrange(0, 2) =~= seq![2u8, 1u8]);
                        assert(b@.subrange(p3 as int, p5 as int) =~= seq![2u8, 3u8]);
                        assert(b@.subrange(0, p6 as int) =~= b@);
                        assert(b@ =~= msg2_val(Msg2V::Pid(p@)));
                    }
                    Ok(Msg2::Pid(p))
                } else {
                    Err(DecodeError::Malformed)
                }
            },
        }
    } else if key.eq(&String::from_str("Pid2")) {
        let p4 = match read_byte(b, p3) {
            Some((t, p)) => {
                if t == 2 {
                    p
                } else {
                    proof {
                        assert forall|m2: Msg2V|
                            msg2_fits(m2) && b@ == msg2_val(m2) implies false by {
                            lemma_msg2_whole(b@, m2);
                            match m2 {
                                Msg2V::Pid2(w2) => lemma_pid_v2_val_at(b@, p3 as int, w2),
                                _ => (),
                            }
                        }
                    }
                    return Err(DecodeError::Malformed);
                }
            },
            None => {
                proof {
                    assert forall|m2: Msg2V| msg2_fits(m2) && b@ == msg2_val(m2) implies false by {
                        lemma_msg2_whole(b@, m2);
                        match m2 {
                            Msg2V::Pid2(w2) => lemma_pid_v2_val_at(b@, p3 as int, w2),
                            _ => (),
                        }
                    }
                }
                return Err(DecodeError::Malformed);
            },
        };
        let p5 = match read_byte(b, p4) {
            Some((c, p)) => {
                if c == 4 {
                    p
                } else {
                    proof {
                        assert forall|m2: Msg2V|
                            msg2_fits(m2) && b@ == msg2_val(m2) implies false by {
                            lemma_msg2_whole(b@, m2);
                            match m2 {
                                Msg2V::Pid2(w2) => lemma_pid_v2_val_at(b@, p3 as int, w2),
                                _ => (),
                            }
                        }
                    }
                    return Err(DecodeError::SchemaMismatch);
                }
            },
            None => {
                proof {
                    assert forall|m2: Msg2V| msg2_fits(m2) && b@ == msg2_val(m2) implies false by {
                        lemma_msg2_whole(b@, m2);
                        match m2 {
                            Msg2V::Pid2(w2) => lemma_pid_v2_val_at(b@, p3 as int, w2),
                            _ => (),
                        }
                    }
                }
                return Err(DecodeError::Malformed);
            },
        };
        proof {
            assert forall|m2: Msg2V| msg2_fits(m2) && b@ == msg2_val(m2) implies m2 matches
                Msg2V::Pid2(w2) && starts(b@, p5 as int, base_entries(v2_pid_part(w2))) && starts(
                b@,
                p5 + base_entries(v2_pid_part(w2)).len() as int,
                str_enc("owner"@),
            ) && starts(
                b@,
                p5 + base_entries(v2_pid_part(w2)).len() as int + str_enc("owner"@).len() as int,
                opt_enc(w2.owner),
            ) && b@.len() == p5 + base_entries(v2_pid_part(w2)).len() + str_enc(
                "owner"@,
            ).len() + opt_enc(w2.owner).len() by {
                lemma_msg2_whole(b@, m2);
                match m2 {
                    Msg2V::Pid2(w2) => lemma_pid_v2_val_at(b@, p3 as int, w2),
                    _ => (),
                }
            }
        }
        match read_base(b, p5) {
            None => Err(DecodeError::Malformed),
            Some((base, p6)) => {
                let p7 = match read_exact_str(b, p6, "owner") {
                    Some(q) => q,
                    None => {
                        return Err(DecodeError::SchemaMismatch);
                    },
                };
                match read_opt(b, p7) {
                    None => Err(DecodeError::Malformed),
                    Some((owner, p8)) => {
                        if p8 == b.len() {
                            let w = PidV2 {
                                group: base.group,
                                name: base.name,
                                node: base.node,
                                owner,
                            };
                            proof {
                                lemma_sub_split(b@, p5 as int, p6 as int, p7 as int);
                                lemma_sub_split(b@, p5 as int, p7 as int, p8 as int);
                                lemma_sub_split(b@, p3 as int, p5 as int, p8 as int);
                                lemma_sub_split(b@, 2, p3 as int, p8 as int);
                                lemma_sub_split(b@, 0, 2, p8 as int);
                                assert(b@.subrange(0, 2) =~= seq![2u8, 1u8]);
                                assert(b@.subrange(p3 as int, p5 as int) =~= seq![2u8, 4u8]);
                                assert(b@.subrange(0, p8 as int) =~= b@);
                                assert(b@.subrange(p3 as int, p8 as int) =~= pid_v2_val(w@));
                                assert(b@ =~= msg2_val(Msg2V::Pid2(w@)));
                            }
                            Ok(Msg2::Pid2(w))
                        } else {
                            Err(DecodeError::Malformed)
                        }
                    },
                }
            },
        }
    } else {
        proof {
            assert forall|m2: Msg2V| msg2_fits(m2) && b@ == msg2_val(m2) implies false by {
                lemma_msg2_whole(b@, m2);
            }
        }
        Err(DecodeError::SchemaMismatch)
    }
}

} // verus!
