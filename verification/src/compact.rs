//! The compact binary adapter.  A struct is an entry count followed by
//! its fields; in the default named mode each field is preceded by its
//! name, while the optional packed mode elides the names and relies on
//! declaration order alone.  Either way the count is explicit, so a
//! struct written under the old schema is recognized by its smaller
//! count and the trailing optional field resolves to absent: appending
//! an optional field at the end is safe even in packed mode, because
//! the count marks the end of the struct.  Any other reordering or
//! removal under packed mode changes the meaning of every position and
//! is unsafe.

use vstd::prelude::*;
use crate::model::{DecodeError, NodeId, NodeV, Pid, PidBorrowed, PidV, PidV2,
    PidV2V, upgraded};
use crate::wire::{lemma_starts_concat, lemma_starts_whole, lemma_sub_split, node_fits, opt_enc,
    pid_fits, pid_v2_fits, read_byte, read_exact_str, read_opt, read_str, starts,
    str_enc, v2_pid_part, write_byte, write_opt, write_str};

verus! {

/// Named-mode wire shape of a `NodeId`.
pub open spec fn node_enc(nv: NodeV) -> Seq<u8> {
    seq![2u8] + str_enc("name"@) + str_enc(nv.name) + str_enc("addr"@) + str_enc(nv.addr)
}

/// The named-mode entries shared by `Pid` and `PidV2`.
pub open spec fn base_enc(pv: PidV) -> Seq<u8> {
    str_enc("group"@) + opt_enc(pv.group) + str_enc("name"@) + str_enc(pv.name) + str_enc(
        "node"@,
    ) + node_enc(pv.node)
}

/// Named-mode wire shape of a `Pid`.
pub open spec fn pid_enc(pv: PidV) -> Seq<u8> {
    seq![3u8] + base_enc(pv)
}

/// Named-mode wire shape of a `PidV2`, `owner` last.
pub open spec fn pid_v2_enc(w: PidV2V) -> Seq<u8> {
    seq![4u8] + base_enc(v2_pid_part(w)) + str_enc("owner"@) + opt_enc(w.owner)
}

/// Packed-mode wire shape of a `NodeId`: count, then values in order.
pub open spec fn node_packed(nv: NodeV) -> Seq<u8> {
    seq![2u8] + str_enc(nv.name) + str_enc(nv.addr)
}

/// Packed-mode wire shape of a `Pid`.
pub open spec fn pid_packed(pv: PidV) -> Seq<u8> {
    seq![3u8] + opt_enc(pv.group) + str_enc(pv.name) + node_packed(pv.node)
}

/// Packed-mode wire shape of a `PidV2`, `owner` last.
pub open spec fn pid_v2_packed(w: PidV2V) -> Seq<u8> {
    seq![4u8] + opt_enc(w.group) + str_enc(w.name) + node_packed(w.node) + opt_enc(w.owner)
}

fn write_node(out: &mut Vec<u8>, name: &str, addr: &str)
    ensures
        final(out)@ == old(out)@ + node_enc(NodeV { name: name@, addr: addr@ }),
        node_fits(NodeV { name: name@, addr: addr@ }),
{
    write_byte(out, 2);
    write_str(out, "name");
    write_str(out, name);
    write_str(out, "addr");
    write_str(out, addr);
    proof {
        assert(out@ =~= old(out)@ + node_enc(NodeV { name: name@, addr: addr@ }));
    }
}

fn write_base(out: &mut Vec<u8>, group: Option<&str>, name: &str, node_name: &str, node_addr: &str)
    ensures
        final(out)@ == old(out)@ + base_enc(
            PidV {
                group: group.deep_view(),
                name: name@,
                node: NodeV { name: node_name@, addr: node_addr@ },
            },
        ),
        pid_fits(
            PidV {
                group: group.deep_view(),
                name: name@,
                node: NodeV { name: node_name@, addr: node_addr@ },
            },
        ),
{
    write_str(out, "group");
    write_opt(out, group);
    write_str(out, "name");
    write_str(out, name);
    write_str(out, "node");
    write_node(out, node_name, node_addr);
    proof {
        let pv = PidV {
            group: group.deep_view(),
            name: name@,
            node: NodeV { name: node_name@, addr: node_addr@ },
        };
        assert(out@ =~= old(out)@ + base_enc(pv));
    }
}

/// Encodes a `NodeId` in named mode; deterministic and total.
pub fn encode_node_id(v: &NodeId) -> (r: Vec<u8>)
    ensures
        r@ == node_enc(v@),
        node_fits(v@),
{
    let mut out: Vec<u8> = Vec::new();
    write_node(&mut out, v.name.as_str(), v.addr.as_str());
    out
}

/// Encodes a `Pid` in named mode; deterministic and total.
pub fn encode_pid(v: &Pid) -> (r: Vec<u8>)
    ensures
        r@ == pid_enc(v@),
        pid_fits(v@),
{
    let mut out: Vec<u8> = Vec::new();
    write_byte(&mut out, 3);
    let g = match &v.group {
        Some(s) => Some(s.as_str()),
        None => None,
    };
    write_base(&mut out, g, v.name.as_str(), v.node.name.as_str(), v.node.addr.as_str());
    proof {
        assert(out@ =~= pid_enc(v@));
    }
    out
}

/// Encodes a `PidBorrowed` in named mode: byte-identical to the owned
/// encoding of the same field values.
pub fn encode_pid_borrowed(v: &PidBorrowed<'_>) -> (r: Vec<u8>)
    ensures
        r@ == pid_enc(v@),
        pid_fits(v@),
{
    let mut out: Vec<u8> = Vec::new();
    write_byte(&mut out, 3);
    write_base(&mut out, v.group, v.name, v.node.name, v.node.addr);
    proof {
        assert(out@ =~= pid_enc(v@));
    }
    out
}

/// Encodes a `PidV2` in named mode; deterministic and total.
pub fn encode_pid_v2(v: &PidV2) -> (r: Vec<u8>)
    ensures
        r@ == pid_v2_enc(v@),
        pid_v2_fits(v@),
{
    let mut out: Vec<u8> = Vec::new();
    write_byte(&mut out, 4);
    let g = match &v.group {
        Some(s) => Some(s.as_str()),
        None => None,
    };
    write_base(&mut out, g, v.name.as_str(), v.node.name.as_str(), v.node.addr.as_str());
    write_str(&mut out, "owner");
    let w = match &v.owner {
        Some(s) => Some(s.as_str()),
        None => None,
    };
    write_opt(&mut out, w);
    proof {
        assert(out@ =~= pid_v2_enc(v@));
    }
    out
}

/// Encodes a `NodeId` in packed mode; deterministic and total.
pub fn encode_node_id_packed(v: &NodeId) -> (r: Vec<u8>)
    ensures
        r@ == node_packed(v@),
        node_fits(v@),
{
    let mut out: Vec<u8> = Vec::new();
    write_byte(&mut out, 2);
    write_str(&mut out, v.name.as_str());
    write_str(&mut out, v.addr.as_str());
    proof {
        assert(out@ =~= node_packed(v@));
    }
    out
}

/// Encodes a `Pid` in packed mode; deterministic and total.
pub fn encode_pid_packed(v: &Pid) -> (r: Vec<u8>)
    ensures
        r@ == pid_packed(v@),
        pid_fits(v@),
{
    let mut out: Vec<u8> = Vec::new();
    write_byte(&mut out, 3);
    let g = match &v.group {
        Some(s) => Some(s.as_str()),
        None => None,
    };
    write_opt(&mut out, g);
    write_str(&mut out, v.name.as_str());
    write_byte(&mut out, 2);
    write_str(&mut out, v.node.name.as_str());
    write_str(&mut out, v.node.addr.as_str());
    proof {
        assert(out@ =~= pid_packed(v@));
    }
    out
}

/// Encodes a `PidV2` in packed mode; deterministic and total.
pub fn encode_pid_v2_packed(v: &PidV2) -> (r: Vec<u8>)
    ensures
        r@ == pid_v2_packed(v@),
        pid_v2_fits(v@),
{
    let mut out: Vec<u8> = Vec::new();
    write_byte(&mut out, 4);
    let g = match &v.group {
        Some(s) => Some(s.as_str()),
        None => None,
    };
    write_opt(&mut out, g);
    write_str(&mut out, v.name.as_str());
    write_byte(&mut out, 2);
    write_str(&mut out, v.node.name.as_str());
    write_str(&mut out, v.node.addr.as_str());
    let w = match &v.owner {
        Some(s) => Some(s.as_str()),
        None => None,
    };
    write_opt(&mut out, w);
    proof {
        assert(out@ =~= pid_v2_packed(v@));
    }
    out
}

/// The layout of a named-mode node at `pos`.
proof fn lemma_node_layout(b: Seq<u8>, pos: int, nv: NodeV)
    requires
        node_fits(nv),
        starts(b, pos, node_enc(nv)),
    ensures
        pos + 1 <= b.len(),
        b[pos] == 2,
        starts(b, pos + 1, str_enc("name"@)),
        starts(b, pos + 1 + str_enc("name"@).len(), str_enc(nv.name)),
        starts(
            b,
            pos + 1 + str_enc("name"@).len() + str_enc(nv.name).len(),
            str_enc("addr"@),
        ),
        starts(
            b,
            pos + 1 + str_enc("name"@).len() + str_enc(nv.name).len() + str_enc("addr"@).len(),
            str_enc(nv.addr),
        ),
        node_enc(nv).len() == 1 + str_enc("name"@).len() + str_enc(nv.name).len() + str_enc(
            "addr"@,
        ).len() + str_enc(nv.addr).len(),
{
    let h = seq![2u8];
    let kn = str_enc("name"@);
    let sn = str_enc(nv.name);
    let ka = str_enc("addr"@);
    lemma_starts_concat(b, pos, h + kn + sn + ka, str_enc(nv.addr));
    lemma_starts_concat(b, pos, h + kn + sn, ka);
    lemma_starts_concat(b, pos, h + kn, sn);
    lemma_starts_concat(b, pos, h, kn);
    assert(b.subrange(pos, pos + 1)[0] == b[pos]);
}

/// The layout of the named-mode shared entries at `pos`.
proof fn lemma_base_layout(b: Seq<u8>, pos: int, pv: PidV)
    requires
        pid_fits(pv),
        starts(b, pos, base_enc(pv)),
    ensures
        starts(b, pos, str_enc("group"@)),
        starts(b, pos + str_enc("group"@).len(), opt_enc(pv.group)),
        starts(
            b,
            pos + str_enc("group"@).len() + opt_enc(pv.group).len(),
            str_enc("name"@),
        ),
        starts(
            b,
            pos + str_enc("group"@).len() + opt_enc(pv.group).len() + str_enc("name"@).len(),
            str_enc(pv.name),
        ),
        starts(
            b,
            pos + str_enc("group"@).len() + opt_enc(pv.group).len() + str_enc("name"@).len()
                + str_enc(pv.name).len(),
            str_enc("node"@),
        ),
        starts(
            b,
            pos + str_enc("group"@).len() + opt_enc(pv.group).len() + str_enc("name"@).len()
                + str_enc(pv.name).len() + str_enc("node"@).len(),
            node_enc(pv.node),
        ),
        base_enc(pv).len() == str_enc("group"@).len() + opt_enc(pv.group).len() + str_enc(
            "name"@,
        ).len() + str_enc(pv.name).len() + str_enc("node"@).len() + node_enc(pv.node).len(),
{
    let kg = str_enc("group"@);
    let vg = opt_enc(pv.group);
    let kn = str_enc("name"@);
    let vn = str_enc(pv.name);
    let ko = str_enc("node"@);
    lemma_starts_concat(b, pos, kg + vg + kn + vn + ko, node_enc(pv.node));
    lemma_starts_concat(b, pos, kg + vg + kn + vn, ko);
    lemma_starts_concat(b, pos, kg + vg + kn, vn);
    lemma_starts_concat(b, pos, kg + vg, kn);
    lemma_starts_concat(b, pos, kg, vg);
}

/// Reads a named-mode node at `pos`.
fn read_node(b: &[u8], pos: usize) -> (r: Option<(NodeId, usize)>)
    requires
        pos <= b@.len(),
    ensures
        r matches Some(t) ==> {
            &&& node_fits(t.0@)
            &&& t.1 == pos + node_enc(t.0@).len()
            &&& t.1 <= b@.len()
            &&& b@.subrange(pos as int, t.1 as int) == node_enc(t.0@)
        },
        forall|nv: NodeV| #![trigger node_enc(nv)]
            node_fits(nv) && starts(b@, pos as int, node_enc(nv)) ==> (r matches Some(t) && t.0@
                == nv && t.1 == pos + node_enc(nv).len()),
{
    let t1 = match read_byte(b, pos) {
        Some((t, p)) => {
            if t == 2 {
                p
            } else {
                proof {
                    assert forall|nv: NodeV|
                        node_fits(nv) && starts(b@, pos as int, node_enc(nv)) implies false by {
                        lemma_node_layout(b@, pos as int, nv);
                    }
                }
                return None;
            }
        },
        None => {
            proof {
                assert forall|nv: NodeV|
                    node_fits(nv) && starts(b@, pos as int, node_enc(nv)) implies false by {
                    lemma_node_layout(b@, pos as int, nv);
                }
            }
            return None;
        },
    };
    let p1 = match read_exact_str(b, t1, "name") {
        Some(p) => p,
        None => {
            proof {
                assert forall|nv: NodeV|
                    node_fits(nv) && starts(b@, pos as int, node_enc(nv)) implies false by {
                    lemma_node_layout(b@, pos as int, nv);
                }
            }
            return None;
        },
    };
    let (name, p2) = match read_str(b, p1) {
        Some((s, p)) => (s, p),
        None => {
            proof {
                assert forall|nv: NodeV|
                    node_fits(nv) && starts(b@, pos as int, node_enc(nv)) implies false by {
                    lemma_node_layout(b@, pos as int, nv);
                }
            }
            return None;
        },
    };
    let p3 = match read_exact_str(b, p2, "addr") {
        Some(p) => p,
        None => {
            proof {
                assert forall|nv: NodeV|
                    node_fits(nv) && starts(b@, pos as int, node_enc(nv)) implies false by {
                    lemma_node_layout(b@, pos as int, nv);
                }
            }
            return None;
        },
    };
    let (addr, p4) = match read_str(b, p3) {
        Some((s, p)) => (s, p),
        None => {
            proof {
                assert forall|nv: NodeV|
                    node_fits(nv) && starts(b@, pos as int, node_enc(nv)) implies false by {
                    lemma_node_layout(b@, pos as int, nv);
                }
            }
            return None;
        },
    };
    proof {
        let got = NodeV { name: name@, addr: addr@ };
        lemma_sub_split(b@, pos as int, t1 as int, p1 as int);
        lemma_sub_split(b@, pos as int, p1 as int, p2 as int);
        lemma_sub_split(b@, pos as int, p2 as int, p3 as int);
        lemma_sub_split(b@, pos as int, p3 as int, p4 as int);
        assert(b@.subrange(pos as int, t1 as int) =~= seq![2u8]);
        assert(b@.subrange(pos as int, p4 as int) =~= node_enc(got));
        assert forall|nv: NodeV|
            node_fits(nv) && starts(b@, pos as int, node_enc(nv)) implies nv =~= got by {
            lemma_node_layout(b@, pos as int, nv);
        }
    }
    Some((NodeId { name, addr }, p4))
}

/// Reads the named-mode shared entries at `pos`.
fn read_base(b: &[u8], pos: usize) -> (r: Option<(Pid, usize)>)
    requires
        pos <= b@.len(),
    ensures
        r matches Some(t) ==> {
            &&& pid_fits(t.0@)
            &&& t.1 == pos + base_enc(t.0@).len()
            &&& t.1 <= b@.len()
            &&& b@.subrange(pos as int, t.1 as int) == base_enc(t.0@)
        },
        forall|pv: PidV| #![trigger base_enc(pv)]
            pid_fits(pv) && starts(b@, pos as int, base_enc(pv)) ==> (r matches Some(t) && t.0@
                == pv && t.1 == pos + base_enc(pv).len()),
{
    let p1 = match read_exact_str(b, pos, "group") {
        Some(p) => p,
        None => {
            proof {
                assert forall|pv: PidV|
                    pid_fits(pv) && starts(b@, pos as int, base_enc(pv)) implies false by {
                    lemma_base_layout(b@, pos as int, pv);
                }
            }
            return None;
        },
    };
    let (group, p2) = match read_opt(b, p1) {
        Some((g, p)) => (g, p),
        None => {
            proof {
                assert forall|pv: PidV|
                    pid_fits(pv) && starts(b@, pos as int, base_enc(pv)) implies false by {
                    lemma_base_layout(b@, pos as int, pv);
                }
            }
            return None;
        },
    };
    let p3 = match read_exact_str(b, p2, "name") {
        Some(p) => p,
        None => {
            proof {
                assert forall|pv: PidV|
                    pid_fits(pv) && starts(b@, pos as int, base_enc(pv)) implies false by {
                    lemma_base_layout(b@, pos as int, pv);
                }
            }
            return None;
        },
    };
    let (name, p4) = match read_str(b, p3) {
        Some((s, p)) => (s, p),
        None => {
            proof {
                assert forall|pv: PidV|
                    pid_fits(pv) && starts(b@, pos as int, base_enc(pv)) implies false by {
                    lemma_base_layout(b@, pos as int, pv);
                }
            }
            return None;
        },
    };
    let p5 = match read_exact_str(b, p4, "node") {
        Some(p) => p,
        None => {
            proof {
                assert forall|pv: PidV|
                    pid_fits(pv) && starts(b@, pos as int, base_enc(pv)) implies false by {
                    lemma_base_layout(b@, pos as int, pv);
                }
            }
            return None;
        },
    };
    let (node, p6) = match read_node(b, p5) {
        Some((n, p)) => (n, p),
        None => {
            proof {
                assert forall|pv: PidV|
                    pid_fits(pv) && starts(b@, pos as int, base_enc(pv)) implies false by {
                    lemma_base_layout(b@, pos as int, pv);
                }
            }
            return None;
        },
    };
    proof {
        let got = PidV { group: group.deep_view(), name: name@, node: node@ };
        lemma_sub_split(b@, pos as int, p1 as int, p2 as int);
        lemma_sub_split(b@, pos as int, p2 as int, p3 as int);
        lemma_sub_split(b@, pos as int, p3 as int, p4 as int);
        lemma_sub_split(b@, pos as int, p4 as int, p5 as int);
        lemma_sub_split(b@, pos as int, p5 as int, p6 as int);
        assert(b@.subrange(pos as int, p6 as int) =~= base_enc(got));
        assert forall|pv: PidV|
            pid_fits(pv) && starts(b@, pos as int, base_enc(pv)) implies pv =~= got by {
            lemma_base_layout(b@, pos as int, pv);
        }
    }
    Some((Pid { group, name, node }, p6))
}

/// The layout of a whole-buffer named-mode `Pid`.
proof fn lemma_pid_whole(b: Seq<u8>, pv: PidV)
    requires
        pid_fits(pv),
        b == pid_enc(pv),
    ensures
        b.len() >= 1,
        b[0] == 3,
        starts(b, 1, base_enc(pv)),
        b.len() == 1 + base_enc(pv).len(),
{
    lemma_starts_whole(b, pid_enc(pv));
    lemma_starts_concat(b, 0, seq![3u8], base_enc(pv));
    assert(b.subrange(0, 1)[0] == b[0]);
}

/// The layout of a whole-buffer named-mode `PidV2`.
proof fn lemma_pid_v2_whole(b: Seq<u8>, w2: PidV2V)
    requires
        pid_v2_fits(w2),
        b == pid_v2_enc(w2),
    ensures
        b.len() >= 1,
        b[0] == 4,
        pid_fits(v2_pid_part(w2)),
        starts(b, 1, base_enc(v2_pid_part(w2))),
        starts(b, 1 + base_enc(v2_pid_part(w2)).len() as int, str_enc("owner"@)),
        starts(
            b,
            1 + base_enc(v2_pid_part(w2)).len() as int + str_enc("owner"@).len() as int,
            opt_enc(w2.owner),
        ),
        b.len() == 1 + base_enc(v2_pid_part(w2)).len() + str_enc("owner"@).len() + opt_enc(
            w2.owner,
        ).len(),
{
    let h = seq![4u8];
    let be = base_enc(v2_pid_part(w2));
    let ko = str_enc("owner"@);
    lemma_starts_whole(b, pid_v2_enc(w2));
    lemma_starts_concat(b, 0, h + be + ko, opt_enc(w2.owner));
    lemma_starts_concat(b, 0, h + be, ko);
    lemma_starts_concat(b, 0, h, be);
    assert(b.subrange(0, 1)[0] == b[0]);
}

/// Decodes a whole buffer as a named-mode `NodeId`.
pub fn decode_node_id(b: &[u8]) -> (r: Result<NodeId, DecodeError>)
    ensures
        r matches Ok(w) ==> node_fits(w@) && b@ == node_enc(w@),
        forall|nv: NodeV| node_fits(nv) && b@ == node_enc(nv) ==> (r matches Ok(w) && w@ == nv),
{
    proof {
        assert forall|nv: NodeV| node_fits(nv) && b@ == node_enc(nv) implies starts(
            b@,
            0,
            node_enc(nv),
        ) by {
            lemma_starts_whole(b@, node_enc(nv));
        }
    }
    match read_node(b, 0) {
        None => Err(DecodeError::Malformed),
        Some((w, p)) => {
            if p == b.len() {
                proof {
                    assert(b@.subrange(0, p as int) =~= b@);
                }
                Ok(w)
            } else {
                Err(DecodeError::Malformed)
            }
        },
    }
}

/// Decodes a whole buffer as a named-mode `Pid`.
pub fn decode_pid(b: &[u8]) -> (r: Result<Pid, DecodeError>)
    ensures
        r matches Ok(w) ==> pid_fits(w@) && b@ == pid_enc(w@),
        forall|pv: PidV| pid_fits(pv) && b@ == pid_enc(pv) ==> (r matches Ok(w) && w@ == pv),
{
    let p1 = match read_byte(b, 0) {
        Some((c, p)) => {
            if c == 3 {
                p
            } else {
                proof {
                    assert forall|pv: PidV| pid_fits(pv) && b@ == pid_enc(pv) implies false by {
                        lemma_pid_whole(b@, pv);
                    }
                }
                return Err(DecodeError::SchemaMismatch);
            }
        },
        None => {
            proof {
                assert forall|pv: PidV| pid_fits(pv) && b@ == pid_enc(pv) implies false by {
                    lemma_pid_whole(b@, pv);
                }
            }
            return Err(DecodeError::Malformed);
        },
    };
    proof {
        assert forall|pv: PidV| pid_fits(pv) && b@ == pid_enc(pv) implies starts(
            b@,
            p1 as int,
            base_enc(pv),
        ) && b@.len() == 1 + base_enc(pv).len() by {
            lemma_pid_whole(b@, pv);
        }
    }
    match read_base(b, p1) {
        None => Err(DecodeError::Malformed),
        Some((w, p)) => {
            if p == b.len() {
                proof {
                    lemma_sub_split(b@, 0, 1, p as int);
                    assert(b@.subrange(0, 1) =~= seq![3u8]);
                    assert(b@.subrange(0, p as int) =~= b@);
                    assert(b@ =~= pid_enc(w@));
                }
                Ok(w)
            } else {
                Err(DecodeError::Malformed)
            }
        },
    }
}

/// Decodes a whole buffer as a named-mode `PidV2`.
///
/// The count is explicit and `owner` is the last, named entry, so a
/// three-entry struct written for the old `Pid` schema decodes with
/// `owner` resolving to absent; a four-entry struct decodes fully.
#[verifier::rlimit(100)]
pub fn decode_pid_v2(b: &[u8]) -> (r: Result<PidV2, DecodeError>)
    ensures
        r matches Ok(w) ==> pid_v2_fits(w@) && (b@ == pid_v2_enc(w@) || (w@.owner is None && b@
            == pid_enc(v2_pid_part(w@)))),
        forall|w2: PidV2V|
            pid_v2_fits(w2) && b@ == pid_v2_enc(w2) ==> (r matches Ok(w) && w@ == w2),
        forall|pv: PidV|
            pid_fits(pv) && b@ == pid_enc(pv) ==> (r matches Ok(w) && w@ == upgraded(pv)),
{
    let (cnt, p1) = match read_byte(b, 0) {
        Some((c, p)) => (c, p),
        None => {
            proof {
                assert forall|pv: PidV| pid_fits(pv) && b@ == pid_enc(pv) implies false by {
                    lemma_pid_whole(b@, pv);
                }
                assert forall|w2: PidV2V|
                    pid_v2_fits(w2) && b@ == pid_v2_enc(w2) implies false by {
                    lemma_pid_v2_whole(b@, w2);
                }
            }
            return Err(DecodeError::Malformed);
        },
    };
    if cnt == 3 {
        proof {
            assert forall|w2: PidV2V| pid_v2_fits(w2) && b@ == pid_v2_enc(w2) implies false by {
                lemma_pid_v2_whole(b@, w2);
            }
            assert forall|pv: PidV| pid_fits(pv) && b@ == pid_enc(pv) implies starts(
                b@,
                p1 as int,
                base_enc(pv),
            ) && b@.len() == 1 + base_enc(pv).len() by {
                lemma_pid_whole(b@, pv);
            }
        }
        match read_base(b, p1) {
            None => Err(DecodeError::Malformed),
            Some((base, p)) => {
                if p == b.len() {
                    let w = PidV2 {
                        group: base.group,
                        name: base.name,
                        node: base.node,
                        owner: None,
                    };
                    proof {
                        lemma_sub_split(b@, 0, 1, p as int);
                        assert(b@.subrange(0, 1) =~= seq![3u8]);
                        assert(b@.subrange(0, p as int) =~= b@);
                        assert(b@ =~= pid_enc(v2_pid_part(w@)));
                        assert forall|pv: PidV|
                            pid_fits(pv) && b@ == pid_enc(pv) implies upgraded(pv) =~= w@ by {
                            lemma_pid_whole(b@, pv);
                        }
                    }
                    Ok(w)
                } else {
                    Err(DecodeError::Malformed)
                }
            },
        }
    } else if cnt == 4 {
        proof {
            assert forall|pv: PidV| pid_fits(pv) && b@ == pid_enc(pv) implies false by {
                lemma_pid_whole(b@, pv);
            }
            assert forall|w2: PidV2V| pid_v2_fits(w2) && b@ == pid_v2_enc(w2) implies starts(
                b@,
                p1 as int,
                base_enc(v2_pid_part(w2)),
            ) && starts(
                b@,
                p1 + base_enc(v2_pid_part(w2)).len() as int,
                str_enc("owner"@),
            ) && starts(
                b@,
                p1 + base_enc(v2_pid_part(w2)).len() as int + str_enc("owner"@).len() as int,
                opt_enc(w2.owner),
            ) && b@.len() == 1 + base_enc(v2_pid_part(w2)).len() + str_enc("owner"@).len()
                + opt_enc(w2.owner).len() by {
                lemma_pid_v2_whole(b@, w2);
            }
        }
        match read_base(b, p1) {
            None => Err(DecodeError::Malformed),
            Some((base, p)) => {
                let p3 = match read_exact_str(b, p, "owner") {
                    Some(q) => q,
                    None => {
                        return Err(DecodeError::SchemaMismatch);
                    },
                };
                match read_opt(b, p3) {
                    None => Err(DecodeError::Malformed),
                    Some((owner, p4)) => {
                        if p4 == b.len() {
                            let w = PidV2 {
                                group: base.group,
                                name: base.name,
                                node: base.node,
                                owner,
                            };
                            proof {
                                lemma_sub_split(b@, 1, p as int, p3 as int);
                                lemma_sub_split(b@, 1, p3 as int, p4 as int);
                                lemma_sub_split(b@, 0, 1, p4 as int);
                                assert(b@.subrange(0, 1) =~= seq![4u8]);
                                assert(b@.subrange(0, p4 as int) =~= b@);
                                assert(b@ =~= pid_v2_enc(w@));
                                assert forall|w2: PidV2V|
                                    pid_v2_fits(w2) && b@ == pid_v2_enc(w2) implies w2 =~= w@ by {
                                    lemma_pid_v2_whole(b@, w2);
                                }
                            }
                            Ok(w)
                        } else {
                            Err(DecodeError::Malformed)
                        }
                    },
                }
            },
        }
    } else {
        proof {
            assert forall|pv: PidV| pid_fits(pv) && b@ == pid_enc(pv) implies false by {
                lemma_pid_whole(b@, pv);
            }
            assert forall|w2: PidV2V| pid_v2_fits(w2) && b@ == pid_v2_enc(w2) implies false by {
                lemma_pid_v2_whole(b@, w2);
            }
        }
        Err(DecodeError::SchemaMismatch)
    }
}

/// The layout of a packed node at `pos`.
proof fn lemma_node_packed_layout(b: Seq<u8>, pos: int, nv: NodeV)
    requires
        node_fits(nv),
        starts(b, pos, node_packed(nv)),
    ensures
        pos + 1 <= b.len(),
        b[pos] == 2,
        starts(b, pos + 1, str_enc(nv.name)),
        starts(b, pos + 1 + str_enc(nv.name).len(), str_enc(nv.addr)),
        node_packed(nv).len() == 1 + str_enc(nv.name).len() + str_enc(nv.addr).len(),
{
    let h = seq![2u8];
    lemma_starts_concat(b, pos, h + str_enc(nv.name), str_enc(nv.addr));
    lemma_starts_concat(b, pos, h, str_enc(nv.name));
    assert(b.subrange(pos, pos + 1)[0] == b[pos]);
}

/// The layout of a whole-buffer packed `Pid`.
proof fn lemma_pid_packed_whole(b: Seq<u8>, pv: PidV)
    requires
        pid_fits(pv),
        b == pid_packed(pv),
    ensures
        b.len() >= 1,
        b[0] == 3,
        starts(b, 1, opt_enc(pv.group)),
        starts(b, 1 + opt_enc(pv.group).len() as int, str_enc(pv.name)),
        starts(
            b,
            1 + opt_enc(pv.group).len() as int + str_enc(pv.name).len() as int,
            node_packed(pv.node),
        ),
        b.len() == 1 + opt_enc(pv.group).len() + str_enc(pv.name).len() + node_packed(
            pv.node,
        ).len(),
{
    let h = seq![3u8];
    lemma_starts_whole(b, pid_packed(pv));
    lemma_starts_concat(b, 0, h + opt_enc(pv.group) + str_enc(pv.name), node_packed(pv.node));
    lemma_starts_concat(b, 0, h + opt_enc(pv.group), str_enc(pv.name));
    lemma_starts_concat(b, 0, h, opt_enc(pv.group));
    assert(b.subrange(0, 1)[0] == b[0]);
}

/// The layout of a whole-buffer packed `PidV2`.
proof fn lemma_pid_v2_packed_whole(b: Seq<u8>, w2: PidV2V)
    requires
        pid_v2_fits(w2),
        b == pid_v2_packed(w2),
    ensures
        b.len() >= 1,
        b[0] == 4,
        starts(b, 1, opt_enc(w2.group)),
        starts(b, 1 + opt_enc(w2.group).len() as int, str_enc(w2.name)),
        starts(
            b,
            1 + opt_enc(w2.group).len() as int + str_enc(w2.name).len() as int,
            node_packed(w2.node),
        ),
        starts(
            b,
            1 + opt_enc(w2.group).len() as int + str_enc(w2.name).len() as int + node_packed(
                w2.node,
            ).len() as int,
            opt_enc(w2.owner),
        ),
        b.len() == 1 + opt_enc(w2.group).len() + str_enc(w2.name).len() + node_packed(
            w2.node,
        ).len() + opt_enc(w2.owner).len(),
{
    let h = seq![4u8];
    lemma_starts_whole(b, pid_v2_packed(w2));
    lemma_starts_concat(
        b,
        0,
        h + opt_enc(w2.group) + str_enc(w2.name) + node_packed(w2.node),
        opt_enc(w2.owner),
    );
    lemma_starts_concat(b, 0, h + opt_enc(w2.group) + str_enc(w2.name), node_packed(w2.node));
    lemma_starts_concat(b, 0, h + opt_enc(w2.group), str_enc(w2.name));
    lemma_starts_concat(b, 0, h, opt_enc(w2.group));
    assert(b.subrange(0, 1)[0] == b[0]);
}

/// Reads a packed node at `pos`.
fn read_node_packed(b: &[u8], pos: usize) -> (r: Option<(NodeId, usize)>)
    requires
        pos <= b@.len(),
    ensures
        r matches Some(t) ==> {
            &&& node_fits(t.0@)
            &&& t.1 == pos + node_packed(t.0@).len()
            &&& t.1 <= b@.len()
            &&& b@.subrange(pos as int, t.1 as int) == node_packed(t.0@)
        },
        forall|nv: NodeV| #![trigger node_packed(nv)]
            node_fits(nv) && starts(b@, pos as int, node_packed(nv)) ==> (r matches Some(t)
                && t.0@ == nv && t.1 == pos + node_packed(nv).len()),
{
    let t1 = match read_byte(b, pos) {
        Some((t, p)) => {
            if t == 2 {
                p
            } else {
                proof {
                    assert forall|nv: NodeV|
                        node_fits(nv) && starts(b@, pos as int, node_packed(nv)) implies false by {
                        lemma_node_packed_layout(b@, pos as int, nv);
                    }
                }
                return None;
            }
        },
        None => {
            proof {
                assert forall|nv: NodeV|
                    node_fits(nv) && starts(b@, pos as int, node_packed(nv)) implies false by {
                    lemma_node_packed_layout(b@, pos as int, nv);
                }
            }
            return None;
        },
    };
    let (name, p1) = match read_str(b, t1) {
        Some((s, p)) => (s, p),
        None => {
            proof {
                assert forall|nv: NodeV|
                    node_fits(nv) && starts(b@, pos as int, node_packed(nv)) implies false by {
                    lemma_node_packed_layout(b@, pos as int, nv);
                }
            }
            return None;
        },
    };
    let (addr, p2) = match read_str(b, p1) {
        Some((s, p)) => (s, p),
        None => {
            proof {
                assert forall|nv: NodeV|
                    node_fits(nv) && starts(b@, pos as int, node_packed(nv)) implies false by {
                    lemma_node_packed_layout(b@, pos as int, nv);
                }
            }
            return None;
        },
    };
    proof {
        let got = NodeV { name: name@, addr: addr@ };
        lemma_sub_split(b@, pos as int, t1 as int, p1 as int);
        lemma_sub_split(b@, pos as int, p1 as int, p2 as int);
        assert(b@.subrange(pos as int, t1 as int) =~= seq![2u8]);
        assert(b@.subrange(pos as int, p2 as int) =~= node_packed(got));
        assert forall|nv: NodeV|
            node_fits(nv) && starts(b@, pos as int, node_packed(nv)) implies nv =~= got by {
            lemma_node_packed_layout(b@, pos as int, nv);
        }
    }
    Some((NodeId { name, addr }, p2))
}

/// Decodes a whole buffer as a packed `Pid`.
pub fn decode_pid_packed(b: &[u8]) -> (r: Result<Pid, DecodeError>)
    ensures
        r matches Ok(w) ==> pid_fits(w@) && b@ == pid_packed(w@),
        forall|pv: PidV| pid_fits(pv) && b@ == pid_packed(pv) ==> (r matches Ok(w) && w@ == pv),
{
    let p1 = match read_byte(b, 0) {
        Some((c, p)) => {
            if c == 3 {
                p
            } else {
                proof {
                    assert forall|pv: PidV| pid_fits(pv) && b@ == pid_packed(pv) implies false by {
                        lemma_pid_packed_whole(b@, pv);
                    }
                }
                return Err(DecodeError::SchemaMismatch);
            }
        },
        None => {
            proof {
                assert forall|pv: PidV| pid_fits(pv) && b@ == pid_packed(pv) implies false by {
                    lemma_pid_packed_whole(b@, pv);
                }
            }
            return Err(DecodeError::Malformed);
        },
    };
    proof {
        assert forall|pv: PidV| pid_fits(pv) && b@ == pid_packed(pv) implies starts(
            b@,
            p1 as int,
            opt_enc(pv.group),
        ) && starts(b@, p1 + opt_enc(pv.group).len() as int, str_enc(pv.name)) && starts(
            b@,
            p1 + opt_enc(pv.group).len() as int + str_enc(pv.name).len() as int,
            node_packed(pv.node),
        ) && b@.len() == 1 + opt_enc(pv.group).len() + str_enc(pv.name).len() + node_packed(
            pv.node,
        ).len() by {
            lemma_pid_packed_whole(b@, pv);
        }
    }
    let (group, p2) = match read_opt(b, p1) {
        Some((g, p)) => (g, p),
        None => {
            return Err(DecodeError::Malformed);
        },
    };
    let (name, p3) = match read_str(b, p2) {
        Some((s, p)) => (s, p),
        None => {
            return Err(DecodeError::Malformed);
        },
    };
    let (node, p4) = match read_node_packed(b, p3) {
        Some((n, p)) => (n, p),
        None => {
            return Err(DecodeError::Malformed);
        },
    };
    if p4 == b.len() {
        let w = Pid { group, name, node };
        proof {
            lemma_sub_split(b@, 1, p2 as int, p3 as int);
            lemma_sub_split(b@, 1, p3 as int, p4 as int);
            lemma_sub_split(b@, 0, 1, p4 as int);
            assert(b@.subrange(0, 1) =~= seq![3u8]);
            assert(b@.subrange(0, p4 as int) =~= b@);
            assert(b@ =~= pid_packed(w@));
            assert forall|pv: PidV|
                pid_fits(pv) && b@ == pid_packed(pv) implies pv =~= w@ by {
                lemma_pid_packed_whole(b@, pv);
            }
        }
        Ok(w)
    } else {
        Err(DecodeError::Malformed)
    }
}

/// Decodes a whole buffer as a packed `PidV2`.
///
/// Packed framing still carries the field count, which marks the end of
/// the struct: a three-field struct written for the old `Pid` schema is
/// recognized by its count and the trailing `owner` resolves to absent.
/// That is the one safe packed-mode schema change; any change that does
/// not preserve order and count of the existing fields is unsafe.
#[verifier::rlimit(100)]
pub fn decode_pid_v2_packed(b: &[u8]) -> (r: Result<PidV2, DecodeError>)
    ensures
        r matches Ok(w) ==> pid_v2_fits(w@) && (b@ == pid_v2_packed(w@) || (w@.owner is None && b@
            == pid_packed(v2_pid_part(w@)))),
        forall|w2: PidV2V|
            pid_v2_fits(w2) && b@ == pid_v2_packed(w2) ==> (r matches Ok(w) && w@ == w2),
        forall|pv: PidV|
            pid_fits(pv) && b@ == pid_packed(pv) ==> (r matches Ok(w) && w@ == upgraded(pv)),
{
    let (cnt, p1) = match read_byte(b, 0) {
        Some((c, p)) => (c, p),
        None => {
            proof {
                assert forall|pv: PidV| pid_fits(pv) && b@ == pid_packed(pv) implies false by {
                    lemma_pid_packed_whole(b@, pv);
                }
                assert forall|w2: PidV2V|
                    pid_v2_fits(w2) && b@ == pid_v2_packed(w2) implies false by {
                    lemma_pid_v2_packed_whole(b@, w2);
                }
            }
            return Err(DecodeError::Malformed);
        },
    };
    if cnt == 3 {
        proof {
            assert forall|w2: PidV2V|
                pid_v2_fits(w2) && b@ == pid_v2_packed(w2) implies false by {
                lemma_pid_v2_packed_whole(b@, w2);
            }
            assert forall|pv: PidV| pid_fits(pv) && b@ == pid_packed(pv) implies starts(
                b@,
                p1 as int,
                opt_enc(pv.group),
            ) && starts(b@, p1 + opt_enc(pv.group).len() as int, str_enc(pv.name)) && starts(
                b@,
                p1 + opt_enc(pv.group).len() as int + str_enc(pv.name).len() as int,
                node_packed(pv.node),
            ) && b@.len() == 1 + opt_enc(pv.group).len() + str_enc(pv.name).len() + node_packed(
                pv.node,
            ).len() by {
                lemma_pid_packed_whole(b@, pv);
            }
        }
        let (group, p2) = match read_opt(b, p1) {
            Some((g, p)) => (g, p),
            None => {
                return Err(DecodeError::Malformed);
            },
        };
        let (name, p3) = match read_str(b, p2) {
            Some((s, p)) => (s, p),
            None => {
                return Err(DecodeError::Malformed);
            },
        };
        let (node, p4) = match read_node_packed(b, p3) {
            Some((n, p)) => (n, p),
            None => {
                return Err(DecodeError::Malformed);
            },
        };
        if p4 == b.len() {
            let w = PidV2 { group, name, node, owner: None };
            proof {
                lemma_sub_split(b@, 1, p2 as int, p3 as int);
                lemma_sub_split(b@, 1, p3 as int, p4 as int);
                lemma_sub_split(b@, 0, 1, p4 as int);
                assert(b@.subrange(0, 1) =~= seq![3u8]);
                assert(b@.subrange(0, p4 as int) =~= b@);
                assert(b@ =~= pid_packed(v2_pid_part(w@)));
                assert forall|pv: PidV|
                    pid_fits(pv) && b@ == pid_packed(pv) implies upgraded(pv) =~= w@ by {
                    lemma_pid_packed_whole(b@, pv);
                }
            }
            Ok(w)
        } else {
            Err(DecodeError::Malformed)
        }
    } else if cnt == 4 {
        proof {
            assert forall|pv: PidV| pid_fits(pv) && b@ == pid_packed(pv) implies false by {
                lemma_pid_packed_whole(b@, pv);
            }
            assert forall|w2: PidV2V| pid_v2_fits(w2) && b@ == pid_v2_packed(w2) implies starts(
                b@,
                p1 as int,
                opt_enc(w2.group),
            ) && starts(b@, p1 + opt_enc(w2.group).len() as int, str_enc(w2.name)) && starts(
                b@,
                p1 + opt_enc(w2.group).len() as int + str_enc(w2.name).len() as int,
                node_packed(w2.node),
            ) && starts(
                b@,
                p1 + opt_enc(w2.group).len() as int + str_enc(w2.name).len() as int + node_packed(
                    w2.node,
                ).len() as int,
                opt_enc(w2.owner),
            ) && b@.len() == 1 + opt_enc(w2.group).len() + str_enc(w2.name).len() + node_packed(
                w2.node,
            ).len() + opt_enc(w2.owner).len() by {
                lemma_pid_v2_packed_whole(b@, w2);
            }
        }
        let (group, p2) = match read_opt(b, p1) {
            Some((g, p)) => (g, p),
            None => {
                return Err(DecodeError::Malformed);
            },
        };
        let (name, p3) = match read_str(b, p2) {
            Some((s, p)) => (s, p),
            None => {
                return Err(DecodeError::Malformed);
            },
        };
        let (node, p4) = match read_node_packed(b, p3) {
            Some((n, p)) => (n, p),
            None => {
                return Err(DecodeError::Malformed);
            },
        };
        let (owner, p5) = match read_opt(b, p4) {
            Some((o, p)) => (o, p),
            None => {
                return Err(DecodeError::Malformed);
            },
        };
        if p5 == b.len() {
            let w = PidV2 { group, name, node, owner };
            proof {
                lemma_sub_split(b@, 1, p2 as int, p3 as int);
                lemma_sub_split(b@, 1, p3 as int, p4 as int);
                lemma_sub_split(b@, 1, p4 as int, p5 as int);
                lemma_sub_split(b@, 0, 1, p5 as int);
                assert(b@.subrange(0, 1) =~= seq![4u8]);
                assert(b@.subrange(0, p5 as int) =~= b@);
                assert(b@ =~= pid_v2_packed(w@));
                assert forall|w2: PidV2V|
                    pid_v2_fits(w2) && b@ == pid_v2_packed(w2) implies w2 =~= w@ by {
                    lemma_pid_v2_packed_whole(b@, w2);
                }
            }
            Ok(w)
        } else {
            Err(DecodeError::Malformed)
        }
    } else {
        proof {
            assert forall|pv: PidV| pid_fits(pv) && b@ == pid_packed(pv) implies false by {
                lemma_pid_packed_whole(b@, pv);
            }
            assert forall|w2: PidV2V|
                pid_v2_fits(w2) && b@ == pid_v2_packed(w2) implies false by {
                lemma_pid_v2_packed_whole(b@, w2);
            }
        }
        Err(DecodeError::SchemaMismatch)
    }
}

} // verus!
