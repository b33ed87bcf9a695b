//! The schemaless positional binary adapter.  Fields are written in
//! declaration order with no field names and no field count: a string is
//! length-prefixed, an optional field is a presence byte, an enum is a
//! one-byte tag before its payload.  Because nothing marks the end of a
//! struct, old-schema bytes decoded against a struct with one more
//! trailing field are a schema mismatch, never a silent success: the
//! decoder reports `SchemaMismatch` when the buffer ends exactly where
//! the added field would begin.

use vstd::prelude::*;
use crate::model::{DecodeError, Msg, Msg2, Msg2V, MsgV, NodeId, NodeIdBorrowed, NodeV, Pid,
    PidBorrowed, PidV, PidV2, PidV2V, widened};
use crate::wire::{lemma_starts_concat, lemma_starts_whole, lemma_sub_split, msg2_fits, msg_fits,
    read_opt_borrowed, read_str_borrowed,
    node_fits, opt_enc, opt_fits, pid_fits, pid_v2_fits, read_byte, read_opt, read_str, starts,
    str_enc, v2_pid_part, write_byte, write_opt, write_str};

verus! {

/// Wire shape of a `NodeId`: its two strings in declaration order.
pub open spec fn node_enc(nv: NodeV) -> Seq<u8> {
    str_enc(nv.name) + str_enc(nv.addr)
}

/// Wire shape of a `Pid`: group, name, then the node inline.
pub open spec fn pid_enc(pv: PidV) -> Seq<u8> {
    opt_enc(pv.group) + str_enc(pv.name) + node_enc(pv.node)
}

/// Wire shape of a `PidV2`: a `Pid` followed by the trailing `owner`.
pub open spec fn pid_v2_enc(w: PidV2V) -> Seq<u8> {
    opt_enc(w.group) + str_enc(w.name) + node_enc(w.node) + opt_enc(w.owner)
}

/// Wire shape of a `Msg`: a one-byte tag, then the payload.
pub open spec fn msg_enc(m: MsgV) -> Seq<u8> {
    match m {
        MsgV::NodeId(nv) => seq![0u8] + node_enc(nv),
        MsgV::Pid(pv) => seq![1u8] + pid_enc(pv),
    }
}

/// Wire shape of a `Msg2`: the two original tags are unchanged and the
/// new variant takes the next tag.
pub open spec fn msg2_enc(m: Msg2V) -> Seq<u8> {
    match m {
        Msg2V::NodeId(nv) => seq![0u8] + node_enc(nv),
        Msg2V::Pid(pv) => seq![1u8] + pid_enc(pv),
        Msg2V::Pid2(w) => seq![2u8] + pid_v2_enc(w),
    }
}

/// A `Msg` and its widened `Msg2` counterpart have the same bytes: the
/// tag is preserved when the enum grows.
pub proof fn lemma_msg_enc_widened(m: MsgV)
    ensures
        msg2_enc(widened(m)) == msg_enc(m),
        msg2_fits(widened(m)) == msg_fits(m),
{
}

fn write_node(out: &mut Vec<u8>, name: &str, addr: &str)
    ensures
        final(out)@ == old(out)@ + node_enc(NodeV { name: name@, addr: addr@ }),
        node_fits(NodeV { name: name@, addr: addr@ }),
{
    write_str(out, name);
    write_str(out, addr);
    proof {
        assert(out@ =~= old(out)@ + node_enc(NodeV { name: name@, addr: addr@ }));
    }
}

fn write_pid(out: &mut Vec<u8>, group: Option<&str>, name: &str, node_name: &str, node_addr: &str)
    ensures
        final(out)@ == old(out)@ + pid_enc(
            PidV {
                group: group.deep_view(),
                name: name@,
                node: NodeV { name: node_name@, addr: node_addr@ },
            },
        ),
        pid_fits(
            PidV {
                group: group.deep_view(),
                name: name@,
                node: NodeV { name: node_name@, addr: node_addr@ },
            },
        ),
{
    write_opt(out, group);
    write_str(out, name);
    write_node(out, node_name, node_addr);
    proof {
        let pv = PidV {
            group: group.deep_view(),
            name: name@,
            node: NodeV { name: node_name@, addr: node_addr@ },
        };
        assert(out@ =~= old(out)@ + pid_enc(pv));
    }
}

/// Encodes a `NodeId`; deterministic and total.
pub fn encode_node_id(v: &NodeId) -> (r: Vec<u8>)
    ensures
        r@ == node_enc(v@),
        node_fits(v@),
{
    let mut out: Vec<u8> = Vec::new();
    write_node(&mut out, v.name.as_str(), v.addr.as_str());
    out
}

/// Encodes a `NodeIdBorrowed`: byte-identical to the owned encoding of
/// the same field values.
pub fn encode_node_id_borrowed(v: &NodeIdBorrowed<'_>) -> (r: Vec<u8>)
    ensures
        r@ == node_enc(v@),
        node_fits(v@),
{
    let mut out: Vec<u8> = Vec::new();
    write_node(&mut out, v.name, v.addr);
    out
}

/// Encodes a `Pid`; deterministic and total.
pub fn encode_pid(v: &Pid) -> (r: Vec<u8>)
    ensures
        r@ == pid_enc(v@),
        pid_fits(v@),
{
    let mut out: Vec<u8> = Vec::new();
    let g = match &v.group {
        Some(s) => Some(s.as_str()),
        None => None,
    };
    write_pid(&mut out, g, v.name.as_str(), v.node.name.as_str(), v.node.addr.as_str());
    out
}

/// Encodes a `PidBorrowed`: byte-identical to the owned encoding of the
/// same field values.
pub fn encode_pid_borrowed(v: &PidBorrowed<'_>) -> (r: Vec<u8>)
    ensures
        r@ == pid_enc(v@),
        pid_fits(v@),
{
    let mut out: Vec<u8> = Vec::new();
    write_pid(&mut out, v.group, v.name, v.node.name, v.node.addr);
    out
}

/// Encodes a `PidV2`; deterministic and total.
pub fn encode_pid_v2(v: &PidV2) -> (r: Vec<u8>)
    ensures
        r@ == pid_v2_enc(v@),
        pid_v2_fits(v@),
{
    let mut out: Vec<u8> = Vec::new();
    let g = match &v.group {
        Some(s) => Some(s.as_str()),
        None => None,
    };
    write_pid(&mut out, g, v.name.as_str(), v.node.name.as_str(), v.node.addr.as_str());
    let w = match &v.owner {
        Some(s) => Some(s.as_str()),
        None => None,
    };
    write_opt(&mut out, w);
    proof {
        assert(out@ =~= pid_v2_enc(v@));
    }
    out
}

/// Encodes a `Msg`; deterministic and total.
pub fn encode_msg(v: &Msg) -> (r: Vec<u8>)
    ensures
        r@ == msg_enc(v@),
        msg_fits(v@),
{
    let mut out: Vec<u8> = Vec::new();
    match v {
        Msg::NodeId(n) => {
            write_byte(&mut out, 0);
            write_node(&mut out, n.name.as_str(), n.addr.as_str());
            proof {
                assert(out@ =~= msg_enc(v@));
            }
        },
        Msg::Pid(p) => {
            write_byte(&mut out, 1);
            let g = match &p.group {
                Some(s) => Some(s.as_str()),
                None => None,
            };
            write_pid(&mut out, g, p.name.as_str(), p.node.name.as_str(), p.node.addr.as_str());
            proof {
                assert(out@ =~= msg_enc(v@));
            }
        },
    }
    out
}

/// Encodes a `Msg2`; deterministic and total.
pub fn encode_msg2(v: &Msg2) -> (r: Vec<u8>)
    ensures
        r@ == msg2_enc(v@),
        msg2_fits(v@),
{
    let mut out: Vec<u8> = Vec::new();
    match v {
        Msg2::NodeId(n) => {
            write_byte(&mut out, 0);
            write_node(&mut out, n.name.as_str(), n.addr.as_str());
            proof {
                assert(out@ =~= msg2_enc(v@));
            }
        },
        Msg2::Pid(p) => {
            write_byte(&mut out, 1);
            let g = match &p.group {
                Some(s) => Some(s.as_str()),
                None => None,
            };
            write_pid(&mut out, g, p.name.as_str(), p.node.name.as_str(), p.node.addr.as_str());
            proof {
                assert(out@ =~= msg2_enc(v@));
            }
        },
        Msg2::Pid2(p) => {
            write_byte(&mut out, 2);
            let bytes = encode_pid_v2(p);
            let mut tail = bytes;
            out.append(&mut tail);
            proof {
                assert(out@ =~= msg2_enc(v@));
            }
        },
    }
    out
}

/// Reads a node at `pos`: two strings back to back.
fn read_node(b: &[u8], pos: usize) -> (r: Option<(NodeId, usize)>)
    requires
        pos <= b@.len(),
    ensures
        r matches Some(t) ==> {
            &&& node_fits(t.0@)
            &&& t.1 == pos + node_enc(t.0@).len()
            &&& t.1 <= b@.len()
            &&& b@.subrange(pos as int, t.1 as int) == node_enc(t.0@)
        },
        forall|nv: NodeV|
            node_fits(nv) && starts(b@, pos as int, node_enc(nv)) ==> (r matches Some(t) && t.0@
                == nv && t.1 == pos + node_enc(nv).len()),
{
    proof {
        assert forall|nv: NodeV|
            node_fits(nv) && starts(b@, pos as int, node_enc(nv)) implies starts(
            b@,
            pos as int,
            str_enc(nv.name),
        ) by {
            lemma_starts_concat(b@, pos as int, str_enc(nv.name), str_enc(nv.addr));
        }
    }
    match read_str(b, pos) {
        None => None,
        Some((name, p1)) => {
            proof {
                assert forall|nv: NodeV|
                    node_fits(nv) && starts(b@, pos as int, node_enc(nv)) implies starts(
                    b@,
                    p1 as int,
                    str_enc(nv.addr),
                ) && nv.name == name@ by {
                    lemma_starts_concat(b@, pos as int, str_enc(nv.name), str_enc(nv.addr));
                }
            }
            match read_str(b, p1) {
                None => None,
                Some((addr, p2)) => {
                    proof {
                        lemma_sub_split(b@, pos as int, p1 as int, p2 as int);
                        let got = NodeV { name: name@, addr: addr@ };
                        assert(b@.subrange(pos as int, p2 as int) == node_enc(got));
                        assert forall|nv: NodeV|
                            node_fits(nv) && starts(b@, pos as int, node_enc(nv)) implies nv
                            =~= got by {
                            lemma_starts_concat(b@, pos as int, str_enc(nv.name), str_enc(nv.addr));
                        }
                    }
                    Some((NodeId { name, addr }, p2))
                },
            }
        },
    }
}

/// Reads a pid at `pos`: group, name, then the node.
fn read_pid(b: &[u8], pos: usize) -> (r: Option<(Pid, usize)>)
    requires
        pos <= b@.len(),
    ensures
        r matches Some(t) ==> {
            &&& pid_fits(t.0@)
            &&& t.1 == pos + pid_enc(t.0@).len()
            &&& t.1 <= b@.len()
            &&& b@.subrange(pos as int, t.1 as int) == pid_enc(t.0@)
        },
        forall|pv: PidV|
            pid_fits(pv) && starts(b@, pos as int, pid_enc(pv)) ==> (r matches Some(t) && t.0@
                == pv && t.1 == pos + pid_enc(pv).len()),
{
    proof {
        assert forall|pv: PidV|
            pid_fits(pv) && starts(b@, pos as int, pid_enc(pv)) implies starts(
            b@,
            pos as int,
            opt_enc(pv.group),
        ) by {
            lemma_starts_concat(
                b@,
                pos as int,
                opt_enc(pv.group) + str_enc(pv.name),
                node_enc(pv.node),
            );
            lemma_starts_concat(b@, pos as int, opt_enc(pv.group), str_enc(pv.name));
        }
    }
    match read_opt(b, pos) {
        None => None,
        Some((group, p1)) => {
            proof {
                assert forall|pv: PidV|
                    pid_fits(pv) && starts(b@, pos as int, pid_enc(pv)) implies starts(
                    b@,
                    p1 as int,
                    str_enc(pv.name),
                ) && pv.group == group.deep_view() by {
                    lemma_starts_concat(
                        b@,
                        pos as int,
                        opt_enc(pv.group) + str_enc(pv.name),
                        node_enc(pv.node),
                    );
                    lemma_starts_concat(b@, pos as int, opt_enc(pv.group), str_enc(pv.name));
                }
            }
            match read_str(b, p1) {
                None => None,
                Some((name, p2)) => {
                    proof {
                        assert forall|pv: PidV|
                            pid_fits(pv) && starts(b@, pos as int, pid_enc(pv)) implies starts(
                            b@,
                            p2 as int,
                            node_enc(pv.node),
                        ) && pv.name == name@ by {
                            lemma_starts_concat(
                                b@,
                                pos as int,
                                opt_enc(pv.group) + str_enc(pv.name),
                                node_enc(pv.node),
                            );
                            lemma_starts_concat(
                                b@,
                                pos as int,
                                opt_enc(pv.group),
                                str_enc(pv.name),
                            );
                        }
                    }
                    match read_node(b, p2) {
                        None => None,
                        Some((node, p3)) => {
                            proof {
                                lemma_sub_split(b@, pos as int, p2 as int, p3 as int);
                                lemma_sub_split(b@, pos as int, p1 as int, p2 as int);
                                let got = PidV {
                                    group: group.deep_view(),
                                    name: name@,
                                    node: node@,
                                };
                                assert(b@.subrange(pos as int, p3 as int) =~= pid_enc(got));
                                assert forall|pv: PidV|
                                    pid_fits(pv) && starts(b@, pos as int, pid_enc(pv)) implies pv
                                    =~= got by {}
                            }
                            Some((Pid { group, name, node }, p3))
                        },
                    }
                },
            }
        },
    }
}

/// Decodes a whole buffer as a `NodeId`.  Succeeds exactly on the
/// encodings this adapter writes, and returns the encoded value.
pub fn decode_node_id(b: &[u8]) -> (r: Result<NodeId, DecodeError>)
    ensures
        r matches Ok(w) ==> node_fits(w@) && b@ == node_enc(w@),
        forall|nv: NodeV|
            node_fits(nv) && b@ == node_enc(nv) ==> (r matches Ok(w) && w@ == nv),
        r matches Err(e) ==> e == DecodeError::Malformed,
{
    proof {
        assert forall|nv: NodeV| node_fits(nv) && b@ == node_enc(nv) implies starts(
            b@,
            0,
            node_enc(nv),
        ) by {
            lemma_starts_whole(b@, node_enc(nv));
        }
    }
    match read_node(b, 0) {
        None => Err(DecodeError::Malformed),
        Some((w, p)) => {
            if p == b.len() {
                proof {
                    assert(b@.subrange(0, p as int) =~= b@);
                }
                Ok(w)
            } else {
                Err(DecodeError::Malformed)
            }
        },
    }
}

/// Decodes a whole buffer as a `Pid`.  Succeeds exactly on the encodings
/// this adapter writes, and returns the encoded value.
pub fn decode_pid(b: &[u8]) -> (r: Result<Pid, DecodeError>)
    ensures
        r matches Ok(w) ==> pid_fits(w@) && b@ == pid_enc(w@),
        forall|pv: PidV| pid_fits(pv) && b@ == pid_enc(pv) ==> (r matches Ok(w) && w@ == pv),
        r matches Err(e) ==> e == DecodeError::Malformed,
{
    proof {
        assert forall|pv: PidV| pid_fits(pv) && b@ == pid_enc(pv) implies starts(
            b@,
            0,
            pid_enc(pv),
        ) by {
            lemma_starts_whole(b@, pid_enc(pv));
        }
    }
    match read_pid(b, 0) {
        None => Err(DecodeError::Malformed),
        Some((w, p)) => {
            if p == b.len() {
                proof {
                    assert(b@.subrange(0, p as int) =~= b@);
                }
                Ok(w)
            } else {
                Err(DecodeError::Malformed)
            }
        },
    }
}

/// Decodes a whole buffer as a `PidV2`.
///
/// Positional framing carries no field names and no count, so bytes
/// written for the old `Pid` schema stop exactly where `owner` would
/// begin: that is reported as `SchemaMismatch`, never read as a value.
/// Bytes written for the `PidV2` schema decode to the encoded value.
#[verifier::rlimit(50)]
pub fn decode_pid_v2(b: &[u8]) -> (r: Result<PidV2, DecodeError>)
    ensures
        r matches Ok(w) ==> pid_v2_fits(w@) && b@ == pid_v2_enc(w@),
        forall|w2: PidV2V|
            pid_v2_fits(w2) && b@ == pid_v2_enc(w2) ==> (r matches Ok(w) && w@ == w2),
        forall|pv: PidV|
            pid_fits(pv) && b@ == pid_enc(pv) ==> r == Result::<PidV2, DecodeError>::Err(
                DecodeError::SchemaMismatch,
            ),
{
    match read_pid(b, 0) {
        None => {
            proof {
                assert forall|w2: PidV2V|
                    pid_v2_fits(w2) && b@ == pid_v2_enc(w2) implies false by {
                    lemma_v2_layout(b@, w2);
                }
                assert forall|pv: PidV| pid_fits(pv) && b@ == pid_enc(pv) implies false by {
                    lemma_starts_whole(b@, pid_enc(pv));
                    assert(starts(b@, 0, pid_enc(pv)));
                }
            }
            Err(DecodeError::Malformed)
        },
        Some((base, p)) => {
            if p == b.len() {
                // The buffer holds exactly the old-schema fields: the
                // trailing `owner` field is missing.
                proof {
                    assert forall|w2: PidV2V|
                        pid_v2_fits(w2) && b@ == pid_v2_enc(w2) implies false by {
                        lemma_v2_layout(b@, w2);
                        assert(starts(b@, 0, pid_enc(v2_pid_part(w2))));
                        assert(opt_enc(w2.owner).len() >= 1);
                    }
                }
                Err(DecodeError::SchemaMismatch)
            } else {
                proof {
                    assert forall|pv: PidV| pid_fits(pv) && b@ == pid_enc(pv) implies false by {
                        lemma_starts_whole(b@, pid_enc(pv));
                        assert(starts(b@, 0, pid_enc(pv)));
                    }
                }
                match read_opt(b, p) {
                    None => {
                        proof {
                            assert forall|w2: PidV2V|
                                pid_v2_fits(w2) && b@ == pid_v2_enc(w2) implies false by {
                                lemma_v2_layout(b@, w2);
                                assert(starts(b@, 0, pid_enc(v2_pid_part(w2))));
                                assert(starts(b@, p as int, opt_enc(w2.owner)));
                            }
                        }
                        Err(DecodeError::Malformed)
                    },
                    Some((owner, p2)) => {
                        if p2 == b.len() {
                            let w = PidV2 {
                                group: base.group,
                                name: base.name,
                                node: base.node,
                                owner,
                            };
                            proof {
                                lemma_sub_split(b@, 0, p as int, p2 as int);
                                assert(b@.subrange(0, p2 as int) =~= b@);
                                assert(b@ =~= pid_v2_enc(w@));
                                assert forall|w2: PidV2V|
                                    pid_v2_fits(w2) && b@ == pid_v2_enc(w2) implies w2 =~= w@ by {
                                    lemma_v2_layout(b@, w2);
                                    assert(starts(b@, 0, pid_enc(v2_pid_part(w2))));
                                    assert(base@ == v2_pid_part(w2));
                                    assert(starts(b@, p as int, opt_enc(w2.owner)));
                                    assert(owner.deep_view() == w2.owner);
                                }
                            }
                            Ok(w)
                        } else {
                            proof {
                                assert forall|w2: PidV2V|
                                    pid_v2_fits(w2) && b@ == pid_v2_enc(w2) implies false by {
                                    lemma_v2_layout(b@, w2);
                                    assert(starts(b@, 0, pid_enc(v2_pid_part(w2))));
                                    assert(starts(b@, p as int, opt_enc(w2.owner)));
                                }
                            }
                            Err(DecodeError::Malformed)
                        }
                    },
                }
            }
        },
    }
}

/// The layout of a `PidV2` encoding: the old-schema fields first, the
/// trailing `owner` after them.
proof fn lemma_v2_layout(b: Seq<u8>, w2: PidV2V)
    requires
        pid_v2_fits(w2),
        b == pid_v2_enc(w2),
    ensures
        pid_fits(v2_pid_part(w2)),
        starts(b, 0, pid_enc(v2_pid_part(w2))),
        starts(b, pid_enc(v2_pid_part(w2)).len() as int, opt_enc(w2.owner)),
        b.len() == pid_enc(v2_pid_part(w2)).len() + opt_enc(w2.owner).len(),
{
    lemma_starts_whole(b, pid_v2_enc(w2));
    lemma_starts_concat(b, 0, pid_enc(v2_pid_part(w2)), opt_enc(w2.owner));
}


/// Decodes a whole buffer as a `Msg`.
pub fn decode_msg(b: &[u8]) -> (r: Result<Msg, DecodeError>)
    ensures
        r matches Ok(w) ==> msg_fits(w@) && b@ == msg_enc(w@),
        forall|m: MsgV| msg_fits(m) && b@ == msg_enc(m) ==> (r matches Ok(w) && w@ == m),
        r matches Err(e) ==> e == DecodeError::Malformed,
{
    proof {
        assert forall|m: MsgV| msg_fits(m) && b@ == msg_enc(m) implies starts(b@, 0, msg_enc(m))
            && b@.len() >= 1 && b@[0] == msg_enc(m)[0] by {
            lemma_starts_whole(b@, msg_enc(m));
        }
    }
    match read_byte(b, 0) {
        None => Err(DecodeError::Malformed),
        Some((tag, p1)) => {
            if tag == 0 {
                proof {
                    assert forall|m: MsgV| msg_fits(m) && b@ == msg_enc(m) implies m matches
                        MsgV::NodeId(nv) && starts(b@, 1, node_enc(nv)) by {
                        lemma_starts_whole(b@, msg_enc(m));
                        match m {
                            MsgV::NodeId(nv) => {
                                lemma_starts_concat(b@, 0, seq![0u8], node_enc(nv));
                            },
                            MsgV::Pid(pv) => {},
                        }
                    }
                }
                match read_node(b, p1) {
                    None => Err(DecodeError::Malformed),
                    Some((n, p2)) => {
                        if p2 == b.len() {
                            proof {
                                assert(b@ =~= seq![0u8] + node_enc(n@));
                            }
                            Ok(Msg::NodeId(n))
                        } else {
                            Err(DecodeError::Malformed)
                        }
                    },
                }
            } else if tag == 1 {
                proof {
                    assert forall|m: MsgV| msg_fits(m) && b@ == msg_enc(m) implies m matches
                        MsgV::Pid(pv) && starts(b@, 1, pid_enc(pv)) by {
                        lemma_starts_whole(b@, msg_enc(m));
                        match m {
                            MsgV::Pid(pv) => {
                                lemma_starts_concat(b@, 0, seq![1u8], pid_enc(pv));
                            },
                            MsgV::NodeId(nv) => {},
                        }
                    }
                }
                match read_pid(b, p1) {
                    None => Err(DecodeError::Malformed),
                    Some((p, p2)) => {
                        if p2 == b.len() {
                            proof {
                                assert(b@ =~= seq![1u8] + pid_enc(p@));
                            }
                            Ok(Msg::Pid(p))
                        } else {
                            Err(DecodeError::Malformed)
                        }
                    },
                }
            } else {
                Err(DecodeError::Malformed)
            }
        },
    }
}

/// The layout of a `Msg2` encoding, by variant.
proof fn lemma_msg2_layout(b: Seq<u8>, m2: Msg2V)
    requires
        msg2_fits(m2),
        b == msg2_enc(m2),
    ensures
        b.len() >= 1,
        m2 matches Msg2V::NodeId(nv) ==> b[0] == 0 && node_fits(nv) && starts(b, 1, node_enc(nv))
            && b.len() == 1 + node_enc(nv).len(),
        m2 matches Msg2V::Pid(pv) ==> b[0] == 1 && pid_fits(pv) && starts(b, 1, pid_enc(pv))
            && b.len() == 1 + pid_enc(pv).len(),
        m2 matches Msg2V::Pid2(w2) ==> b[0] == 2 && pid_fits(v2_pid_part(w2)) && opt_fits(w2.owner)
            && starts(b, 1, pid_enc(v2_pid_part(w2))) && starts(
            b,
            1 + pid_enc(v2_pid_part(w2)).len() as int,
            opt_enc(w2.owner),
        ) && b.len() == 1 + pid_enc(v2_pid_part(w2)).len() + opt_enc(w2.owner).len(),
{
    lemma_starts_whole(b, msg2_enc(m2));
    match m2 {
        Msg2V::NodeId(nv) => {
            lemma_starts_concat(b, 0, seq![0u8], node_enc(nv));
            assert(b[0] == (seq![0u8] + node_enc(nv))[0]);
        },
        Msg2V::Pid(pv) => {
            lemma_starts_concat(b, 0, seq![1u8], pid_enc(pv));
            assert(b[0] == (seq![1u8] + pid_enc(pv))[0]);
        },
        Msg2V::Pid2(w2) => {
            lemma_starts_concat(b, 0, seq![2u8], pid_v2_enc(w2));
            lemma_starts_concat(b, 1, pid_enc(v2_pid_part(w2)), opt_enc(w2.owner));
            assert(b[0] == (seq![2u8] + pid_v2_enc(w2))[0]);
        },
    }
}

/// Decodes a whole buffer as a `Msg2`.
///
/// The two original tags decode to the unchanged variants, so bytes
/// written for the smaller `Msg` decode to the widened value; the third
/// tag decodes the new variant.
#[verifier::rlimit(100)]
pub fn decode_msg2(b: &[u8]) -> (r: Result<Msg2, DecodeError>)
    ensures
        r matches Ok(w) ==> msg2_fits(w@) && b@ == msg2_enc(w@),
        forall|m2: Msg2V| msg2_fits(m2) && b@ == msg2_enc(m2) ==> (r matches Ok(w) && w@ == m2),
        forall|m: MsgV| msg_fits(m) && b@ == msg_enc(m) ==> (r matches Ok(w) && w@ == widened(m)),
        r matches Err(e) ==> e == DecodeError::Malformed,
{
    proof {
        assert forall|m: MsgV| msg_fits(m) && b@ == msg_enc(m) implies msg2_fits(widened(m)) && b@
            == msg2_enc(widened(m)) by {
            lemma_msg_enc_widened(m);
        }
    }
    match read_byte(b, 0) {
        None => {
            proof {
                assert forall|m2: Msg2V| msg2_fits(m2) && b@ == msg2_enc(m2) implies false by {
                    lemma_msg2_layout(b@, m2);
                }
            }
            Err(DecodeError::Malformed)
        },
        Some((tag, p1)) => {
            if tag == 0 {
                match read_node(b, p1) {
                    None => {
                        proof {
                            assert forall|m2: Msg2V|
                                msg2_fits(m2) && b@ == msg2_enc(m2) implies false by {
                                lemma_msg2_layout(b@, m2);
                                match m2 {
                                    Msg2V::NodeId(nv) => {
                                        assert(starts(b@, p1 as int, node_enc(nv)));
                                    },
                                    _ => {},
                                }
                            }
                        }
                        Err(DecodeError::Malformed)
                    },
                    Some((n, p2)) => {
                        if p2 == b.len() {
                            proof {
                                assert(b@ =~= seq![0u8] + node_enc(n@));
                                assert forall|m2: Msg2V|
                                    msg2_fits(m2) && b@ == msg2_enc(m2) implies (m2 matches
                                    Msg2V::NodeId(nv) && nv == n@) by {
                                    lemma_msg2_layout(b@, m2);
                                    match m2 {
                                        Msg2V::NodeId(nv) => {
                                            assert(starts(b@, p1 as int, node_enc(nv)));
                                        },
                                        _ => {},
                                    }
                                }
                            }
                            Ok(Msg2::NodeId(n))
                        } else {
                            proof {
                                assert forall|m2: Msg2V|
                                    msg2_fits(m2) && b@ == msg2_enc(m2) implies false by {
                                    lemma_msg2_layout(b@, m2);
                                    match m2 {
                                        Msg2V::NodeId(nv) => {
                                            assert(starts(b@, p1 as int, node_enc(nv)));
                                        },
                                        _ => {},
                                    }
                                }
                            }
                            Err(DecodeError::Malformed)
                        }
                    },
                }
            } else if tag == 1 {
                match read_pid(b, p1) {
                    None => {
                        proof {
                            assert forall|m2: Msg2V|
                                msg2_fits(m2) && b@ == msg2_enc(m2) implies false by {
                                lemma_msg2_layout(b@, m2);
                                match m2 {
                                    Msg2V::Pid(pv) => {
                                        assert(starts(b@, p1 as int, pid_enc(pv)));
                                    },
                                    _ => {},
                                }
                            }
                        }
                        Err(DecodeError::Malformed)
                    },
                    Some((p, p2)) => {
                        if p2 == b.len() {
                            proof {
                                assert(b@ =~= seq![1u8] + pid_enc(p@));
                                assert forall|m2: Msg2V|
                                    msg2_fits(m2) && b@ == msg2_enc(m2) implies (m2 matches
                                    Msg2V::Pid(pv) && pv == p@) by {
                                    lemma_msg2_layout(b@, m2);
                                    match m2 {
                                        Msg2V::Pid(pv) => {
                                            assert(starts(b@, p1 as int, pid_enc(pv)));
                                        },
                                        _ => {},
                                    }
                                }
                            }
                            Ok(Msg2::Pid(p))
                        } else {
                            proof {
                                assert forall|m2: Msg2V|
                                    msg2_fits(m2) && b@ == msg2_enc(m2) implies false by {
                                    lemma_msg2_layout(b@, m2);
                                    match m2 {
                                        Msg2V::Pid(pv) => {
                                            assert(starts(b@, p1 as int, pid_enc(pv)));
                                        },
                                        _ => {},
                                    }
                                }
                            }
                            Err(DecodeError::Malformed)
                        }
                    },
                }
            } else if tag == 2 {
                match read_pid(b, p1) {
                    None => {
                        proof {
                            assert forall|m2: Msg2V|
                                msg2_fits(m2) && b@ == msg2_enc(m2) implies false by {
                                lemma_msg2_layout(b@, m2);
                                match m2 {
                                    Msg2V::Pid2(w2) => {
                                        assert(starts(b@, p1 as int, pid_enc(v2_pid_part(w2))));
                                    },
                                    _ => {},
                                }
                            }
                        }
                        Err(DecodeError::Malformed)
                    },
                    Some((base, p2)) => {
                        match read_opt(b, p2) {
                            None => {
                                proof {
                                    assert forall|m2: Msg2V|
                                        msg2_fits(m2) && b@ == msg2_enc(m2) implies false by {
                                        lemma_msg2_layout(b@, m2);
                                        match m2 {
                                            Msg2V::Pid2(w2) => {
                                                assert(starts(
                                                    b@,
                                                    p1 as int,
                                                    pid_enc(v2_pid_part(w2)),
                                                ));
                                                assert(base@ == v2_pid_part(w2));
                                                assert(starts(
                                                    b@,
                                                    p2 as int,
                                                    opt_enc(w2.owner),
                                                ));
                                            },
                                            _ => {},
                                        }
                                    }
                                }
                                Err(DecodeError::Malformed)
                            },
                            Some((owner, p3)) => {
                                if p3 == b.len() {
                                    let w = PidV2 {
                                        group: base.group,
                                        name: base.name,
                                        node: base.node,
                                        owner,
                                    };
                                    proof {
                                        lemma_sub_split(b@, 1, p2 as int, p3 as int);
                                        lemma_sub_split(b@, 0, 1, p3 as int);
                                        assert(b@.subrange(0, 1) =~= seq![2u8]);
                                        assert(b@.subrange(0, p3 as int) =~= b@);
                                        assert(b@ =~= seq![2u8] + pid_v2_enc(w@));
                                        assert forall|m2: Msg2V|
                                            msg2_fits(m2) && b@ == msg2_enc(m2) implies (m2
                                            matches Msg2V::Pid2(w2) && w2 =~= w@) by {
                                            lemma_msg2_layout(b@, m2);
                                            match m2 {
                                                Msg2V::Pid2(w2) => {
                                                    assert(starts(
                                                        b@,
                                                        p1 as int,
                                                        pid_enc(v2_pid_part(w2)),
                                                    ));
                                                    assert(base@ == v2_pid_part(w2));
                                                    assert(starts(
                                                        b@,
                                                        p2 as int,
                                                        opt_enc(w2.owner),
                                                    ));
                                                    assert(owner.deep_view() == w2.owner);
                                                },
                                                _ => {},
                                            }
                                        }
                                    }
                                    Ok(Msg2::Pid2(w))
                                } else {
                                    proof {
                                        assert forall|m2: Msg2V|
                                            msg2_fits(m2) && b@ == msg2_enc(m2) implies false by {
                                            lemma_msg2_layout(b@, m2);
                                            match m2 {
                                                Msg2V::Pid2(w2) => {
                                                    assert(starts(
                                                        b@,
                                                        p1 as int,
                                                        pid_enc(v2_pid_part(w2)),
                                                    ));
                                                    assert(base@ == v2_pid_part(w2));
                                                    assert(starts(
                                                        b@,
                                                        p2 as int,
                                                        opt_enc(w2.owner),
                                                    ));
                                                },
                                                _ => {},
                                            }
                                        }
                                    }
                                    Err(DecodeError::Malformed)
                                }
                            },
                        }
                    },
                }
            } else {
                proof {
                    assert forall|m2: Msg2V| msg2_fits(m2) && b@ == msg2_enc(m2) implies false by {
                        lemma_msg2_layout(b@, m2);
                    }
                }
                Err(DecodeError::Malformed)
            }
        },
    }
}


/// Reads a node at `pos` without copying: the fields borrow from the
/// buffer.
fn read_node_borrowed<'a>(b: &'a [u8], pos: usize) -> (r: Option<(NodeIdBorrowed<'a>, usize)>)
    requires
        pos <= b@.len(),
    ensures
        r matches Some(t) ==> {
            &&& node_fits(t.0@)
            &&& t.1 == pos + node_enc(t.0@).len()
            &&& t.1 <= b@.len()
            &&& b@.subrange(pos as int, t.1 as int) == node_enc(t.0@)
        },
        forall|nv: NodeV| #![trigger node_enc(nv)]
            node_fits(nv) && starts(b@, pos as int, node_enc(nv)) ==> (r matches Some(t) && t.0@
                == nv && t.1 == pos + node_enc(nv).len()),
{
    proof {
        assert forall|nv: NodeV|
            node_fits(nv) && starts(b@, pos as int, node_enc(nv)) implies starts(
            b@,
            pos as int,
            str_enc(nv.name),
        ) by {
            lemma_starts_concat(b@, pos as int, str_enc(nv.name), str_enc(nv.addr));
        }
    }
    match read_str_borrowed(b, pos) {
        None => None,
        Some((name, p1)) => {
            proof {
                assert forall|nv: NodeV|
                    node_fits(nv) && starts(b@, pos as int, node_enc(nv)) implies starts(
                    b@,
                    p1 as int,
                    str_enc(nv.addr),
                ) && nv.name == name@ by {
                    lemma_starts_concat(b@, pos as int, str_enc(nv.name), str_enc(nv.addr));
                }
            }
            match read_str_borrowed(b, p1) {
                None => None,
                Some((addr, p2)) => {
                    proof {
                        lemma_sub_split(b@, pos as int, p1 as int, p2 as int);
                        let got = NodeV { name: name@, addr: addr@ };
                        assert(b@.subrange(pos as int, p2 as int) == node_enc(got));
                        assert forall|nv: NodeV|
                            node_fits(nv) && starts(b@, pos as int, node_enc(nv)) implies nv
                            =~= got by {
                            lemma_starts_concat(b@, pos as int, str_enc(nv.name), str_enc(nv.addr));
                        }
                    }
                    Some((NodeIdBorrowed { name, addr }, p2))
                },
            }
        },
    }
}

/// Decodes a whole buffer as a `NodeIdBorrowed`: a zero-copy decode
/// whose result borrows from the buffer.
pub fn decode_node_id_borrowed<'a>(b: &'a [u8]) -> (r: Result<NodeIdBorrowed<'a>, DecodeError>)
    ensures
        r matches Ok(w) ==> node_fits(w@) && b@ == node_enc(w@),
        forall|nv: NodeV|
            node_fits(nv) && b@ == node_enc(nv) ==> (r matches Ok(w) && w@ == nv),
        r matches Err(e) ==> e == DecodeError::Malformed,
{
    proof {
        assert forall|nv: NodeV| node_fits(nv) && b@ == node_enc(nv) implies starts(
            b@,
            0,
            node_enc(nv),
        ) by {
            lemma_starts_whole(b@, node_enc(nv));
        }
    }
    match read_node_borrowed(b, 0) {
        None => Err(DecodeError::Malformed),
        Some((w, p)) => {
            if p == b.len() {
                proof {
                    assert(b@.subrange(0, p as int) =~= b@);
                }
                Ok(w)
            } else {
                Err(DecodeError::Malformed)
            }
        },
    }
}

/// Decodes a whole buffer as a `PidBorrowed`: a zero-copy decode whose
/// result borrows from the buffer.
pub fn decode_pid_borrowed<'a>(b: &'a [u8]) -> (r: Result<PidBorrowed<'a>, DecodeError>)
    ensures
        r matches Ok(w) ==> pid_fits(w@) && b@ == pid_enc(w@),
        forall|pv: PidV| pid_fits(pv) && b@ == pid_enc(pv) ==> (r matches Ok(w) && w@ == pv),
        r matches Err(e) ==> e == DecodeError::Malformed,
{
    proof {
        assert forall|pv: PidV| pid_fits(pv) && b@ == pid_enc(pv) implies starts(
            b@,
            0,
            opt_enc(pv.group),
        ) && starts(b@, opt_enc(pv.group).len() as int, str_enc(pv.name)) && starts(
            b@,
            opt_enc(pv.group).len() as int + str_enc(pv.name).len() as int,
            node_enc(pv.node),
        ) && b@.len() == opt_enc(pv.group).len() + str_enc(pv.name).len() + node_enc(
            pv.node,
        ).len() by {
            lemma_starts_whole(b@, pid_enc(pv));
            lemma_starts_concat(
                b@,
                0,
                opt_enc(pv.group) + str_enc(pv.name),
                node_enc(pv.node),
            );
            lemma_starts_concat(b@, 0, opt_enc(pv.group), str_enc(pv.name));
        }
    }
    let (group, p1) = match read_opt_borrowed(b, 0) {
        Some((g, p)) => (g, p),
        None => {
            return Err(DecodeError::Malformed);
        },
    };
    let (name, p2) = match read_str_borrowed(b, p1) {
        Some((s, p)) => (s, p),
        None => {
            return Err(DecodeError::Malformed);
        },
    };
    let (node, p3) = match read_node_borrowed(b, p2) {
        Some((n, p)) => (n, p),
        None => {
            return Err(DecodeError::Malformed);
        },
    };
    if p3 == b.len() {
        let w = PidBorrowed { group, name, node };
        proof {
            lemma_sub_split(b@, 0, p1 as int, p2 as int);
            lemma_sub_split(b@, 0, p2 as int, p3 as int);
            assert(b@.subrange(0, p3 as int) =~= b@);
            assert(b@ =~= pid_enc(w@));
            assert forall|pv: PidV| pid_fits(pv) && b@ == pid_enc(pv) implies pv =~= w@ by {}
        }
        Ok(w)
    } else {
        Err(DecodeError::Malformed)
    }
}

} // verus!


