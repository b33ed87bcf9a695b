//! The length-prefixed text adapter.  A string is its UTF-8 byte length
//! in decimal digits, a colon, then the bytes; the digits are written
//! least-significant first, so the reader needs no lookahead to know
//! where the number ends — the colon does.  A struct is a brace-wrapped
//! run of field-name/value pairs, both length-prefixed, and an optional
//! value is a plus or minus sign with the string after the plus.  The
//! closing brace marks the end of the struct, so old-schema bytes
//! decode into a struct with one added optional field, which resolves
//! to absent.

use vstd::prelude::*;
use vstd::slice::{slice_subrange, slice_to_vec};
use vstd::string::{StrSliceExecFns, StringExecFns};
use vstd::utf8::{encode_utf8, encode_utf8_decode_utf8, encode_utf8_valid_utf8};
use crate::model::{DecodeError, NodeId, NodeIdBorrowed, NodeV, Pid, PidBorrowed, PidV, PidV2,
    PidV2V, upgraded};
use crate::wire::{lemma_starts_concat, lemma_starts_whole, lemma_sub_split, node_fits, pid_fits,
    pid_v2_fits, read_byte, starts, str_fits, string_from_utf8, v2_pid_part, write_byte};

verus! {

broadcast use vstd::utf8::encode_utf8_valid_utf8, vstd::utf8::encode_utf8_decode_utf8;

/// An ASCII decimal digit.
pub open spec fn is_digit(x: u8) -> bool {
    48 <= x <= 57
}

/// The decimal digits of `n`, least-significant first.
pub open spec fn dec_len(n: u64) -> Seq<u8>
    decreases n,
{
    if n < 10 {
        seq![(48 + n) as u8]
    } else {
        seq![(48 + n % 10) as u8] + dec_len(n / 10)
    }
}

/// Every decimal rendering is nonempty and starts with a digit.
pub proof fn lemma_dec_first(n: u64)
    ensures
        dec_len(n).len() >= 1,
        is_digit(dec_len(n)[0]),
{
}

/// Wire shape of a string: decimal byte length, a colon, the bytes.
pub open spec fn str_t(sv: Seq<char>) -> Seq<u8> {
    dec_len(encode_utf8(sv).len() as u64) + seq![58u8] + encode_utf8(sv)
}

/// Wire shape of an optional string: minus for absent, plus and the
/// string for present.
pub open spec fn opt_t(o: Option<Seq<char>>) -> Seq<u8> {
    match o {
        None => seq![45u8],
        Some(sv) => seq![43u8] + str_t(sv),
    }
}

pub open spec fn opt_t_fits(o: Option<Seq<char>>) -> bool {
    match o {
        None => true,
        Some(sv) => str_fits(sv),
    }
}

/// Wire shape of a `NodeId`.
pub open spec fn node_t(nv: NodeV) -> Seq<u8> {
    seq![123u8] + str_t("name"@) + str_t(nv.name) + str_t("addr"@) + str_t(nv.addr) + seq![125u8]
}

/// Wire shape of a `Pid`.
pub open spec fn pid_t(pv: PidV) -> Seq<u8> {
    seq![123u8] + str_t("group"@) + opt_t(pv.group) + str_t("name"@) + str_t(pv.name) + str_t(
        "node"@,
    ) + node_t(pv.node) + seq![125u8]
}

/// Wire shape of a `PidV2`, `owner` last before the closing brace.
pub open spec fn pid_v2_t(w: PidV2V) -> Seq<u8> {
    seq![123u8] + str_t("group"@) + opt_t(w.group) + str_t("name"@) + str_t(w.name) + str_t(
        "node"@,
    ) + node_t(w.node) + str_t("owner"@) + opt_t(w.owner) + seq![125u8]
}

/// Appends the decimal digits of `n`, least-significant first.
fn write_dec(out: &mut Vec<u8>, n: u64)
    ensures
        final(out)@ == old(out)@ + dec_len(n),
    decreases n,
{
    if n < 10 {
        write_byte(out, 48 + (n as u8));
    } else {
        write_byte(out, 48 + ((n % 10) as u8));
        write_dec(out, n / 10);
        proof {
            assert(out@ =~= old(out)@ + dec_len(n));
        }
    }
}

/// Appends a length-prefixed text string.
fn write_str_t(out: &mut Vec<u8>, s: &str)
    ensures
        final(out)@ == old(out)@ + str_t(s@),
        str_fits(s@),
{
    let mut bytes = s.as_bytes_vec();
    let n = bytes.len();
    write_dec(out, n as u64);
    write_byte(out, 58);
    out.append(&mut bytes);
    proof {
        assert(out@ =~= old(out)@ + str_t(s@));
    }
}

/// Appends an optional text string.
fn write_opt_t(out: &mut Vec<u8>, o: Option<&str>)
    ensures
        final(out)@ == old(out)@ + opt_t(o.deep_view()),
        opt_t_fits(o.deep_view()),
{
    match o {
        None => {
            write_byte(out, 45);
        },
        Some(s) => {
            write_byte(out, 43);
            write_str_t(out, s);
            proof {
                assert(out@ =~= old(out)@ + opt_t(o.deep_view()));
            }
        },
    }
}

/// Reads a decimal length.  Digits are least-significant first; the
/// rendering is canonical, so the reader rejects a trailing zero digit
/// and anything that overflows.
fn read_dec(b: &[u8], pos: usize) -> (r: Option<(u64, usize)>)
    requires
        pos <= b@.len(),
    ensures
        r matches Some(t) ==> {
            &&& t.1 <= b@.len()
            &&& t.1 == pos + dec_len(t.0).len()
            &&& b@.subrange(pos as int, t.1 as int) == dec_len(t.0)
        },
        forall|n: u64| #![trigger dec_len(n)]
            starts(b@, pos as int, dec_len(n)) && (pos + dec_len(n).len() == b@.len() || !is_digit(
                b@[pos + dec_len(n).len()],
            )) ==> (r matches Some(t) && t.0 == n && t.1 == pos + dec_len(n).len()),
    decreases b@.len() - pos,
{
    let (d0, q) = match read_byte(b, pos) {
        Some((x, p)) => (x, p),
        None => {
            proof {
                assert forall|n: u64| starts(b@, pos as int, dec_len(n)) implies false by {
                    lemma_dec_first(n);
                }
            }
            return None;
        },
    };
    if !(48 <= d0 && d0 <= 57) {
        proof {
            assert forall|n: u64| starts(b@, pos as int, dec_len(n)) implies false by {
                lemma_dec_first(n);
                assert(b@[pos as int] == dec_len(n)[0]);
            }
        }
        return None;
    }
    let d = (d0 - 48) as u64;
    let digit_next = match read_byte(b, q) {
        Some((x, _)) => 48 <= x && x <= 57,
        None => false,
    };
    if !digit_next {
        proof {
            assert(b@.subrange(pos as int, q as int) =~= dec_len(d));
            assert forall|n: u64|
                starts(b@, pos as int, dec_len(n)) && (pos + dec_len(n).len() == b@.len()
                    || !is_digit(b@[pos + dec_len(n).len()])) implies n == d by {
                lemma_dec_first(n);
                assert(b@[pos as int] == dec_len(n)[0]);
                if n >= 10 {
                    lemma_starts_concat(
                        b@,
                        pos as int,
                        seq![(48 + n % 10) as u8],
                        dec_len(n / 10),
                    );
                    lemma_dec_first(n / 10);
                    assert(b@[q as int] == dec_len(n / 10)[0]);
                }
            }
        }
        return Some((d, q));
    }
    match read_dec(b, q) {
        None => {
            proof {
                assert forall|n: u64|
                    starts(b@, pos as int, dec_len(n)) && (pos + dec_len(n).len() == b@.len()
                        || !is_digit(b@[pos + dec_len(n).len()])) implies false by {
                    lemma_dec_first(n);
                    assert(b@[pos as int] == dec_len(n)[0]);
                    if n >= 10 {
                        lemma_starts_concat(
                            b@,
                            pos as int,
                            seq![(48 + n % 10) as u8],
                            dec_len(n / 10),
                        );
                        assert(starts(b@, q as int, dec_len(n / 10)));
                    }
                }
            }
            None
        },
        Some((rest, p2)) => {
            if rest == 0 || rest > (u64::MAX - d) / 10 {
                proof {
                    assert forall|n: u64|
                        starts(b@, pos as int, dec_len(n)) && (pos + dec_len(n).len() == b@.len()
                            || !is_digit(b@[pos + dec_len(n).len()])) implies false by {
                        lemma_dec_first(n);
                        assert(b@[pos as int] == dec_len(n)[0]);
                        if n >= 10 {
                            lemma_starts_concat(
                                b@,
                                pos as int,
                                seq![(48 + n % 10) as u8],
                                dec_len(n / 10),
                            );
                            assert(starts(b@, q as int, dec_len(n / 10)));
                            assert(rest == n / 10);
                            assert(n == 10 * (n / 10) + n % 10);
                        }
                    }
                }
                None
            } else {
                let n = d + 10 * rest;
                proof {
                    assert(n % 10 == d && n / 10 == rest);
                    lemma_sub_split(b@, pos as int, q as int, p2 as int);
                    assert(b@.subrange(pos as int, p2 as int) =~= dec_len(n));
                    assert forall|m: u64|
                        starts(b@, pos as int, dec_len(m)) && (pos + dec_len(m).len() == b@.len()
                            || !is_digit(b@[pos + dec_len(m).len()])) implies m == n && p2 == pos
                        + dec_len(m).len() by {
                        lemma_dec_first(m);
                        assert(b@[pos as int] == dec_len(m)[0]);
                        if m >= 10 {
                            lemma_starts_concat(
                                b@,
                                pos as int,
                                seq![(48 + m % 10) as u8],
                                dec_len(m / 10),
                            );
                            assert(starts(b@, q as int, dec_len(m / 10)));
                            assert(rest == m / 10);
                            assert(b@[pos as int] == (48 + m % 10) as u8);
                            assert(m == 10 * (m / 10) + m % 10);
                        } else {
                            lemma_dec_first(m);
                        }
                    }
                }
                Some((n, p2))
            }
        },
    }
}

/// Reads a length-prefixed text string.
fn read_str_t(b: &[u8], pos: usize) -> (r: Option<(String, usize)>)
    requires
        pos <= b@.len(),
    ensures
        r matches Some(t) ==> {
            &&& str_fits(t.0@)
            &&& t.1 == pos + str_t(t.0@).len()
            &&& t.1 <= b@.len()
            &&& b@.subrange(pos as int, t.1 as int) == str_t(t.0@)
        },
        forall|sv: Seq<char>| #![trigger str_t(sv)]
            str_fits(sv) && starts(b@, pos as int, str_t(sv)) ==> (r matches Some(t) && t.0@ == sv
                && t.1 == pos + str_t(sv).len()),
{
    proof {
        assert forall|sv: Seq<char>|
            str_fits(sv) && starts(b@, pos as int, str_t(sv)) implies starts(
            b@,
            pos as int,
            dec_len(encode_utf8(sv).len() as u64),
        ) && {
            let dl = dec_len(encode_utf8(sv).len() as u64).len();
            &&& pos + dl < b@.len()
            &&& b@[pos + dl] == 58
            &&& starts(b@, pos + dl + 1, encode_utf8(sv))
        } by {
            let dd = dec_len(encode_utf8(sv).len() as u64);
            lemma_starts_concat(b@, pos as int, dd + seq![58u8], encode_utf8(sv));
            lemma_starts_concat(b@, pos as int, dd, seq![58u8]);
            assert(b@.subrange(pos + dd.len(), pos + dd.len() + 1)[0] == b@[pos + dd.len()]);
        }
    }
    let (n, q) = match read_dec(b, pos) {
        Some((n, q)) => (n, q),
        None => {
            return None;
        },
    };
    let q1 = match read_byte(b, q) {
        Some((c, p)) => {
            if c == 58 {
                p
            } else {
                return None;
            }
        },
        None => {
            return None;
        },
    };
    let avail = b.len() - q1;
    if n > avail as u64 {
        proof {
            assert forall|sv: Seq<char>|
                str_fits(sv) && starts(b@, pos as int, str_t(sv)) implies false by {
                assert(n == encode_utf8(sv).len() as u64);
            }
        }
        return None;
    }
    let nn = n as usize;
    let sub = slice_subrange(b, q1, q1 + nn);
    let v = slice_to_vec(sub);
    match string_from_utf8(v) {
        Some(s) => {
            proof {
                lemma_sub_split(b@, pos as int, q as int, q1 as int);
                lemma_sub_split(b@, pos as int, q1 as int, (q1 + nn) as int);
                assert(b@.subrange(q as int, q1 as int) =~= seq![58u8]);
                assert(b@.subrange(pos as int, (q1 + nn) as int) =~= str_t(s@));
                assert forall|sv: Seq<char>|
                    str_fits(sv) && starts(b@, pos as int, str_t(sv)) implies s@ == sv by {
                    assert(n == encode_utf8(sv).len() as u64);
                    assert(encode_utf8(sv) == b@.subrange(q1 as int, q1 + nn));
                    assert(encode_utf8(sv) == encode_utf8(s@));
                    encode_utf8_decode_utf8(sv);
                    encode_utf8_decode_utf8(s@);
                }
            }
            Some((s, q1 + nn))
        },
        None => {
            proof {
                assert forall|sv: Seq<char>|
                    str_fits(sv) && starts(b@, pos as int, str_t(sv)) implies false by {
                    assert(n == encode_utf8(sv).len() as u64);
                    assert(encode_utf8(sv) == b@.subrange(q1 as int, q1 + nn));
                }
            }
            None
        },
    }
}

/// Reads an optional text string.
fn read_opt_t(b: &[u8], pos: usize) -> (r: Option<(Option<String>, usize)>)
    requires
        pos <= b@.len(),
    ensures
        r matches Some(t) ==> {
            &&& opt_t_fits(t.0.deep_view())
            &&& t.1 == pos + opt_t(t.0.deep_view()).len()
            &&& t.1 <= b@.len()
            &&& b@.subrange(pos as int, t.1 as int) == opt_t(t.0.deep_view())
        },
        forall|ov: Option<Seq<char>>| #![trigger opt_t(ov)]
            opt_t_fits(ov) && starts(b@, pos as int, opt_t(ov)) ==> (r matches Some(t)
                && t.0.deep_view() == ov && t.1 == pos + opt_t(ov).len()),
{
    match read_byte(b, pos) {
        None => {
            proof {
                assert forall|ov: Option<Seq<char>>|
                    opt_t_fits(ov) && starts(b@, pos as int, opt_t(ov)) implies false by {
                    assert(opt_t(ov).len() >= 1);
                }
            }
            None
        },
        Some((tag, p1)) => {
            if tag == 45 {
                let r: Option<String> = None;
                proof {
                    assert(b@.subrange(pos as int, p1 as int) =~= seq![45u8]);
                    assert forall|ov: Option<Seq<char>>|
                        opt_t_fits(ov) && starts(b@, pos as int, opt_t(ov)) implies ov is None by {
                        assert(b@[pos as int] == opt_t(ov)[0]);
                    }
                }
                Some((r, p1))
            } else if tag == 43 {
                match read_str_t(b, p1) {
                    None => {
                        proof {
                            assert forall|ov: Option<Seq<char>>|
                                opt_t_fits(ov) && starts(b@, pos as int, opt_t(ov)) implies false by {
                                assert(b@[pos as int] == opt_t(ov)[0]);
                                match ov {
                                    Some(sv) => lemma_starts_concat(
                                        b@,
                                        pos as int,
                                        seq![43u8],
                                        str_t(sv),
                                    ),
                                    None => (),
                                }
                            }
                        }
                        None
                    },
                    Some((s, p2)) => {
                        proof {
                            assert(b@.subrange(pos as int, p2 as int) =~= seq![43u8] + str_t(s@));
                            assert forall|ov: Option<Seq<char>>|
                                opt_t_fits(ov) && starts(b@, pos as int, opt_t(ov)) implies ov
                                matches Some(sv) && sv == s@ by {
                                assert(b@[pos as int] == opt_t(ov)[0]);
                                match ov {
                                    Some(sv) => lemma_starts_concat(
                                        b@,
                                        pos as int,
                                        seq![43u8],
                                        str_t(sv),
                                    ),
                                    None => (),
                                }
                            }
                        }
                        Some((Some(s), p2))
                    },
                }
            } else {
                proof {
                    assert forall|ov: Option<Seq<char>>|
                        opt_t_fits(ov) && starts(b@, pos as int, opt_t(ov)) implies false by {
                        assert(b@[pos as int] == opt_t(ov)[0]);
                    }
                }
                None
            }
        },
    }
}

/// Reads a string and checks it against an expected field name.
fn read_exact_t(b: &[u8], pos: usize, lit: &str) -> (r: Option<usize>)
    requires
        pos <= b@.len(),
    ensures
        r matches Some(p) ==> str_fits(lit@) && p == pos + str_t(lit@).len() && p <= b@.len()
            && b@.subrange(pos as int, p as int) == str_t(lit@),
        r is None ==> !starts(b@, pos as int, str_t(lit@)),
{
    let lb = lit.as_bytes();
    let ln = lb.len();
    match read_str_t(b, pos) {
        None => {
            proof {
                if starts(b@, pos as int, str_t(lit@)) {
                    assert(str_fits(lit@));
                    assert(false);
                }
            }
            None
        },
        Some((s, p)) => {
            let key = String::from_str(lit);
            if s.eq(&key) {
                Some(p)
            } else {
                proof {
                    if starts(b@, pos as int, str_t(lit@)) {
                        assert(str_fits(lit@));
                        assert(false);
                    }
                }
                None
            }
        },
    }
}

/// Encodes a `NodeId`; deterministic and total.
pub fn encode_node_id(v: &NodeId) -> (r: Vec<u8>)
    ensures
        r@ == node_t(v@),
        node_fits(v@),
{
    let mut out: Vec<u8> = Vec::new();
    write_byte(&mut out, 123);
    write_str_t(&mut out, "name");
    write_str_t(&mut out, v.name.as_str());
    write_str_t(&mut out, "addr");
    write_str_t(&mut out, v.addr.as_str());
    write_byte(&mut out, 125);
    proof {
        assert(out@ =~= node_t(v@));
    }
    out
}

fn write_base_t(out: &mut Vec<u8>, group: Option<&str>, name: &str, node_name: &str,
    node_addr: &str)
    ensures
        final(out)@ == old(out)@ + (str_t("group"@) + opt_t(group.deep_view()) + str_t("name"@)
            + str_t(name@) + str_t("node"@) + node_t(
            NodeV { name: node_name@, addr: node_addr@ },
        )),
        pid_fits(
            PidV {
                group: group.deep_view(),
                name: name@,
                node: NodeV { name: node_name@, addr: node_addr@ },
            },
        ),
{
    write_str_t(out, "group");
    write_opt_t(out, group);
    write_str_t(out, "name");
    write_str_t(out, name);
    write_str_t(out, "node");
    write_byte(out, 123);
    write_str_t(out, "name");
    write_str_t(out, node_name);
    write_str_t(out, "addr");
    write_str_t(out, node_addr);
    write_byte(out, 125);
    proof {
        let nv = NodeV { name: node_name@, addr: node_addr@ };
        assert(out@ =~= old(out)@ + (str_t("group"@) + opt_t(group.deep_view()) + str_t("name"@)
            + str_t(name@) + str_t("node"@) + node_t(nv)));
    }
}

/// Encodes a `Pid`; deterministic and total.
pub fn encode_pid(v: &Pid) -> (r: Vec<u8>)
    ensures
        r@ == pid_t(v@),
        pid_fits(v@),
{
    let mut out: Vec<u8> = Vec::new();
    write_byte(&mut out, 123);
    let g = match &v.group {
        Some(s) => Some(s.as_str()),
        None => None,
    };
    write_base_t(&mut out, g, v.name.as_str(), v.node.name.as_str(), v.node.addr.as_str());
    write_byte(&mut out, 125);
    proof {
        assert(out@ =~= pid_t(v@));
    }
    out
}

/// Encodes a `PidBorrowed`: byte-identical to the owned encoding of the
/// same field values.
pub fn encode_pid_borrowed(v: &PidBorrowed<'_>) -> (r: Vec<u8>)
    ensures
        r@ == pid_t(v@),
        pid_fits(v@),
{
    let mut out: Vec<u8> = Vec::new();
    write_byte(&mut out, 123);
    write_base_t(&mut out, v.group, v.name, v.node.name, v.node.addr);
    write_byte(&mut out, 125);
    proof {
        assert(out@ =~= pid_t(v@));
    }
    out
}

/// Encodes a `NodeIdBorrowed`: byte-identical to the owned encoding of
/// the same field values.
pub fn encode_node_id_borrowed(v: &NodeIdBorrowed<'_>) -> (r: Vec<u8>)
    ensures
        r@ == node_t(v@),
        node_fits(v@),
{
    let mut out: Vec<u8> = Vec::new();
    write_byte(&mut out, 123);
    write_str_t(&mut out, "name");
    write_str_t(&mut out, v.name);
    write_str_t(&mut out, "addr");
    write_str_t(&mut out, v.addr);
    write_byte(&mut out, 125);
    proof {
        assert(out@ =~= node_t(v@));
    }
    out
}

/// Encodes a `PidV2`; deterministic and total.
#[verifier::rlimit(100)]
pub fn encode_pid_v2(v: &PidV2) -> (r: Vec<u8>)
    ensures
        r@ == pid_v2_t(v@),
        pid_v2_fits(v@),
{
    let mut out: Vec<u8> = Vec::new();
    write_byte(&mut out, 123);
    let g = match &v.group {
        Some(s) => Some(s.as_str()),
        None => None,
    };
    write_base_t(&mut out, g, v.name.as_str(), v.node.name.as_str(), v.node.addr.as_str());
    write_str_t(&mut out, "owner");
    let w = match &v.owner {
        Some(s) => Some(s.as_str()),
        None => None,
    };
    write_opt_t(&mut out, w);
    write_byte(&mut out, 125);
    proof {
        assert(out@ =~= pid_v2_t(v@));
    }
    out
}

/// The layout of a node at `pos`.
proof fn lemma_node_t_layout(b: Seq<u8>, pos: int, nv: NodeV)
    requires
        node_fits(nv),
        starts(b, pos, node_t(nv)),
    ensures
        pos + 1 <= b.len(),
        b[pos] == 123,
        starts(b, pos + 1, str_t("name"@)),
        starts(b, pos + 1 + str_t("name"@).len(), str_t(nv.name)),
        starts(b, pos + 1 + str_t("name"@).len() + str_t(nv.name).len(), str_t("addr"@)),
        starts(
            b,
            pos + 1 + str_t("name"@).len() + str_t(nv.name).len() + str_t("addr"@).len(),
            str_t(nv.addr),
        ),
        b[pos + 1 + str_t("name"@).len() + str_t(nv.name).len() + str_t("addr"@).len() + str_t(
            nv.addr,
        ).len()] == 125,
        node_t(nv).len() == 2 + str_t("name"@).len() + str_t(nv.name).len() + str_t(
            "addr"@,
        ).len() + str_t(nv.addr).len(),
{
    let h = seq![123u8];
    let kn = str_t("name"@);
    let sn = str_t(nv.name);
    let ka = str_t("addr"@);
    let sa = str_t(nv.addr);
    lemma_starts_concat(b, pos, h + kn + sn + ka + sa, seq![125u8]);
    lemma_starts_concat(b, pos, h + kn + sn + ka, sa);
    lemma_starts_concat(b, pos, h + kn + sn, ka);
    lemma_starts_concat(b, pos, h + kn, sn);
    lemma_starts_concat(b, pos, h, kn);
    assert(b.subrange(pos, pos + 1)[0] == b[pos]);
    let e = pos + 1 + kn.len() + sn.len() + ka.len() + sa.len();
    assert(b.subrange(e, e + 1)[0] == b[e]);
}

/// Reads a node at `pos`.
#[verifier::rlimit(100)]
fn read_node_t(b: &[u8], pos: usize) -> (r: Option<(NodeId, usize)>)
    requires
        pos <= b@.len(),
    ensures
        r matches Some(t) ==> {
            &&& node_fits(t.0@)
            &&& t.1 == pos + node_t(t.0@).len()
            &&& t.1 <= b@.len()
            &&& b@.subrange(pos as int, t.1 as int) == node_t(t.0@)
        },
        forall|nv: NodeV| #![trigger node_t(nv)]
            node_fits(nv) && starts(b@, pos as int, node_t(nv)) ==> (r matches Some(t) && t.0@
                == nv && t.1 == pos + node_t(nv).len()),
{
    let t1 = match read_byte(b, pos) {
        Some((t, p)) => {
            if t == 123 {
                p
            } else {
                proof {
                    assert forall|nv: NodeV|
                        node_fits(nv) && starts(b@, pos as int, node_t(nv)) implies false by {
                        lemma_node_t_layout(b@, pos as int, nv);
                    }
                }
                return None;
            }
        },
        None => {
            proof {
                assert forall|nv: NodeV|
                    node_fits(nv) && starts(b@, pos as int, node_t(nv)) implies false by {
                    lemma_node_t_layout(b@, pos as int, nv);
                }
            }
            return None;
        },
    };
    let p1 = match read_exact_t(b, t1, "name") {
        Some(p) => p,
        None => {
            proof {
                assert forall|nv: NodeV|
                    node_fits(nv) && starts(b@, pos as int, node_t(nv)) implies false by {
                    lemma_node_t_layout(b@, pos as int, nv);
                }
            }
            return None;
        },
    };
    let (name, p2) = match read_str_t(b, p1) {
        Some((s, p)) => (s, p),
        None => {
            proof {
                assert forall|nv: NodeV|
                    node_fits(nv) && starts(b@, pos as int, node_t(nv)) implies false by {
                    lemma_node_t_layout(b@, pos as int, nv);
                }
            }
            return None;
        },
    };
    let p3 = match read_exact_t(b, p2, "addr") {
        Some(p) => p,
        None => {
            proof {
                assert forall|nv: NodeV|
                    node_fits(nv) && starts(b@, pos as int, node_t(nv)) implies false by {
                    lemma_node_t_layout(b@, pos as int, nv);
                }
            }
            return None;
        },
    };
    let (addr, p4) = match read_str_t(b, p3) {
        Some((s, p)) => (s, p),
        None => {
            proof {
                assert forall|nv: NodeV|
                    node_fits(nv) && starts(b@, pos as int, node_t(nv)) implies false by {
                    lemma_node_t_layout(b@, pos as int, nv);
                }
            }
            return None;
        },
    };
    let p5 = match read_byte(b, p4) {
        Some((c, p)) => {
            if c == 125 {
                p
            } else {
                proof {
                    assert forall|nv: NodeV|
                        node_fits(nv) && starts(b@, pos as int, node_t(nv)) implies false by {
                        lemma_node_t_layout(b@, pos as int, nv);
                    }
                }
                return None;
            }
        },
        None => {
            proof {
                assert forall|nv: NodeV|
                    node_fits(nv) && starts(b@, pos as int, node_t(nv)) implies false by {
                    lemma_node_t_layout(b@, pos as int, nv);
                }
            }
            return None;
        },
    };
    proof {
        let got = NodeV { name: name@, addr: addr@ };
        lemma_sub_split(b@, pos as int, t1 as int, p1 as int);
        lemma_sub_split(b@, pos as int, p1 as int, p2 as int);
        lemma_sub_split(b@, pos as int, p2 as int, p3 as int);
        lemma_sub_split(b@, pos as int, p3 as int, p4 as int);
        lemma_sub_split(b@, pos as int, p4 as int, p5 as int);
        assert(b@.subrange(pos as int, t1 as int) =~= seq![123u8]);
        assert(b@.subrange(p4 as int, p5 as int) =~= seq![125u8]);
        assert(b@.subrange(pos as int, p5 as int) =~= node_t(got));
        assert forall|nv: NodeV|
            node_fits(nv) && starts(b@, pos as int, node_t(nv)) implies nv =~= got by {
            lemma_node_t_layout(b@, pos as int, nv);
        }
    }
    Some((NodeId { name, addr }, p5))
}

/// Decodes a whole buffer as a `NodeId`.
pub fn decode_node_id(b: &[u8]) -> (r: Result<NodeId, DecodeError>)
    ensures
        r matches Ok(w) ==> node_fits(w@) && b@ == node_t(w@),
        forall|nv: NodeV| node_fits(nv) && b@ == node_t(nv) ==> (r matches Ok(w) && w@ == nv),
{
    proof {
        assert forall|nv: NodeV| node_fits(nv) && b@ == node_t(nv) implies starts(
            b@,
            0,
            node_t(nv),
        ) by {
            lemma_starts_whole(b@, node_t(nv));
        }
    }
    match read_node_t(b, 0) {
        None => Err(DecodeError::Malformed),
        Some((w, p)) => {
            if p == b.len() {
                proof {
                    assert(b@.subrange(0, p as int) =~= b@);
                }
                Ok(w)
            } else {
                Err(DecodeError::Malformed)
            }
        },
    }
}

/// The shared leading entries of a `Pid` or `PidV2` buffer.
pub open spec fn base_t(pv: PidV) -> Seq<u8> {
    str_t("group"@) + opt_t(pv.group) + str_t("name"@) + str_t(pv.name) + str_t("node"@) + node_t(
        pv.node,
    )
}

/// The layout of the shared entries at `pos`.
proof fn lemma_base_t_layout(b: Seq<u8>, pos: int, pv: PidV)
    requires
        pid_fits(pv),
        starts(b, pos, base_t(pv)),
    ensures
        starts(b, pos, str_t("group"@)),
        starts(b, pos + str_t("group"@).len(), opt_t(pv.group)),
        starts(b, pos + str_t("group"@).len() + opt_t(pv.group).len(), str_t("name"@)),
        starts(
            b,
            pos + str_t("group"@).len() + opt_t(pv.group).len() + str_t("name"@).len(),
            str_t(pv.name),
        ),
        starts(
            b,
            pos + str_t("group"@).len() + opt_t(pv.group).len() + str_t("name"@).len() + str_t(
                pv.name,
            ).len(),
            str_t("node"@),
        ),
        starts(
            b,
            pos + str_t("group"@).len() + opt_t(pv.group).len() + str_t("name"@).len() + str_t(
                pv.name,
            ).len() + str_t("node"@).len(),
            node_t(pv.node),
        ),
        base_t(pv).len() == str_t("group"@).len() + opt_t(pv.group).len() + str_t(
            "name"@,
        ).len() + str_t(pv.name).len() + str_t("node"@).len() + node_t(pv.node).len(),
{
    let kg = str_t("group"@);
    let vg = opt_t(pv.group);
    let kn = str_t("name"@);
    let vn = str_t(pv.name);
    let ko = str_t("node"@);
    lemma_starts_concat(b, pos, kg + vg + kn + vn + ko, node_t(pv.node));
    lemma_starts_concat(b, pos, kg + vg + kn + vn, ko);
    lemma_starts_concat(b, pos, kg + vg + kn, vn);
    lemma_starts_concat(b, pos, kg + vg, kn);
    lemma_starts_concat(b, pos, kg, vg);
}

/// The layout of a whole-buffer `Pid`.
proof fn lemma_pid_t_whole(b: Seq<u8>, pv: PidV)
    requires
        pid_fits(pv),
        b == pid_t(pv),
    ensures
        b.len() >= 2,
        b[0] == 123,
        starts(b, 1, base_t(pv)),
        b[1 + base_t(pv).len() as int] == 125,
        b.len() == 2 + base_t(pv).len(),
{
    lemma_starts_whole(b, pid_t(pv));
    assert(pid_t(pv) =~= seq![123u8] + base_t(pv) + seq![125u8]);
    lemma_starts_concat(b, 0, seq![123u8] + base_t(pv), seq![125u8]);
    lemma_starts_concat(b, 0, seq![123u8], base_t(pv));
    assert(b.subrange(0, 1)[0] == b[0]);
    let e = 1 + base_t(pv).len() as int;
    assert(b.subrange(e, e + 1)[0] == b[e]);
}

/// The layout of a whole-buffer `PidV2`.
proof fn lemma_pid_v2_t_whole(b: Seq<u8>, w2: PidV2V)
    requires
        pid_v2_fits(w2),
        b == pid_v2_t(w2),
    ensures
        b.len() >= 2,
        b[0] == 123,
        pid_fits(v2_pid_part(w2)),
        starts(b, 1, base_t(v2_pid_part(w2))),
        starts(b, 1 + base_t(v2_pid_part(w2)).len() as int, str_t("owner"@)),
        starts(
            b,
            1 + base_t(v2_pid_part(w2)).len() as int + str_t("owner"@).len() as int,
            opt_t(w2.owner),
        ),
        b[1 + base_t(v2_pid_part(w2)).len() as int + str_t("owner"@).len() as int + opt_t(
            w2.owner,
        ).len() as int] == 125,
        b.len() == 2 + base_t(v2_pid_part(w2)).len() + str_t("owner"@).len() + opt_t(
            w2.owner,
        ).len(),
{
    let be = base_t(v2_pid_part(w2));
    let ko = str_t("owner"@);
    lemma_starts_whole(b, pid_v2_t(w2));
    assert(pid_v2_t(w2) =~= seq![123u8] + be + ko + opt_t(w2.owner) + seq![125u8]);
    assert(starts(b, 0, seq![123u8] + be + ko + opt_t(w2.owner) + seq![125u8]));
    lemma_starts_concat(b, 0, seq![123u8] + be + ko + opt_t(w2.owner), seq![125u8]);
    lemma_starts_concat(b, 0, seq![123u8] + be + ko, opt_t(w2.owner));
    lemma_starts_concat(b, 0, seq![123u8] + be, ko);
    lemma_starts_concat(b, 0, seq![123u8], be);
    assert(b.subrange(0, 1)[0] == b[0]);
    let e = 1 + be.len() as int + ko.len() as int + opt_t(w2.owner).len() as int;
    assert(b.subrange(e, e + 1)[0] == b[e]);
}

/// Reads the shared entries at `pos`.
#[verifier::rlimit(100)]
fn read_base_t(b: &[u8], pos: usize) -> (r: Option<(Pid, usize)>)
    requires
        pos <= b@.len(),
    ensures
        r matches Some(t) ==> {
            &&& pid_fits(t.0@)
            &&& t.1 == pos + base_t(t.0@).len()
            &&& t.1 <= b@.len()
            &&& b@.subrange(pos as int, t.1 as int) == base_t(t.0@)
        },
        forall|pv: PidV| #![trigger base_t(pv)]
            pid_fits(pv) && starts(b@, pos as int, base_t(pv)) ==> (r matches Some(t) && t.0@
                == pv && t.1 == pos + base_t(pv).len()),
{
    let p1 = match read_exact_t(b, pos, "group") {
        Some(p) => p,
        None => {
            proof {
                assert forall|pv: PidV|
                    pid_fits(pv) && starts(b@, pos as int, base_t(pv)) implies false by {
                    lemma_base_t_layout(b@, pos as int, pv);
                }
            }
            return None;
        },
    };
    let (group, p2) = match read_opt_t(b, p1) {
        Some((g, p)) => (g, p),
        None => {
            proof {
                assert forall|pv: PidV|
                    pid_fits(pv) && starts(b@, pos as int, base_t(pv)) implies false by {
                    lemma_base_t_layout(b@, pos as int, pv);
                }
            }
            return None;
        },
    };
    let p3 = match read_exact_t(b, p2, "name") {
        Some(p) => p,
        None => {
            proof {
                assert forall|pv: PidV|
                    pid_fits(pv) && starts(b@, pos as int, base_t(pv)) implies false by {
                    lemma_base_t_layout(b@, pos as int, pv);
                }
            }
            return None;
        },
    };
    let (name, p4) = match read_str_t(b, p3) {
        Some((s, p)) => (s, p),
        None => {
            proof {
                assert forall|pv: PidV|
                    pid_fits(pv) && starts(b@, pos as int, base_t(pv)) implies false by {
                    lemma_base_t_layout(b@, pos as int, pv);
                }
            }
            return None;
        },
    };
    let p5 = match read_exact_t(b, p4, "node") {
        Some(p) => p,
        None => {
            proof {
                assert forall|pv: PidV|
                    pid_fits(pv) && starts(b@, pos as int, base_t(pv)) implies false by {
                    lemma_base_t_layout(b@, pos as int, pv);
                }
            }
            return None;
        },
    };
    let (node, p6) = match read_node_t(b, p5) {
        Some((n, p)) => (n, p),
        None => {
            proof {
                assert forall|pv: PidV|
                    pid_fits(pv) && starts(b@, pos as int, base_t(pv)) implies false by {
                    lemma_base_t_layout(b@, pos as int, pv);
                }
            }
            return None;
        },
    };
    proof {
        let got = PidV { group: group.deep_view(), name: name@, node: node@ };
        lemma_sub_split(b@, pos as int, p1 as int, p2 as int);
        lemma_sub_split(b@, pos as int, p2 as int, p3 as int);
        lemma_sub_split(b@, pos as int, p3 as int, p4 as int);
        lemma_sub_split(b@, pos as int, p4 as int, p5 as int);
        lemma_sub_split(b@, pos as int, p5 as int, p6 as int);
        assert(b@.subrange(pos as int, p6 as int) =~= base_t(got));
        assert forall|pv: PidV|
            pid_fits(pv) && starts(b@, pos as int, base_t(pv)) implies pv =~= got by {
            lemma_base_t_layout(b@, pos as int, pv);
        }
    }
    Some((Pid { group, name, node }, p6))
}

/// Decodes a whole buffer as a `Pid`.
#[verifier::rlimit(100)]
pub fn decode_pid(b: &[u8]) -> (r: Result<Pid, DecodeError>)
    ensures
        r matches Ok(w) ==> pid_fits(w@) && b@ == pid_t(w@),
        forall|pv: PidV| pid_fits(pv) && b@ == pid_t(pv) ==> (r matches Ok(w) && w@ == pv),
{
    let p1 = match read_byte(b, 0) {
        Some((t, p)) => {
            if t == 123 {
                p
            } else {
                proof {
                    assert forall|pv: PidV| pid_fits(pv) && b@ == pid_t(pv) implies false by {
                        lemma_pid_t_whole(b@, pv);
                    }
                }
                return Err(DecodeError::Malformed);
            }
        },
        None => {
            proof {
                assert forall|pv: PidV| pid_fits(pv) && b@ == pid_t(pv) implies false by {
                    lemma_pid_t_whole(b@, pv);
                }
            }
            return Err(DecodeError::Malformed);
        },
    };
    proof {
        assert forall|pv: PidV| pid_fits(pv) && b@ == pid_t(pv) implies starts(
            b@,
            p1 as int,
            base_t(pv),
        ) && b@.len() == 2 + base_t(pv).len() by {
            lemma_pid_t_whole(b@, pv);
        }
    }
    match read_base_t(b, p1) {
        None => Err(DecodeError::Malformed),
        Some((w, p)) => {
            match read_byte(b, p) {
                Some((c, p2)) => {
                    if c == 125 && p2 == b.len() {
                        proof {
                            lemma_sub_split(b@, 0, 1, p as int);
                            assert(b@.subrange(0, 1) =~= seq![123u8]);
                            assert(b@.subrange(p as int, p2 as int) =~= seq![125u8]);
                            lemma_sub_split(b@, 0, p as int, p2 as int);
                            assert(b@.subrange(0, p2 as int) =~= b@);
                            assert(b@ =~= pid_t(w@));
                        }
                        Ok(w)
                    } else {
                        Err(DecodeError::Malformed)
                    }
                },
                None => Err(DecodeError::Malformed),
            }
        },
    }
}

/// Decodes a whole buffer as a `PidV2`.
///
/// The closing brace marks the end of the struct, so a struct written
/// for the old `Pid` schema ends right after its third entry and the
/// added `owner` field resolves to its declared default, absent; a
/// four-entry struct decodes all four fields.
#[verifier::rlimit(100)]
pub fn decode_pid_v2(b: &[u8]) -> (r: Result<PidV2, DecodeError>)
    ensures
        r matches Ok(w) ==> pid_v2_fits(w@) && (b@ == pid_v2_t(w@) || (w@.owner is None && b@
            == pid_t(v2_pid_part(w@)))),
        forall|w2: PidV2V|
            pid_v2_fits(w2) && b@ == pid_v2_t(w2) ==> (r matches Ok(w) && w@ == w2),
        forall|pv: PidV|
            pid_fits(pv) && b@ == pid_t(pv) ==> (r matches Ok(w) && w@ == upgraded(pv)),
{
    let p1 = match read_byte(b, 0) {
        Some((t, p)) => {
            if t == 123 {
                p
            } else {
                proof {
                    assert forall|pv: PidV| pid_fits(pv) && b@ == pid_t(pv) implies false by {
                        lemma_pid_t_whole(b@, pv);
                    }
                    assert forall|w2: PidV2V|
                        pid_v2_fits(w2) && b@ == pid_v2_t(w2) implies false by {
                        lemma_pid_v2_t_whole(b@, w2);
                    }
                }
                return Err(DecodeError::Malformed);
            }
        },
        None => {
            proof {
                assert forall|pv: PidV| pid_fits(pv) && b@ == pid_t(pv) implies false by {
                    lemma_pid_t_whole(b@, pv);
                }
                assert forall|w2: PidV2V|
                    pid_v2_fits(w2) && b@ == pid_v2_t(w2) implies false by {
                    lemma_pid_v2_t_whole(b@, w2);
                }
            }
            return Err(DecodeError::Malformed);
        },
    };
    proof {
        assert forall|pv: PidV| pid_fits(pv) && b@ == pid_t(pv) implies starts(
            b@,
            p1 as int,
            base_t(pv),
        ) && b@.len() == 2 + base_t(pv).len() && b@[1 + base_t(pv).len() as int] == 125 by {
            lemma_pid_t_whole(b@, pv);
        }
        assert forall|w2: PidV2V| pid_v2_fits(w2) && b@ == pid_v2_t(w2) implies starts(
            b@,
            p1 as int,
            base_t(v2_pid_part(w2)),
        ) && starts(b@, 1 + base_t(v2_pid_part(w2)).len() as int, str_t("owner"@)) && starts(
            b@,
            1 + base_t(v2_pid_part(w2)).len() as int + str_t("owner"@).len() as int,
            opt_t(w2.owner),
        ) && b@.len() == 2 + base_t(v2_pid_part(w2)).len() + str_t("owner"@).len() + opt_t(
            w2.owner,
        ).len() && b@[1 + base_t(v2_pid_part(w2)).len() as int + str_t("owner"@).len() as int
            + opt_t(w2.owner).len() as int] == 125 by {
            lemma_pid_v2_t_whole(b@, w2);
        }
    }
    match read_base_t(b, p1) {
        None => Err(DecodeError::Malformed),
        Some((base, p)) => {
            match read_byte(b, p) {
                None => Err(DecodeError::Malformed),
                Some((c, p2)) => {
                    if c == 125 {
                        if p2 == b.len() {
                            let w = PidV2 {
                                group: base.group,
                                name: base.name,
                                node: base.node,
                                owner: None,
                            };
                            proof {
                                lemma_sub_split(b@, 0, 1, p as int);
                                assert(b@.subrange(0, 1) =~= seq![123u8]);
                                assert(b@.subrange(p as int, p2 as int) =~= seq![125u8]);
                                lemma_sub_split(b@, 0, p as int, p2 as int);
                                assert(b@.subrange(0, p2 as int) =~= b@);
                                assert(b@ =~= pid_t(v2_pid_part(w@)));
                                assert forall|pv: PidV|
                                    pid_fits(pv) && b@ == pid_t(pv) implies upgraded(pv)
                                    =~= w@ by {
                                    lemma_pid_t_whole(b@, pv);
                                }
                            }
                            Ok(w)
                        } else {
                            Err(DecodeError::Malformed)
                        }
                    } else {
                        let p3 = match read_exact_t(b, p, "owner") {
                            Some(q) => q,
                            None => {
                                return Err(DecodeError::SchemaMismatch);
                            },
                        };
                        let (owner, p4) = match read_opt_t(b, p3) {
                            Some((o, q)) => (o, q),
                            None => {
                                return Err(DecodeError::Malformed);
                            },
                        };
                        match read_byte(b, p4) {
                            None => Err(DecodeError::Malformed),
                            Some((c2, p5)) => {
                                if c2 == 125 && p5 == b.len() {
                                    let w = PidV2 {
                                        group: base.group,
                                        name: base.name,
                                        node: base.node,
                                        owner,
                                    };
                                    proof {
                                        lemma_sub_split(b@, 1, p as int, p3 as int);
                                        lemma_sub_split(b@, 1, p3 as int, p4 as int);
                                        assert(b@.subrange(p4 as int, p5 as int) =~= seq![125u8]);
                                        lemma_sub_split(b@, 1, p4 as int, p5 as int);
                                        lemma_sub_split(b@, 0, 1, p5 as int);
                                        assert(b@.subrange(0, 1) =~= seq![123u8]);
                                        assert(b@.subrange(0, p5 as int) =~= b@);
                                        assert(b@ =~= pid_v2_t(w@));
                                        assert forall|w2: PidV2V|
                                            pid_v2_fits(w2) && b@ == pid_v2_t(w2) implies w2
                                            =~= w@ by {
                                            lemma_pid_v2_t_whole(b@, w2);
                                        }
                                    }
                                    Ok(w)
                                } else {
                                    Err(DecodeError::Malformed)
                                }
                            },
                        }
                    }
                },
            }
        },
    }
}

} // verus!
