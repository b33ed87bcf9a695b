//! Shared byte-level primitives for the binary codecs: a little-endian
//! length, a length-prefixed UTF-8 string, and an optional string behind
//! a one-byte presence marker.  Every writer appends the exact byte
//! sequence that its spec-level encoding function describes, and every
//! reader is proved both sound (what it returns re-encodes to the bytes
//! it consumed) and complete (a buffer that starts with a value's
//! encoding is always read back as that value).

use vstd::prelude::*;
use vstd::bytes::{lemma_auto_spec_u64_to_from_le_bytes, spec_u64_to_le_bytes, u64_from_le_bytes,
    u64_to_le_bytes};
use vstd::slice::{slice_index_get, slice_subrange, slice_to_vec};
use vstd::string::StrSliceExecFns;
use vstd::string::StringExecFns;
use vstd::utf8::{encode_utf8, encode_utf8_decode_utf8, encode_utf8_valid_utf8, valid_utf8};
use crate::model::{Msg2V, MsgV, NodeV, PidV, PidV2V};

verus! {

broadcast use vstd::utf8::encode_utf8_valid_utf8, vstd::utf8::encode_utf8_decode_utf8;

/// A character sequence whose UTF-8 encoding fits the 64-bit length
/// prefix.  Every string held in memory satisfies this.
pub open spec fn str_fits(sv: Seq<char>) -> bool {
    encode_utf8(sv).len() <= u64::MAX
}

/// Wire shape of a string: the byte length of its UTF-8 encoding as a
/// 64-bit little-endian prefix, then the UTF-8 bytes themselves.
pub open spec fn str_enc(sv: Seq<char>) -> Seq<u8> {
    spec_u64_to_le_bytes(encode_utf8(sv).len() as u64) + encode_utf8(sv)
}

/// An optional string fits when its payload does.
pub open spec fn opt_fits(o: Option<Seq<char>>) -> bool {
    match o {
        None => true,
        Some(sv) => str_fits(sv),
    }
}

/// Wire shape of an optional string: a presence byte, then the string
/// when present.
pub open spec fn opt_enc(o: Option<Seq<char>>) -> Seq<u8> {
    match o {
        None => seq![0u8],
        Some(sv) => seq![1u8] + str_enc(sv),
    }
}


pub open spec fn node_fits(nv: NodeV) -> bool {
    str_fits(nv.name) && str_fits(nv.addr)
}

pub open spec fn pid_fits(pv: PidV) -> bool {
    opt_fits(pv.group) && str_fits(pv.name) && node_fits(pv.node)
}

pub open spec fn pid_v2_fits(w: PidV2V) -> bool {
    opt_fits(w.group) && str_fits(w.name) && node_fits(w.node) && opt_fits(w.owner)
}

pub open spec fn msg_fits(m: MsgV) -> bool {
    match m {
        MsgV::NodeId(nv) => node_fits(nv),
        MsgV::Pid(pv) => pid_fits(pv),
    }
}

pub open spec fn msg2_fits(m: Msg2V) -> bool {
    match m {
        Msg2V::NodeId(nv) => node_fits(nv),
        Msg2V::Pid(pv) => pid_fits(pv),
        Msg2V::Pid2(w) => pid_v2_fits(w),
    }
}

/// The old-schema part of a `PidV2` value.
pub open spec fn v2_pid_part(w: PidV2V) -> PidV {
    PidV { group: w.group, name: w.name, node: w.node }
}

/// The buffer holds `p` starting at `pos`.
pub open spec fn starts(b: Seq<u8>, pos: int, p: Seq<u8>) -> bool {
    &&& 0 <= pos
    &&& pos + p.len() <= b.len()
    &&& b.subrange(pos, pos + p.len()) == p
}

/// A subrange splits at any interior point.
pub proof fn lemma_sub_split(b: Seq<u8>, i: int, j: int, k: int)
    requires
        0 <= i <= j <= k <= b.len(),
    ensures
        b.subrange(i, k) == b.subrange(i, j) + b.subrange(j, k),
{
    assert(b.subrange(i, k) =~= b.subrange(i, j) + b.subrange(j, k));
}

/// A buffer that holds a concatenation holds each part in turn.
pub proof fn lemma_starts_concat(b: Seq<u8>, pos: int, x: Seq<u8>, y: Seq<u8>)
    requires
        starts(b, pos, x + y),
    ensures
        starts(b, pos, x),
        starts(b, pos + x.len(), y),
{
    let whole = b.subrange(pos, pos + x.len() + y.len());
    assert forall|i: int| 0 <= i < x.len() implies b.subrange(pos, pos + x.len())[i] == x[i] by {
        assert(whole[i] == (x + y)[i]);
    }
    assert(b.subrange(pos, pos + x.len()) =~= x);
    assert forall|i: int| 0 <= i < y.len() implies b.subrange(
        pos + x.len(),
        pos + x.len() + y.len(),
    )[i] == y[i] by {
        assert(whole[x.len() + i] == (x + y)[x.len() + i]);
    }
    assert(b.subrange(pos + x.len(), pos + x.len() + y.len()) =~= y);
}

/// A string encoding that fits in a real buffer has a fitting payload.
pub proof fn lemma_starts_str_fits(b: Seq<u8>, pos: int, sv: Seq<char>)
    requires
        starts(b, pos, str_enc(sv)),
        b.len() <= usize::MAX,
    ensures
        str_fits(sv),
{
    lemma_auto_spec_u64_to_from_le_bytes();
    assert(str_enc(sv).len() == 8 + encode_utf8(sv).len());
}

/// A buffer equal to an encoding starts with it at position zero.
pub proof fn lemma_starts_whole(b: Seq<u8>, p: Seq<u8>)
    requires
        b == p,
    ensures
        starts(b, 0, p),
{
    assert(b.subrange(0, p.len() as int) =~= p);
}

/// Relies on `String::from_utf8`: it succeeds exactly on valid UTF-8
/// input and returns the string whose bytes are that input.
#[verifier::external_body]
pub(crate) fn string_from_utf8(v: Vec<u8>) -> (r: Option<String>)
    ensures
        r matches Some(s) ==> encode_utf8(s@) == v@,
        r is None ==> !valid_utf8(v@),
{
    String::from_utf8(v).ok()
}

/// Appends one byte.
pub fn write_byte(out: &mut Vec<u8>, x: u8)
    ensures
        final(out)@ == old(out)@ + seq![x],
{
    out.push(x);
    proof {
        assert(out@ =~= old(out)@ + seq![x]);
    }
}

/// Appends a 64-bit little-endian value.
pub fn write_u64(out: &mut Vec<u8>, n: u64)
    ensures
        final(out)@ == old(out)@ + spec_u64_to_le_bytes(n),
{
    let mut bs = u64_to_le_bytes(n);
    out.append(&mut bs);
}

/// Appends a length-prefixed UTF-8 string.
pub fn write_str(out: &mut Vec<u8>, s: &str)
    ensures
        final(out)@ == old(out)@ + str_enc(s@),
        str_fits(s@),
{
    let mut bytes = s.as_bytes_vec();
    let n = bytes.len();
    write_u64(out, n as u64);
    out.append(&mut bytes);
    proof {
        assert(out@ =~= old(out)@ + str_enc(s@));
    }
}

/// Appends an optional string behind a presence byte.
pub fn write_opt(out: &mut Vec<u8>, o: Option<&str>)
    ensures
        final(out)@ == old(out)@ + opt_enc(o.deep_view()),
        opt_fits(o.deep_view()),
{
    match o {
        None => {
            write_byte(out, 0);
        },
        Some(s) => {
            write_byte(out, 1);
            write_str(out, s);
            proof {
                assert(out@ =~= old(out)@ + opt_enc(o.deep_view()));
            }
        },
    }
}

/// Reads one byte.
pub fn read_byte(b: &[u8], pos: usize) -> (r: Option<(u8, usize)>)
    requires
        pos <= b@.len(),
    ensures
        r matches Some(t) ==> t.1 == pos + 1 && t.1 <= b@.len() && b@[pos as int] == t.0,
        r is None ==> pos == b@.len(),
{
    if pos < b.len() {
        Some((*slice_index_get(b, pos), pos + 1))
    } else {
        None
    }
}

/// Reads a 64-bit little-endian value.
pub fn read_u64(b: &[u8], pos: usize) -> (r: Option<(u64, usize)>)
    requires
        pos <= b@.len(),
    ensures
        r matches Some(t) ==> t.1 == pos + 8 && t.1 <= b@.len() && b@.subrange(
            pos as int,
            t.1 as int,
        ) == spec_u64_to_le_bytes(t.0),
        r is None ==> b@.len() < pos + 8,
{
    proof {
        lemma_auto_spec_u64_to_from_le_bytes();
    }
    if b.len() - pos >= 8 {
        let s8 = slice_subrange(b, pos, pos + 8);
        let n = u64_from_le_bytes(s8);
        Some((n, pos + 8))
    } else {
        None
    }
}

/// Reads a length-prefixed UTF-8 string.  Sound: the returned string's
/// encoding is exactly the consumed bytes.  Complete: a buffer that
/// holds a string encoding at `pos` is always read back as that string.
pub fn read_str(b: &[u8], pos: usize) -> (r: Option<(String, usize)>)
    requires
        pos <= b@.len(),
    ensures
        r matches Some(t) ==> {
            &&& str_fits(t.0@)
            &&& t.1 == pos + str_enc(t.0@).len()
            &&& t.1 <= b@.len()
            &&& b@.subrange(pos as int, t.1 as int) == str_enc(t.0@)
        },
        forall|sv: Seq<char>| #![trigger str_enc(sv)]
            str_fits(sv) && starts(b@, pos as int, str_enc(sv)) ==> (r matches Some(t) && t.0@
                == sv && t.1 == pos + str_enc(sv).len()),
{
    proof {
        lemma_auto_spec_u64_to_from_le_bytes();
    }
    match read_u64(b, pos) {
        None => {
            proof {
                assert forall|sv: Seq<char>|
                    str_fits(sv) && starts(b@, pos as int, str_enc(sv)) implies false by {
                    lemma_starts_concat(
                        b@,
                        pos as int,
                        spec_u64_to_le_bytes(encode_utf8(sv).len() as u64),
                        encode_utf8(sv),
                    );
                }
            }
            None
        },
        Some((n, p1)) => {
            let avail = b.len() - p1;
            if n > avail as u64 {
                proof {
                    assert forall|sv: Seq<char>|
                        str_fits(sv) && starts(b@, pos as int, str_enc(sv)) implies false by {
                        let lenb = spec_u64_to_le_bytes(encode_utf8(sv).len() as u64);
                        lemma_starts_concat(b@, pos as int, lenb, encode_utf8(sv));
                        assert(b@.subrange(pos as int, p1 as int) == lenb);
                        assert(n == encode_utf8(sv).len() as u64);
                    }
                }
                None
            } else {
                let nn = n as usize;
                let sub = slice_subrange(b, p1, p1 + nn);
                let v = slice_to_vec(sub);
                match string_from_utf8(v) {
                    Some(s) => {
                        proof {
                            lemma_sub_split(b@, pos as int, p1 as int, p1 + nn);
                            assert(b@.subrange(pos as int, (p1 + nn) as int) =~= str_enc(s@));
                            assert forall|sv: Seq<char>|
                                str_fits(sv) && starts(
                                    b@,
                                    pos as int,
                                    str_enc(sv),
                                ) implies s@ == sv by {
                                let lenb = spec_u64_to_le_bytes(encode_utf8(sv).len() as u64);
                                lemma_starts_concat(b@, pos as int, lenb, encode_utf8(sv));
                                assert(b@.subrange(pos as int, p1 as int) == lenb);
                                assert(n == encode_utf8(sv).len() as u64);
                                assert(encode_utf8(sv) == b@.subrange(p1 as int, p1 + nn));
                                assert(encode_utf8(sv) == encode_utf8(s@));
                                encode_utf8_decode_utf8(sv);
                                encode_utf8_decode_utf8(s@);
                            }
                        }
                        Some((s, p1 + nn))
                    },
                    None => {
                        proof {
                            assert forall|sv: Seq<char>|
                                str_fits(sv) && starts(b@, pos as int, str_enc(sv)) implies false by {
                                let lenb = spec_u64_to_le_bytes(encode_utf8(sv).len() as u64);
                                lemma_starts_concat(b@, pos as int, lenb, encode_utf8(sv));
                                assert(b@.subrange(pos as int, p1 as int) == lenb);
                                assert(n == encode_utf8(sv).len() as u64);
                                assert(encode_utf8(sv) == b@.subrange(p1 as int, p1 + nn));
                            }
                        }
                        None
                    },
                }
            }
        },
    }
}

/// Reads an optional string.
pub fn read_opt(b: &[u8], pos: usize) -> (r: Option<(Option<String>, usize)>)
    requires
        pos <= b@.len(),
    ensures
        r matches Some(t) ==> {
            &&& opt_fits(t.0.deep_view())
            &&& t.1 == pos + opt_enc(t.0.deep_view()).len()
            &&& t.1 <= b@.len()
            &&& b@.subrange(pos as int, t.1 as int) == opt_enc(t.0.deep_view())
        },
        forall|ov: Option<Seq<char>>| #![trigger opt_enc(ov)]
            opt_fits(ov) && starts(b@, pos as int, opt_enc(ov)) ==> (r matches Some(t)
                && t.0.deep_view() == ov && t.1 == pos + opt_enc(ov).len()),
{
    match read_byte(b, pos) {
        None => {
            proof {
                assert forall|ov: Option<Seq<char>>|
                    opt_fits(ov) && starts(b@, pos as int, opt_enc(ov)) implies false by {
                    assert(opt_enc(ov).len() >= 1);
                }
            }
            None
        },
        Some((tag, p1)) => {
            if tag == 0 {
                let r: Option<String> = None;
                proof {
                    assert(b@.subrange(pos as int, p1 as int) =~= seq![0u8]);
                    assert forall|ov: Option<Seq<char>>|
                        opt_fits(ov) && starts(b@, pos as int, opt_enc(ov)) implies ov is None by {
                        assert(b@[pos as int] == opt_enc(ov)[0]);
                    }
                }
                Some((r, p1))
            } else if tag == 1 {
                match read_str(b, p1) {
                    None => {
                        proof {
                            assert forall|ov: Option<Seq<char>>|
                                opt_fits(ov) && starts(b@, pos as int, opt_enc(ov)) implies false by {
                                assert(b@[pos as int] == opt_enc(ov)[0]);
                                match ov {
                                    Some(sv) => lemma_starts_concat(
                                        b@,
                                        pos as int,
                                        seq![1u8],
                                        str_enc(sv),
                                    ),
                                    None => (),
                                }
                            }
                        }
                        None
                    },
                    Some((s, p2)) => {
                        proof {
                            assert(b@.subrange(pos as int, p2 as int) =~= seq![1u8] + str_enc(s@));
                            assert forall|ov: Option<Seq<char>>|
                                opt_fits(ov) && starts(b@, pos as int, opt_enc(ov)) implies ov
                                matches Some(sv) && sv == s@ by {
                                assert(b@[pos as int] == opt_enc(ov)[0]);
                                match ov {
                                    Some(sv) => lemma_starts_concat(
                                        b@,
                                        pos as int,
                                        seq![1u8],
                                        str_enc(sv),
                                    ),
                                    None => (),
                                }
                            }
                        }
                        Some((Some(s), p2))
                    },
                }
            } else {
                proof {
                    assert forall|ov: Option<Seq<char>>|
                        opt_fits(ov) && starts(b@, pos as int, opt_enc(ov)) implies false by {
                        assert(b@[pos as int] == opt_enc(ov)[0]);
                    }
                }
                None
            }
        },
    }
}

/// Relies on `str::from_utf8`: it succeeds exactly on valid UTF-8
/// input and returns the string view of those bytes.
#[verifier::external_body]
fn utf8_view<'a>(b: &'a [u8], start: usize, end: usize) -> (r: Option<&'a str>)
    requires
        start <= end <= b@.len(),
    ensures
        r matches Some(s) ==> encode_utf8(s@) == b@.subrange(start as int, end as int),
        r is None ==> !valid_utf8(b@.subrange(start as int, end as int)),
{
    std::str::from_utf8(&b[start..end]).ok()
}

/// Reads a length-prefixed UTF-8 string without copying: the result
/// borrows from the buffer.  Sound and complete like `read_str`.
pub fn read_str_borrowed<'a>(b: &'a [u8], pos: usize) -> (r: Option<(&'a str, usize)>)
    requires
        pos <= b@.len(),
    ensures
        r matches Some(t) ==> {
            &&& str_fits(t.0@)
            &&& t.1 == pos + str_enc(t.0@).len()
            &&& t.1 <= b@.len()
            &&& b@.subrange(pos as int, t.1 as int) == str_enc(t.0@)
        },
        forall|sv: Seq<char>| #![trigger str_enc(sv)]
            str_fits(sv) && starts(b@, pos as int, str_enc(sv)) ==> (r matches Some(t) && t.0@
                == sv && t.1 == pos + str_enc(sv).len()),
{
    proof {
        lemma_auto_spec_u64_to_from_le_bytes();
    }
    match read_u64(b, pos) {
        None => {
            proof {
                assert forall|sv: Seq<char>|
                    str_fits(sv) && starts(b@, pos as int, str_enc(sv)) implies false by {
                    lemma_starts_concat(
                        b@,
                        pos as int,
                        spec_u64_to_le_bytes(encode_utf8(sv).len() as u64),
                        encode_utf8(sv),
                    );
                }
            }
            None
        },
        Some((n, p1)) => {
            let avail = b.len() - p1;
            if n > avail as u64 {
                proof {
                    assert forall|sv: Seq<char>|
                        str_fits(sv) && starts(b@, pos as int, str_enc(sv)) implies false by {
                        let lenb = spec_u64_to_le_bytes(encode_utf8(sv).len() as u64);
                        lemma_starts_concat(b@, pos as int, lenb, encode_utf8(sv));
                        assert(b@.subrange(pos as int, p1 as int) == lenb);
                        assert(n == encode_utf8(sv).len() as u64);
                    }
                }
                None
            } else {
                let nn = n as usize;
                match utf8_view(b, p1, p1 + nn) {
                    Some(s) => {
                        proof {
                            lemma_sub_split(b@, pos as int, p1 as int, p1 + nn);
                            assert(b@.subrange(pos as int, (p1 + nn) as int) =~= str_enc(s@));
                            assert forall|sv: Seq<char>|
                                str_fits(sv) && starts(
                                    b@,
                                    pos as int,
                                    str_enc(sv),
                                ) implies s@ == sv by {
                                let lenb = spec_u64_to_le_bytes(encode_utf8(sv).len() as u64);
                                lemma_starts_concat(b@, pos as int, lenb, encode_utf8(sv));
                                assert(b@.subrange(pos as int, p1 as int) == lenb);
                                assert(n == encode_utf8(sv).len() as u64);
                                assert(encode_utf8(sv) == b@.subrange(p1 as int, p1 + nn));
                                assert(encode_utf8(sv) == encode_utf8(s@));
                                encode_utf8_decode_utf8(sv);
                                encode_utf8_decode_utf8(s@);
                            }
                        }
                        Some((s, p1 + nn))
                    },
                    None => {
                        proof {
                            assert forall|sv: Seq<char>|
                                str_fits(sv) && starts(b@, pos as int, str_enc(sv)) implies false by {
                                let lenb = spec_u64_to_le_bytes(encode_utf8(sv).len() as u64);
                                lemma_starts_concat(b@, pos as int, lenb, encode_utf8(sv));
                                assert(b@.subrange(pos as int, p1 as int) == lenb);
                                assert(n == encode_utf8(sv).len() as u64);
                                assert(encode_utf8(sv) == b@.subrange(p1 as int, p1 + nn));
                            }
                        }
                        None
                    },
                }
            }
        },
    }
}

/// Reads an optional string without copying.
pub fn read_opt_borrowed<'a>(b: &'a [u8], pos: usize) -> (r: Option<(Option<&'a str>, usize)>)
    requires
        pos <= b@.len(),
    ensures
        r matches Some(t) ==> {
            &&& opt_fits(t.0.deep_view())
            &&& t.1 == pos + opt_enc(t.0.deep_view()).len()
            &&& t.1 <= b@.len()
            &&& b@.subrange(pos as int, t.1 as int) == opt_enc(t.0.deep_view())
        },
        forall|ov: Option<Seq<char>>| #![trigger opt_enc(ov)]
            opt_fits(ov) && starts(b@, pos as int, opt_enc(ov)) ==> (r matches Some(t)
                && t.0.deep_view() == ov && t.1 == pos + opt_enc(ov).len()),
{
    match read_byte(b, pos) {
        None => {
            proof {
                assert forall|ov: Option<Seq<char>>|
                    opt_fits(ov) && starts(b@, pos as int, opt_enc(ov)) implies false by {
                    assert(opt_enc(ov).len() >= 1);
                }
            }
            None
        },
        Some((tag, p1)) => {
            if tag == 0 {
                let r: Option<&'a str> = None;
                proof {
                    assert(b@.subrange(pos as int, p1 as int) =~= seq![0u8]);
                    assert forall|ov: Option<Seq<char>>|
                        opt_fits(ov) && starts(b@, pos as int, opt_enc(ov)) implies ov is None by {
                        assert(b@[pos as int] == opt_enc(ov)[0]);
                    }
                }
                Some((r, p1))
            } else if tag == 1 {
                match read_str_borrowed(b, p1) {
                    None => {
                        proof {
                            assert forall|ov: Option<Seq<char>>|
                                opt_fits(ov) && starts(b@, pos as int, opt_enc(ov)) implies false by {
                                assert(b@[pos as int] == opt_enc(ov)[0]);
                                match ov {
                                    Some(sv) => lemma_starts_concat(
                                        b@,
                                        pos as int,
                                        seq![1u8],
                                        str_enc(sv),
                                    ),
                                    None => (),
                                }
                            }
                        }
                        None
                    },
                    Some((s, p2)) => {
                        proof {
                            assert(b@.subrange(pos as int, p2 as int) =~= seq![1u8] + str_enc(s@));
                            assert forall|ov: Option<Seq<char>>|
                                opt_fits(ov) && starts(b@, pos as int, opt_enc(ov)) implies ov
                                matches Some(sv) && sv == s@ by {
                                assert(b@[pos as int] == opt_enc(ov)[0]);
                                match ov {
                                    Some(sv) => lemma_starts_concat(
                                        b@,
                                        pos as int,
                                        seq![1u8],
                                        str_enc(sv),
                                    ),
                                    None => (),
                                }
                            }
                        }
                        Some((Some(s), p2))
                    },
                }
            } else {
                proof {
                    assert forall|ov: Option<Seq<char>>|
                        opt_fits(ov) && starts(b@, pos as int, opt_enc(ov)) implies false by {
                        assert(b@[pos as int] == opt_enc(ov)[0]);
                    }
                }
                None
            }
        },
    }
}

/// Reads a string and checks it against an expected field or tag name.
pub fn read_exact_str(b: &[u8], pos: usize, lit: &str) -> (r: Option<usize>)
    requires
        pos <= b@.len(),
    ensures
        r matches Some(p) ==> str_fits(lit@) && p == pos + str_enc(lit@).len() && p <= b@.len()
            && b@.subrange(pos as int, p as int) == str_enc(lit@),
        r is None ==> !starts(b@, pos as int, str_enc(lit@)),
{
    let total = b.len();
    match read_str(b, pos) {
        None => {
            proof {
                if starts(b@, pos as int, str_enc(lit@)) {
                    lemma_starts_str_fits(b@, pos as int, lit@);
                    assert(false);
                }
            }
            None
        },
        Some((s, p)) => {
            let key = String::from_str(lit);
            if s.eq(&key) {
                Some(p)
            } else {
                proof {
                    if starts(b@, pos as int, str_enc(lit@)) {
                        lemma_starts_str_fits(b@, pos as int, lit@);
                        assert(false);
                    }
                }
                None
            }
        },
    }
}

} // verus!
