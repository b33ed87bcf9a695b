//! The identity data model: `NodeId`, `Pid`, `PidV2`, the tagged unions
//! `Msg` and `Msg2`, and the zero-copy mirrors `NodeIdBorrowed` and
//! `PidBorrowed`.  Each type has an abstract view made of character
//! sequences, so that structural equality, cloning and the codecs can be
//! specified independently of string storage.

use vstd::prelude::*;

verus! {

/// Abstract value of a `NodeId` or `NodeIdBorrowed`: both fields as
/// character sequences.
#[verifier::ext_equal]
pub struct NodeV {
    pub name: Seq<char>,
    pub addr: Seq<char>,
}

/// Abstract value of a `Pid` or `PidBorrowed`.
#[verifier::ext_equal]
pub struct PidV {
    pub group: Option<Seq<char>>,
    pub name: Seq<char>,
    pub node: NodeV,
}

/// Abstract value of a `PidV2`: a `PidV` plus the `owner` field added by
/// the next schema generation.
#[verifier::ext_equal]
pub struct PidV2V {
    pub group: Option<Seq<char>>,
    pub name: Seq<char>,
    pub node: NodeV,
    pub owner: Option<Seq<char>>,
}

/// Abstract value of a `Msg`.
#[verifier::ext_equal]
pub enum MsgV {
    NodeId(NodeV),
    Pid(PidV),
}

/// Abstract value of a `Msg2`.
#[verifier::ext_equal]
pub enum Msg2V {
    NodeId(NodeV),
    Pid(PidV),
    Pid2(PidV2V),
}

/// The `PidV2` value that old-schema `Pid` bytes must decode to: the
/// shared fields unchanged and the new `owner` field at its declared
/// default, absent.
pub open spec fn upgraded(pv: PidV) -> PidV2V {
    PidV2V { group: pv.group, name: pv.name, node: pv.node, owner: None }
}

/// The shared fields of a `PidV2` value, as a `Pid` value.
pub open spec fn v2_base(w: PidV2V) -> PidV {
    PidV { group: w.group, name: w.name, node: w.node }
}

/// The `Msg2` value that old-schema `Msg` bytes must decode to: the same
/// variant under the same tag.
pub open spec fn widened(m: MsgV) -> Msg2V {
    match m {
        MsgV::NodeId(n) => Msg2V::NodeId(n),
        MsgV::Pid(p) => Msg2V::Pid(p),
    }
}

/// A cluster node's logical name and network address.
#[derive(Debug)]
pub struct NodeId {
    pub name: String,
    pub addr: String,
}

/// A named, optionally grouped process located on a node.
#[derive(Debug)]
pub struct Pid {
    pub group: Option<String>,
    pub name: String,
    pub node: NodeId,
}

/// The next schema generation of `Pid`: one additional optional field,
/// `owner`, which defaults to absent when the source encoding predates it.
#[derive(Debug)]
pub struct PidV2 {
    pub group: Option<String>,
    pub name: String,
    pub node: NodeId,
    pub owner: Option<String>,
}

/// A closed tagged union over the identity variants.
#[derive(Debug)]
pub enum Msg {
    NodeId(NodeId),
    Pid(Pid),
}

/// The enlarged union: `Msg` plus a third variant.  The tags of the two
/// original variants are unchanged, so bytes written for a `Msg` remain
/// decodable as a `Msg2`.
#[derive(Debug)]
pub enum Msg2 {
    NodeId(NodeId),
    Pid(Pid),
    Pid2(PidV2),
}

/// Zero-copy mirror of `NodeId`: the fields are views into a buffer that
/// the caller keeps alive.
#[derive(Debug)]
pub struct NodeIdBorrowed<'a> {
    pub name: &'a str,
    pub addr: &'a str,
}

/// Zero-copy mirror of `Pid`.
#[derive(Debug)]
pub struct PidBorrowed<'a> {
    pub group: Option<&'a str>,
    pub name: &'a str,
    pub node: NodeIdBorrowed<'a>,
}

impl View for NodeId {
    type V = NodeV;

    open spec fn view(&self) -> NodeV {
        NodeV { name: self.name@, addr: self.addr@ }
    }
}

impl View for Pid {
    type V = PidV;

    open spec fn view(&self) -> PidV {
        PidV { group: self.group.deep_view(), name: self.name@, node: self.node@ }
    }
}

impl View for PidV2 {
    type V = PidV2V;

    open spec fn view(&self) -> PidV2V {
        PidV2V {
            group: self.group.deep_view(),
            name: self.name@,
            node: self.node@,
            owner: self.owner.deep_view(),
        }
    }
}

impl View for Msg {
    type V = MsgV;

    open spec fn view(&self) -> MsgV {
        match self {
            Msg::NodeId(n) => MsgV::NodeId(n@),
            Msg::Pid(p) => MsgV::Pid(p@),
        }
    }
}

impl View for Msg2 {
    type V = Msg2V;

    open spec fn view(&self) -> Msg2V {
        match self {
            Msg2::NodeId(n) => Msg2V::NodeId(n@),
            Msg2::Pid(p) => Msg2V::Pid(p@),
            Msg2::Pid2(p) => Msg2V::Pid2(p@),
        }
    }
}

impl<'a> View for NodeIdBorrowed<'a> {
    type V = NodeV;

    open spec fn view(&self) -> NodeV {
        NodeV { name: self.name@, addr: self.addr@ }
    }
}

impl<'a> View for PidBorrowed<'a> {
    type V = PidV;

    open spec fn view(&self) -> PidV {
        PidV { group: self.group.deep_view(), name: self.name@, node: self.node@ }
    }
}

impl Clone for NodeId {
    /// An independent value that is structurally equal to the original.
    fn clone(&self) -> (r: Self)
        ensures
            r@ == self@,
    {
        NodeId { name: self.name.clone(), addr: self.addr.clone() }
    }
}

impl Clone for Pid {
    /// An independent value that is structurally equal to the original.
    fn clone(&self) -> (r: Self)
        ensures
            r@ == self@,
    {
        Pid {
            group: match &self.group {
                Some(g) => Some(g.clone()),
                None => None,
            },
            name: self.name.clone(),
            node: self.node.clone(),
        }
    }
}

impl Clone for PidV2 {
    /// An independent value that is structurally equal to the original.
    fn clone(&self) -> (r: Self)
        ensures
            r@ == self@,
    {
        PidV2 {
            group: match &self.group {
                Some(g) => Some(g.clone()),
                None => None,
            },
            name: self.name.clone(),
            node: self.node.clone(),
            owner: match &self.owner {
                Some(o) => Some(o.clone()),
                None => None,
            },
        }
    }
}

impl Clone for Msg {
    /// An independent value that is structurally equal to the original.
    fn clone(&self) -> (r: Self)
        ensures
            r@ == self@,
    {
        match self {
            Msg::NodeId(n) => Msg::NodeId(n.clone()),
            Msg::Pid(p) => Msg::Pid(p.clone()),
        }
    }
}

impl Clone for Msg2 {
    /// An independent value that is structurally equal to the original.
    fn clone(&self) -> (r: Self)
        ensures
            r@ == self@,
    {
        match self {
            Msg2::NodeId(n) => Msg2::NodeId(n.clone()),
            Msg2::Pid(p) => Msg2::Pid(p.clone()),
            Msg2::Pid2(p) => Msg2::Pid2(p.clone()),
        }
    }
}

impl<'a> Clone for NodeIdBorrowed<'a> {
    /// Duplicates the views, not the underlying buffer.
    fn clone(&self) -> (r: Self)
        ensures
            r@ == self@,
    {
        NodeIdBorrowed { name: self.name, addr: self.addr }
    }
}

impl<'a> Clone for PidBorrowed<'a> {
    /// Duplicates the views, not the underlying buffer.
    fn clone(&self) -> (r: Self)
        ensures
            r@ == self@,
    {
        PidBorrowed { group: self.group, name: self.name, node: self.node.clone() }
    }
}

impl vstd::std_specs::cmp::PartialEqSpecImpl for NodeId {
    open spec fn obeys_eq_spec() -> bool {
        true
    }

    open spec fn eq_spec(&self, o: &NodeId) -> bool {
        self@ == o@
    }
}

impl PartialEq for NodeId {
    /// Structural equality: true exactly when both fields agree.
    fn eq(&self, o: &NodeId) -> (r: bool) {
        self.name == o.name && self.addr == o.addr
    }
}

impl vstd::std_specs::cmp::PartialEqSpecImpl for Pid {
    open spec fn obeys_eq_spec() -> bool {
        true
    }

    open spec fn eq_spec(&self, o: &Pid) -> bool {
        self@ == o@
    }
}

impl PartialEq for Pid {
    /// Structural equality across all three fields, recursively through
    /// the node.
    fn eq(&self, o: &Pid) -> (r: bool) {
        let g = match (&self.group, &o.group) {
            (Some(a), Some(b)) => a.eq(b),
            (None, None) => true,
            _ => false,
        };
        g && self.name == o.name && self.node == o.node
    }
}

impl vstd::std_specs::cmp::PartialEqSpecImpl for PidV2 {
    open spec fn obeys_eq_spec() -> bool {
        true
    }

    open spec fn eq_spec(&self, o: &PidV2) -> bool {
        self@ == o@
    }
}

impl PartialEq for PidV2 {
    /// Structural equality across all four fields.
    fn eq(&self, o: &PidV2) -> (r: bool) {
        let g = match (&self.group, &o.group) {
            (Some(a), Some(b)) => a.eq(b),
            (None, None) => true,
            _ => false,
        };
        let w = match (&self.owner, &o.owner) {
            (Some(a), Some(b)) => a.eq(b),
            (None, None) => true,
            _ => false,
        };
        g && w && self.name == o.name && self.node == o.node
    }
}

impl vstd::std_specs::cmp::PartialEqSpecImpl for Msg {
    open spec fn obeys_eq_spec() -> bool {
        true
    }

    open spec fn eq_spec(&self, o: &Msg) -> bool {
        self@ == o@
    }
}

impl PartialEq for Msg {
    /// Equal exactly when the tags agree and the payloads are
    /// structurally equal.
    fn eq(&self, o: &Msg) -> (r: bool) {
        match (self, o) {
            (Msg::NodeId(a), Msg::NodeId(b)) => a == b,
            (Msg::Pid(a), Msg::Pid(b)) => a == b,
            _ => false,
        }
    }
}

impl vstd::std_specs::cmp::PartialEqSpecImpl for Msg2 {
    open spec fn obeys_eq_spec() -> bool {
        true
    }

    open spec fn eq_spec(&self, o: &Msg2) -> bool {
        self@ == o@
    }
}

impl PartialEq for Msg2 {
    /// Equal exactly when the tags agree and the payloads are
    /// structurally equal.
    fn eq(&self, o: &Msg2) -> (r: bool) {
        match (self, o) {
            (Msg2::NodeId(a), Msg2::NodeId(b)) => a == b,
            (Msg2::Pid(a), Msg2::Pid(b)) => a == b,
            (Msg2::Pid2(a), Msg2::Pid2(b)) => a == b,
            _ => false,
        }
    }
}

impl<'a> NodeIdBorrowed<'a> {
    /// Materialize: copy the views into owned storage.
    pub fn to_node_id(&self) -> (r: NodeId)
        ensures
            r@ == self@,
    {
        NodeId { name: self.name.to_owned(), addr: self.addr.to_owned() }
    }
}

impl<'a> PidBorrowed<'a> {
    /// Materialize: copy the views into owned storage.
    pub fn to_pid(&self) -> (r: Pid)
        ensures
            r@ == self@,
    {
        Pid {
            group: match self.group {
                Some(g) => Some(g.to_owned()),
                None => None,
            },
            name: self.name.to_owned(),
            node: self.node.to_node_id(),
        }
    }
}

/// Structural equality is an equivalence relation defined purely over
/// the visible fields: reflexive, symmetric and transitive on the
/// abstract values that `==` on `Pid` is specified against.
pub proof fn lemma_structural_eq_equivalence(a: PidV, b: PidV, c: PidV)
    ensures
        a == a,
        a == b ==> b == a,
        a == b && b == c ==> a == c,
{
}

/// Why a buffer failed to decode: `Malformed` when the bytes do not parse
/// as the adapter's framing at all, `SchemaMismatch` when the framing
/// parses but the fields do not line up with the requested type.
#[derive(Clone, Copy, Debug, PartialEq, Eq, Structural)]
pub enum DecodeError {
    Malformed,
    SchemaMismatch,
}

} // verus!
