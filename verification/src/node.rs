//! The recursive content tree and its merge engine.
//!
//! A `ContentNode` is either a leaf carrying a byte payload and a content
//! type, or an interior node carrying named children. Two trees merge
//! key-by-key: directories take the union of their children, leaves are
//! resolved by a content-type-aware policy (`Tag` leaves concatenate their
//! JSON value lists, every other leaf is overwritten by the incoming side).

use crate::errors::TreeError;
use crate::kinds::ScriptType;
use crate::strutil::str_eq;
use crate::tag::merge_tag_payload;
use crate::tag::spec_decode_lenient;
use crate::tag::spec_encode_tag;
use crate::tag::spec_merge_tag_payload;
use crate::tag::TagView;
use vstd::prelude::*;

verus! {

/// Body of a content node: leaf payload or named children.
#[derive(Debug, PartialEq, Eq)]
pub enum NodeData {
    Leaf { payload: Vec<u8>, kind: ScriptType },
    Interior { children: Vec<ContentNode> },
}

/// One node of a content tree; its `name` is its path segment.
#[derive(Debug, PartialEq, Eq)]
pub struct ContentNode {
    pub name: String,
    pub data: NodeData,
}

/// Mathematical model of a node body.
#[verifier::ext_equal]
pub enum NodeDataV {
    Leaf { payload: Seq<u8>, kind: ScriptType },
    Interior { children: Seq<NodeV> },
}

/// Mathematical model of a node.
#[verifier::ext_equal]
pub struct NodeV {
    pub name: Seq<char>,
    pub data: NodeDataV,
}

pub open spec fn node_view(n: ContentNode) -> NodeV
    decreases n,
    via node_view_decreases
{
    NodeV {
        name: n.name@,
        data: match n.data {
            NodeData::Leaf { payload, kind } => NodeDataV::Leaf { payload: payload@, kind },
            NodeData::Interior { children } => NodeDataV::Interior {
                children: seq_view(children@),
            },
        },
    }
}

#[via_fn]
proof fn node_view_decreases(n: ContentNode) {
    match n.data {
        NodeData::Leaf { .. } => {},
        NodeData::Interior { children } => {
            assert(decreases_to!(n => n.data));
            assert(n.data->Interior_children == children);
            assert(decreases_to!(n.data => n.data->Interior_children));
            assert(decreases_to!(children => children@));
        },
    }
}

pub open spec fn seq_view(children: Seq<ContentNode>) -> Seq<NodeV>
    decreases children,
{
    if children.len() == 0 {
        Seq::empty()
    } else {
        seq![node_view(children[0])] + seq_view(children.drop_first())
    }
}

/// `seq_view` is pointwise `node_view`.
pub proof fn lemma_seq_view(children: Seq<ContentNode>)
    ensures
        seq_view(children).len() == children.len(),
        forall|i: int| 0 <= i < children.len() ==> seq_view(children)[i] == node_view(
            #[trigger] children[i],
        ),
    decreases children,
{
    if children.len() > 0 {
        lemma_seq_view(children.drop_first());
        assert forall|i: int| 0 <= i < children.len() implies seq_view(children)[i] == node_view(
            #[trigger] children[i],
        ) by {
            if i > 0 {
                assert(seq_view(children)[i] == seq_view(children.drop_first())[i - 1]);
                assert(children.drop_first()[i - 1] == children[i]);
            }
        }
    }
}

/// View of a child vector.
pub open spec fn children_view(children: Vec<ContentNode>) -> Seq<NodeV> {
    Seq::new(children@.len(), |i: int| node_view(children@[i]))
}

pub proof fn lemma_children_view(children: Vec<ContentNode>)
    ensures
        seq_view(children@) == children_view(children),
{
    lemma_seq_view(children@);
    assert(seq_view(children@) =~= children_view(children));
}

/// No two children of one interior node share a name.
pub open spec fn names_unique(s: Seq<NodeV>) -> bool {
    forall|i: int, j: int| #![trigger s[i], s[j]] 0 <= i < j < s.len() ==> s[i].name != s[j].name
}

/// Well-formed tree: sibling names are unique, everywhere.
pub open spec fn node_wf(n: NodeV) -> bool
    decreases n,
{
    match n.data {
        NodeDataV::Leaf { .. } => true,
        NodeDataV::Interior { children } => {
            &&& names_unique(children)
            &&& forall|i: int| 0 <= i < children.len() ==> node_wf(#[trigger] children[i])
        },
    }
}

/// Index of the first node named `name` in `s`, or `-1`.
pub open spec fn idx_of(s: Seq<NodeV>, name: Seq<char>) -> int
    decreases s.len(),
{
    if s.len() == 0 {
        -1
    } else if s[0].name == name {
        0
    } else if idx_of(s.drop_first(), name) < 0 {
        -1
    } else {
        idx_of(s.drop_first(), name) + 1
    }
}

pub proof fn lemma_idx_of(s: Seq<NodeV>, name: Seq<char>)
    ensures
        idx_of(s, name) >= 0 ==> {
            &&& 0 <= idx_of(s, name) < s.len()
            &&& s[idx_of(s, name)].name == name
            &&& forall|k: int| 0 <= k < idx_of(s, name) ==> s[k].name != name
        },
        idx_of(s, name) < 0 ==> idx_of(s, name) == -1 && forall|k: int|
            0 <= k < s.len() ==> s[k].name != name,
    decreases s.len(),
{
    if s.len() > 0 && s[0].name != name {
        lemma_idx_of(s.drop_first(), name);
        let t = s.drop_first();
        if idx_of(s, name) < 0 {
            assert forall|k: int| 0 <= k < s.len() implies s[k].name != name by {
                if k > 0 {
                    assert(t[k - 1] == s[k]);
                }
            }
        } else {
            let r = idx_of(t, name);
            assert(s[r + 1] == t[r]);
            assert forall|k: int| 0 <= k < idx_of(s, name) implies s[k].name != name by {
                if k > 0 {
                    assert(t[k - 1] == s[k]);
                }
            }
        }
    }
}

/// Saturating addition of work-unit counters.
pub open spec fn spec_sat_add(a: u64, b: u64) -> u64 {
    if a + b <= u64::MAX {
        (a + b) as u64
    } else {
        u64::MAX
    }
}

pub fn sat_add(a: u64, b: u64) -> (r: u64)
    ensures
        r == spec_sat_add(a, b),
{
    if b <= u64::MAX - a {
        a + b
    } else {
        u64::MAX
    }
}

pub proof fn lemma_sat_add_assoc(a: u64, b: u64, c: u64)
    ensures
        spec_sat_add(a, spec_sat_add(b, c)) == spec_sat_add(spec_sat_add(a, b), c),
{
}

/// Merge of two models, with the number of work units the merge walked.
/// `None` marks a structural mismatch: a leaf met an interior node under the
/// same key.
pub open spec fn spec_merge(base: NodeV, inc: NodeV) -> Option<(NodeV, u64)>
    decreases inc,
{
    match base.data {
        NodeDataV::Leaf { payload: bp, kind: bk } => match inc.data {
            NodeDataV::Leaf { payload: ip, kind: ik } => {
                if bk == ScriptType::Tag {
                    Some(
                        (
                            NodeV {
                                name: base.name,
                                data: NodeDataV::Leaf {
                                    payload: spec_merge_tag_payload(bp, ip),
                                    kind: bk,
                                },
                            },
                            1,
                        ),
                    )
                } else {
                    Some((inc, 1))
                }
            },
            NodeDataV::Interior { .. } => None,
        },
        NodeDataV::Interior { children: bc } => match inc.data {
            NodeDataV::Leaf { .. } => None,
            NodeDataV::Interior { children: ic } => match spec_merge_children(bc, ic) {
                Some((mc, d)) => Some(
                    (NodeV { name: base.name, data: NodeDataV::Interior { children: mc } }, d),
                ),
                None => None,
            },
        },
    }
}

/// Left fold of the incoming children into the base children: an incoming
/// child with no base counterpart is adopted whole (one unit); one with a
/// counterpart replaces it by their recursive merge.
pub open spec fn spec_merge_children(base: Seq<NodeV>, inc: Seq<NodeV>) -> Option<(Seq<NodeV>, u64)>
    decreases inc,
{
    if inc.len() == 0 {
        Some((base, 0))
    } else {
        let c = inc[0];
        let i = idx_of(base, c.name);
        let step: Option<(Seq<NodeV>, u64)> = if i < 0 {
            Some((base.push(c), 1))
        } else {
            match spec_merge(base[i], c) {
                Some((m, d)) => Some((base.update(i, m), d)),
                None => None,
            }
        };
        match step {
            None => None,
            Some((b2, d)) => match spec_merge_children(b2, inc.drop_first()) {
                Some((bf, df)) => Some((bf, spec_sat_add(d, df))),
                None => None,
            },
        }
    }
}

/// The pair of names at the first structural mismatch the merge meets, in
/// merge order; `None` when the merge succeeds everywhere.
pub open spec fn spec_mismatch(base: NodeV, inc: NodeV) -> Option<(Seq<char>, Seq<char>)>
    decreases inc,
{
    match base.data {
        NodeDataV::Leaf { .. } => match inc.data {
            NodeDataV::Leaf { .. } => None,
            NodeDataV::Interior { .. } => Some((base.name, inc.name)),
        },
        NodeDataV::Interior { children: bc } => match inc.data {
            NodeDataV::Leaf { .. } => Some((base.name, inc.name)),
            NodeDataV::Interior { children: ic } => spec_mismatch_children(bc, ic),
        },
    }
}

pub open spec fn spec_mismatch_children(base: Seq<NodeV>, inc: Seq<NodeV>) -> Option<
    (Seq<char>, Seq<char>),
>
    decreases inc,
{
    if inc.len() == 0 {
        None
    } else {
        let c = inc[0];
        let i = idx_of(base, c.name);
        if i < 0 {
            spec_mismatch_children(base.push(c), inc.drop_first())
        } else {
            match spec_merge(base[i], c) {
                Some((m, d)) => spec_mismatch_children(base.update(i, m), inc.drop_first()),
                None => spec_mismatch(base[i], c),
            }
        }
    }
}

/// The merged value and its accounting, as every merge step returns them.
#[derive(Debug, Clone, PartialEq, Eq)]
pub struct MergeOutcome<T> {
    pub result: T,
    pub unit_delta: u64,
    pub key: String,
}

/// Byte-for-byte copy of a payload.
pub fn copy_bytes(v: &Vec<u8>) -> (r: Vec<u8>)
    ensures
        r@ == v@,
{
    let mut r: Vec<u8> = Vec::new();
    let mut i: usize = 0;
    while i < v.len()
        invariant
            i <= v@.len(),
            r@ == v@.subrange(0, i as int),
        decreases v@.len() - i,
    {
        r.push(v[i]);
        proof {
            assert(v@.subrange(0, i + 1) =~= v@.subrange(0, i as int).push(v@[i as int]));
        }
        i += 1;
    }
    proof {
        assert(v@.subrange(0, v@.len() as int) =~= v@);
    }
    r
}

/// Structure-preserving copy of a whole tree.
pub fn clone_node(n: &ContentNode) -> (r: ContentNode)
    ensures
        node_view(r) == node_view(*n),
    decreases *n,
{
    let name = n.name.clone();
    match &n.data {
        NodeData::Leaf { payload, kind } => {
            let r = ContentNode {
                name,
                data: NodeData::Leaf { payload: copy_bytes(payload), kind: *kind },
            };
            proof {
                assert(node_view(r) =~= node_view(*n));
            }
            r
        },
        NodeData::Interior { children } => {
            let mut acc: Vec<ContentNode> = Vec::new();
            let mut i: usize = 0;
            while i < children.len()
                invariant
                    n.data == (NodeData::Interior { children: *children }),
                    i == acc@.len() <= children@.len(),
                    forall|k: int|
                        0 <= k < i ==> node_view(#[trigger] acc@[k]) == node_view(children@[k]),
                decreases children@.len() - i,
            {
                proof {
                    assert(n.data->Interior_children == *children);
                    assert(decreases_to!(*n => n.data));
                    assert(decreases_to!(n.data => n.data->Interior_children));
                    assert(decreases_to!(*children => children@));
                    assert(decreases_to!(children@ => children@[i as int]));
                    assert(decreases_to!(*n => children@[i as int]));
                }
                let child = clone_node(&children[i]);
                acc.push(child);
                i += 1;
            }
            let r = ContentNode { name, data: NodeData::Interior { children: acc } };
            proof {
                lemma_children_view(acc);
                lemma_children_view(*children);
                assert(children_view(acc) =~= children_view(*children));
                assert(node_view(r) =~= node_view(*n));
            }
            r
        },
    }
}

/// First child of `children` named `name`, as an index.
fn find_child(children: &Vec<ContentNode>, name: &str) -> (r: Option<usize>)
    ensures
        match r {
            Some(i) => i < children@.len() && idx_of(children_view(*children), name@) == i as int,
            None => idx_of(children_view(*children), name@) == -1,
        },
{
    let ghost cv = children_view(*children);
    proof {
        lemma_idx_of(cv, name@);
    }
    let mut i: usize = 0;
    while i < children.len()
        invariant
            cv == children_view(*children),
            cv.len() == children@.len(),
            i <= children@.len(),
            forall|k: int| 0 <= k < i ==> cv[k].name != name@,
        decreases children@.len() - i,
    {
        if str_eq(children[i].name.as_str(), name) {
            proof {
                assert(cv[i as int].name == name@);
                lemma_idx_of(cv, name@);
            }
            return Some(i);
        }
        proof {
            assert(cv[i as int].name != name@);
        }
        i += 1;
    }
    proof {
        lemma_idx_of(cv, name@);
    }
    None
}

impl ContentNode {
    /// Make a node from its parts.
    pub fn new(name: String, data: NodeData) -> (r: ContentNode)
        ensures
            r.name == name,
            r.data == data,
    {
        ContentNode { name, data }
    }

    /// Merge `other` into `self`, recursively; pure with respect to both
    /// arguments. Succeeds exactly when no leaf meets an interior node under
    /// one key; the only error is the structural mismatch.
    pub fn merge(&self, other: &ContentNode) -> (r: Result<MergeOutcome<ContentNode>, TreeError>)
        ensures
            match r {
                Ok(o) => {
                    &&& spec_merge(node_view(*self), node_view(*other)) == Some(
                        (node_view(o.result), o.unit_delta),
                    )
                    &&& o.key@ == self.name@
                },
                Err(e) => {
                    &&& spec_merge(node_view(*self), node_view(*other)) is None
                    &&& (e matches TreeError::MismatchType(a, b) && spec_mismatch(
                        node_view(*self),
                        node_view(*other),
                    ) == Some((a@, b@)))
                },
            },
        decreases *other,
    {
        let key = self.name.clone();
        match &self.data {
            NodeData::Leaf { payload: bp, kind: bk } => {
                match &other.data {
                    NodeData::Leaf { payload: ip, kind: ik } => {
                        let result: ContentNode = if *bk == ScriptType::Tag {
                            ContentNode {
                                name: self.name.clone(),
                                data: NodeData::Leaf {
                                    payload: merge_tag_payload(bp.as_slice(), ip.as_slice()),
                                    kind: *bk,
                                },
                            }
                        } else {
                            clone_node(other)
                        };
                        proof {
                            assert(node_view(result) =~= spec_merge(
                                node_view(*self),
                                node_view(*other),
                            ).unwrap().0);
                        }
                        Ok(MergeOutcome { result, unit_delta: 1, key })
                    },
                    NodeData::Interior { .. } => {
                        Err(TreeError::MismatchType(key, other.name.clone()))
                    },
                }
            },
            NodeData::Interior { children: bc } => {
                match &other.data {
                    NodeData::Leaf { .. } => {
                        Err(TreeError::MismatchType(key, other.name.clone()))
                    },
                    NodeData::Interior { children: ic } => {
                        proof {
                            lemma_children_view(*bc);
                            lemma_children_view(*ic);
                            assert(other.data->Interior_children == *ic);
                            assert(decreases_to!(*other => other.data));
                            assert(decreases_to!(other.data => other.data->Interior_children));
                        }
                        let ghost bm = spec_mismatch(node_view(*self), node_view(*other));
                        match merge_child_vecs(bc, ic) {
                            Ok(p) => {
                                let result = ContentNode {
                                    name: self.name.clone(),
                                    data: NodeData::Interior { children: p.0 },
                                };
                                proof {
                                    lemma_children_view(p.0);
                                }
                                Ok(MergeOutcome { result, unit_delta: p.1, key })
                            },
                            Err(e) => Err(e),
                        }
                    },
                }
            },
        }
    }
}

/// Key-union fold of one child list into another, shared by every interior
/// level of the tree (directories, namespaces, packs).
pub fn merge_child_vecs(base: &Vec<ContentNode>, inc: &Vec<ContentNode>) -> (r: Result<
    (Vec<ContentNode>, u64),
    TreeError,
>)
    ensures
        match r {
            Ok(p) => spec_merge_children(children_view(*base), children_view(*inc)) == Some(
                (children_view(p.0), p.1),
            ),
            Err(e) => {
                &&& spec_merge_children(children_view(*base), children_view(*inc)) is None
                &&& (e matches TreeError::MismatchType(a, b) && spec_mismatch_children(
                    children_view(*base),
                    children_view(*inc),
                ) == Some((a@, b@)))
            },
        },
    decreases *inc,
{
    let ghost bcv = children_view(*base);
    let ghost icv = children_view(*inc);
    let mut acc: Vec<ContentNode> = Vec::new();
    let mut i: usize = 0;
    while i < base.len()
        invariant
            i == acc@.len() <= base@.len(),
            forall|k: int| 0 <= k < i ==> node_view(#[trigger] acc@[k]) == node_view(base@[k]),
        decreases base@.len() - i,
    {
        acc.push(clone_node(&base[i]));
        i += 1;
    }
    let mut delta: u64 = 0;
    let mut k: usize = 0;
    proof {
        assert(children_view(acc) =~= bcv);
        assert(icv.skip(0) =~= icv);
        match spec_merge_children(bcv, icv) {
            Some(p) => {
                assert(spec_sat_add(0, p.1) == p.1);
            },
            None => {},
        }
    }
    while k < inc.len()
        invariant
            k <= inc@.len(),
            bcv == children_view(*base),
            icv == children_view(*inc),
            icv.len() == inc@.len(),
            spec_merge_children(bcv, icv) == (match spec_merge_children(
                children_view(acc),
                icv.skip(k as int),
            ) {
                Some(p) => Some((p.0, spec_sat_add(delta, p.1))),
                None => None,
            }),
            spec_mismatch_children(bcv, icv) == spec_mismatch_children(
                children_view(acc),
                icv.skip(k as int),
            ),
        decreases inc@.len() - k,
    {
        let ghost accv = children_view(acc);
        let ghost rest = icv.skip(k as int);
        proof {
            assert(rest.len() == icv.len() - k);
            assert(rest[0] == icv[k as int]);
            assert(rest.drop_first() =~= icv.skip(k + 1));
            assert(icv[k as int] == node_view(inc@[k as int]));
        }
        let c: &ContentNode = &inc[k];
        match find_child(&acc, c.name.as_str()) {
            Some(idx) => {
                proof {
                    assert(decreases_to!(*inc => inc@));
                    assert(decreases_to!(inc@ => inc@[k as int]));
                    assert(accv[idx as int] == node_view(acc@[idx as int]));
                }
                match acc[idx].merge(c) {
                    Ok(m) => {
                        let md = m.unit_delta;
                        let ghost mv = node_view(m.result);
                        acc.set(idx, m.result);
                        proof {
                            assert(children_view(acc) =~= accv.update(idx as int, mv));
                            assert(spec_merge_children(accv, rest) == (match spec_merge_children(
                                accv.update(idx as int, mv),
                                rest.drop_first(),
                            ) {
                                Some(p) => Some((p.0, spec_sat_add(md, p.1))),
                                None => None,
                            }));
                            lemma_sat_add_assoc_all(delta, md);
                        }
                        delta = sat_add(delta, md);
                    },
                    Err(e) => {
                        proof {
                            assert(spec_merge_children(accv, rest) is None);
                            assert(spec_merge_children(bcv, icv) is None);
                            assert(spec_mismatch_children(accv, rest) == spec_mismatch(
                                accv[idx as int],
                                rest[0],
                            ));
                        }
                        return Err(e);
                    },
                }
            },
            None => {
                let adopted = clone_node(c);
                acc.push(adopted);
                proof {
                    assert(children_view(acc) =~= accv.push(node_view(inc@[k as int])));
                    assert(spec_merge_children(accv, rest) == (match spec_merge_children(
                        accv.push(rest[0]),
                        rest.drop_first(),
                    ) {
                        Some(p) => Some((p.0, spec_sat_add(1, p.1))),
                        None => None,
                    }));
                    lemma_sat_add_assoc_all(delta, 1);
                }
                delta = sat_add(delta, 1);
            },
        }
        k += 1;
    }
    proof {
        assert(icv.skip(icv.len() as int) =~= Seq::<NodeV>::empty());
        assert(spec_merge_children(children_view(acc), icv.skip(icv.len() as int)) == Some(
            (children_view(acc), 0u64),
        ));
        assert(spec_sat_add(delta, 0) == delta);
    }
    Ok((acc, delta))
}

/// Saturating addition distributes over a whole fold step, whatever the
/// remaining total is.
proof fn lemma_sat_add_assoc_all(a: u64, b: u64)
    ensures
        forall|c: u64| spec_sat_add(a, #[trigger] spec_sat_add(b, c)) == spec_sat_add(
            spec_sat_add(a, b),
            c,
        ),
{
}


/// No leaf of this tree carries the `Tag` content type.
pub open spec fn tag_free(n: NodeV) -> bool
    decreases n,
{
    match n.data {
        NodeDataV::Leaf { kind, .. } => kind != ScriptType::Tag,
        NodeDataV::Interior { children } => forall|i: int|
            0 <= i < children.len() ==> tag_free(#[trigger] children[i]),
    }
}

/// Under one key — both sides bearing the same name — the merged node keeps
/// that name, whichever side its content comes from.
pub proof fn lemma_merge_keeps_name(base: NodeV, inc: NodeV)
    requires
        base.name == inc.name,
    ensures
        spec_merge(base, inc) matches Some(p) ==> p.0.name == base.name,
{
}

/// Last writer wins for every non-tag leaf: the incoming leaf fully
/// replaces the base leaf.
pub proof fn lemma_non_tag_leaf_merge(base: NodeV, inc: NodeV)
    requires
        base.data is Leaf,
        inc.data is Leaf,
        base.data->Leaf_kind != ScriptType::Tag,
    ensures
        spec_merge(base, inc) == Some((inc, 1u64)),
{
}

/// Tag leaves concatenate: the merged payload is the re-encoding of the base
/// document followed by the incoming document's values, in order, duplicates
/// kept, under the base document's `replace` flag.
pub proof fn lemma_tag_leaf_merge(base: NodeV, inc: NodeV)
    requires
        base.data is Leaf,
        inc.data is Leaf,
        base.data->Leaf_kind == ScriptType::Tag,
    ensures
        spec_merge(base, inc) matches Some(p) && p.0.data->Leaf_payload == spec_encode_tag(
            TagView {
                replace: spec_decode_lenient(base.data->Leaf_payload).replace,
                values: spec_decode_lenient(base.data->Leaf_payload).values + spec_decode_lenient(
                    inc.data->Leaf_payload,
                ).values,
            },
        ),
{
}

/// In a duplicate-free child list, every child is found at its own position.
pub proof fn lemma_idx_of_self(s: Seq<NodeV>)
    requires
        names_unique(s),
    ensures
        forall|k: int| 0 <= k < s.len() ==> idx_of(s, #[trigger] s[k].name) == k,
{
    assert forall|k: int| 0 <= k < s.len() implies idx_of(s, #[trigger] s[k].name) == k by {
        lemma_idx_of(s, s[k].name);
    }
}

/// Folding a list of children into a base that already holds every one of
/// them, each equal to its counterpart and idempotent under self-merge,
/// leaves the base unchanged.
proof fn lemma_merge_children_idem(bs: Seq<NodeV>, cs: Seq<NodeV>)
    requires
        forall|k: int| 0 <= k < cs.len() ==> idx_of(bs, #[trigger] cs[k].name) >= 0,
        forall|k: int|
            0 <= k < cs.len() ==> bs[idx_of(bs, #[trigger] cs[k].name)] == cs[k],
        forall|k: int|
            0 <= k < cs.len() ==> ((#[trigger] spec_merge(cs[k], cs[k])) matches Some(q) && q.0
                == cs[k]),
    ensures
        spec_merge_children(bs, cs) matches Some(p) && p.0 == bs,
    decreases cs.len(),
{
    if cs.len() > 0 {
        let c = cs[0];
        let i = idx_of(bs, c.name);
        lemma_idx_of(bs, c.name);
        assert(bs[i] == c);
        assert(spec_merge(c, c) matches Some(q) && q.0 == c);
        assert(bs.update(i, spec_merge(bs[i], c).unwrap().0) =~= bs);
        assert forall|k: int| 0 <= k < cs.drop_first().len() implies idx_of(
            bs,
            #[trigger] cs.drop_first()[k].name,
        ) >= 0 && bs[idx_of(bs, cs.drop_first()[k].name)] == cs.drop_first()[k] && ((spec_merge(
            cs.drop_first()[k],
            cs.drop_first()[k],
        )) matches Some(q) && q.0 == cs.drop_first()[k]) by {
            assert(cs.drop_first()[k] == cs[k + 1]);
        }
        lemma_merge_children_idem(bs, cs.drop_first());
    }
}

/// Merging a well-formed, tag-free tree with itself gives the tree back: the
/// directory-level key union is idempotent. (Tag leaves are excluded by
/// design: merging a tag leaf with itself doubles its value list.)
pub proof fn lemma_merge_idempotent(t: NodeV)
    requires
        node_wf(t),
        tag_free(t),
    ensures
        spec_merge(t, t) matches Some(p) && p.0 == t,
    decreases t,
{
    match t.data {
        NodeDataV::Leaf { payload, kind } => {
            assert(spec_merge(t, t).unwrap().0 =~= t);
        },
        NodeDataV::Interior { children } => {
            assert forall|k: int|
                0 <= k < children.len() implies ((#[trigger] spec_merge(
                children[k],
                children[k],
            )) matches Some(q) && q.0 == children[k]) by {
                assert(decreases_to!(t => t.data));
                assert(decreases_to!(t.data => t.data->Interior_children));
                assert(decreases_to!(t.data->Interior_children => children[k]));
                lemma_merge_idempotent(children[k]);
            }
            lemma_idx_of_self(children);
            lemma_merge_children_idem(children, children);
            assert(spec_merge(t, t).unwrap().0 =~= t);
        },
    }
}


/// The child named `name`, where there is one.
pub open spec fn lookup(s: Seq<NodeV>, name: Seq<char>) -> Option<NodeV> {
    if idx_of(s, name) >= 0 {
        Some(s[idx_of(s, name)])
    } else {
        None
    }
}

/// `idx_of` depends on the names alone: replacing one element by another of
/// the same name moves no index.
proof fn lemma_idx_of_update(s: Seq<NodeV>, i: int, m: NodeV, name: Seq<char>)
    requires
        0 <= i < s.len(),
        m.name == s[i].name,
    ensures
        idx_of(s.update(i, m), name) == idx_of(s, name),
    decreases s.len(),
{
    let t = s.update(i, m);
    if s.len() > 0 {
        if i == 0 {
            assert(t[0].name == s[0].name);
            if s[0].name != name {
                assert(t.drop_first() =~= s.drop_first());
            }
        } else {
            assert(t[0] == s[0]);
            if s[0].name != name {
                assert(t.drop_first() =~= s.drop_first().update(i - 1, m));
                lemma_idx_of_update(s.drop_first(), i - 1, m, name);
            }
        }
    }
}

/// Appending one element does not move the index of any present name, and
/// gives the new name the appended position.
proof fn lemma_idx_of_push(s: Seq<NodeV>, c: NodeV, name: Seq<char>)
    ensures
        idx_of(s, name) >= 0 ==> idx_of(s.push(c), name) == idx_of(s, name),
        idx_of(s, name) < 0 && c.name == name ==> idx_of(s.push(c), name) == s.len(),
        idx_of(s, name) < 0 && c.name != name ==> idx_of(s.push(c), name) == -1,
    decreases s.len(),
{
    let t = s.push(c);
    if s.len() == 0 {
        assert(t.len() == 1);
        assert(t[0] == c);
        if c.name != name {
            assert(t.drop_first() =~= Seq::<NodeV>::empty());
            assert(idx_of(Seq::<NodeV>::empty(), name) == -1);
        }
    } else {
        assert(t[0] == s[0]);
        if s[0].name != name {
            assert(t.drop_first() =~= s.drop_first().push(c));
            lemma_idx_of_push(s.drop_first(), c, name);
        }
    }
}

/// Dropping the first element shifts every index by one, for names that do
/// not stand first.
proof fn lemma_idx_of_drop(s: Seq<NodeV>, name: Seq<char>)
    requires
        s.len() > 0,
        s[0].name != name,
    ensures
        idx_of(s, name) >= 0 ==> idx_of(s.drop_first(), name) == idx_of(s, name) - 1 && s[idx_of(
            s,
            name,
        )] == s.drop_first()[idx_of(s, name) - 1],
        idx_of(s, name) < 0 ==> idx_of(s.drop_first(), name) < 0,
{
    lemma_idx_of(s, name);
    if idx_of(s, name) >= 0 {
        assert(s.drop_first()[idx_of(s, name) - 1] == s[idx_of(s, name)]);
    }
}

/// The key-union law of one fold: every name present on either side is
/// present in the merged children; a name present on one side alone keeps
/// that side's subtree unchanged; a name present on both sides carries the
/// recursive merge of the two subtrees.
proof fn lemma_merge_children_union(bs: Seq<NodeV>, cs: Seq<NodeV>)
    requires
        names_unique(cs),
    ensures
        spec_merge_children(bs, cs) matches Some(p) ==> forall|name: Seq<char>|
            #![trigger lookup(p.0, name)]
            {
                &&& (lookup(bs, name) is None && lookup(cs, name) is None ==> lookup(p.0, name)
                    is None)
                &&& (lookup(bs, name) is Some && lookup(cs, name) is None ==> lookup(p.0, name)
                    == lookup(bs, name))
                &&& (lookup(bs, name) is None && lookup(cs, name) is Some ==> lookup(p.0, name)
                    == lookup(cs, name))
                &&& (lookup(bs, name) is Some && lookup(cs, name) is Some ==> ((spec_merge(
                    lookup(bs, name).unwrap(),
                    lookup(cs, name).unwrap(),
                )) matches Some(q) && lookup(p.0, name) == Some(q.0)))
            },
    decreases cs.len(),
{
    if cs.len() == 0 {
    } else if spec_merge_children(bs, cs) is Some {
        let c = cs[0];
        let i = idx_of(bs, c.name);
        lemma_idx_of(bs, c.name);
        lemma_idx_of(cs, c.name);
        assert(idx_of(cs, c.name) == 0);
        let b2 = if i < 0 {
            bs.push(c)
        } else {
            bs.update(i, spec_merge(bs[i], c).unwrap().0)
        };
        assert(spec_merge_children(bs, cs) == (match spec_merge_children(b2, cs.drop_first()) {
            Some(pr) => Some((pr.0, spec_sat_add(if i < 0 { 1u64 } else { spec_merge(bs[i], c).unwrap().1 }, pr.1))),
            None => None,
        }));
        assert(names_unique(cs.drop_first())) by {
            assert forall|a: int, b: int|
                0 <= a < b < cs.drop_first().len() implies cs.drop_first()[a].name != cs.drop_first()[b].name by {
                assert(cs.drop_first()[a] == cs[a + 1]);
                assert(cs.drop_first()[b] == cs[b + 1]);
            }
        }
        lemma_merge_children_union(b2, cs.drop_first());
        let p = spec_merge_children(bs, cs).unwrap();
        let pr = spec_merge_children(b2, cs.drop_first()).unwrap();
        assert(p.0 == pr.0);
        if i >= 0 {
            lemma_merge_keeps_name(bs[i], c);
            assert(b2[i].name == bs[i].name);
        }
        assert forall|name: Seq<char>|
            #![trigger lookup(p.0, name)]
            {
                &&& (lookup(bs, name) is None && lookup(cs, name) is None ==> lookup(p.0, name)
                    is None)
                &&& (lookup(bs, name) is Some && lookup(cs, name) is None ==> lookup(p.0, name)
                    == lookup(bs, name))
                &&& (lookup(bs, name) is None && lookup(cs, name) is Some ==> lookup(p.0, name)
                    == lookup(cs, name))
                &&& (lookup(bs, name) is Some && lookup(cs, name) is Some ==> ((spec_merge(
                    lookup(bs, name).unwrap(),
                    lookup(cs, name).unwrap(),
                )) matches Some(q) && lookup(p.0, name) == Some(q.0)))
            } by {
            lemma_idx_of(bs, name);
            lemma_idx_of(cs, name);
            lemma_idx_of(b2, name);
            lemma_idx_of(cs.drop_first(), name);
            if name == c.name {
                // the first incoming child's key: resolved by this fold step,
                // untouched by the rest of the fold (names are unique in cs)
                assert(idx_of(cs, name) == 0);
                assert(idx_of(cs.drop_first(), name) < 0) by {
                    if idx_of(cs.drop_first(), name) >= 0 {
                        let j = idx_of(cs.drop_first(), name);
                        assert(cs.drop_first()[j] == cs[j + 1]);
                        assert(cs[j + 1].name == name);
                    }
                }
                if i < 0 {
                    lemma_idx_of_push(bs, c, name);
                    assert(idx_of(b2, name) == bs.len());
                    assert(b2[bs.len() as int] == c);
                    assert(lookup(b2, name) == Some(c));
                } else {
                    lemma_idx_of_update(bs, i, spec_merge(bs[i], c).unwrap().0, name);
                    assert(idx_of(b2, name) == i);
                    assert(lookup(b2, name) == Some(spec_merge(bs[i], c).unwrap().0));
                }
            } else {
                // any other key: this fold step does not touch it
                if idx_of(cs, name) >= 0 {
                    lemma_idx_of_drop(cs, name);
                    assert(lookup(cs.drop_first(), name) == lookup(cs, name));
                } else {
                    lemma_idx_of_drop(cs, name);
                }
                if i < 0 {
                    lemma_idx_of_push(bs, c, name);
                    assert(lookup(b2, name) == lookup(bs, name));
                } else {
                    lemma_idx_of_update(bs, i, spec_merge(bs[i], c).unwrap().0, name);
                    assert(lookup(b2, name) == lookup(bs, name));
                }
            }
        }
    }
}

/// Key union without loss: for well-formed interior nodes whose merge
/// succeeds, the merged directory holds exactly the union of both key sets;
/// a key present on one side alone passes that side's subtree through
/// unchanged, and a key present on both sides holds their recursive merge.
pub proof fn lemma_merge_key_union(base: NodeV, inc: NodeV)
    requires
        base.data is Interior,
        inc.data is Interior,
        node_wf(inc),
    ensures
        spec_merge(base, inc) matches Some(p) ==> forall|name: Seq<char>|
            #![trigger lookup(p.0.data->Interior_children, name)]
            {
                let bs = base.data->Interior_children;
                let cs = inc.data->Interior_children;
                let ms = p.0.data->Interior_children;
                &&& (lookup(bs, name) is None && lookup(cs, name) is None ==> lookup(ms, name)
                    is None)
                &&& (lookup(bs, name) is Some && lookup(cs, name) is None ==> lookup(ms, name)
                    == lookup(bs, name))
                &&& (lookup(bs, name) is None && lookup(cs, name) is Some ==> lookup(ms, name)
                    == lookup(cs, name))
                &&& (lookup(bs, name) is Some && lookup(cs, name) is Some ==> ((spec_merge(
                    lookup(bs, name).unwrap(),
                    lookup(cs, name).unwrap(),
                )) matches Some(q) && lookup(ms, name) == Some(q.0)))
            },
{
    let bs = base.data->Interior_children;
    let cs = inc.data->Interior_children;
    lemma_merge_children_union(bs, cs);
}


/// Merging child lists of interior nodes yields interior nodes only.
pub proof fn lemma_merge_children_interior(bs: Seq<NodeV>, cs: Seq<NodeV>)
    requires
        forall|i: int| 0 <= i < bs.len() ==> (#[trigger] bs[i].data) is Interior,
        forall|i: int| 0 <= i < cs.len() ==> (#[trigger] cs[i].data) is Interior,
    ensures
        spec_merge_children(bs, cs) matches Some(p) ==> forall|i: int|
            0 <= i < p.0.len() ==> (#[trigger] p.0[i].data) is Interior,
    decreases cs.len(),
{
    if cs.len() > 0 && spec_merge_children(bs, cs) is Some {
        let c = cs[0];
        let i = idx_of(bs, c.name);
        lemma_idx_of(bs, c.name);
        let b2 = if i < 0 {
            bs.push(c)
        } else {
            bs.update(i, spec_merge(bs[i], c).unwrap().0)
        };
        assert forall|j: int| 0 <= j < b2.len() implies (#[trigger] b2[j].data) is Interior by {
            if i < 0 {
                if j < bs.len() {
                    assert(b2[j] == bs[j]);
                } else {
                    assert(b2[j] == c);
                }
            } else {
                if j != i {
                    assert(b2[j] == bs[j]);
                }
            }
        }
        assert forall|j: int| 0 <= j < cs.drop_first().len() implies (#[trigger] cs.drop_first()[j].data)
            is Interior by {
            assert(cs.drop_first()[j] == cs[j + 1]);
        }
        lemma_merge_children_interior(b2, cs.drop_first());
    }
}


/// Structure-preserving copy of a child list.
pub fn clone_children(v: &Vec<ContentNode>) -> (r: Vec<ContentNode>)
    ensures
        children_view(r) == children_view(*v),
{
    let mut acc: Vec<ContentNode> = Vec::new();
    let mut i: usize = 0;
    while i < v.len()
        invariant
            i == acc@.len() <= v@.len(),
            forall|k: int| 0 <= k < i ==> node_view(#[trigger] acc@[k]) == node_view(v@[k]),
        decreases v@.len() - i,
    {
        acc.push(clone_node(&v[i]));
        i += 1;
    }
    proof {
        assert(children_view(acc) =~= children_view(*v));
    }
    acc
}


/// The decoded view of a merged tag payload: concatenating at the JSON
/// level round-trips, so the merged leaf's payload decodes to the base
/// document's values followed by the incoming document's values, under the
/// base document's `replace` flag.
pub proof fn lemma_tag_leaf_merge_decodes(base: NodeV, inc: NodeV)
    requires
        base.data is Leaf,
        inc.data is Leaf,
        base.data->Leaf_kind == ScriptType::Tag,
    ensures
        spec_merge(base, inc) matches Some(p) && crate::tag::spec_parse_tag(
            p.0.data->Leaf_payload,
        ) == Some(
            TagView {
                replace: spec_decode_lenient(base.data->Leaf_payload).replace,
                values: spec_decode_lenient(base.data->Leaf_payload).values
                    + spec_decode_lenient(inc.data->Leaf_payload).values,
            },
        ),
{
    let bp = base.data->Leaf_payload;
    let ip = inc.data->Leaf_payload;
    let doc = TagView {
        replace: spec_decode_lenient(bp).replace,
        values: spec_decode_lenient(bp).values + spec_decode_lenient(ip).values,
    };
    crate::tag::lemma_parse_tag_wf(bp);
    crate::tag::lemma_parse_tag_wf(ip);
    let bv = spec_decode_lenient(bp).values;
    let iv = spec_decode_lenient(ip).values;
    assert forall|a: int, k: int|
        0 <= a < doc.values.len() && 0 <= k < doc.values[a].len() implies crate::tag::is_tag_char(
        #[trigger] doc.values[a][k],
    ) by {
        if a < bv.len() {
            assert(doc.values[a] == bv[a]);
        } else {
            assert(doc.values[a] == iv[a - bv.len()]);
        }
    }
    crate::tag::lemma_encode_decode_round_trip(doc);
}


/// The merged children are the base children in place: the base side's
/// positions and names are preserved, with incoming-only keys appended
/// after them.
pub proof fn lemma_merge_children_order(bs: Seq<NodeV>, cs: Seq<NodeV>)
    ensures
        spec_merge_children(bs, cs) matches Some(p) ==> {
            &&& p.0.len() >= bs.len()
            &&& forall|j: int| 0 <= j < bs.len() ==> (#[trigger] p.0[j]).name == bs[j].name
        },
    decreases cs.len(),
{
    if cs.len() > 0 && spec_merge_children(bs, cs) is Some {
        let c = cs[0];
        let i = idx_of(bs, c.name);
        lemma_idx_of(bs, c.name);
        let b2 = if i < 0 {
            bs.push(c)
        } else {
            bs.update(i, spec_merge(bs[i], c).unwrap().0)
        };
        if i >= 0 {
            lemma_merge_keeps_name(bs[i], c);
        }
        assert forall|j: int| 0 <= j < bs.len() implies (#[trigger] b2[j]).name
            == bs[j].name by {
            if i < 0 {
                assert(b2[j] == bs[j]);
            } else if j != i {
                assert(b2[j] == bs[j]);
            }
        }
        lemma_merge_children_order(b2, cs.drop_first());
        let p = spec_merge_children(bs, cs).unwrap();
        let pr = spec_merge_children(b2, cs.drop_first()).unwrap();
        assert(p.0 == pr.0);
    }
}

} // verus!
