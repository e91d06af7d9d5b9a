//! The tree builder: raw directory listings become content trees.
//!
//! Reading a directory tree from disk (or from an unpacked archive) is done
//! by the caller, which hands the result over as a `RawNode` tree of plain
//! values, marking every entry it could not read. Building the typed content
//! tree out of that raw tree — classification, the denylist, the
//! partial-failure policy and the unit accounting — happens here, verified.

use crate::errors::GenerateError;
use crate::errors::TreeError;
use crate::kinds::ScriptKind;
use crate::kinds::spec_classify;
use crate::kinds::ScriptType;
use crate::node::children_view;
use crate::node::lemma_children_view;
use crate::node::node_view;
use crate::node::sat_add;
use crate::node::spec_sat_add;
use crate::node::ContentNode;
use crate::node::MergeOutcome;
use crate::node::NodeData;
use crate::node::NodeDataV;
use crate::node::NodeV;
use crate::strutil::str_ends_with;
use crate::strutil::spec_ends_with;
use vstd::prelude::*;

verus! {

/// What a caller found at one directory entry: a file it could read, a
/// directory with its entries, or something it could not read.
#[derive(Debug, PartialEq, Eq)]
pub enum RawData {
    File(Vec<u8>),
    Dir(Vec<RawNode>),
    Unreadable,
}

/// One raw directory entry, by name.
#[derive(Debug, PartialEq, Eq)]
pub struct RawNode {
    pub name: String,
    pub data: RawData,
}

/// Mathematical model of a raw entry's body.
#[verifier::ext_equal]
pub enum RawDataV {
    File(Seq<u8>),
    Dir(Seq<RawV>),
    Unreadable,
}

/// Mathematical model of a raw entry.
#[verifier::ext_equal]
pub struct RawV {
    pub name: Seq<char>,
    pub data: RawDataV,
}

pub open spec fn raw_view(r: RawNode) -> RawV
    decreases r,
    via raw_view_decreases
{
    RawV {
        name: r.name@,
        data: match r.data {
            RawData::File(bytes) => RawDataV::File(bytes@),
            RawData::Dir(entries) => RawDataV::Dir(raw_seq_view(entries@)),
            RawData::Unreadable => RawDataV::Unreadable,
        },
    }
}

#[via_fn]
proof fn raw_view_decreases(r: RawNode) {
    match r.data {
        RawData::Dir(entries) => {
            assert(decreases_to!(r => r.data));
            assert(r.data->Dir_0 == entries);
            assert(decreases_to!(r.data => r.data->Dir_0));
            assert(decreases_to!(entries => entries@));
        },
        _ => {},
    }
}

pub open spec fn raw_seq_view(entries: Seq<RawNode>) -> Seq<RawV>
    decreases entries,
{
    if entries.len() == 0 {
        Seq::empty()
    } else {
        seq![raw_view(entries[0])] + raw_seq_view(entries.drop_first())
    }
}

pub proof fn lemma_raw_seq_view(entries: Seq<RawNode>)
    ensures
        raw_seq_view(entries).len() == entries.len(),
        forall|i: int| 0 <= i < entries.len() ==> raw_seq_view(entries)[i] == raw_view(
            #[trigger] entries[i],
        ),
    decreases entries,
{
    if entries.len() > 0 {
        lemma_raw_seq_view(entries.drop_first());
        assert forall|i: int| 0 <= i < entries.len() implies raw_seq_view(entries)[i] == raw_view(
            #[trigger] entries[i],
        ) by {
            if i > 0 {
                assert(raw_seq_view(entries)[i] == raw_seq_view(entries.drop_first())[i - 1]);
                assert(entries.drop_first()[i - 1] == entries[i]);
            }
        }
    }
}


pub proof fn lemma_raw_seq_view_push(v: Seq<RawNode>, node: RawNode)
    ensures
        raw_seq_view(v.push(node)) == raw_seq_view(v).push(raw_view(node)),
{
    lemma_raw_seq_view(v);
    lemma_raw_seq_view(v.push(node));
    assert forall|k: int| 0 <= k < v.len() + 1 implies raw_seq_view(v.push(node))[k]
        == raw_seq_view(v).push(raw_view(node))[k] by {
        assert(raw_seq_view(v.push(node))[k] == raw_view(v.push(node)[k]));
        if k < v.len() {
            assert(v.push(node)[k] == v[k]);
            assert(raw_seq_view(v)[k] == raw_view(v[k]));
        } else {
            assert(v.push(node)[k] == node);
        }
    }
    assert(raw_seq_view(v.push(node)) =~= raw_seq_view(v).push(raw_view(node)));
}

pub proof fn lemma_raw_seq_view_update(v: Seq<RawNode>, j: int, node: RawNode)
    requires
        0 <= j < v.len(),
    ensures
        raw_seq_view(v.update(j, node)) == raw_seq_view(v).update(j, raw_view(node)),
{
    lemma_raw_seq_view(v);
    lemma_raw_seq_view(v.update(j, node));
    assert forall|k: int| 0 <= k < v.len() implies raw_seq_view(v.update(j, node))[k]
        == raw_seq_view(v).update(j, raw_view(node))[k] by {
        assert(raw_seq_view(v.update(j, node))[k] == raw_view(v.update(j, node)[k]));
        if k != j {
            assert(v.update(j, node)[k] == v[k]);
            assert(raw_seq_view(v)[k] == raw_view(v[k]));
        }
    }
    assert(raw_seq_view(v.update(j, node)) =~= raw_seq_view(v).update(j, raw_view(node)));
}

/// Denylisted file names: OS metadata noise that must never enter a tree.
pub open spec fn is_blacklisted(name: Seq<char>) -> bool {
    spec_ends_with(name, ".DS_Store"@) && name.len() > ".DS_Store"@.len()
}

fn name_blacklisted(name: &str) -> (r: bool)
    ensures
        r == is_blacklisted(name@),
{
    let suffix = ".DS_Store";
    str_ends_with(name, suffix) && name.unicode_len() > suffix.unicode_len()
}

/// Work units of one file: its byte length, saturated into the counter.
pub open spec fn len_units(s: Seq<u8>) -> u64 {
    if s.len() <= u64::MAX {
        s.len() as u64
    } else {
        u64::MAX
    }
}

/// What one raw entry builds, with its work units; `None` when the entry
/// itself cannot become a node (unreadable, or a denylisted file).
pub open spec fn spec_generate(r: RawV, kind: ScriptType) -> Option<(NodeV, u64)>
    decreases r,
{
    match r.data {
        RawDataV::Unreadable => None,
        RawDataV::File(bytes) => {
            if is_blacklisted(r.name) {
                None
            } else {
                Some(
                    (NodeV { name: r.name, data: NodeDataV::Leaf { payload: bytes, kind } }, len_units(
                        bytes,
                    )),
                )
            }
        },
        RawDataV::Dir(entries) => {
            let built = spec_gen_children(entries, kind);
            Some((NodeV { name: r.name, data: NodeDataV::Interior { children: built.0 } }, built.1))
        },
    }
}

/// What a list of raw entries builds: every entry that builds, in order;
/// entries that fail to build are left out and abort nothing.
pub open spec fn spec_gen_children(rs: Seq<RawV>, kind: ScriptType) -> (Seq<NodeV>, u64)
    decreases rs,
{
    if rs.len() == 0 {
        (Seq::empty(), 0)
    } else {
        let rest = spec_gen_children(rs.drop_first(), kind);
        match spec_generate(rs[0], kind) {
            Some((n, u)) => (seq![n] + rest.0, spec_sat_add(u, rest.1)),
            None => rest,
        }
    }
}

/// An unreadable entry contributes nothing: the built tree is the same as if
/// the entry were absent, and the failure aborts nothing around it.
pub proof fn lemma_partial_failure_isolation(rs: Seq<RawV>, kind: ScriptType, k: int)
    requires
        0 <= k < rs.len(),
        rs[k].data is Unreadable,
    ensures
        spec_gen_children(rs, kind) == spec_gen_children(rs.remove(k), kind),
    decreases rs.len(),
{
    if k == 0 {
        assert(rs.remove(0) =~= rs.drop_first());
    } else {
        assert(rs.remove(k).drop_first() =~= rs.drop_first().remove(k - 1));
        assert(rs.drop_first()[k - 1] == rs[k]);
        lemma_partial_failure_isolation(rs.drop_first(), kind, k - 1);
        assert(rs.remove(k)[0] == rs[0]);
        let a = spec_gen_children(rs.drop_first(), kind);
        let b = spec_gen_children(rs.remove(k).drop_first(), kind);
        assert(b == spec_gen_children(rs.drop_first().remove(k - 1), kind));
        assert(a == b);
        assert(spec_gen_children(rs, kind) == (match spec_generate(rs[0], kind) {
            Some(p) => (seq![p.0] + a.0, spec_sat_add(p.1, a.1)),
            None => a,
        }));
        assert(spec_gen_children(rs.remove(k), kind) == (match spec_generate(
            rs.remove(k)[0],
            kind,
        ) {
            Some(p) => (seq![p.0] + b.0, spec_sat_add(p.1, b.1)),
            None => b,
        }));
    }
}

impl ContentNode {
    /// Build a content tree from one raw entry, every leaf below it carrying
    /// `kind`. A file becomes a leaf worth its byte length in units; a
    /// directory becomes an interior node holding whatever of its entries
    /// could be built, with the units of what was built; an entry that is
    /// unreadable or denylisted fails, and does so only at the top — inside
    /// a directory such entries are simply left out.
    pub fn generate(raw: &RawNode, kind: ScriptType) -> (r: Result<
        MergeOutcome<ContentNode>,
        GenerateError,
    >)
        ensures
            match r {
                Ok(o) => {
                    &&& spec_generate(raw_view(*raw), kind) == Some(
                        (node_view(o.result), o.unit_delta),
                    )
                    &&& o.key@ == raw.name@
                },
                Err(e) => {
                    &&& spec_generate(raw_view(*raw), kind) is None
                    &&& (e is BlacklistExtension <==> (raw.data is File && is_blacklisted(
                        raw.name@,
                    )))
                    &&& (e is Io <==> raw.data is Unreadable)
                },
            },
        decreases *raw,
    {
        let key = raw.name.clone();
        match &raw.data {
            RawData::Unreadable => Err(GenerateError::Io(key)),
            RawData::File(bytes) => {
                if name_blacklisted(raw.name.as_str()) {
                    Err(GenerateError::BlacklistExtension)
                } else {
                    let payload = crate::node::copy_bytes(bytes);
                    let units: u64 = payload.len() as u64;
                    let result = ContentNode {
                        name: raw.name.clone(),
                        data: NodeData::Leaf { payload, kind },
                    };
                    proof {
                        assert(node_view(result) =~= spec_generate(
                            raw_view(*raw),
                            kind,
                        ).unwrap().0);
                    }
                    Ok(MergeOutcome { result, unit_delta: units, key })
                }
            },
            RawData::Dir(entries) => {
                let ghost rsv = raw_seq_view(entries@);
                proof {
                    lemma_raw_seq_view(entries@);
                    assert(raw_view(*raw).data->Dir_0 == rsv);
                }
                let mut acc: Vec<ContentNode> = Vec::new();
                let mut units: u64 = 0;
                let mut i: usize = 0;
                proof {
                    assert(rsv.skip(0) =~= rsv);
                    assert(children_view(acc) =~= Seq::<NodeV>::empty());
                    assert(Seq::<NodeV>::empty() + spec_gen_children(rsv, kind).0
                        =~= spec_gen_children(rsv, kind).0);
                    assert(spec_sat_add(0, spec_gen_children(rsv, kind).1) == spec_gen_children(
                        rsv,
                        kind,
                    ).1);
                }
                while i < entries.len()
                    invariant
                        raw.data == (RawData::Dir(*entries)),
                        rsv == raw_seq_view(entries@),
                        rsv.len() == entries@.len(),
                        i <= entries@.len(),
                        spec_gen_children(rsv, kind).0 == children_view(acc) + spec_gen_children(
                            rsv.skip(i as int),
                            kind,
                        ).0,
                        spec_gen_children(rsv, kind).1 == spec_sat_add(
                            units,
                            spec_gen_children(rsv.skip(i as int), kind).1,
                        ),
                    decreases entries@.len() - i,
                {
                    let ghost accv = children_view(acc);
                    let ghost rest = rsv.skip(i as int);
                    proof {
                        lemma_raw_seq_view(entries@);
                        assert(rest[0] == rsv[i as int]);
                        assert(rest.drop_first() =~= rsv.skip(i + 1));
                        assert(rsv[i as int] == raw_view(entries@[i as int]));
                        assert(raw.data->Dir_0 == *entries);
                        assert(decreases_to!(*raw => raw.data));
                        assert(decreases_to!(raw.data => raw.data->Dir_0));
                        assert(decreases_to!(*entries => entries@));
                        assert(decreases_to!(entries@ => entries@[i as int]));
                    }
                    match ContentNode::generate(&entries[i], kind) {
                        Ok(o) => {
                            let ghost ov = node_view(o.result);
                            let ou = o.unit_delta;
                            acc.push(o.result);
                            proof {
                                assert(children_view(acc) =~= accv.push(ov));
                                assert(spec_gen_children(rest, kind).0 == seq![ov]
                                    + spec_gen_children(rest.drop_first(), kind).0);
                                assert(accv.push(ov) + spec_gen_children(
                                    rest.drop_first(),
                                    kind,
                                ).0 =~= accv + (seq![ov] + spec_gen_children(
                                    rest.drop_first(),
                                    kind,
                                ).0));
                                crate::node::lemma_sat_add_assoc(
                                    units,
                                    ou,
                                    spec_gen_children(rest.drop_first(), kind).1,
                                );
                            }
                            units = sat_add(units, ou);
                        },
                        Err(e) => {
                            proof {
                                assert(spec_gen_children(rest, kind) == spec_gen_children(
                                    rest.drop_first(),
                                    kind,
                                ));
                            }
                        },
                    }
                    i += 1;
                }
                proof {
                    assert(rsv.skip(rsv.len() as int) =~= Seq::<RawV>::empty());
                    assert(spec_gen_children(rsv.skip(rsv.len() as int), kind) == (
                    Seq::<NodeV>::empty(),
                    0u64,
                    ));
                    assert(children_view(acc) + Seq::<NodeV>::empty() =~= children_view(acc));
                    assert(spec_sat_add(units, 0) == units);
                }
                let result = ContentNode {
                    name: raw.name.clone(),
                    data: NodeData::Interior { children: acc },
                };
                proof {
                    lemma_children_view(result.data->Interior_children);
                    assert(node_view(result).data->Interior_children == children_view(
                        result.data->Interior_children,
                    ));
                    assert(spec_generate(raw_view(*raw), kind).unwrap().0 =~= node_view(result));
                }
                Ok(MergeOutcome { result, unit_delta: units, key })
            },
        }
    }
}


/// A named collection of content trees: one directory directly inside a
/// pack's `data` folder.
#[derive(Debug, PartialEq, Eq)]
pub struct Namespace {
    pub name: String,
    pub children: Vec<ContentNode>,
}

/// Mathematical model of a namespace.
#[verifier::ext_equal]
pub struct NamespaceV {
    pub name: Seq<char>,
    pub children: Seq<NodeV>,
}

pub open spec fn ns_view(n: Namespace) -> NamespaceV {
    NamespaceV { name: n.name@, children: children_view(n.children) }
}

pub open spec fn namespaces_view(v: Vec<Namespace>) -> Seq<NamespaceV> {
    Seq::new(v@.len(), |i: int| ns_view(v@[i]))
}

/// The coarse merge policy a category folder name selects: only `tags`
/// folders hold tag-merged leaves.
pub open spec fn spec_script_kind(name: Seq<char>) -> ScriptKind {
    if spec_classify(name) == ScriptType::Tag {
        ScriptKind::Tag
    } else {
        ScriptKind::Generic
    }
}

/// The content type one namespace entry gives everything below it: category
/// folders are classified by name, stray files stay unclassified.
pub open spec fn kind_of_entry(r: RawV) -> ScriptType {
    if r.data is Dir {
        spec_classify(r.name)
    } else {
        ScriptType::Unknown
    }
}

/// What a namespace's entries build, each under its own classification.
pub open spec fn spec_gen_ns_children(rs: Seq<RawV>) -> (Seq<NodeV>, u64)
    decreases rs,
{
    if rs.len() == 0 {
        (Seq::empty(), 0)
    } else {
        let rest = spec_gen_ns_children(rs.drop_first());
        match spec_generate(rs[0], kind_of_entry(rs[0])) {
            Some((n, u)) => (seq![n] + rest.0, spec_sat_add(u, rest.1)),
            None => rest,
        }
    }
}

/// What one raw entry builds as a namespace; `None` when it is no directory.
pub open spec fn spec_gen_namespace(r: RawV) -> Option<(NamespaceV, u64)> {
    match r.data {
        RawDataV::Dir(entries) => {
            let built = spec_gen_ns_children(entries);
            Some((NamespaceV { name: r.name, children: built.0 }, built.1))
        },
        _ => None,
    }
}

impl Namespace {
    pub fn new(name: String, children: Vec<ContentNode>) -> (r: Namespace)
        ensures
            r.name == name,
            r.children == children,
    {
        Namespace { name, children }
    }

    /// The merge policy of the category folder with this name.
    pub fn get_script_kind(name: &str) -> (r: ScriptKind)
        ensures
            r == spec_script_kind(name@),
    {
        crate::kinds::classify(name).kind()
    }

    /// Build a namespace from one raw directory entry: each entry below it
    /// is classified by name and built under that content type; entries that
    /// cannot be built are left out. A plain file in the namespace's place
    /// is rejected as such, an unreadable entry as an input failure.
    pub fn generate(raw: &RawNode) -> (r: Result<MergeOutcome<Namespace>, TreeError>)
        ensures
            match r {
                Ok(o) => {
                    &&& spec_gen_namespace(raw_view(*raw)) == Some(
                        (ns_view(o.result), o.unit_delta),
                    )
                    &&& o.key@ == raw.name@
                },
                Err(e) => {
                    &&& spec_gen_namespace(raw_view(*raw)) is None
                    &&& (e is FileInNamespace <==> raw.data is File)
                    &&& (e is Io <==> raw.data is Unreadable)
                },
            },
    {
        let key = raw.name.clone();
        match &raw.data {
            RawData::Unreadable => Err(TreeError::Io(key)),
            RawData::File(..) => Err(TreeError::FileInNamespace(key)),
            RawData::Dir(entries) => {
                let ghost rsv = raw_seq_view(entries@);
                proof {
                    lemma_raw_seq_view(entries@);
                    assert(raw_view(*raw).data->Dir_0 == rsv);
                }
                let mut acc: Vec<ContentNode> = Vec::new();
                let mut units: u64 = 0;
                let mut i: usize = 0;
                proof {
                    assert(rsv.skip(0) =~= rsv);
                    assert(children_view(acc) =~= Seq::<NodeV>::empty());
                    assert(Seq::<NodeV>::empty() + spec_gen_ns_children(rsv).0
                        =~= spec_gen_ns_children(rsv).0);
                    assert(spec_sat_add(0, spec_gen_ns_children(rsv).1) == spec_gen_ns_children(
                        rsv,
                    ).1);
                }
                while i < entries.len()
                    invariant
                        raw.data == (RawData::Dir(*entries)),
                        rsv == raw_seq_view(entries@),
                        rsv.len() == entries@.len(),
                        i <= entries@.len(),
                        spec_gen_ns_children(rsv).0 == children_view(acc) + spec_gen_ns_children(
                            rsv.skip(i as int),
                        ).0,
                        spec_gen_ns_children(rsv).1 == spec_sat_add(
                            units,
                            spec_gen_ns_children(rsv.skip(i as int)).1,
                        ),
                    decreases entries@.len() - i,
                {
                    let ghost accv = children_view(acc);
                    let ghost rest = rsv.skip(i as int);
                    proof {
                        lemma_raw_seq_view(entries@);
                        assert(rest[0] == rsv[i as int]);
                        assert(rest.drop_first() =~= rsv.skip(i + 1));
                        assert(rsv[i as int] == raw_view(entries@[i as int]));
                    }
                    let entry = &entries[i];
                    let kind: ScriptType = match &entry.data {
                        RawData::Dir(..) => crate::kinds::classify(entry.name.as_str()),
                        _ => ScriptType::Unknown,
                    };
                    proof {
                        assert(kind == kind_of_entry(rest[0]));
                    }
                    match ContentNode::generate(entry, kind) {
                        Ok(o) => {
                            let ghost ov = node_view(o.result);
                            let ou = o.unit_delta;
                            acc.push(o.result);
                            proof {
                                assert(children_view(acc) =~= accv.push(ov));
                                assert(spec_gen_ns_children(rest).0 == seq![ov]
                                    + spec_gen_ns_children(rest.drop_first()).0);
                                assert(accv.push(ov) + spec_gen_ns_children(
                                    rest.drop_first(),
                                ).0 =~= accv + (seq![ov] + spec_gen_ns_children(
                                    rest.drop_first(),
                                ).0));
                                crate::node::lemma_sat_add_assoc(
                                    units,
                                    ou,
                                    spec_gen_ns_children(rest.drop_first()).1,
                                );
                            }
                            units = sat_add(units, ou);
                        },
                        Err(..) => {
                            proof {
                                assert(spec_gen_ns_children(rest) == spec_gen_ns_children(
                                    rest.drop_first(),
                                ));
                            }
                        },
                    }
                    i += 1;
                }
                proof {
                    assert(rsv.skip(rsv.len() as int) =~= Seq::<RawV>::empty());
                    assert(spec_gen_ns_children(rsv.skip(rsv.len() as int)) == (
                    Seq::<NodeV>::empty(),
                    0u64,
                    ));
                    assert(children_view(acc) + Seq::<NodeV>::empty() =~= children_view(acc));
                    assert(spec_sat_add(units, 0) == units);
                }
                let result = Namespace { name: raw.name.clone(), children: acc };
                proof {
                    assert(ns_view(result) =~= spec_gen_namespace(raw_view(*raw)).unwrap().0);
                }
                Ok(MergeOutcome { result, unit_delta: units, key })
            },
        }
    }

    /// Merge `other` into `self` by key union of their content trees; pure.
    pub fn merge(&self, other: &Namespace) -> (r: Result<MergeOutcome<Namespace>, TreeError>)
        ensures
            match r {
                Ok(o) => {
                    &&& crate::node::spec_merge_children(
                        children_view(self.children),
                        children_view(other.children),
                    ) == Some((children_view(o.result.children), o.unit_delta))
                    &&& o.result.name@ == self.name@
                    &&& o.key@ == self.name@
                },
                Err(e) => {
                    &&& crate::node::spec_merge_children(
                        children_view(self.children),
                        children_view(other.children),
                    ) is None
                    &&& (e matches TreeError::MismatchType(a, b)
                        && crate::node::spec_mismatch_children(
                        children_view(self.children),
                        children_view(other.children),
                    ) == Some((a@, b@)))
                },
            },
    {
        match crate::node::merge_child_vecs(&self.children, &other.children) {
            Ok(p) => Ok(
                MergeOutcome {
                    result: Namespace { name: self.name.clone(), children: p.0 },
                    unit_delta: p.1,
                    key: self.name.clone(),
                },
            ),
            Err(e) => Err(e),
        }
    }
}


/// Index of the first raw entry named `name`, or `-1`.
pub open spec fn raw_idx_of(rs: Seq<RawV>, name: Seq<char>) -> int
    decreases rs.len(),
{
    if rs.len() == 0 {
        -1
    } else if rs[0].name == name {
        0
    } else if raw_idx_of(rs.drop_first(), name) < 0 {
        -1
    } else {
        raw_idx_of(rs.drop_first(), name) + 1
    }
}

pub proof fn lemma_raw_idx_of(rs: Seq<RawV>, name: Seq<char>)
    ensures
        raw_idx_of(rs, name) >= 0 ==> {
            &&& 0 <= raw_idx_of(rs, name) < rs.len()
            &&& rs[raw_idx_of(rs, name)].name == name
            &&& forall|k: int| 0 <= k < raw_idx_of(rs, name) ==> rs[k].name != name
        },
        raw_idx_of(rs, name) < 0 ==> raw_idx_of(rs, name) == -1 && forall|k: int|
            0 <= k < rs.len() ==> rs[k].name != name,
    decreases rs.len(),
{
    if rs.len() > 0 && rs[0].name != name {
        lemma_raw_idx_of(rs.drop_first(), name);
        let t = rs.drop_first();
        if raw_idx_of(rs, name) < 0 {
            assert forall|k: int| 0 <= k < rs.len() implies rs[k].name != name by {
                if k > 0 {
                    assert(t[k - 1] == rs[k]);
                }
            }
        } else {
            let r = raw_idx_of(t, name);
            assert(rs[r + 1] == t[r]);
            assert forall|k: int| 0 <= k < raw_idx_of(rs, name) implies rs[k].name != name by {
                if k > 0 {
                    assert(t[k - 1] == rs[k]);
                }
            }
        }
    }
}

/// First raw entry named `name`, as an index.
pub(crate) fn find_raw(entries: &Vec<RawNode>, name: &str) -> (r: Option<usize>)
    ensures
        match r {
            Some(i) => i < entries@.len() && raw_idx_of(raw_seq_view(entries@), name@) == i as int,
            None => raw_idx_of(raw_seq_view(entries@), name@) == -1,
        },
{
    let ghost rsv = raw_seq_view(entries@);
    proof {
        lemma_raw_seq_view(entries@);
        lemma_raw_idx_of(rsv, name@);
    }
    let mut i: usize = 0;
    while i < entries.len()
        invariant
            rsv == raw_seq_view(entries@),
            rsv.len() == entries@.len(),
            i <= entries@.len(),
            forall|k: int| 0 <= k < i ==> rsv[k].name != name@,
        decreases entries@.len() - i,
    {
        proof {
            lemma_raw_seq_view(entries@);
        }
        if crate::strutil::str_eq(entries[i].name.as_str(), name) {
            proof {
                assert(rsv[i as int].name == name@);
                lemma_raw_idx_of(rsv, name@);
            }
            return Some(i);
        }
        proof {
            assert(rsv[i as int].name != name@);
        }
        i += 1;
    }
    proof {
        lemma_raw_idx_of(rsv, name@);
    }
    None
}

/// What a pack's `data` folder builds: every directory entry becomes a
/// namespace; anything else (stray files, unreadable entries) is left out.
pub open spec fn spec_gen_namespaces(rs: Seq<RawV>) -> (Seq<NamespaceV>, u64)
    decreases rs,
{
    if rs.len() == 0 {
        (Seq::empty(), 0)
    } else {
        let rest = spec_gen_namespaces(rs.drop_first());
        match spec_gen_namespace(rs[0]) {
            Some((n, u)) => (seq![n] + rest.0, spec_sat_add(u, rest.1)),
            None => rest,
        }
    }
}

/// A datapack as a whole: its source location, the bytes of its pack
/// descriptor, and its namespaces.
#[derive(Debug, PartialEq, Eq)]
pub struct Datapack {
    pub location: String,
    pub name: String,
    pub root_metadata: Option<Vec<u8>>,
    pub namespaces: Vec<Namespace>,
    pub total_unit_count: u64,
}

/// Mathematical model of a datapack.
#[verifier::ext_equal]
pub struct DatapackV {
    pub location: Seq<char>,
    pub name: Seq<char>,
    pub root_metadata: Option<Seq<u8>>,
    pub namespaces: Seq<NamespaceV>,
    pub total_unit_count: u64,
}

pub open spec fn dp_view(d: Datapack) -> DatapackV {
    DatapackV {
        location: d.location@,
        name: d.name@,
        root_metadata: match d.root_metadata {
            Some(m) => Some(m@),
            None => None,
        },
        namespaces: namespaces_view(d.namespaces),
        total_unit_count: d.total_unit_count,
    }
}

/// The pack descriptor of a raw pack root: the bytes of its `pack.mcmeta`
/// file, where there is one.
pub open spec fn spec_root_meta(rs: Seq<RawV>) -> Option<Seq<u8>> {
    let mi = raw_idx_of(rs, "pack.mcmeta"@);
    if mi >= 0 && rs[mi].data is File {
        Some(rs[mi].data->File_0)
    } else {
        None
    }
}

/// Does this raw entry hold a well-formed pack root: a directory with a
/// `data` directory inside?
pub open spec fn spec_pack_ok(r: RawV) -> bool {
    &&& r.data is Dir
    &&& {
        let rs = r.data->Dir_0;
        let di = raw_idx_of(rs, "data"@);
        di >= 0 && rs[di].data is Dir
    }
}


/// What building a pack from a well-formed raw root gives: the root's name,
/// the caller's location, the `pack.mcmeta` bytes, the namespaces built out
/// of `data`, and the unit total.
pub open spec fn spec_pack_result(rv: RawV, location: Seq<char>, d: DatapackV, delta: u64) -> bool {
    let rs = rv.data->Dir_0;
    let built = spec_gen_namespaces(rs[raw_idx_of(rs, "data"@)].data->Dir_0);
    &&& d.name == rv.name
    &&& d.location == location
    &&& d.root_metadata == spec_root_meta(rs)
    &&& d.namespaces == built.0
    &&& delta == spec_sat_add(
        (match spec_root_meta(rs) {
            Some(m) => len_units(m),
            None => 0u64,
        }),
        built.1,
    )
    &&& d.total_unit_count == delta
}

/// A namespace as the interior content node it is shaped like.
pub open spec fn ns_as_node(n: NamespaceV) -> NodeV {
    NodeV { name: n.name, data: NodeDataV::Interior { children: n.children } }
}

pub open spec fn nss_as_nodes(ns: Seq<NamespaceV>) -> Seq<NodeV> {
    Seq::new(ns.len(), |i: int| ns_as_node(ns[i]))
}

impl Datapack {
    pub fn new(location: String, name: String, namespaces: Vec<Namespace>) -> (r: Datapack)
        ensures
            r.location == location,
            r.name == name,
            r.namespaces == namespaces,
            r.root_metadata is None,
            r.total_unit_count == 0,
    {
        Datapack { location, name, root_metadata: None, namespaces, total_unit_count: 0 }
    }

    /// An empty datapack rooted at a path: its name is the path's last
    /// segment.
    pub fn from_location(path: String) -> (r: Datapack)
        ensures
            r.location@ == path@,
            r.name@ == crate::strutil::spec_last_segment(path@),
            r.namespaces@.len() == 0,
            r.root_metadata is None,
            r.total_unit_count == 0,
    {
        let name = crate::strutil::last_segment(path.as_str());
        Datapack { location: path, name, root_metadata: None, namespaces: Vec::new(), total_unit_count: 0 }
    }

    /// Build a datapack from a raw pack root: the `pack.mcmeta` bytes are
    /// kept as the root metadata, every directory inside `data` becomes a
    /// namespace. A plain file in the pack's place is rejected as such; an
    /// unreadable root or a missing `data` directory is an input failure.
    pub fn generate(raw: &RawNode, location: &str) -> (r: Result<MergeOutcome<Datapack>, TreeError>)
        ensures
            match r {
                Ok(o) => {
                    &&& spec_pack_ok(raw_view(*raw))
                    &&& spec_pack_result(raw_view(*raw), location@, dp_view(o.result), o.unit_delta)
                    &&& o.key@ == raw.name@
                },
                Err(e) => {
                    &&& !spec_pack_ok(raw_view(*raw))
                    &&& (e is FileInDatapack <==> raw.data is File)
                    &&& (e is Io <==> !(raw.data is File))
                },
            },
    {
        let key = raw.name.clone();
        match &raw.data {
            RawData::Unreadable => Err(TreeError::Io(key)),
            RawData::File(..) => Err(TreeError::FileInDatapack(key)),
            RawData::Dir(entries) => {
                let ghost rsv = raw_seq_view(entries@);
                proof {
                    lemma_raw_seq_view(entries@);
                    assert(raw_view(*raw).data->Dir_0 == rsv);
                }
                let di = match find_raw(entries, "data") {
                    None => {
                        return Err(TreeError::Io(key));
                    },
                    Some(di) => di,
                };
                let data_entries = match &entries[di].data {
                    RawData::Dir(data_entries) => data_entries,
                    _ => {
                        proof {
                            lemma_raw_seq_view(entries@);
                        }
                        return Err(TreeError::Io(key));
                    },
                };
                let ghost dsv = raw_seq_view(data_entries@);
                proof {
                    lemma_raw_seq_view(entries@);
                    assert(rsv[di as int] == raw_view(entries@[di as int]));
                    assert(rsv[di as int].data->Dir_0 == dsv);
                    assert(spec_pack_ok(raw_view(*raw)));
                }
                let root_metadata: Option<Vec<u8>> = match find_raw(entries, "pack.mcmeta") {
                    None => None,
                    Some(mi) => {
                        proof {
                            lemma_raw_seq_view(entries@);
                            assert(rsv[mi as int] == raw_view(entries@[mi as int]));
                        }
                        match &entries[mi].data {
                            RawData::File(bytes) => Some(crate::node::copy_bytes(bytes)),
                            _ => None,
                        }
                    },
                };
                let meta_units: u64 = match &root_metadata {
                    Some(m) => m.len() as u64,
                    None => 0,
                };
                let mut acc: Vec<Namespace> = Vec::new();
                let mut units: u64 = 0;
                let mut i: usize = 0;
                proof {
                    lemma_raw_seq_view(data_entries@);
                    assert(dsv.skip(0) =~= dsv);
                    assert(namespaces_view(acc) =~= Seq::<NamespaceV>::empty());
                    assert(Seq::<NamespaceV>::empty() + spec_gen_namespaces(dsv).0
                        =~= spec_gen_namespaces(dsv).0);
                    assert(spec_sat_add(0, spec_gen_namespaces(dsv).1) == spec_gen_namespaces(
                        dsv,
                    ).1);
                }
                while i < data_entries.len()
                    invariant
                        dsv == raw_seq_view(data_entries@),
                        dsv.len() == data_entries@.len(),
                        i <= data_entries@.len(),
                        spec_gen_namespaces(dsv).0 == namespaces_view(acc) + spec_gen_namespaces(
                            dsv.skip(i as int),
                        ).0,
                        spec_gen_namespaces(dsv).1 == spec_sat_add(
                            units,
                            spec_gen_namespaces(dsv.skip(i as int)).1,
                        ),
                    decreases data_entries@.len() - i,
                {
                    let ghost accv = namespaces_view(acc);
                    let ghost rest = dsv.skip(i as int);
                    proof {
                        lemma_raw_seq_view(data_entries@);
                        assert(rest[0] == dsv[i as int]);
                        assert(rest.drop_first() =~= dsv.skip(i + 1));
                        assert(dsv[i as int] == raw_view(data_entries@[i as int]));
                    }
                    match Namespace::generate(&data_entries[i]) {
                        Ok(o) => {
                            let ghost ov = ns_view(o.result);
                            let ou = o.unit_delta;
                            acc.push(o.result);
                            proof {
                                assert(namespaces_view(acc) =~= accv.push(ov));
                                assert(spec_gen_namespaces(rest).0 == seq![ov]
                                    + spec_gen_namespaces(rest.drop_first()).0);
                                assert(accv.push(ov) + spec_gen_namespaces(
                                    rest.drop_first(),
                                ).0 =~= accv + (seq![ov] + spec_gen_namespaces(
                                    rest.drop_first(),
                                ).0));
                                crate::node::lemma_sat_add_assoc(
                                    units,
                                    ou,
                                    spec_gen_namespaces(rest.drop_first()).1,
                                );
                            }
                            units = sat_add(units, ou);
                        },
                        Err(..) => {
                            proof {
                                assert(spec_gen_namespaces(rest) == spec_gen_namespaces(
                                    rest.drop_first(),
                                ));
                            }
                        },
                    }
                    i += 1;
                }
                proof {
                    assert(dsv.skip(dsv.len() as int) =~= Seq::<RawV>::empty());
                    assert(spec_gen_namespaces(dsv.skip(dsv.len() as int)) == (
                    Seq::<NamespaceV>::empty(),
                    0u64,
                    ));
                    assert(namespaces_view(acc) + Seq::<NamespaceV>::empty() =~= namespaces_view(
                        acc,
                    ));
                    assert(spec_sat_add(units, 0) == units);
                }
                let total = sat_add(meta_units, units);
                let result = Datapack {
                    location: crate::strutil::copy_str(location),
                    name: raw.name.clone(),
                    root_metadata,
                    namespaces: acc,
                    total_unit_count: total,
                };
                Ok(MergeOutcome { result, unit_delta: total, key })
            },
        }
    }
}


/// View of an optional byte payload.
pub open spec fn opt_bytes_view(o: Option<Vec<u8>>) -> Option<Seq<u8>> {
    match o {
        Some(m) => Some(m@),
        None => None,
    }
}

/// A namespace as an owned interior content node.
fn ns_to_node(ns: &Namespace) -> (r: ContentNode)
    ensures
        node_view(r) == ns_as_node(ns_view(*ns)),
{
    let r = ContentNode {
        name: ns.name.clone(),
        data: NodeData::Interior { children: crate::node::clone_children(&ns.children) },
    };
    proof {
        crate::node::lemma_children_view(r.data->Interior_children);
        assert(node_view(r) =~= ns_as_node(ns_view(*ns)));
    }
    r
}

/// The namespaces of a pack as a list of interior content nodes.
fn nss_to_nodes(v: &Vec<Namespace>) -> (r: Vec<ContentNode>)
    ensures
        children_view(r) == nss_as_nodes(namespaces_view(*v)),
{
    let mut acc: Vec<ContentNode> = Vec::new();
    let mut i: usize = 0;
    while i < v.len()
        invariant
            i == acc@.len() <= v@.len(),
            forall|k: int|
                0 <= k < i ==> node_view(#[trigger] acc@[k]) == ns_as_node(ns_view(v@[k])),
        decreases v@.len() - i,
    {
        acc.push(ns_to_node(&v[i]));
        i += 1;
    }
    proof {
        assert(children_view(acc) =~= nss_as_nodes(namespaces_view(*v)));
    }
    acc
}

impl Datapack {
    /// Merge `other` into `self`: namespaces of the same name merge by key
    /// union of their content trees, namespaces of either side alone are
    /// kept; the incoming pack's descriptor wins where it has one; the
    /// merged pack keeps `self`'s name and location. Pure with respect to
    /// both arguments; fails exactly where a leaf meets an interior node
    /// under one key.
    pub fn merge(&self, other: &Datapack) -> (r: Result<MergeOutcome<Datapack>, TreeError>)
        ensures
            match r {
                Ok(o) => {
                    &&& crate::node::spec_merge_children(
                        nss_as_nodes(namespaces_view(self.namespaces)),
                        nss_as_nodes(namespaces_view(other.namespaces)),
                    ) == Some((nss_as_nodes(namespaces_view(o.result.namespaces)), o.unit_delta))
                    &&& o.result.name@ == self.name@
                    &&& o.result.location@ == self.location@
                    &&& opt_bytes_view(o.result.root_metadata) == (
                    if opt_bytes_view(other.root_metadata) is Some {
                        opt_bytes_view(other.root_metadata)
                    } else {
                        opt_bytes_view(self.root_metadata)
                    })
                    &&& o.result.total_unit_count == spec_sat_add(
                        self.total_unit_count,
                        o.unit_delta,
                    )
                    &&& o.key@ == self.name@
                },
                Err(e) => {
                    &&& crate::node::spec_merge_children(
                        nss_as_nodes(namespaces_view(self.namespaces)),
                        nss_as_nodes(namespaces_view(other.namespaces)),
                    ) is None
                    &&& (e matches TreeError::MismatchType(a, b)
                        && crate::node::spec_mismatch_children(
                        nss_as_nodes(namespaces_view(self.namespaces)),
                        nss_as_nodes(namespaces_view(other.namespaces)),
                    ) == Some((a@, b@)))
                },
            },
    {
        let base_nodes = nss_to_nodes(&self.namespaces);
        let inc_nodes = nss_to_nodes(&other.namespaces);
        let merged = match crate::node::merge_child_vecs(&base_nodes, &inc_nodes) {
            Ok(p) => p,
            Err(e) => {
                return Err(e);
            },
        };
        let ghost bv = nss_as_nodes(namespaces_view(self.namespaces));
        let ghost iv = nss_as_nodes(namespaces_view(other.namespaces));
        let ghost mv0 = children_view(merged.0);
        proof {
            assert forall|k: int| 0 <= k < bv.len() implies (#[trigger] bv[k].data)
                is Interior by {}
            assert forall|k: int| 0 <= k < iv.len() implies (#[trigger] iv[k].data)
                is Interior by {}
            crate::node::lemma_merge_children_interior(bv, iv);
        }
        let mut nodes = merged.0;
        let mut out: Vec<Namespace> = Vec::new();
        while nodes.len() > 0
            invariant
                nss_as_nodes(namespaces_view(out)) + children_view(nodes) == mv0,
                forall|k: int| 0 <= k < mv0.len() ==> (#[trigger] mv0[k].data) is Interior,
            decreases nodes@.len(),
        {
            let ghost outv = nss_as_nodes(namespaces_view(out));
            let ghost nv = children_view(nodes);
            let node = nodes.remove(0);
            proof {
                assert(node_view(node) == nv[0]);
                assert(nv[0] == mv0[outv.len() as int]);
                assert(children_view(nodes) =~= nv.drop_first());
            }
            match node.data {
                NodeData::Interior { children } => {
                    proof {
                        crate::node::lemma_children_view(children);
                    }
                    let ns = Namespace { name: node.name, children };
                    out.push(ns);
                    proof {
                        assert(nss_as_nodes(namespaces_view(out)) =~= outv.push(nv[0]));
                        assert(outv.push(nv[0]) + nv.drop_first() =~= outv + nv);
                    }
                },
                NodeData::Leaf { .. } => {
                    proof {
                        assert(false);
                    }
                    return Err(TreeError::Io(String::new()));
                },
            }
        }
        proof {
            assert(children_view(nodes) =~= Seq::<NodeV>::empty());
            assert(nss_as_nodes(namespaces_view(out)) + children_view(nodes)
                =~= nss_as_nodes(namespaces_view(out)));
        }
        let root_metadata: Option<Vec<u8>> = match &other.root_metadata {
            Some(m) => Some(crate::node::copy_bytes(m)),
            None => match &self.root_metadata {
                Some(m) => Some(crate::node::copy_bytes(m)),
                None => None,
            },
        };
        let total = sat_add(self.total_unit_count, merged.1);
        let result = Datapack {
            location: self.location.clone(),
            name: self.name.clone(),
            root_metadata,
            namespaces: out,
            total_unit_count: total,
        };
        Ok(MergeOutcome { result, unit_delta: merged.1, key: self.name.clone() })
    }
}

} // verus!
