//! The compiler's verified half: flattening a merged pack into the ordered
//! entry list an archive writer consumes. Every directory marker is emitted
//! before any of its descendants, so the writer never has to infer parent
//! directories; the pack descriptor comes first.

use crate::node::children_view;
use crate::node::node_view;
use crate::node::ContentNode;
use crate::node::NodeData;
use crate::node::NodeDataV;
use crate::node::NodeV;
use crate::pack::dp_view;
use crate::pack::ns_as_node;
use crate::pack::ns_view;
use crate::pack::opt_bytes_view;
use crate::pack::Datapack;
use crate::pack::DatapackV;
use crate::pack::NamespaceV;
use crate::strutil::copy_str;
use vstd::prelude::*;

verus! {

/// One archive entry: a file with its bytes, or a directory marker.
#[derive(Debug, PartialEq, Eq)]
pub struct ZipEntry {
    pub path: String,
    pub data: Option<Vec<u8>>,
}

pub open spec fn entry_view(e: ZipEntry) -> (Seq<char>, Option<Seq<u8>>) {
    (e.path@, opt_bytes_view(e.data))
}

pub open spec fn entries_view(v: Vec<ZipEntry>) -> Seq<(Seq<char>, Option<Seq<u8>>)> {
    Seq::new(v@.len(), |i: int| entry_view(v@[i]))
}

/// The entries one node contributes under a path prefix: its own path first
/// (a marker for an interior node, the payload for a leaf), then everything
/// below it.
pub open spec fn spec_flatten_node(prefix: Seq<char>, n: NodeV) -> Seq<
    (Seq<char>, Option<Seq<u8>>),
>
    decreases n,
{
    let path = prefix + n.name;
    match n.data {
        NodeDataV::Leaf { payload, .. } => seq![(path, Some(payload))],
        NodeDataV::Interior { children } => seq![(path, Option::<Seq<u8>>::None)]
            + spec_flatten_children(path + seq!['/'], children),
    }
}

pub open spec fn spec_flatten_children(prefix: Seq<char>, children: Seq<NodeV>) -> Seq<
    (Seq<char>, Option<Seq<u8>>),
>
    decreases children,
{
    if children.len() == 0 {
        Seq::empty()
    } else {
        spec_flatten_node(prefix, children[0]) + spec_flatten_children(
            prefix,
            children.drop_first(),
        )
    }
}

/// The full entry list of a pack: the pack descriptor first, then every
/// namespace under `data/`.
pub open spec fn spec_flatten_pack(d: DatapackV) -> Seq<(Seq<char>, Option<Seq<u8>>)> {
    (match d.root_metadata {
        Some(m) => seq![("pack.mcmeta"@, Some(m))],
        None => Seq::empty(),
    }) + spec_flatten_namespaces(d.namespaces)
}

pub open spec fn spec_flatten_namespaces(ns: Seq<NamespaceV>) -> Seq<
    (Seq<char>, Option<Seq<u8>>),
>
    decreases ns,
{
    if ns.len() == 0 {
        Seq::empty()
    } else {
        spec_flatten_node("data/"@, ns_as_node(ns[0])) + spec_flatten_namespaces(ns.drop_first())
    }
}

/// Append the entries of every child under `prefix` to `out`.
fn flatten_children(prefix: &str, children: &Vec<ContentNode>, out: &mut Vec<ZipEntry>)
    ensures
        entries_view(*final(out)) == entries_view(*old(out)) + spec_flatten_children(
            prefix@,
            children_view(*children),
        ),
    decreases *children,
{
    let ghost cv = children_view(*children);
    let ghost base = entries_view(*out);
    let mut k: usize = 0;
    proof {
        assert(cv.skip(0) =~= cv);
        assert(base + Seq::<(Seq<char>, Option<Seq<u8>>)>::empty() =~= base);
    }
    while k < children.len()
        invariant
            cv == children_view(*children),
            cv.len() == children@.len(),
            k <= children@.len(),
            base + spec_flatten_children(prefix@, cv) == entries_view(*out)
                + spec_flatten_children(prefix@, cv.skip(k as int)),
        decreases children@.len() - k,
    {
        let ghost outv = entries_view(*out);
        let ghost rest = cv.skip(k as int);
        proof {
            assert(rest[0] == cv[k as int]);
            assert(rest.drop_first() =~= cv.skip(k + 1));
            assert(cv[k as int] == node_view(children@[k as int]));
            assert(decreases_to!(*children => children@));
            assert(decreases_to!(children@ => children@[k as int]));
        }
        flatten_node(prefix, &children[k], out);
        proof {
            assert(spec_flatten_children(prefix@, rest) == spec_flatten_node(prefix@, rest[0])
                + spec_flatten_children(prefix@, rest.drop_first()));
            assert((outv + spec_flatten_node(prefix@, rest[0])) + spec_flatten_children(
                prefix@,
                rest.drop_first(),
            ) =~= outv + (spec_flatten_node(prefix@, rest[0]) + spec_flatten_children(
                prefix@,
                rest.drop_first(),
            )));
        }
        k += 1;
    }
    proof {
        assert(cv.skip(cv.len() as int) =~= Seq::<NodeV>::empty());
        assert(entries_view(*out) + Seq::<(Seq<char>, Option<Seq<u8>>)>::empty() =~= entries_view(
            *out,
        ));
    }
}

/// Append the entries of one node under `prefix` to `out`.
fn flatten_node(prefix: &str, n: &ContentNode, out: &mut Vec<ZipEntry>)
    ensures
        entries_view(*final(out)) == entries_view(*old(out)) + spec_flatten_node(
            prefix@,
            node_view(*n),
        ),
    decreases *n,
{
    let ghost base = entries_view(*out);
    let mut path = copy_str(prefix);
    path.append(n.name.as_str());
    match &n.data {
        NodeData::Leaf { payload, .. } => {
            let entry = ZipEntry { path, data: Some(crate::node::copy_bytes(payload)) };
            let ghost ev = entry_view(entry);
            out.push(entry);
            proof {
                assert(entries_view(*out) =~= base.push(ev));
                assert(base.push(ev) =~= base + spec_flatten_node(prefix@, node_view(*n)));
            }
        },
        NodeData::Interior { children } => {
            let marker_path = path.clone();
            let entry = ZipEntry { path: marker_path, data: None };
            let ghost ev = entry_view(entry);
            out.push(entry);
            let ghost mid = entries_view(*out);
            proof {
                assert(entries_view(*out) =~= base.push(ev));
            }
            let child_prefix = path.concat("/");
            proof {
                reveal_strlit("/");
                assert(child_prefix@ =~= (prefix@ + n.name@) + seq!['/']);
                assert(n.data->Interior_children == *children);
                assert(decreases_to!(*n => n.data));
                assert(decreases_to!(n.data => n.data->Interior_children));
                crate::node::lemma_children_view(*children);
            }
            flatten_children(child_prefix.as_str(), children, out);
            proof {
                assert(base.push(ev) =~= base + seq![ev]);
                assert((base + seq![ev]) + spec_flatten_children(
                    child_prefix@,
                    children_view(*children),
                ) =~= base + (seq![ev] + spec_flatten_children(
                    child_prefix@,
                    children_view(*children),
                )));
                assert(seq![ev] + spec_flatten_children(child_prefix@, children_view(*children))
                    =~= spec_flatten_node(prefix@, node_view(*n)));
            }
        },
    }
}

impl Datapack {
    /// Flatten this pack into the ordered list of archive entries the
    /// compiler writes: the pack descriptor first, then each namespace's
    /// tree under `data/`, every directory marker before its descendants.
    pub fn flatten(&self) -> (r: Vec<ZipEntry>)
        ensures
            entries_view(r) == spec_flatten_pack(dp_view(*self)),
    {
        let mut out: Vec<ZipEntry> = Vec::new();
        let ghost d = dp_view(*self);
        match &self.root_metadata {
            Some(m) => {
                let entry = ZipEntry {
                    path: copy_str("pack.mcmeta"),
                    data: Some(crate::node::copy_bytes(m)),
                };
                let ghost ev = entry_view(entry);
                out.push(entry);
                proof {
                    assert(entries_view(out) =~= seq![ev]);
                }
            },
            None => {},
        }
        let ghost head = entries_view(out);
        proof {
            assert(head =~= (match d.root_metadata {
                Some(mm) => seq![("pack.mcmeta"@, Option::<Seq<u8>>::Some(mm))],
                None => Seq::<(Seq<char>, Option<Seq<u8>>)>::empty(),
            }));
        }
        let ghost nsv = d.namespaces;
        let mut i: usize = 0;
        proof {
            assert(nsv.skip(0) =~= nsv);
            assert(head + Seq::<(Seq<char>, Option<Seq<u8>>)>::empty() =~= head);
        }
        while i < self.namespaces.len()
            invariant
                nsv == dp_view(*self).namespaces,
                nsv.len() == self.namespaces@.len(),
                i <= self.namespaces@.len(),
                head + spec_flatten_namespaces(nsv) == entries_view(out)
                    + spec_flatten_namespaces(nsv.skip(i as int)),
            decreases self.namespaces@.len() - i,
        {
            let ghost outv = entries_view(out);
            let ghost rest = nsv.skip(i as int);
            proof {
                assert(rest[0] == nsv[i as int]);
                assert(rest.drop_first() =~= nsv.skip(i + 1));
                assert(nsv[i as int] == ns_view(self.namespaces@[i as int]));
            }
            let ns = &self.namespaces[i];
            let mut path = copy_str("data/");
            path.append(ns.name.as_str());
            let marker_path = path.clone();
            let entry = ZipEntry { path: marker_path, data: None };
            let ghost ev = entry_view(entry);
            out.push(entry);
            proof {
                assert(entries_view(out) =~= outv.push(ev));
            }
            let child_prefix = path.concat("/");
            proof {
                reveal_strlit("/");
                assert(child_prefix@ =~= ("data/"@ + ns_view(self.namespaces@[i as int]).name)
                    + seq!['/']);
                crate::node::lemma_children_view(ns.children);
            }
            flatten_children(child_prefix.as_str(), &ns.children, &mut out);
            proof {
                assert(outv.push(ev) =~= outv + seq![ev]);
                assert((outv + seq![ev]) + spec_flatten_children(
                    child_prefix@,
                    children_view(ns.children),
                ) =~= outv + (seq![ev] + spec_flatten_children(
                    child_prefix@,
                    children_view(ns.children),
                )));
                assert(seq![ev] + spec_flatten_children(child_prefix@, children_view(ns.children))
                    =~= spec_flatten_node("data/"@, ns_as_node(rest[0])));
                assert(spec_flatten_namespaces(rest) == spec_flatten_node(
                    "data/"@,
                    ns_as_node(rest[0]),
                ) + spec_flatten_namespaces(rest.drop_first()));
                assert((outv + spec_flatten_node("data/"@, ns_as_node(rest[0])))
                    + spec_flatten_namespaces(rest.drop_first()) =~= outv + (spec_flatten_node(
                    "data/"@,
                    ns_as_node(rest[0]),
                ) + spec_flatten_namespaces(rest.drop_first())));
            }
            i += 1;
        }
        proof {
            assert(nsv.skip(nsv.len() as int) =~= Seq::<NamespaceV>::empty());
            assert(entries_view(out) + Seq::<(Seq<char>, Option<Seq<u8>>)>::empty()
                =~= entries_view(out));
            assert(entries_view(out) =~= spec_flatten_pack(d));
        }
        out
    }
}


/// Is `p` a (not necessarily proper) prefix of `q`?
pub open spec fn is_prefix(p: Seq<char>, q: Seq<char>) -> bool {
    p.len() <= q.len() && q.subrange(0, p.len() as int) == p
}

/// Every entry one node contributes starts with the prefix it was flattened
/// under.
pub proof fn lemma_flatten_node_prefixed(prefix: Seq<char>, n: NodeV)
    ensures
        forall|k: int|
            0 <= k < spec_flatten_node(prefix, n).len() ==> is_prefix(
                prefix,
                (#[trigger] spec_flatten_node(prefix, n)[k]).0,
            ),
    decreases n,
{
    let path = prefix + n.name;
    assert(is_prefix(prefix, path)) by {
        assert(path.subrange(0, prefix.len() as int) =~= prefix);
    }
    match n.data {
        NodeDataV::Leaf { .. } => {},
        NodeDataV::Interior { children } => {
            let sub = path + seq!['/'];
            lemma_flatten_children_prefixed(sub, children);
            assert(is_prefix(prefix, sub)) by {
                assert(sub.subrange(0, prefix.len() as int) =~= prefix);
            }
            assert forall|k: int|
                0 <= k < spec_flatten_node(prefix, n).len() implies is_prefix(
                prefix,
                (#[trigger] spec_flatten_node(prefix, n)[k]).0,
            ) by {
                if k > 0 {
                    let e = spec_flatten_children(sub, children)[k - 1];
                    assert(spec_flatten_node(prefix, n)[k] == e);
                    assert(is_prefix(sub, e.0));
                    assert(e.0.subrange(0, prefix.len() as int) =~= e.0.subrange(
                        0,
                        sub.len() as int,
                    ).subrange(0, prefix.len() as int));
                }
            }
        },
    }
}

pub proof fn lemma_flatten_children_prefixed(prefix: Seq<char>, children: Seq<NodeV>)
    ensures
        forall|k: int|
            0 <= k < spec_flatten_children(prefix, children).len() ==> is_prefix(
                prefix,
                (#[trigger] spec_flatten_children(prefix, children)[k]).0,
            ),
    decreases children,
{
    if children.len() > 0 {
        lemma_flatten_node_prefixed(prefix, children[0]);
        lemma_flatten_children_prefixed(prefix, children.drop_first());
        let head = spec_flatten_node(prefix, children[0]);
        let tail = spec_flatten_children(prefix, children.drop_first());
        assert forall|k: int|
            0 <= k < spec_flatten_children(prefix, children).len() implies is_prefix(
            prefix,
            (#[trigger] spec_flatten_children(prefix, children)[k]).0,
        ) by {
            if k < head.len() {
                assert(spec_flatten_children(prefix, children)[k] == head[k]);
            } else {
                assert(spec_flatten_children(prefix, children)[k] == tail[k - head.len()]);
            }
        }
    }
}

/// The compiler's ordering contract: an interior node's directory marker is
/// emitted before every one of its descendants, and each descendant's path
/// extends the marker's path by `/` and more.
pub proof fn lemma_marker_precedes_descendants(prefix: Seq<char>, n: NodeV)
    requires
        n.data is Interior,
    ensures
        spec_flatten_node(prefix, n).len() > 0,
        spec_flatten_node(prefix, n)[0].0 == prefix + n.name,
        spec_flatten_node(prefix, n)[0].1 is None,
        forall|k: int|
            1 <= k < spec_flatten_node(prefix, n).len() ==> is_prefix(
                (prefix + n.name) + seq!['/'],
                (#[trigger] spec_flatten_node(prefix, n)[k]).0,
            ),
{
    let path = prefix + n.name;
    let children = n.data->Interior_children;
    lemma_flatten_children_prefixed(path + seq!['/'], children);
    assert forall|k: int|
        1 <= k < spec_flatten_node(prefix, n).len() implies is_prefix(
        path + seq!['/'],
        (#[trigger] spec_flatten_node(prefix, n)[k]).0,
    ) by {
        assert(spec_flatten_node(prefix, n)[k] == spec_flatten_children(
            path + seq!['/'],
            children,
        )[k - 1]);
    }
}

} // verus!
