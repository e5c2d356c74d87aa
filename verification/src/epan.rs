//! The analysis-session and dissection-result lifecycle. A session is the
//! long-lived engine context and the factory for dissection results; a
//! result starts with no tree, may be primed with a compiled filter, and
//! becomes queryable once the decode pass's tree is installed by
//! `dissect`. The decode pass itself belongs to the engine outside this
//! crate; it hands its finished tree over as a value.

use vstd::prelude::*;

use crate::dfilter::DFilter;
use crate::error::Error;
use crate::proto::ProtoNode;
use crate::tree::ProtoTree;
use crate::tree::chain;
use crate::wtap::WtapRec;

verus! {

/// The engine-wide context shared by every dissection result of a
/// session: registries and configuration the decode pass reads. It is
/// never mutated by dissection.
#[derive(Debug)]
pub struct InnerEpanSession {}

/// The long-lived analysis session; factory for dissection results. The
/// session must outlive every result derived from it, which Rust's
/// ownership enforces here: results do not borrow the session, and trees
/// are owned per result.
pub struct Session {
    pub epan: InnerEpanSession,
}

impl Session {
    /// A fresh engine context with every packet-provider hook absent,
    /// yielding engine defaults.
    pub fn new() -> (r: Session)
        ensures
            true,
    {
        Session { epan: InnerEpanSession {} }
    }

    /// A fresh, not-yet-dissected result for one raw record; the sole way
    /// results come into being.
    pub fn new_prec(&self, rec: &mut WtapRec) -> (r: ParsedRec)
        ensures
            *final(rec) == *old(rec),
            r.offset == old(rec).offset,
            r.file_type == old(rec).file_type,
            !r.spec_dissected(),
            r.primed is None,
            r.wf(),
    {
        ParsedRec { offset: rec.offset, file_type: rec.file_type, primed: None, tree: None }
    }

    /// The eager, session-driven pattern: one call takes a raw record and
    /// the tree the decode pass produced for it, and returns the result
    /// already dissected, its root node available.
    pub fn dissect(&self, rec: &mut WtapRec, tree: ProtoTree) -> (r: ParsedRec)
        requires
            tree.wf(),
        ensures
            *final(rec) == *old(rec),
            r.spec_dissected(),
            r.tree == Some(tree),
            r.offset == old(rec).offset,
            r.file_type == old(rec).file_type,
            r.primed is None,
            r.wf(),
    {
        let mut prec = self.new_prec(rec);
        prec.dissect(tree);
        prec
    }
}

/// The per-record outcome of dissection: constructed (no tree), optionally
/// primed with a filter, then dissected (root node available). Every tree
/// query before `dissect` fails with the not-dissected condition.
pub struct ParsedRec {
    /// Byte offset the source record was read at.
    pub offset: i64,
    /// File-type tag of the capture the record came from.
    pub file_type: i32,
    /// Text of the filter primed before dissection, if any. Priming is a
    /// pure performance hint to the engine: it never changes the tree.
    pub primed: Option<String>,
    /// The decoded tree, present once `dissect` has run.
    pub tree: Option<ProtoTree>,
}

impl ParsedRec {
    /// Whether `dissect` has run.
    pub open spec fn spec_dissected(&self) -> bool {
        self.tree is Some
    }

    pub open spec fn wf(&self) -> bool {
        self.tree matches Some(t) ==> t.wf()
    }

    /// The record's state after installing a decoded tree: only the tree
    /// changes, whether or not a filter was primed first.
    pub open spec fn spec_dissect(self, tree: ProtoTree) -> ParsedRec {
        ParsedRec {
            offset: self.offset,
            file_type: self.file_type,
            primed: self.primed,
            tree: Some(tree),
        }
    }

    /// Records that a compiled filter will be evaluated against this
    /// result, so the engine may skip decodes the filter does not need.
    /// Must be called strictly before `dissect`; it never changes what
    /// dissection produces.
    pub fn prime_dfilter(&mut self, dfilter: &DFilter)
        requires
            !old(self).spec_dissected(),
        ensures
            final(self).primed matches Some(t) && t@ == dfilter.filter_str@,
            final(self).offset == old(self).offset,
            final(self).file_type == old(self).file_type,
            final(self).tree == old(self).tree,
            !final(self).spec_dissected(),
            final(self).wf(),
    {
        self.primed = Some(dfilter.filter_str.clone());
    }

    /// Installs the tree the engine's decode pass produced for this
    /// record, moving the result to the dissected state. A partial tree
    /// from a degraded decode of malformed input is installed the same
    /// way: that is normal operation, not failure.
    pub fn dissect(&mut self, tree: ProtoTree)
        requires
            tree.wf(),
        ensures
            *final(self) == old(self).spec_dissect(tree),
            final(self).spec_dissected(),
            final(self).wf(),
    {
        self.tree = Some(tree);
    }

    /// The root of the decoded tree, at depth 0; fails with the
    /// not-dissected condition exactly while `dissect` has not run.
    pub fn get_root_node(&self) -> (r: Result<ProtoNode<'_>, Error>)
        requires
            self.wf(),
        ensures
            r is Ok <==> self.spec_dissected(),
            r matches Ok(n) ==> {
                &&& n.idx == 0
                &&& n.depth == 0
                &&& n.wf()
                &&& self.tree matches Some(t) && n.nodes() == t.nodes@
            },
            r matches Err(e) ==> e is NotDissected,
    {
        match &self.tree {
            None => Err(Error::NotDissected),
            Some(t) => Ok(ProtoNode::new(t, 0, 0)),
        }
    }

    /// The logical frames of the record: the direct children of the root,
    /// in engine decode order, possibly empty. Fails with the
    /// not-dissected condition exactly while `dissect` has not run.
    pub fn get_frames(&self) -> (r: Result<Vec<ProtoNode<'_>>, Error>)
        requires
            self.wf(),
        ensures
            r is Ok <==> self.spec_dissected(),
            r matches Ok(v) ==> self.tree matches Some(t) && {
                &&& v@.len() == chain(t.nodes@, t.nodes@[0].first_child).len()
                &&& forall|k: int|
                    0 <= k < v@.len() ==> {
                        &&& (#[trigger] v@[k]).idx == chain(t.nodes@, t.nodes@[0].first_child)[k]
                        &&& v@[k].nodes() == t.nodes@
                        &&& v@[k].depth == 1
                        &&& v@[k].wf()
                    }
            },
            r matches Err(e) ==> e is NotDissected,
    {
        match self.get_root_node() {
            Err(e) => Err(e),
            Ok(root) => Ok(root.get_children()),
        }
    }
}

/// Any two handles meeting `get_root_node`'s contract on one dissected
/// result are the same handle: repeated calls return equal root nodes,
/// and the call fails with the not-dissected condition exactly until
/// `dissect` has run (that half is `get_root_node`'s own contract).
pub proof fn lemma_root_node_idempotent<'a, 'b>(r: ParsedRec, n1: ProtoNode<'a>, n2: ProtoNode<'b>)
    requires
        r.spec_dissected(),
        n1.idx == 0 && n1.depth == 0 && (r.tree matches Some(t) && n1.nodes() == t.nodes@),
        n2.idx == 0 && n2.depth == 0 && (r.tree matches Some(t) && n2.nodes() == t.nodes@),
    ensures
        n1.idx == n2.idx,
        n1.depth == n2.depth,
        n1.nodes() == n2.nodes(),
        crate::tree::trees_eqv(n1.nodes(), n2.nodes()),
{
    assert forall|i: int|
        0 <= i < n1.nodes().len() implies crate::tree::node_data_eqv(
        #[trigger] n1.nodes()[i],
        n2.nodes()[i],
    ) by {}
}

/// Priming is a pure hint: two results for the same record, one primed
/// and one not, hold identical trees after dissection installs the same
/// decoded tree, so every tree query answers identically.
pub proof fn lemma_prime_is_pure_hint(a: ParsedRec, b: ParsedRec, tree: ProtoTree)
    requires
        a.offset == b.offset,
        a.file_type == b.file_type,
    ensures
        a.spec_dissect(tree).tree == b.spec_dissect(tree).tree,
        a.spec_dissect(tree).offset == b.spec_dissect(tree).offset,
        a.spec_dissect(tree).file_type == b.spec_dissect(tree).file_type,
{
}

} // verus!
