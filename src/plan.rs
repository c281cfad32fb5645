//! One sync run as a plan: from the walker's output and the previous
//! record file to the ordered remote operations and the next record file.
use vstd::prelude::*;
use vstd::slice::slice_to_vec;
use crate::fingerprint::md5_hex;
use crate::manifest::{
    bad_line, classify_spec, needs_upload, parse_manifest_spec, prune, stale_paths, Action, Manifest,
    ManifestParseError, RecordView,
};

verus! {

/// What the walker yields, in pre-order: a directory before what it holds.
/// Paths are relative to the synced root and joined with `/`.
#[derive(Debug, Clone, PartialEq, Eq)]
pub enum WalkEntry {
    Dir { path: Vec<u8> },
    File { path: Vec<u8>, content: Vec<u8> },
}

/// One remote side effect, in the order a run performs them.
#[derive(Debug, Clone, PartialEq, Eq)]
pub enum RemoteOp {
    /// Remove everything under the deploy directory.
    Purge,
    /// Make the remote directory for this relative path, with its parents.
    MakeDir { path: Vec<u8> },
    /// Send the contents of the walk entry at `entry` to this relative path.
    Upload { path: Vec<u8>, entry: usize },
    /// Remove the remote file at this relative path.
    Delete { path: Vec<u8> },
}

/// The model of a remote operation.
pub enum OpView {
    Purge,
    MakeDir(Seq<u8>),
    Upload(Seq<u8>, int),
    Delete(Seq<u8>),
}

impl RemoteOp {
    pub open spec fn view(&self) -> OpView {
        match self {
            RemoteOp::Purge => OpView::Purge,
            RemoteOp::MakeDir { path } => OpView::MakeDir(path@),
            RemoteOp::Upload { path, entry } => OpView::Upload(path@, *entry as int),
            RemoteOp::Delete { path } => OpView::Delete(path@),
        }
    }
}

/// Everything a run does, decided before any remote call.
#[derive(Debug)]
pub struct SyncPlan {
    /// No usable record file was there: the run starts from nothing.
    pub bootstrap: bool,
    /// The remote operations, in order.
    pub ops: Vec<RemoteOp>,
    /// The manifest to persist.
    pub manifest: Manifest,
    /// Its text, written to the record file after all the operations.
    pub manifest_text: Vec<u8>,
}

pub open spec fn ops_view(ops: Seq<RemoteOp>) -> Seq<OpView> {
    ops.map_values(|o: RemoteOp| o.view())
}

/// The manifest and the operations after walking `es` from manifest `m0`.
pub open spec fn walk_spec(m0: Seq<(Seq<u8>, RecordView)>, es: Seq<WalkEntry>) -> (
    Seq<(Seq<u8>, RecordView)>,
    Seq<OpView>,
)
    decreases es.len(),
{
    if es.len() == 0 {
        (m0, Seq::empty())
    } else {
        let prev = walk_spec(m0, es.drop_last());
        match es.last() {
            WalkEntry::Dir { path } => (prev.0, prev.1.push(OpView::MakeDir(path@))),
            WalkEntry::File { path, content } => {
                let sign = md5_hex(content@);
                let len = content@.len() as u64;
                (
                    classify_spec(prev.0, path@, sign, len),
                    if needs_upload(prev.0, path@, sign, len) {
                        prev.1.push(OpView::Upload(path@, es.len() - 1))
                    } else {
                        prev.1
                    },
                )
            },
        }
    }
}

/// The operations of a run and the manifest it persists, or `None` when the
/// record file cannot be read. An empty record file starts the run with a
/// purge; the deletions of stale paths come after everything the walk did.
pub open spec fn plan_spec(text: Seq<u8>, es: Seq<WalkEntry>) -> Option<
    (Seq<OpView>, Seq<(Seq<u8>, RecordView)>),
> {
    match parse_manifest_spec(text) {
        None => None,
        Some(m0) => {
            let w = walk_spec(m0, es);
            let first = if text.len() == 0 {
                seq![OpView::Purge]
            } else {
                Seq::<OpView>::empty()
            };
            Some(
                (
                    first + w.1 + stale_paths(w.0).map_values(|p: Seq<u8>| OpView::Delete(p)),
                    prune(w.0),
                ),
            )
        },
    }
}

/// Decides one sync run: reads the previous record file, classifies each
/// walked file, and lists the remote operations in the order they must be
/// performed, with the manifest to persist last.
pub fn plan_sync(record_text: &[u8], entries: &Vec<WalkEntry>) -> (r: Result<
    SyncPlan,
    ManifestParseError,
>)
    ensures
        match r {
            Ok(p) => {
                &&& plan_spec(record_text@, entries@) == Some((ops_view(p.ops@), p.manifest@))
                &&& p.manifest.wf()
                &&& p.manifest_text@ == crate::manifest::serialize_spec(p.manifest@)
                &&& p.bootstrap == (record_text@.len() == 0)
            },
            Err(ManifestParseError::BadLine { line }) => {
                &&& plan_spec(record_text@, entries@) is None
                &&& line == bad_line(record_text@)
            },
        },
{
    let mut m = match Manifest::parse(record_text) {
        Ok(m) => m,
        Err(e) => {
            return Err(e);
        },
    };
    let ghost m0 = m@;
    let bootstrap = record_text.len() == 0;
    let mut ops: Vec<RemoteOp> = Vec::new();
    if bootstrap {
        ops.push(RemoteOp::Purge);
    }
    let ghost first = ops_view(ops@);
    let mut i: usize = 0;
    while i < entries.len()
        invariant
            i <= entries@.len(),
            m.wf(),
            m@ == walk_spec(m0, entries@.subrange(0, i as int)).0,
            ops_view(ops@) == first + walk_spec(m0, entries@.subrange(0, i as int)).1,
        decreases entries@.len() - i,
    {
        let ghost es = entries@.subrange(0, i + 1);
        assert(es.drop_last() =~= entries@.subrange(0, i as int));
        assert(es.last() == entries@[i as int]);
        let ghost before = ops@;
        match &entries[i] {
            WalkEntry::Dir { path } => {
                ops.push(RemoteOp::MakeDir { path: slice_to_vec(path.as_slice()) });
                assert(ops_view(ops@) =~= ops_view(before).push(OpView::MakeDir(path@)));
            },
            WalkEntry::File { path, content } => {
                let a = m.classify(path.as_slice(), content.as_slice());
                if a == Action::Upload {
                    ops.push(RemoteOp::Upload { path: slice_to_vec(path.as_slice()), entry: i });
                    assert(ops_view(ops@) =~= ops_view(before).push(
                        OpView::Upload(path@, i as int),
                    ));
                }
            },
        }
        assert(ops_view(ops@) =~= first + walk_spec(m0, es).1);
        i = i + 1;
    }
    assert(entries@.subrange(0, i as int) =~= entries@);
    let ghost m1 = m@;
    let ghost mid = ops_view(ops@);
    let stale = m.take_stale();
    let mut j: usize = 0;
    while j < stale.len()
        invariant
            j <= stale@.len(),
            stale@.map_values(|p: Vec<u8>| p@) == stale_paths(m1),
            ops_view(ops@) == mid + stale_paths(m1).subrange(0, j as int).map_values(
                |p: Seq<u8>| OpView::Delete(p),
            ),
        decreases stale@.len() - j,
    {
        assert(stale_paths(m1)[j as int] == stale@[j as int]@);
        let ghost before = ops@;
        ops.push(RemoteOp::Delete { path: slice_to_vec(stale[j].as_slice()) });
        assert(ops_view(ops@) =~= ops_view(before).push(OpView::Delete(stale@[j as int]@)));
        assert(stale_paths(m1).subrange(0, j + 1).map_values(|p: Seq<u8>| OpView::Delete(p))
            =~= stale_paths(m1).subrange(0, j as int).map_values(|p: Seq<u8>| OpView::Delete(p)).push(
            OpView::Delete(stale@[j as int]@),
        ));
        assert(ops_view(ops@) =~= mid + stale_paths(m1).subrange(0, j + 1).map_values(
            |p: Seq<u8>| OpView::Delete(p),
        ));
        j = j + 1;
    }
    assert(stale_paths(m1).subrange(0, j as int) =~= stale_paths(m1));
    let manifest_text = m.serialize();
    Ok(SyncPlan { bootstrap, ops, manifest: m, manifest_text })
}

} // verus!
