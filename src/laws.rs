//! What holds of every run: the laws of the sync plan, proved over
//! `plan_spec`, which `plan_sync` meets exactly.
use vstd::prelude::*;
use crate::fingerprint::md5_hex;
use crate::manifest::{
    key_index, keys_unique, lemma_key_index_at, lemma_prune_unique, lemma_upsert_unique, lookup,
    needs_upload, parse_line_spec, parse_manifest_spec, parse_rest, prune, record_line,
    serialize_spec, stale_paths, upsert, RecordView,
};
use crate::text::{
    all_digits, decimal, first_sep_from, is_digit, lemma_decimal_round_trip,
    lemma_first_newline_at, lemma_first_sep_skip, sep_at, NEWLINE,
};
use crate::plan::{plan_spec, walk_spec, OpView, WalkEntry};

verus! {

pub open spec fn is_file(e: WalkEntry) -> bool {
    e is File
}

pub open spec fn entry_path(e: WalkEntry) -> Seq<u8> {
    match e {
        WalkEntry::Dir { path } => path@,
        WalkEntry::File { path, .. } => path@,
    }
}

pub open spec fn entry_content(e: WalkEntry) -> Seq<u8> {
    match e {
        WalkEntry::Dir { .. } => Seq::empty(),
        WalkEntry::File { content, .. } => content@,
    }
}

/// The operations of a run that can be planned.
pub open spec fn plan_ops(text: Seq<u8>, es: Seq<WalkEntry>) -> Seq<OpView> {
    match plan_spec(text, es) {
        Some(p) => p.0,
        None => Seq::empty(),
    }
}

/// The manifest that a run that can be planned persists.
pub open spec fn plan_manifest(text: Seq<u8>, es: Seq<WalkEntry>) -> Seq<(Seq<u8>, RecordView)> {
    match plan_spec(text, es) {
        Some(p) => p.1,
        None => Seq::empty(),
    }
}

/// The walk entry an operation sends, or -1.
pub open spec fn op_entry(o: OpView) -> int {
    match o {
        OpView::Upload(_, x) => x,
        _ => -1,
    }
}

/// No two files of a walk share a relative path.
pub open spec fn files_unique(es: Seq<WalkEntry>) -> bool {
    forall|i: int, j: int|
        0 <= i < j < es.len() && is_file(#[trigger] es[i]) && is_file(#[trigger] es[j])
            ==> entry_path(es[i]) != entry_path(es[j])
}

/// No file of the walk has relative path `k`.
pub open spec fn no_file_at(es: Seq<WalkEntry>, k: Seq<u8>) -> bool {
    forall|i: int| 0 <= i < es.len() && is_file(#[trigger] es[i]) ==> entry_path(es[i]) != k
}

pub open spec fn all_pending(m: Seq<(Seq<u8>, RecordView)>) -> bool {
    forall|i: int| 0 <= i < m.len() ==> (#[trigger] m[i]).1.pending
}

/// The record a file gets when a run meets it.
pub open spec fn fresh_record(content: Seq<u8>) -> RecordView {
    RecordView { sign: md5_hex(content), len: content.len() as u64, pending: false }
}

proof fn lemma_parse_rest_shape(s: Seq<u8>, acc: Seq<(Seq<u8>, RecordView)>)
    requires
        keys_unique(acc),
        all_pending(acc),
    ensures
        parse_rest(s, acc) matches Some(m) ==> keys_unique(m) && all_pending(m),
    decreases s.len(),
{
    if s.len() > 0 {
        let e = crate::text::first_newline(s);
        let rest = if e < s.len() {
            s.subrange(e + 1 as int, s.len() as int)
        } else {
            Seq::<u8>::empty()
        };
        match parse_line_spec(s.subrange(0, e as int)) {
            None => {},
            Some(t) => {
                let r = RecordView { sign: t.0, len: t.2, pending: true };
                lemma_upsert_unique(acc, t.1, r);
                let u = upsert(acc, t.1, r);
                crate::manifest::lemma_key_index_bounds(acc, t.1);
                assert(all_pending(u)) by {
                    assert forall|i: int| 0 <= i < u.len() implies (#[trigger] u[i]).1.pending by {
                        if i < acc.len() && u[i] != acc[i] {
                            assert(u[i].1 == r);
                        }
                    }
                }
                lemma_parse_rest_shape(rest, u);
            },
        }
    }
}

/// A manifest read from a record file has each path once, all pending.
pub proof fn lemma_parsed_shape(text: Seq<u8>)
    ensures
        parse_manifest_spec(text) matches Some(m) ==> keys_unique(m) && all_pending(m),
{
    lemma_parse_rest_shape(text, Seq::empty());
}

/// A walk keeps paths unique, and leaves the record of a path that no file
/// of it has as it was.
proof fn lemma_walk_frame(m0: Seq<(Seq<u8>, RecordView)>, es: Seq<WalkEntry>, k: Seq<u8>)
    requires
        keys_unique(m0),
    ensures
        keys_unique(walk_spec(m0, es).0),
        no_file_at(es, k) ==> lookup(walk_spec(m0, es).0, k) == lookup(m0, k),
    decreases es.len(),
{
    if es.len() > 0 {
        let d = es.drop_last();
        lemma_walk_frame(m0, d, k);
        let prev = walk_spec(m0, d);
        if no_file_at(es, k) {
            assert(no_file_at(d, k)) by {
                assert forall|i: int| 0 <= i < d.len() && is_file(#[trigger] d[i]) implies entry_path(d[i]) != k by {
                    assert(d[i] == es[i]);
                }
            }
        }
        match es.last() {
            WalkEntry::Dir { .. } => {},
            WalkEntry::File { path, content } => {
                lemma_upsert_unique(prev.0, path@, fresh_record(content@));
                if no_file_at(es, k) {
                    assert(is_file(es[es.len() - 1]));
                }
            },
        }
    }
}

/// After a walk whose files have distinct paths, each file's record is the
/// one made from its contents.
proof fn lemma_walk_records(m0: Seq<(Seq<u8>, RecordView)>, es: Seq<WalkEntry>, x: int)
    requires
        keys_unique(m0),
        files_unique(es),
        0 <= x < es.len(),
        is_file(es[x]),
    ensures
        lookup(walk_spec(m0, es).0, entry_path(es[x])) == Some(fresh_record(entry_content(es[x]))),
    decreases es.len(),
{
    let d = es.drop_last();
    let prev = walk_spec(m0, d);
    lemma_walk_frame(m0, d, entry_path(es[x]));
    if x < es.len() - 1 {
        assert(files_unique(d)) by {
            assert forall|i: int, j: int|
                0 <= i < j < d.len() && is_file(#[trigger] d[i]) && is_file(#[trigger] d[j])
                implies entry_path(d[i]) != entry_path(d[j]) by {
                assert(d[i] == es[i] && d[j] == es[j]);
            }
        }
        assert(d[x] == es[x]);
        lemma_walk_records(m0, d, x);
        match es.last() {
            WalkEntry::Dir { .. } => {},
            WalkEntry::File { path, content } => {
                assert(is_file(es[es.len() - 1]));
                lemma_upsert_unique(prev.0, path@, fresh_record(content@));
            },
        }
    } else {
        match es.last() {
            WalkEntry::Dir { .. } => {},
            WalkEntry::File { path, content } => {
                lemma_upsert_unique(prev.0, path@, fresh_record(content@));
            },
        }
    }
}

/// Which files a walk sends: file `x` is sent, once, exactly when it needs
/// it against the manifest as the walk left it before `x`.
proof fn lemma_walk_uploads(m0: Seq<(Seq<u8>, RecordView)>, es: Seq<WalkEntry>)
    ensures
        forall|j: int|
            0 <= j < walk_spec(m0, es).1.len() && (#[trigger] walk_spec(m0, es).1[j]) is Upload
                ==> {
                let x = op_entry(walk_spec(m0, es).1[j]);
                &&& 0 <= x < es.len()
                &&& is_file(es[x])
                &&& walk_spec(m0, es).1[j] == OpView::Upload(entry_path(es[x]), x)
                &&& needs_upload(
                    walk_spec(m0, es.subrange(0, x)).0,
                    entry_path(es[x]),
                    md5_hex(entry_content(es[x])),
                    entry_content(es[x]).len() as u64,
                )
            },
        forall|x: int|
            0 <= x < es.len() && is_file(#[trigger] es[x]) && needs_upload(
                walk_spec(m0, es.subrange(0, x)).0,
                entry_path(es[x]),
                md5_hex(entry_content(es[x])),
                entry_content(es[x]).len() as u64,
            ) ==> exists|j: int|
                0 <= j < walk_spec(m0, es).1.len() && #[trigger] walk_spec(m0, es).1[j]
                    == OpView::Upload(entry_path(es[x]), x),
        forall|j: int| 0 <= j < walk_spec(m0, es).1.len() ==> !(#[trigger] walk_spec(m0, es).1[j] is Delete),
    decreases es.len(),
{
    if es.len() > 0 {
        let d = es.drop_last();
        lemma_walk_uploads(m0, d);
        let prev = walk_spec(m0, d);
        let ops = walk_spec(m0, es).1;
        let n = es.len() - 1;
        assert(es.subrange(0, n) =~= d);
        assert forall|x: int| 0 <= x < n implies #[trigger] es.subrange(0, x) == d.subrange(0, x) && es[x] == d[x] by {
            assert(es.subrange(0, x) =~= d.subrange(0, x));
        }
        assert(ops.len() >= prev.1.len());
        assert forall|j: int| 0 <= j < prev.1.len() implies #[trigger] ops[j] == prev.1[j] by {}
        assert forall|j: int| 0 <= j < ops.len() implies !(#[trigger] ops[j] is Delete) by {
            if j < prev.1.len() {
                assert(ops[j] == prev.1[j]);
            }
        }
        assert forall|j: int|
            0 <= j < ops.len() && (#[trigger] ops[j]) is Upload implies {
                let x = op_entry(ops[j]);
                &&& 0 <= x < es.len()
                &&& is_file(es[x])
                &&& ops[j] == OpView::Upload(entry_path(es[x]), x)
                &&& needs_upload(
                    walk_spec(m0, es.subrange(0, x)).0,
                    entry_path(es[x]),
                    md5_hex(entry_content(es[x])),
                    entry_content(es[x]).len() as u64,
                )
            } by {
            if j < prev.1.len() {
                assert(ops[j] == prev.1[j]);
                let x = op_entry(ops[j]);
                assert(es.subrange(0, x) == d.subrange(0, x) && es[x] == d[x]);
            }
        }
        assert forall|x: int|
            0 <= x < es.len() && is_file(#[trigger] es[x]) && needs_upload(
                walk_spec(m0, es.subrange(0, x)).0,
                entry_path(es[x]),
                md5_hex(entry_content(es[x])),
                entry_content(es[x]).len() as u64,
            ) implies exists|j: int|
                0 <= j < ops.len() && #[trigger] ops[j] == OpView::Upload(entry_path(es[x]), x) by {
            if x < n {
                assert(es.subrange(0, x) == d.subrange(0, x) && es[x] == d[x]);
                assert(is_file(d[x]));
                let j = choose|j: int|
                    0 <= j < prev.1.len() && #[trigger] prev.1[j] == OpView::Upload(entry_path(d[x]), x);
                assert(ops[j] == prev.1[j]);
            } else {
                assert(ops[prev.1.len() as int] == OpView::Upload(entry_path(es[x]), x));
            }
        }
    }
}

/// Before a file whose path no earlier file has, the walk left that path's
/// record as the manifest had it.
proof fn lemma_record_before(m0: Seq<(Seq<u8>, RecordView)>, es: Seq<WalkEntry>, x: int)
    requires
        keys_unique(m0),
        files_unique(es),
        0 <= x < es.len(),
        is_file(es[x]),
    ensures
        lookup(walk_spec(m0, es.subrange(0, x)).0, entry_path(es[x])) == lookup(m0, entry_path(es[x])),
{
    let pre = es.subrange(0, x);
    assert(no_file_at(pre, entry_path(es[x]))) by {
        assert forall|i: int| 0 <= i < pre.len() && is_file(#[trigger] pre[i]) implies entry_path(pre[i]) != entry_path(es[x]) by {
            assert(pre[i] == es[i]);
        }
    }
    lemma_walk_frame(m0, pre, entry_path(es[x]));
}

/// Where the plan's operations come from: a leading purge, the walk, then
/// the deletions.
proof fn lemma_plan_parts(text: Seq<u8>, es: Seq<WalkEntry>)
    requires
        parse_manifest_spec(text) is Some,
    ensures
        ({
            let m0 = parse_manifest_spec(text)->0;
            let w = walk_spec(m0, es);
            let ops = plan_ops(text, es);
            let off: int = if text.len() == 0 { 1 } else { 0 };
            &&& ops.len() == off + w.1.len() + stale_paths(w.0).len()
            &&& forall|j: int| 0 <= j < w.1.len() ==> ops[off + j] == #[trigger] w.1[j]
            &&& forall|j: int| 0 <= j < off ==> #[trigger] ops[j] == OpView::Purge
            &&& forall|j: int| 0 <= j < stale_paths(w.0).len() ==> ops[off + w.1.len() + j]
                == OpView::Delete(#[trigger] stale_paths(w.0)[j])
            &&& plan_manifest(text, es) == prune(w.0)
        }),
{
}

/// An empty record file, what a first run finds, makes the run purge the
/// deploy directory before anything else.
pub proof fn law_bootstrap_purges_first(text: Seq<u8>, es: Seq<WalkEntry>)
    requires
        text.len() == 0,
    ensures
        plan_spec(text, es) is Some,
        plan_ops(text, es)[0] == OpView::Purge,
{
    assert(parse_manifest_spec(text) == Some(Seq::<(Seq<u8>, RecordView)>::empty()));
    lemma_plan_parts(text, es);
}

/// A pending record's path is among the stale paths.
proof fn lemma_stale_has(m: Seq<(Seq<u8>, RecordView)>, k: Seq<u8>)
    requires
        lookup(m, k) matches Some(r) && r.pending,
    ensures
        exists|j: int| 0 <= j < stale_paths(m).len() && #[trigger] stale_paths(m)[j] == k,
    decreases m.len(),
{
    let d = m.drop_last();
    if m.last().0 == k {
        assert(stale_paths(m)[stale_paths(m).len() - 1] == k);
    } else {
        crate::manifest::lemma_key_index_bounds(d, k);
        let i = crate::manifest::key_index(d, k);
        assert(m[i] == d[i]);
        lemma_stale_has(d, k);
        let j = choose|j: int| 0 <= j < stale_paths(d).len() && #[trigger] stale_paths(d)[j] == k;
        assert(stale_paths(m)[j] == k);
    }
}

/// A file that the manifest lacks, or whose digest or length differs from
/// its record, is sent, and the persisted manifest then holds its digest
/// and length.
proof fn lemma_file_sent(text: Seq<u8>, es: Seq<WalkEntry>, x: int)
    requires
        plan_spec(text, es) is Some,
        files_unique(es),
        0 <= x < es.len(),
        is_file(es[x]),
        needs_upload(
            parse_manifest_spec(text)->0,
            entry_path(es[x]),
            md5_hex(entry_content(es[x])),
            entry_content(es[x]).len() as u64,
        ),
    ensures
        exists|j: int|
            0 <= j < plan_ops(text, es).len() && #[trigger] plan_ops(text, es)[j]
                == OpView::Upload(entry_path(es[x]), x),
        lookup(plan_manifest(text, es), entry_path(es[x])) == Some(
            fresh_record(entry_content(es[x])),
        ),
{
    let m0 = parse_manifest_spec(text)->0;
    lemma_parsed_shape(text);
    let w = walk_spec(m0, es);
    let p = entry_path(es[x]);
    lemma_record_before(m0, es, x);
    lemma_walk_uploads(m0, es);
    lemma_plan_parts(text, es);
    let j = choose|j: int| 0 <= j < w.1.len() && #[trigger] w.1[j] == OpView::Upload(p, x);
    let off: int = if text.len() == 0 { 1 } else { 0 };
    assert(plan_ops(text, es)[off + j] == w.1[j]);
    lemma_walk_records(m0, es, x);
    lemma_walk_frame(m0, es, p);
    lemma_prune_unique(w.0);
}

/// A file that the manifest does not list is sent, and the persisted
/// manifest then lists it with its digest and length.
pub proof fn law_new_file_sent_and_recorded(text: Seq<u8>, es: Seq<WalkEntry>, x: int)
    requires
        plan_spec(text, es) is Some,
        files_unique(es),
        0 <= x < es.len(),
        is_file(es[x]),
        lookup(parse_manifest_spec(text)->0, entry_path(es[x])) is None,
    ensures
        exists|j: int|
            0 <= j < plan_ops(text, es).len() && #[trigger] plan_ops(text, es)[j]
                == OpView::Upload(entry_path(es[x]), x),
        lookup(plan_manifest(text, es), entry_path(es[x])) == Some(
            fresh_record(entry_content(es[x])),
        ),
{
    lemma_file_sent(text, es, x);
}

/// A listed file whose digest or length no longer matches its record is
/// sent, and the persisted record takes the new digest and length.
pub proof fn law_changed_file_sent_and_recorded(text: Seq<u8>, es: Seq<WalkEntry>, x: int)
    requires
        plan_spec(text, es) is Some,
        files_unique(es),
        0 <= x < es.len(),
        is_file(es[x]),
        lookup(parse_manifest_spec(text)->0, entry_path(es[x])) matches Some(r) && (r.sign
            != md5_hex(entry_content(es[x])) || r.len != entry_content(es[x]).len() as u64),
    ensures
        exists|j: int|
            0 <= j < plan_ops(text, es).len() && #[trigger] plan_ops(text, es)[j]
                == OpView::Upload(entry_path(es[x]), x),
        lookup(plan_manifest(text, es), entry_path(es[x])) == Some(
            fresh_record(entry_content(es[x])),
        ),
{
    lemma_file_sent(text, es, x);
}

/// A listed file whose length and digest both match its record is not sent.
pub proof fn law_unchanged_file_not_sent(text: Seq<u8>, es: Seq<WalkEntry>, x: int)
    requires
        plan_spec(text, es) is Some,
        files_unique(es),
        0 <= x < es.len(),
        is_file(es[x]),
        lookup(parse_manifest_spec(text)->0, entry_path(es[x])) matches Some(r) && r.sign
            == md5_hex(entry_content(es[x])) && r.len == entry_content(es[x]).len() as u64,
    ensures
        forall|j: int| 0 <= j < plan_ops(text, es).len() ==> op_entry(#[trigger] plan_ops(text, es)[j]) != x,
{
    let m0 = parse_manifest_spec(text)->0;
    lemma_parsed_shape(text);
    let w = walk_spec(m0, es);
    lemma_record_before(m0, es, x);
    lemma_walk_uploads(m0, es);
    lemma_plan_parts(text, es);
    let off: int = if text.len() == 0 { 1 } else { 0 };
    assert forall|j: int| 0 <= j < plan_ops(text, es).len() implies op_entry(#[trigger] plan_ops(text, es)[j]) != x by {
        let ops = plan_ops(text, es);
        if off <= j < off + w.1.len() {
            assert(ops[j] == w.1[j - off]);
        } else if j >= off + w.1.len() {
            let k = j - off - w.1.len();
            assert(ops[off + w.1.len() + k] == OpView::Delete(stale_paths(w.0)[k]));
        } else {
            assert(ops[j] == OpView::Purge);
        }
    }
}

/// A listed path that no local file has any more is deleted remotely, and
/// the persisted manifest no longer lists it.
pub proof fn law_removed_file_deleted(text: Seq<u8>, es: Seq<WalkEntry>, k: Seq<u8>)
    requires
        plan_spec(text, es) is Some,
        lookup(parse_manifest_spec(text)->0, k) is Some,
        no_file_at(es, k),
    ensures
        exists|j: int| 0 <= j < plan_ops(text, es).len() && #[trigger] plan_ops(text, es)[j] == OpView::Delete(k),
        lookup(plan_manifest(text, es), k) is None,
{
    let m0 = parse_manifest_spec(text)->0;
    lemma_parsed_shape(text);
    let w = walk_spec(m0, es);
    lemma_walk_frame(m0, es, k);
    crate::manifest::lemma_key_index_bounds(m0, k);
    lemma_stale_has(w.0, k);
    lemma_plan_parts(text, es);
    let j = choose|j: int| 0 <= j < stale_paths(w.0).len() && #[trigger] stale_paths(w.0)[j] == k;
    let off: int = if text.len() == 0 { 1 } else { 0 };
    assert(plan_ops(text, es)[off + w.1.len() + j] == OpView::Delete(k));
    lemma_prune_unique(w.0);
}

/// The separator between the fields of a line.
pub open spec fn sep_bytes() -> Seq<u8> {
    seq![32u8, 44u8, 32u8]
}

/// A path that the line format carries: no line feed, and no separator
/// that starts inside it, even one that runs on into the separator after it.
pub open spec fn path_safe(p: Seq<u8>) -> bool {
    &&& forall|i: int| 0 <= i < p.len() ==> #[trigger] p[i] != NEWLINE
    &&& forall|t: int| 0 <= t < p.len() ==> !sep_at(#[trigger] (p + sep_bytes()), t)
}

/// A signature that the line format carries: no space and no line feed.
pub open spec fn sign_safe(s: Seq<u8>) -> bool {
    forall|i: int| 0 <= i < s.len() ==> #[trigger] s[i] != 32u8 && s[i] != NEWLINE
}

/// Each record as it reads back from a record file: pending.
pub open spec fn mark_pending(m: Seq<(Seq<u8>, RecordView)>) -> Seq<(Seq<u8>, RecordView)> {
    m.map_values(
        |e: (Seq<u8>, RecordView)| (e.0, RecordView { sign: e.1.sign, len: e.1.len, pending: true }),
    )
}

/// One written line reads back as its record.
proof fn lemma_line_parses(
    k: Seq<u8>,
    r: RecordView,
    rest: Seq<u8>,
    acc: Seq<(Seq<u8>, RecordView)>,
)
    requires
        path_safe(k),
        sign_safe(r.sign),
    ensures
        parse_rest(record_line(k, r) + rest, acc) == parse_rest(
            rest,
            upsert(acc, k, RecordView { sign: r.sign, len: r.len, pending: true }),
        ),
{
    let sign = r.sign;
    let dec = decimal(r.len as nat);
    lemma_decimal_round_trip(r.len);
    let line = record_line(k, r);
    let body = sign + sep_bytes() + k + sep_bytes() + dec;
    assert(line =~= body.push(NEWLINE));
    let s = line + rest;
    let ls = sign.len() as int;
    let lk = k.len() as int;
    let a = ls;
    let b = ls + 3 + lk;
    assert forall|i: int| 0 <= i < ls implies body[i] == sign[i] by {}
    assert forall|j: int| 0 <= j < lk + 3 implies body[a + 3 + j] == #[trigger] (k + sep_bytes())[j] by {}
    assert forall|i: int| b + 3 <= i < body.len() implies body[i] == dec[i - b - 3] by {}
    assert forall|i: int| 0 <= i < body.len() implies #[trigger] body[i] != NEWLINE by {
        if i < ls {
            assert(body[i] == sign[i]);
        } else if i < a + 3 {
        } else if i < b {
            assert(body[i] == k[i - a - 3]);
        } else if i < b + 3 {
        } else {
            assert(is_digit(dec[i - b - 3]));
        }
    }
    assert forall|i: int| 0 <= i < body.len() implies s[i] == #[trigger] body[i] by {}
    lemma_first_newline_at(s, body.len() as int);
    assert(s.subrange(0, body.len() as int) =~= body);
    assert(s.subrange(body.len() + 1 as int, s.len() as int) =~= rest);
    // the three fields
    assert forall|i: int| 0 <= i < a implies !sep_at(body, i) by {
        assert(body[i] == sign[i]);
    }
    lemma_first_sep_skip(body, 0, a);
    assert(sep_at(body, a));
    assert forall|i: int| a + 3 <= i < b implies !sep_at(body, i) by {
        let t = i - a - 3;
        if sep_at(body, i) {
            assert(body[a + 3 + t] == (k + sep_bytes())[t]);
            assert(body[a + 3 + t + 1] == (k + sep_bytes())[t + 1]);
            assert(body[a + 3 + t + 2] == (k + sep_bytes())[t + 2]);
            assert(sep_at(k + sep_bytes(), t));
        }
    }
    lemma_first_sep_skip(body, a + 3, b);
    assert(body[b] == (k + sep_bytes())[lk]);
    assert(body[b + 1] == (k + sep_bytes())[lk + 1]);
    assert(body[b + 2] == (k + sep_bytes())[lk + 2]);
    assert(sep_at(body, b));
    assert forall|i: int| b + 3 <= i < body.len() implies !sep_at(body, i) by {
        assert(is_digit(dec[i - b - 3]));
    }
    lemma_first_sep_skip(body, b + 3, body.len() as int);
    assert(first_sep_from(body, body.len() as int) == body.len());
    assert(body.subrange(0, a) =~= sign);
    assert(body.subrange(a + 3, b) =~= k);
    assert(body.subrange(b + 3, body.len() as int) =~= dec);
    assert(parse_line_spec(body) == Some((sign, k, r.len)));
}

/// `serialize_spec` read from the front: the first line, then the rest.
proof fn lemma_serialize_front(m: Seq<(Seq<u8>, RecordView)>)
    requires
        m.len() > 0,
    ensures
        serialize_spec(m) == record_line(m[0].0, m[0].1) + serialize_spec(m.drop_first()),
    decreases m.len(),
{
    if m.len() == 1 {
        assert(m.drop_first() =~= Seq::<(Seq<u8>, RecordView)>::empty());
        assert(m.drop_last() =~= Seq::<(Seq<u8>, RecordView)>::empty());
        assert(serialize_spec(m.drop_last()) == Seq::<u8>::empty());
        assert(serialize_spec(m.drop_first()) == Seq::<u8>::empty());
        assert(m.last() == m[0]);
        assert(serialize_spec(m) =~= record_line(m[0].0, m[0].1) + serialize_spec(m.drop_first()));
    } else {
        let d = m.drop_last();
        lemma_serialize_front(d);
        assert(d.drop_first() =~= m.drop_first().drop_last());
        assert(m.drop_first().last() == m.last());
        assert(serialize_spec(m) =~= record_line(m[0].0, m[0].1) + serialize_spec(m.drop_first()));
    }
}

pub open spec fn manifest_safe(m: Seq<(Seq<u8>, RecordView)>) -> bool {
    forall|i: int| 0 <= i < m.len() ==> path_safe((#[trigger] m[i]).0) && sign_safe(m[i].1.sign)
}

proof fn lemma_round_trip_from(m: Seq<(Seq<u8>, RecordView)>, i: int)
    requires
        keys_unique(m),
        manifest_safe(m),
        0 <= i <= m.len(),
    ensures
        parse_rest(serialize_spec(m.subrange(i, m.len() as int)), mark_pending(m.subrange(0, i)))
            == Some(mark_pending(m)),
    decreases m.len() - i,
{
    let n = m.len() as int;
    if i == n {
        assert(m.subrange(0, i) =~= m);
        assert(m.subrange(i, n) =~= Seq::<(Seq<u8>, RecordView)>::empty());
    } else {
        let tail = m.subrange(i, n);
        lemma_serialize_front(tail);
        assert(tail.drop_first() =~= m.subrange(i + 1, n));
        assert(tail[0] == m[i]);
        let acc = mark_pending(m.subrange(0, i));
        lemma_line_parses(m[i].0, m[i].1, serialize_spec(m.subrange(i + 1, n)), acc);
        assert forall|j: int| 0 <= j < acc.len() implies (#[trigger] acc[j]).0 != m[i].0 by {
            assert(acc[j].0 == m[j].0);
        }
        lemma_key_index_at(acc, m[i].0, -1);
        assert(upsert(acc, m[i].0, RecordView { sign: m[i].1.sign, len: m[i].1.len, pending: true })
            =~= mark_pending(m.subrange(0, i + 1)));
        lemma_round_trip_from(m, i + 1);
    }
}

/// A written manifest whose paths and signatures the format carries reads
/// back as itself, each record pending.
pub proof fn lemma_round_trip(m: Seq<(Seq<u8>, RecordView)>)
    requires
        keys_unique(m),
        manifest_safe(m),
    ensures
        parse_manifest_spec(serialize_spec(m)) == Some(mark_pending(m)),
{
    lemma_round_trip_from(m, 0);
    assert(m.subrange(0, 0) =~= Seq::<(Seq<u8>, RecordView)>::empty());
    assert(mark_pending(Seq::<(Seq<u8>, RecordView)>::empty()) =~= Seq::<(Seq<u8>, RecordView)>::empty());
    assert(m.subrange(0, m.len() as int) =~= m);
}

/// Manifests with the same paths in the same places find a path at the
/// same place.
proof fn lemma_same_keys(m1: Seq<(Seq<u8>, RecordView)>, m2: Seq<(Seq<u8>, RecordView)>, k: Seq<u8>)
    requires
        m1.len() == m2.len(),
        forall|i: int| 0 <= i < m1.len() ==> (#[trigger] m1[i]).0 == m2[i].0,
    ensures
        key_index(m1, k) == key_index(m2, k),
    decreases m1.len(),
{
    if m1.len() > 0 {
        assert(m1.last().0 == m2.last().0);
        lemma_same_keys(m1.drop_last(), m2.drop_last(), k);
    }
}

/// A record that a walk from an all-pending manifest left not pending
/// belongs to a file of the walk.
proof fn lemma_walk_touched(m0: Seq<(Seq<u8>, RecordView)>, es: Seq<WalkEntry>)
    requires
        all_pending(m0),
    ensures
        forall|i: int|
            0 <= i < walk_spec(m0, es).0.len() && !(#[trigger] walk_spec(m0, es).0[i]).1.pending
                ==> exists|x: int|
                0 <= x < es.len() && is_file(#[trigger] es[x]) && entry_path(es[x])
                    == walk_spec(m0, es).0[i].0,
    decreases es.len(),
{
    if es.len() > 0 {
        let d = es.drop_last();
        lemma_walk_touched(m0, d);
        let prev = walk_spec(m0, d).0;
        let cur = walk_spec(m0, es).0;
        let n = es.len() - 1;
        assert forall|i: int| 0 <= i < cur.len() && !(#[trigger] cur[i]).1.pending implies exists|x: int|
            0 <= x < es.len() && is_file(#[trigger] es[x]) && entry_path(es[x]) == cur[i].0 by {
            match es.last() {
                WalkEntry::Dir { .. } => {
                    let x = choose|x: int| 0 <= x < d.len() && is_file(#[trigger] d[x]) && entry_path(d[x]) == cur[i].0;
                    assert(es[x] == d[x]);
                },
                WalkEntry::File { path, content } => {
                    crate::manifest::lemma_key_index_bounds(prev, path@);
                    if cur[i].0 == path@ {
                        assert(is_file(es[n]) && entry_path(es[n]) == cur[i].0);
                    } else {
                        assert(i < prev.len() && cur[i] == prev[i]);
                        let x = choose|x: int| 0 <= x < d.len() && is_file(#[trigger] d[x]) && entry_path(d[x]) == cur[i].0;
                        assert(es[x] == d[x]);
                    }
                },
            }
        }
    }
}

/// A walk whose every file is already listed keeps each path in its place.
proof fn lemma_walk_keeps_keys(m0: Seq<(Seq<u8>, RecordView)>, es: Seq<WalkEntry>)
    requires
        forall|x: int| 0 <= x < es.len() && is_file(#[trigger] es[x]) ==> key_index(m0, entry_path(es[x])) >= 0,
    ensures
        walk_spec(m0, es).0.len() == m0.len(),
        forall|i: int| 0 <= i < m0.len() ==> (#[trigger] walk_spec(m0, es).0[i]).0 == m0[i].0,
    decreases es.len(),
{
    if es.len() > 0 {
        let d = es.drop_last();
        assert forall|x: int| 0 <= x < d.len() && is_file(#[trigger] d[x]) implies key_index(m0, entry_path(d[x])) >= 0 by {
            assert(es[x] == d[x]);
        }
        lemma_walk_keeps_keys(m0, d);
        let prev = walk_spec(m0, d).0;
        match es.last() {
            WalkEntry::Dir { .. } => {},
            WalkEntry::File { path, .. } => {
                assert(is_file(es[es.len() - 1]));
                lemma_same_keys(prev, m0, path@);
                crate::manifest::lemma_key_index_bounds(prev, path@);
            },
        }
    }
}

/// With no record pending, pruning keeps everything and nothing is stale.
proof fn lemma_none_pending(m: Seq<(Seq<u8>, RecordView)>)
    requires
        forall|i: int| 0 <= i < m.len() ==> !(#[trigger] m[i]).1.pending,
    ensures
        prune(m) == m,
        stale_paths(m).len() == 0,
    decreases m.len(),
{
    if m.len() > 0 {
        let d = m.drop_last();
        assert forall|i: int| 0 <= i < d.len() implies !(#[trigger] d[i]).1.pending by {
            assert(d[i] == m[i]);
        }
        lemma_none_pending(d);
        assert(d.push(m.last()) =~= m);
    }
}

/// A second run over the same local tree sends nothing, deletes nothing and
/// writes back the same record file. Paths and signatures must be ones the
/// line format carries.
pub proof fn law_second_run_changes_nothing(text: Seq<u8>, es: Seq<WalkEntry>)
    requires
        plan_spec(text, es) is Some,
        files_unique(es),
        forall|x: int|
            0 <= x < es.len() && is_file(#[trigger] es[x]) ==> path_safe(entry_path(es[x]))
                && sign_safe(md5_hex(entry_content(es[x]))),
    ensures
        plan_spec(serialize_spec(plan_manifest(text, es)), es) is Some,
        forall|j: int|
            0 <= j < plan_ops(serialize_spec(plan_manifest(text, es)), es).len() ==> !(
            #[trigger] plan_ops(serialize_spec(plan_manifest(text, es)), es)[j] is Upload) && !(plan_ops(
                serialize_spec(plan_manifest(text, es)),
                es,
            )[j] is Delete),
        serialize_spec(plan_manifest(serialize_spec(plan_manifest(text, es)), es)) == serialize_spec(
            plan_manifest(text, es),
        ),
{
    let m0 = parse_manifest_spec(text)->0;
    lemma_parsed_shape(text);
    let w1 = walk_spec(m0, es).0;
    lemma_walk_frame(m0, es, Seq::empty());
    lemma_prune_unique(w1);
    lemma_plan_parts(text, es);
    let m1 = prune(w1);
    lemma_walk_touched(m0, es);
    // every file is listed in the persisted manifest with its fresh record
    assert forall|x: int| 0 <= x < es.len() && is_file(#[trigger] es[x]) implies lookup(
        m1,
        entry_path(es[x]),
    ) == Some(fresh_record(entry_content(es[x]))) by {
        lemma_walk_records(m0, es, x);
    }
    // every record of it is the fresh record of a file
    assert forall|i: int| 0 <= i < m1.len() implies exists|x: int|
        0 <= x < es.len() && is_file(#[trigger] es[x]) && entry_path(es[x]) == (#[trigger] m1[i]).0 && m1[i].1
            == fresh_record(entry_content(es[x])) by {
        crate::manifest::lemma_unique_key_index(m1, i);
        let k = m1[i].0;
        crate::manifest::lemma_key_index_bounds(w1, k);
        let wi = key_index(w1, k);
        assert(lookup(prune(w1), k) == Some(m1[i].1));
        assert(lookup(w1, k) == Some(m1[i].1));
        assert(wi >= 0);
        assert(!w1[wi].1.pending);
        let x = choose|x: int| 0 <= x < es.len() && is_file(#[trigger] es[x]) && entry_path(es[x]) == w1[wi].0;
        assert(lookup(m1, entry_path(es[x])) == Some(fresh_record(entry_content(es[x]))));
    }
    assert(manifest_safe(m1)) by {
        assert forall|i: int| 0 <= i < m1.len() implies path_safe((#[trigger] m1[i]).0) && sign_safe(m1[i].1.sign) by {
            let x = choose|x: int|
                0 <= x < es.len() && is_file(#[trigger] es[x]) && entry_path(es[x]) == m1[i].0 && m1[i].1
                    == fresh_record(entry_content(es[x]));
        }
    }
    let t1 = serialize_spec(m1);
    lemma_round_trip(m1);
    let n0 = mark_pending(m1);
    assert(parse_manifest_spec(t1) == Some(n0));
    assert forall|i: int| 0 <= i < n0.len() implies (#[trigger] n0[i]).0 == m1[i].0 by {}
    assert(keys_unique(n0));
    // the second walk
    let w2 = walk_spec(n0, es);
    assert forall|x: int| 0 <= x < es.len() && is_file(#[trigger] es[x]) implies key_index(n0, entry_path(es[x])) >= 0 && lookup(n0, entry_path(es[x]))
        == Some(RecordView { pending: true, ..fresh_record(entry_content(es[x])) }) by {
        let p = entry_path(es[x]);
        lemma_same_keys(n0, m1, p);
        crate::manifest::lemma_key_index_bounds(m1, p);
        let idx = key_index(m1, p);
        assert(n0[idx].1 == RecordView { pending: true, ..m1[idx].1 });
    }
    lemma_walk_keeps_keys(n0, es);
    lemma_walk_frame(n0, es, Seq::empty());
    lemma_walk_uploads(n0, es);
    lemma_plan_parts(t1, es);
    assert forall|j: int| 0 <= j < w2.1.len() implies !(#[trigger] w2.1[j] is Upload) by {
        if w2.1[j] is Upload {
            let x = op_entry(w2.1[j]);
            lemma_record_before(n0, es, x);
        }
    }
    assert forall|i: int| 0 <= i < m1.len() implies #[trigger] w2.0[i] == m1[i] by {
        let x = choose|x: int|
            0 <= x < es.len() && is_file(#[trigger] es[x]) && entry_path(es[x]) == m1[i].0 && m1[i].1
                == fresh_record(entry_content(es[x]));
        lemma_walk_records(n0, es, x);
        crate::manifest::lemma_unique_key_index(w2.0, i);
    }
    assert(w2.0 =~= m1);
    lemma_none_pending(m1);
    assert(forall|i: int| 0 <= i < m1.len() ==> !(#[trigger] m1[i]).1.pending);
    assert(stale_paths(w2.0).len() == 0);
    let ops2 = plan_ops(t1, es);
    let off: int = if t1.len() == 0 { 1 } else { 0 };
    assert forall|j: int| 0 <= j < ops2.len() implies !(#[trigger] ops2[j] is Upload) && !(ops2[j] is Delete) by {
        if off <= j {
            assert(ops2[off + (j - off)] == w2.1[j - off]);
        } else {
            assert(ops2[j] == OpView::Purge);
        }
    }
}

} // verus!
