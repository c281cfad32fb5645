//! The manifest: what the previous run left on the remote side, one record
//! per relative path, and how a run reads, updates and writes it.
use vstd::prelude::*;
use vstd::slice::{slice_subrange, slice_to_vec};
use crate::fingerprint::{fingerprint, md5_hex};
use crate::text::{
    decimal, find_newline, find_sep, first_newline, first_sep_from, parse_u64, parse_u64_spec,
    push_decimal, NEWLINE,
};

verus! {

/// What is known of one synced file.
#[derive(Debug, Clone, PartialEq, Eq)]
pub struct Record {
    /// Digest of the contents last sent, as lowercase hex.
    pub sign: Vec<u8>,
    /// Length in bytes of the contents last sent.
    pub len: u64,
    /// Set while a run has not yet met the file; never written out.
    pub pending_deletion: bool,
}

/// One line of the manifest: a relative path and its record.
#[derive(Debug, Clone, PartialEq, Eq)]
pub struct Entry {
    pub path: Vec<u8>,
    pub record: Record,
}

/// The records of one run, each path at most once.
#[derive(Debug, Clone, PartialEq, Eq)]
pub struct Manifest {
    pub entries: Vec<Entry>,
}

/// The model of a record.
pub struct RecordView {
    pub sign: Seq<u8>,
    pub len: u64,
    pub pending: bool,
}

impl Record {
    pub open spec fn view(&self) -> RecordView {
        RecordView { sign: self.sign@, len: self.len, pending: self.pending_deletion }
    }
}

impl Entry {
    pub open spec fn view(&self) -> (Seq<u8>, RecordView) {
        (self.path@, self.record.view())
    }
}

impl Manifest {
    pub open spec fn view(&self) -> Seq<(Seq<u8>, RecordView)> {
        self.entries@.map_values(|e: Entry| e.view())
    }

    pub open spec fn wf(&self) -> bool {
        keys_unique(self.view())
    }
}

/// Why a manifest could not be read.
#[derive(Debug, PartialEq, Eq)]
pub enum ManifestParseError {
    /// The line with this index (from zero) lacks a field or holds a bad length.
    BadLine { line: usize },
}

// ---------------------------------------------------------------------------
// The model
// ---------------------------------------------------------------------------

pub open spec fn keys_unique(m: Seq<(Seq<u8>, RecordView)>) -> bool {
    forall|i: int, j: int| 0 <= i < j < m.len() ==> (#[trigger] m[i]).0 != (#[trigger] m[j]).0
}

/// Position of the last record for `k`, or -1.
pub open spec fn key_index(m: Seq<(Seq<u8>, RecordView)>, k: Seq<u8>) -> int
    decreases m.len(),
{
    if m.len() == 0 {
        -1
    } else if m.last().0 == k {
        m.len() - 1
    } else {
        key_index(m.drop_last(), k)
    }
}

/// The record for `k`, if there is one.
pub open spec fn lookup(m: Seq<(Seq<u8>, RecordView)>, k: Seq<u8>) -> Option<RecordView> {
    let i = key_index(m, k);
    if i >= 0 {
        Some(m[i].1)
    } else {
        None
    }
}

/// Replaces the record for `k`, or appends one.
pub open spec fn upsert(m: Seq<(Seq<u8>, RecordView)>, k: Seq<u8>, r: RecordView) -> Seq<
    (Seq<u8>, RecordView),
> {
    let i = key_index(m, k);
    if i >= 0 {
        m.update(i, (k, r))
    } else {
        m.push((k, r))
    }
}

/// The fields of one line `<sign> , <path> , <len>`: text after a third
/// separator is ignored.
pub open spec fn parse_line_spec(line: Seq<u8>) -> Option<(Seq<u8>, Seq<u8>, u64)> {
    let a = first_sep_from(line, 0);
    let b = first_sep_from(line, a + 3);
    let c = first_sep_from(line, b + 3);
    if a >= line.len() || b >= line.len() {
        None
    } else {
        match parse_u64_spec(line.subrange(b + 3, c)) {
            Some(n) => Some((line.subrange(0, a), line.subrange(a + 3, b), n)),
            None => None,
        }
    }
}

/// Reads the lines of `s` into `acc`; a record read later replaces an
/// earlier one for the same path.
pub open spec fn parse_rest(s: Seq<u8>, acc: Seq<(Seq<u8>, RecordView)>) -> Option<
    Seq<(Seq<u8>, RecordView)>,
>
    decreases s.len(),
{
    if s.len() == 0 {
        Some(acc)
    } else {
        let e = first_newline(s);
        let rest = if e < s.len() {
            s.subrange(e + 1 as int, s.len() as int)
        } else {
            Seq::<u8>::empty()
        };
        match parse_line_spec(s.subrange(0, e as int)) {
            None => None,
            Some(t) => parse_rest(
                rest,
                upsert(acc, t.1, RecordView { sign: t.0, len: t.2, pending: true }),
            ),
        }
    }
}

/// The index, from zero, of the first line of `s` that does not parse;
/// the number of lines when all of them do.
pub open spec fn bad_line(s: Seq<u8>) -> nat
    decreases s.len(),
{
    if s.len() == 0 {
        0
    } else {
        let e = first_newline(s);
        let rest = if e < s.len() {
            s.subrange(e + 1 as int, s.len() as int)
        } else {
            Seq::<u8>::empty()
        };
        if parse_line_spec(s.subrange(0, e as int)) is None {
            0
        } else {
            1 + bad_line(rest)
        }
    }
}

/// The manifest that a record file holds, each record pending.
pub open spec fn parse_manifest_spec(text: Seq<u8>) -> Option<Seq<(Seq<u8>, RecordView)>> {
    parse_rest(text, Seq::empty())
}

/// The line that stands for one record.
pub open spec fn record_line(path: Seq<u8>, r: RecordView) -> Seq<u8> {
    r.sign + seq![32u8, 44u8, 32u8] + path + seq![32u8, 44u8, 32u8] + decimal(r.len as nat)
        + seq![NEWLINE]
}

/// The text of a manifest, one line per record in order.
pub open spec fn serialize_spec(m: Seq<(Seq<u8>, RecordView)>) -> Seq<u8>
    decreases m.len(),
{
    if m.len() == 0 {
        Seq::empty()
    } else {
        serialize_spec(m.drop_last()) + record_line(m.last().0, m.last().1)
    }
}

/// The paths still pending, in order.
pub open spec fn stale_paths(m: Seq<(Seq<u8>, RecordView)>) -> Seq<Seq<u8>>
    decreases m.len(),
{
    if m.len() == 0 {
        Seq::empty()
    } else if m.last().1.pending {
        stale_paths(m.drop_last()).push(m.last().0)
    } else {
        stale_paths(m.drop_last())
    }
}

/// The records no longer pending, in order.
pub open spec fn prune(m: Seq<(Seq<u8>, RecordView)>) -> Seq<(Seq<u8>, RecordView)>
    decreases m.len(),
{
    if m.len() == 0 {
        Seq::empty()
    } else if m.last().1.pending {
        prune(m.drop_last())
    } else {
        prune(m.drop_last()).push(m.last())
    }
}

/// Whether a file must be sent: it is new, or its length or digest changed.
pub open spec fn needs_upload(m: Seq<(Seq<u8>, RecordView)>, path: Seq<u8>, sign: Seq<u8>, len: u64) -> bool {
    match lookup(m, path) {
        None => true,
        Some(r) => !(r.len == len && r.sign == sign),
    }
}

/// The manifest after meeting a file with this digest and length.
pub open spec fn classify_spec(m: Seq<(Seq<u8>, RecordView)>, path: Seq<u8>, sign: Seq<u8>, len: u64) -> Seq<
    (Seq<u8>, RecordView),
> {
    upsert(m, path, RecordView { sign, len, pending: false })
}

// ---------------------------------------------------------------------------
// Lemmas on the model
// ---------------------------------------------------------------------------

pub proof fn lemma_key_index_at(m: Seq<(Seq<u8>, RecordView)>, k: Seq<u8>, i: int)
    requires
        -1 <= i < m.len(),
        i >= 0 ==> m[i].0 == k,
        forall|j: int| i < j < m.len() ==> (#[trigger] m[j]).0 != k,
    ensures
        key_index(m, k) == i,
    decreases m.len(),
{
    if m.len() > 0 && i < m.len() - 1 {
        lemma_key_index_at(m.drop_last(), k, i);
    }
}

pub proof fn lemma_key_index_bounds(m: Seq<(Seq<u8>, RecordView)>, k: Seq<u8>)
    ensures
        -1 <= key_index(m, k) < m.len(),
        key_index(m, k) >= 0 ==> m[key_index(m, k)].0 == k,
        key_index(m, k) < 0 ==> forall|j: int| 0 <= j < m.len() ==> (#[trigger] m[j]).0 != k,
    decreases m.len(),
{
    if m.len() > 0 {
        lemma_key_index_bounds(m.drop_last(), k);
        if m.last().0 != k {
            assert forall|j: int| 0 <= j < m.len() - 1 implies m.drop_last()[j] == m[j] by {}
        }
    }
}

/// With unique keys, the record at a position is the one found for its key.
pub proof fn lemma_unique_key_index(m: Seq<(Seq<u8>, RecordView)>, i: int)
    requires
        keys_unique(m),
        0 <= i < m.len(),
    ensures
        key_index(m, m[i].0) == i,
{
    lemma_key_index_at(m, m[i].0, i);
}

pub proof fn lemma_upsert_unique(m: Seq<(Seq<u8>, RecordView)>, k: Seq<u8>, r: RecordView)
    requires
        keys_unique(m),
    ensures
        keys_unique(upsert(m, k, r)),
        lookup(upsert(m, k, r), k) == Some(r),
        forall|k2: Seq<u8>| k2 != k ==> lookup(upsert(m, k, r), k2) == #[trigger] lookup(m, k2),
{
    lemma_key_index_bounds(m, k);
    let u = upsert(m, k, r);
    let i = key_index(m, k);
    if i >= 0 {
        assert(u.len() == m.len());
        assert forall|a: int, b: int| 0 <= a < b < u.len() implies (#[trigger] u[a]).0 != (
        #[trigger] u[b]).0 by {
            if a != i && b != i {
                assert(u[a] == m[a] && u[b] == m[b]);
            } else if a == i {
                assert(m[a].0 == k && u[b] == m[b]);
            } else {
                assert(m[b].0 == k && u[a] == m[a]);
            }
        }
        lemma_unique_key_index(u, i);
        assert forall|k2: Seq<u8>| k2 != k implies lookup(u, k2) == #[trigger] lookup(m, k2) by {
            lemma_key_index_bounds(m, k2);
            let j = key_index(m, k2);
            if j >= 0 {
                assert(u[j] == m[j]);
                lemma_unique_key_index(u, j);
            } else {
                lemma_key_index_at(u, k2, -1);
            }
        }
    } else {
        assert forall|a: int, b: int| 0 <= a < b < u.len() implies (#[trigger] u[a]).0 != (
        #[trigger] u[b]).0 by {
            if b < m.len() {
                assert(u[a] == m[a] && u[b] == m[b]);
            } else {
                assert(u[a] == m[a]);
            }
        }
        lemma_key_index_at(u, k, u.len() - 1);
        assert(u.drop_last() =~= m);
        assert forall|k2: Seq<u8>| k2 != k implies lookup(u, k2) == #[trigger] lookup(m, k2) by {
            lemma_key_index_bounds(m, k2);
            let j = key_index(m, k2);
            if j >= 0 {
                assert(u[j] == m[j]);
            }
        }
    }
}

// ---------------------------------------------------------------------------
// Executable code
// ---------------------------------------------------------------------------

/// Byte-for-byte equality.
pub fn bytes_eq(a: &[u8], b: &[u8]) -> (r: bool)
    ensures
        r == (a@ == b@),
{
    if a.len() != b.len() {
        return false;
    }
    let mut i: usize = 0;
    while i < a.len()
        invariant
            a@.len() == b@.len(),
            i <= a@.len(),
            forall|j: int| 0 <= j < i ==> a@[j] == b@[j],
        decreases a@.len() - i,
    {
        if a[i] != b[i] {
            return false;
        }
        i = i + 1;
    }
    assert(a@ =~= b@);
    true
}

/// The fields of one manifest line.
pub fn parse_line(line: &[u8]) -> (r: Option<(Vec<u8>, Vec<u8>, u64)>)
    ensures
        match r {
            Some(t) => parse_line_spec(line@) == Some((t.0@, t.1@, t.2)),
            None => parse_line_spec(line@) is None,
        },
{
    let n = line.len();
    let a = find_sep(line, 0);
    if a >= n {
        return None;
    }
    let b = find_sep(line, a + 3);
    if b >= n {
        return None;
    }
    let c = find_sep(line, b + 3);
    match parse_u64(slice_subrange(line, b + 3, c)) {
        Some(len) => {
            let sign = slice_to_vec(slice_subrange(line, 0, a));
            let path = slice_to_vec(slice_subrange(line, a + 3, b));
            Some((sign, path, len))
        },
        None => None,
    }
}

impl Manifest {
    /// A manifest with no records.
    pub fn new() -> (r: Manifest)
        ensures
            r@ == Seq::<(Seq<u8>, RecordView)>::empty(),
            r.wf(),
    {
        let r = Manifest { entries: Vec::new() };
        assert(r@ =~= Seq::<(Seq<u8>, RecordView)>::empty());
        r
    }

    /// Position of the record for `path`.
    fn position(&self, path: &[u8]) -> (r: Option<usize>)
        ensures
            match r {
                Some(i) => i < self@.len() && key_index(self@, path@) == i,
                None => key_index(self@, path@) == -1,
            },
    {
        let mut i = self.entries.len();
        while i > 0
            invariant
                i <= self.entries@.len(),
                forall|j: int| i <= j < self@.len() ==> (#[trigger] self@[j]).0 != path@,
            decreases i,
        {
            i = i - 1;
            if bytes_eq(self.entries[i].path.as_slice(), path) {
                proof {
                    lemma_key_index_at(self@, path@, i as int);
                }
                return Some(i);
            }
        }
        proof {
            lemma_key_index_at(self@, path@, -1);
        }
        None
    }

    /// Puts the record for `path` in place of the one there, or appends it.
    pub fn upsert(&mut self, path: Vec<u8>, record: Record)
        requires
            old(self).wf(),
        ensures
            final(self).wf(),
            final(self)@ == upsert(old(self)@, path@, record.view()),
    {
        proof {
            lemma_upsert_unique(self@, path@, record.view());
        }
        let ghost e = Entry { path, record };
        match self.position(path.as_slice()) {
            Some(i) => {
                self.entries[i] = Entry { path, record };
            },
            None => {
                self.entries.push(Entry { path, record });
            },
        }
        assert(self@ =~= upsert(old(self)@, e.path@, e.record.view()));
    }

    /// Reads a record file. Every record comes back pending; an empty file
    /// gives an empty manifest.
    pub fn parse(text: &[u8]) -> (r: Result<Manifest, ManifestParseError>)
        ensures
            match r {
                Ok(m) => m.wf() && parse_manifest_spec(text@) == Some(m@),
                Err(ManifestParseError::BadLine { line }) => {
                    &&& parse_manifest_spec(text@) is None
                    &&& line == bad_line(text@)
                },
            },
    {
        let n = text.len();
        let mut m = Manifest::new();
        let mut i: usize = 0;
        let mut line_no: usize = 0;
        assert(text@.subrange(0, n as int) =~= text@);
        while i < n
            invariant
                i <= n,
                n == text@.len(),
                m.wf(),
                parse_manifest_spec(text@) == parse_rest(text@.subrange(i as int, n as int), m@),
                line_no <= i,
                bad_line(text@) == line_no + bad_line(text@.subrange(i as int, n as int)),
            decreases n - i,
        {
            let e = find_newline(text, i);
            let ghost s = text@.subrange(i as int, n as int);
            assert(s.subrange(0, (e - i) as int) =~= text@.subrange(i as int, e as int));
            assert(e < n ==> s.subrange(e - i + 1, s.len() as int) =~= text@.subrange(
                e + 1,
                n as int,
            ));
            match parse_line(slice_subrange(text, i, e)) {
                None => {
                    return Err(ManifestParseError::BadLine { line: line_no });
                },
                Some(t) => {
                    let (sign, path, len) = t;
                    m.upsert(path, Record { sign, len, pending_deletion: true });
                },
            }
            if e < n {
                i = e + 1;
            } else {
                i = n;
                assert(text@.subrange(i as int, n as int) =~= Seq::<u8>::empty());
            }
            line_no = line_no + 1;
        }
        assert(text@.subrange(i as int, n as int) =~= Seq::<u8>::empty());
        Ok(m)
    }

    /// Meets a local file whose digest is `sign` and whose length is `len`:
    /// records them, clears the pending mark, and says whether the file must
    /// be sent.
    pub fn classify_signed(&mut self, path: &[u8], sign: Vec<u8>, len: u64) -> (r: Action)
        requires
            old(self).wf(),
        ensures
            final(self).wf(),
            final(self)@ == classify_spec(old(self)@, path@, sign@, len),
            (r == Action::Upload) == needs_upload(old(self)@, path@, sign@, len),
    {
        let upload = match self.position(path) {
            Some(i) => {
                let rec = &self.entries[i].record;
                !(rec.len == len && bytes_eq(rec.sign.as_slice(), sign.as_slice()))
            },
            None => true,
        };
        self.upsert(slice_to_vec(path), Record { sign, len, pending_deletion: false });
        if upload {
            Action::Upload
        } else {
            Action::Skip
        }
    }

    /// Meets a local file with these contents: see `classify_signed`.
    pub fn classify(&mut self, path: &[u8], content: &[u8]) -> (r: Action)
        requires
            old(self).wf(),
        ensures
            final(self).wf(),
            final(self)@ == classify_spec(
                old(self)@,
                path@,
                md5_hex(content@),
                content@.len() as u64,
            ),
            (r == Action::Upload) == needs_upload(
                old(self)@,
                path@,
                md5_hex(content@),
                content@.len() as u64,
            ),
    {
        let (sign, len) = fingerprint(content);
        self.classify_signed(path, sign, len)
    }

    /// Takes out the records still pending and gives back their paths, in
    /// manifest order.
    pub fn take_stale(&mut self) -> (r: Vec<Vec<u8>>)
        requires
            old(self).wf(),
        ensures
            final(self).wf(),
            final(self)@ == prune(old(self)@),
            r@.map_values(|p: Vec<u8>| p@) == stale_paths(old(self)@),
    {
        let ghost m0 = self@;
        let old_entries = &self.entries;
        assert(old_entries@.map_values(|e: Entry| e.view()) == m0);
        let mut kept: Vec<Entry> = Vec::new();
        let mut stale: Vec<Vec<u8>> = Vec::new();
        let mut i: usize = 0;
        while i < old_entries.len()
            invariant
                i <= old_entries@.len(),
                m0 == old_entries@.map_values(|e: Entry| e.view()),
                keys_unique(m0),
                kept@.map_values(|e: Entry| e.view()) == prune(m0.subrange(0, i as int)),
                stale@.map_values(|p: Vec<u8>| p@) == stale_paths(m0.subrange(0, i as int)),
            decreases old_entries@.len() - i,
        {
            let ghost pre = m0.subrange(0, i as int);
            assert(m0.subrange(0, i + 1).drop_last() =~= pre);
            let e = &old_entries[i];
            if e.record.pending_deletion {
                stale.push(slice_to_vec(e.path.as_slice()));
            } else {
                kept.push(Entry {
                    path: slice_to_vec(e.path.as_slice()),
                    record: Record {
                        sign: slice_to_vec(e.record.sign.as_slice()),
                        len: e.record.len,
                        pending_deletion: false,
                    },
                });
            }
            assert(kept@.map_values(|e: Entry| e.view()) =~= prune(m0.subrange(0, i + 1)));
            assert(stale@.map_values(|p: Vec<u8>| p@) =~= stale_paths(m0.subrange(0, i + 1)));
            i = i + 1;
        }
        assert(m0.subrange(0, i as int) =~= m0);
        self.entries = kept;
        proof {
            lemma_prune_unique(m0);
        }
        stale
    }

    /// The text of the record file: one line per record, in order.
    pub fn serialize(&self) -> (r: Vec<u8>)
        ensures
            r@ == serialize_spec(self@),
    {
        let mut out: Vec<u8> = Vec::new();
        let mut i: usize = 0;
        while i < self.entries.len()
            invariant
                i <= self@.len(),
                self@.len() == self.entries@.len(),
                out@ == serialize_spec(self@.subrange(0, i as int)),
            decreases self@.len() - i,
        {
            assert(self@.subrange(0, i + 1).drop_last() =~= self@.subrange(0, i as int));
            let e = &self.entries[i];
            let ghost before = out@;
            let mut j: usize = 0;
            while j < e.record.sign.len()
                invariant
                    j <= e.record.sign@.len(),
                    out@ == before + e.record.sign@.subrange(0, j as int),
                decreases e.record.sign@.len() - j,
            {
                out.push(e.record.sign[j]);
                assert(out@ =~= before + e.record.sign@.subrange(0, j + 1));
                j = j + 1;
            }
            out.push(32u8);
            out.push(44u8);
            out.push(32u8);
            let ghost mid = out@;
            j = 0;
            while j < e.path.len()
                invariant
                    j <= e.path@.len(),
                    out@ == mid + e.path@.subrange(0, j as int),
                decreases e.path@.len() - j,
            {
                out.push(e.path[j]);
                assert(out@ =~= mid + e.path@.subrange(0, j + 1));
                j = j + 1;
            }
            out.push(32u8);
            out.push(44u8);
            out.push(32u8);
            push_decimal(&mut out, e.record.len);
            out.push(NEWLINE);
            assert(e.record.sign@.subrange(0, e.record.sign@.len() as int) =~= e.record.sign@);
            assert(e.path@.subrange(0, e.path@.len() as int) =~= e.path@);
            assert(out@ =~= serialize_spec(self@.subrange(0, i + 1)));
            i = i + 1;
        }
        assert(self@.subrange(0, i as int) =~= self@);
        out
    }
}

/// What a run does with one local file.
#[derive(Debug, PartialEq, Eq, Clone, Copy, Structural)]
pub enum Action {
    /// Send the file: it is new or it changed.
    Upload,
    /// Leave the remote copy as it is.
    Skip,
}

pub proof fn lemma_prune_unique(m: Seq<(Seq<u8>, RecordView)>)
    requires
        keys_unique(m),
    ensures
        keys_unique(prune(m)),
        forall|k: Seq<u8>| #[trigger] lookup(prune(m), k) == (match lookup(m, k) {
            Some(r) => if r.pending { None } else { Some(r) },
            None => None,
        }),
        forall|i: int| 0 <= i < prune(m).len() ==> !(#[trigger] prune(m)[i]).1.pending,
    decreases m.len(),
{
    if m.len() > 0 {
        let d = m.drop_last();
        assert(keys_unique(d)) by {
            assert forall|a: int, b: int| 0 <= a < b < d.len() implies (#[trigger] d[a]).0 != (
            #[trigger] d[b]).0 by {
                assert(d[a] == m[a] && d[b] == m[b]);
            }
        }
        lemma_prune_unique(d);
        lemma_prune_keys(d);
        let p = prune(d);
        let x = m.last();
        assert forall|j: int| 0 <= j < d.len() implies (#[trigger] d[j]).0 != x.0 by {
            assert(d[j] == m[j]);
        }
        assert(key_index(d, x.0) == -1) by {
            lemma_key_index_at(d, x.0, -1);
        }
        if !x.1.pending {
            let q = p.push(x);
            assert forall|j: int| 0 <= j < p.len() implies (#[trigger] p[j]).0 != x.0 by {
                lemma_key_index_bounds(d, p[j].0);
            }
            assert(keys_unique(q)) by {
                assert forall|a: int, b: int| 0 <= a < b < q.len() implies (#[trigger] q[a]).0
                    != (#[trigger] q[b]).0 by {
                    if b < p.len() {
                        assert(q[a] == p[a] && q[b] == p[b]);
                    } else {
                        assert(q[a] == p[a]);
                    }
                }
            }
            assert(q.drop_last() =~= p);
            assert forall|k: Seq<u8>| #[trigger] lookup(q, k) == (match lookup(m, k) {
                Some(r) => if r.pending { None } else { Some(r) },
                None => None,
            }) by {
                assert(m.drop_last() == d);
                if k != x.0 {
                    lemma_key_index_bounds(p, k);
                    let j = key_index(p, k);
                    if j >= 0 {
                        assert(q[j] == p[j]);
                    }
                    assert(lookup(q, k) == lookup(p, k));
                    lemma_key_index_bounds(d, k);
                    let j2 = key_index(d, k);
                    if j2 >= 0 {
                        assert(m[j2] == d[j2]);
                    }
                }
            }
        } else {
            assert forall|k: Seq<u8>| #[trigger] lookup(p, k) == (match lookup(m, k) {
                Some(r) => if r.pending { None } else { Some(r) },
                None => None,
            }) by {
                if k != x.0 {
                    lemma_key_index_bounds(d, k);
                    let j2 = key_index(d, k);
                    if j2 >= 0 {
                        assert(m[j2] == d[j2]);
                    }
                } else {
                    lemma_key_index_bounds(p, k);
                    if key_index(p, k) >= 0 {
                        lemma_key_index_bounds(d, p[key_index(p, k)].0);
                    }
                }
            }
        }
    }
}

/// Every key of the pruned manifest is a key of the manifest.
pub proof fn lemma_prune_keys(m: Seq<(Seq<u8>, RecordView)>)
    ensures
        forall|j: int| 0 <= j < prune(m).len() ==> key_index(m, (#[trigger] prune(m)[j]).0) >= 0,
    decreases m.len(),
{
    if m.len() > 0 {
        let d = m.drop_last();
        lemma_prune_keys(d);
        let p = prune(d);
        assert forall|j: int| 0 <= j < prune(m).len() implies key_index(m, (
        #[trigger] prune(m)[j]).0) >= 0 by {
            let k = prune(m)[j].0;
            if j < p.len() {
                assert(prune(m)[j] == p[j]);
                lemma_key_index_bounds(d, k);
                if m.last().0 != k {
                    lemma_key_index_bounds(m, k);
                }
            }
        }
    }
}

} // verus!
