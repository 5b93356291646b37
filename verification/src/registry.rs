//! The known-file registry: discovers eligible files under a root,
//! assigns each a stable integer id, and tracks presence across rescans.
//! Ids are never changed or reused; files discovered in one rescan get
//! increasing ids in ascending modification-time order.
use vstd::prelude::*;
use vstd::string::StringSliceAdditionalSpecFns;
use vstd::utf8::encode_utf8;

use crate::paths::{has_ext_spec, is_excluded_spec, HasExtension};

verus! {

/// Model of one tracked file.
pub ghost struct RecordModel {
    pub path: Seq<char>,
    pub present: bool,
    pub id: int,
}

/// One tracked file: its path relative to the watched root, whether the
/// latest rescan saw it, and its stable identifier.
pub struct FileRecord {
    pub path: String,
    pub present: bool,
    pub id: usize,
}

impl View for FileRecord {
    type V = RecordModel;

    open spec fn view(&self) -> RecordModel {
        RecordModel { path: self.path@, present: self.present, id: self.id as int }
    }
}

impl DeepView for FileRecord {
    type V = RecordModel;

    open spec fn deep_view(&self) -> RecordModel {
        self.view()
    }
}

/// A path is eligible for discovery when it has the watched extension
/// and matches no exclusion suffix.
pub open spec fn eligible(path: Seq<char>, excluded: Seq<Seq<char>>) -> bool {
    &&& has_ext_spec(encode_utf8(path), encode_utf8("csv"@))
    &&& forall|k: int|
        0 <= k < excluded.len() ==> !is_excluded_spec(
            encode_utf8(path),
            encode_utf8(#[trigger] excluded[k]),
        )
}

/// The scan entries have one entry per path.
pub open spec fn entries_distinct(es: Seq<(Seq<char>, u64)>) -> bool {
    forall|i: int, j: int| 0 <= i < j < es.len() ==> (#[trigger] es[i]).0 != (#[trigger] es[j]).0
}

/// A path is in the fresh set of a rescan when it is eligible and some
/// scan entry carries it.
pub open spec fn in_fresh(
    es: Seq<(Seq<char>, u64)>,
    excluded: Seq<Seq<char>>,
    path: Seq<char>,
) -> bool {
    &&& eligible(path, excluded)
    &&& exists|j: int| 0 <= j < es.len() && (#[trigger] es[j]).0 == path
}

/// Some record tracks this path.
pub open spec fn known(rs: Seq<RecordModel>, path: Seq<char>) -> bool {
    exists|i: int| 0 <= i < rs.len() && (#[trigger] rs[i]).path == path
}

/// The modification time the scan reported for a path.
pub open spec fn mtime_of(es: Seq<(Seq<char>, u64)>, path: Seq<char>) -> u64 {
    let j = choose|j: int| 0 <= j < es.len() && (#[trigger] es[j]).0 == path;
    es[j].1
}

/// With one entry per path, the reported modification time of a carried
/// path is that entry's.
pub proof fn lemma_mtime_of(es: Seq<(Seq<char>, u64)>, p: Seq<char>, m: u64)
    requires
        entries_distinct(es),
        es.contains((p, m)),
    ensures
        mtime_of(es, p) == m,
{
    let k = choose|k: int| 0 <= k < es.len() && es[k] == (p, m);
    assert(es[k].0 == p);
    let j = choose|j: int| 0 <= j < es.len() && (#[trigger] es[j]).0 == p;
    assert(0 <= j < es.len() && es[j].0 == p);
    if j != k {
        if j < k {
            assert(es[j].0 != es[k].0);
        } else {
            assert(es[k].0 != es[j].0);
        }
    }
}

/// What the eligible subsequence of the scan satisfies.
pub open spec fn eligible_subset(
    ed: Seq<(Seq<char>, u64)>,
    es: Seq<(Seq<char>, u64)>,
    excl: Seq<Seq<char>>,
) -> bool {
    &&& forall|k: int|
        0 <= k < ed.len() ==> es.contains(#[trigger] ed[k]) && eligible(ed[k].0, excl)
    &&& forall|i: int|
        0 <= i < es.len() && eligible((#[trigger] es[i]).0, excl) ==> ed.contains(es[i])
}

/// A reordering keeps `eligible_subset`, and membership of a path in it
/// is exactly membership in the fresh set.
proof fn lemma_scan_facts(
    ed: Seq<(Seq<char>, u64)>,
    sd: Seq<(Seq<char>, u64)>,
    es: Seq<(Seq<char>, u64)>,
    excl: Seq<Seq<char>>,
)
    requires
        eligible_subset(ed, es, excl),
        sd.to_multiset() == ed.to_multiset(),
    ensures
        eligible_subset(sd, es, excl),
        forall|p: Seq<char>|
            (exists|s: int| 0 <= s < sd.len() && (#[trigger] sd[s]).0 == p) == in_fresh(
                es,
                excl,
                p,
            ),
{
    broadcast use vstd::seq_lib::group_to_multiset_ensures;

    assert forall|k: int|
        0 <= k < sd.len() implies es.contains(#[trigger] sd[k]) && eligible(sd[k].0, excl) by {
        assert(sd.contains(sd[k]));
        assert(sd.to_multiset().count(sd[k]) > 0);
        assert(ed.to_multiset().count(sd[k]) > 0);
        assert(ed.contains(sd[k]));
        let w = choose|w: int| 0 <= w < ed.len() && ed[w] == sd[k];
        assert(es.contains(ed[w]) && eligible(ed[w].0, excl));
    }
    assert forall|i: int|
        0 <= i < es.len() && eligible((#[trigger] es[i]).0, excl) implies sd.contains(es[i]) by {
        assert(ed.contains(es[i]));
        assert(ed.to_multiset().count(es[i]) > 0);
        assert(sd.to_multiset().count(es[i]) > 0);
    }
    assert forall|p: Seq<char>|
        (exists|s: int| 0 <= s < sd.len() && (#[trigger] sd[s]).0 == p) == in_fresh(
        es,
        excl,
        p,
    ) by {
        if exists|s: int| 0 <= s < sd.len() && (#[trigger] sd[s]).0 == p {
            let s = choose|s: int| 0 <= s < sd.len() && (#[trigger] sd[s]).0 == p;
            assert(es.contains(sd[s]));
            let k = choose|k: int| 0 <= k < es.len() && es[k] == sd[s];
            assert((#[trigger] es[k]).0 == p);
            assert(in_fresh(es, excl, p));
        }
        if in_fresh(es, excl, p) {
            let k = choose|k: int| 0 <= k < es.len() && (#[trigger] es[k]).0 == p;
            assert(sd.contains(es[k]));
            let s = choose|s: int| 0 <= s < sd.len() && sd[s] == es[k];
            assert((#[trigger] sd[s]).0 == p);
        }
    }
}

/// Relies on itertools' `sorted_by_key` with the modification time as
/// the key: the result holds the same entries, reordered so that the
/// times never decrease.
#[verifier::external_body]
fn sort_by_mtime(v: Vec<(String, u64)>) -> (r: Vec<(String, u64)>)
    ensures
        r.deep_view().to_multiset() == v.deep_view().to_multiset(),
        r.deep_view().len() == v.deep_view().len(),
        forall|i: int, j: int|
            0 <= i < j < r.deep_view().len() ==> (#[trigger] r.deep_view()[i]).1 <= (
            #[trigger] r.deep_view()[j]).1,
{
    itertools::Itertools::sorted_by_key(v.into_iter(), |e: &(String, u64)| e.1).collect()
}

/// Whether the path matches one exclusion suffix.
fn matches_exclusion(path: &String, excl: &String) -> (r: bool)
    ensures
        r == is_excluded_spec(encode_utf8(path@), encode_utf8(excl@)),
{
    let pb: &[u8] = path.as_str().as_bytes();
    let eb: &[u8] = excl.as_str().as_bytes();
    proof {
        assert(pb@ == encode_utf8(path@));
        assert(eb@ == encode_utf8(excl@));
    }
    if eb.len() > pb.len() {
        return false;
    }
    let start = pb.len() - eb.len();
    let tail: &[u8] = vstd::slice::slice_subrange(pb, start, pb.len());
    if !crate::paths::bytes_eq(tail, eb) {
        return false;
    }
    if start == 0 {
        true
    } else {
        pb[start - 1] == crate::paths::SLASH
    }
}

/// Whether the path is eligible for discovery.
fn is_eligible(path: &String, excluded: &Vec<String>) -> (r: bool)
    ensures
        r == eligible(path@, excluded.deep_view()),
{
    if !path.has_extension("csv") {
        proof {
            assert(path.path_bytes() == encode_utf8(path@));
            assert("csv".spec_bytes() == encode_utf8("csv"@));
        }
        return false;
    }
    let mut k: usize = 0;
    while k < excluded.len()
        invariant
            0 <= k <= excluded@.len(),
            forall|i: int|
                0 <= i < k ==> !is_excluded_spec(
                    encode_utf8(path@),
                    encode_utf8(#[trigger] excluded.deep_view()[i]),
                ),
        decreases excluded@.len() - k,
    {
        if matches_exclusion(path, &excluded[k]) {
            proof {
                assert(excluded.deep_view()[k as int] == excluded@[k as int]@);
            }
            return false;
        }
        proof {
            assert(excluded.deep_view()[k as int] == excluded@[k as int]@);
        }
        k = k + 1;
    }
    proof {
        assert(path.path_bytes() == encode_utf8(path@));
        assert("csv".spec_bytes() == encode_utf8("csv"@));
    }
    true
}

/// The eligible scan entries, in scan order.
fn filter_eligible(entries: &Vec<(String, u64)>, excluded: &Vec<String>) -> (r: Vec<(String, u64)>)
    ensures
        eligible_subset(r.deep_view(), entries.deep_view(), excluded.deep_view()),
{
    let ghost es = entries.deep_view();
    let ghost excl = excluded.deep_view();
    let mut out: Vec<(String, u64)> = Vec::new();
    let mut j: usize = 0;
    while j < entries.len()
        invariant
            0 <= j <= entries@.len(),
            es == entries.deep_view(),
            excl == excluded.deep_view(),
            forall|k: int|
                0 <= k < out.deep_view().len() ==> es.contains(#[trigger] out.deep_view()[k])
                    && eligible(out.deep_view()[k].0, excl),
            forall|i: int|
                0 <= i < j && eligible((#[trigger] es[i]).0, excl) ==> out.deep_view().contains(
                    es[i],
                ),
        decreases entries@.len() - j,
    {
        proof {
            assert(es[j as int] == (entries@[j as int].0@, entries@[j as int].1));
            assert(es.contains(es[j as int]));
        }
        if is_eligible(&entries[j].0, excluded) {
            let ghost prev = out.deep_view();
            out.push((entries[j].0.clone(), entries[j].1));
            proof {
                assert(out.deep_view() =~~= prev.push(es[j as int]));
                assert(out.deep_view()[prev.len() as int] == es[j as int]);
                assert forall|x: (Seq<char>, u64)| prev.contains(x) implies out.deep_view()
                    .contains(x) by {
                    let w = choose|w: int| 0 <= w < prev.len() && prev[w] == x;
                    assert(out.deep_view()[w] == x);
                }
            }
        }
        j = j + 1;
    }
    out
}

/// Whether some scan entry carries this path.
fn scan_contains(srt: &Vec<(String, u64)>, path: &String) -> (r: bool)
    ensures
        r == exists|s: int|
            0 <= s < srt.deep_view().len() && (#[trigger] srt.deep_view()[s]).0 == path@,
{
    let mut s: usize = 0;
    while s < srt.len()
        invariant
            0 <= s <= srt@.len(),
            forall|i: int| 0 <= i < s ==> (#[trigger] srt.deep_view()[i]).0 != path@,
        decreases srt@.len() - s,
    {
        if srt[s].0.eq(path) {
            proof {
                assert(srt.deep_view()[s as int].0 == path@);
            }
            return true;
        }
        proof {
            assert(srt.deep_view()[s as int].0 == srt@[s as int].0@);
        }
        s = s + 1;
    }
    false
}

/// The records with their presence set to membership in the sorted scan;
/// paths and ids are untouched.
fn mark_presence(records: &Vec<FileRecord>, srt: &Vec<(String, u64)>) -> (r: Vec<FileRecord>)
    ensures
        r.deep_view().len() == records.deep_view().len(),
        forall|k: int|
            0 <= k < r.deep_view().len() ==> (#[trigger] r.deep_view()[k]).path
                == records.deep_view()[k].path && r.deep_view()[k].id == records.deep_view()[k].id,
        forall|k: int|
            0 <= k < r.deep_view().len() ==> ((#[trigger] r.deep_view()[k]).present <==> exists|
                s: int,
            |
                0 <= s < srt.deep_view().len() && (#[trigger] srt.deep_view()[s]).0
                    == r.deep_view()[k].path),
{
    let ghost before = records.deep_view();
    let ghost sd = srt.deep_view();
    let mut out: Vec<FileRecord> = Vec::new();
    let mut i: usize = 0;
    while i < records.len()
        invariant
            0 <= i <= records@.len(),
            before == records.deep_view(),
            sd == srt.deep_view(),
            out.deep_view().len() == i,
            forall|k: int|
                0 <= k < i ==> (#[trigger] out.deep_view()[k]).path == before[k].path
                    && out.deep_view()[k].id == before[k].id,
            forall|k: int|
                0 <= k < i ==> ((#[trigger] out.deep_view()[k]).present <==> exists|s: int|
                    0 <= s < sd.len() && (#[trigger] sd[s]).0 == out.deep_view()[k].path),
        decreases records@.len() - i,
    {
        proof {
            assert(before[i as int] == records@[i as int]@);
        }
        let pres = scan_contains(srt, &records[i].path);
        let ghost prev = out.deep_view();
        out.push(FileRecord { path: records[i].path.clone(), present: pres, id: records[i].id });
        proof {
            assert(out.deep_view() =~~= prev.push(
                RecordModel { path: before[i as int].path, present: pres, id: before[i as int].id },
            ));
        }
        i = i + 1;
    }
    out
}

/// Whether some record tracks this path.
fn records_contain(records: &Vec<FileRecord>, path: &String) -> (r: bool)
    ensures
        r == known(records.deep_view(), path@),
{
    let mut i: usize = 0;
    while i < records.len()
        invariant
            0 <= i <= records@.len(),
            forall|k: int| 0 <= k < i ==> (#[trigger] records.deep_view()[k]).path != path@,
        decreases records@.len() - i,
    {
        if records[i].path.eq(path) {
            proof {
                assert(records.deep_view()[i as int].path == path@);
            }
            return true;
        }
        proof {
            assert(records.deep_view()[i as int].path == records@[i as int].path@);
        }
        i = i + 1;
    }
    false
}

/// What the record list must satisfy: ids are positions and paths are
/// tracked at most once.
pub open spec fn records_wf(rs: Seq<RecordModel>) -> bool {
    &&& forall|i: int| 0 <= i < rs.len() ==> (#[trigger] rs[i]).id == i
    &&& forall|i: int, j: int|
        0 <= i < j < rs.len() ==> (#[trigger] rs[i]).path != (#[trigger] rs[j]).path
}

/// Appends one record, with the next id, for every sorted scan entry
/// whose path no record tracks yet.
#[verifier::rlimit(80)]
fn append_new(
    records: &mut Vec<FileRecord>,
    srt: &Vec<(String, u64)>,
    Ghost(es): Ghost<Seq<(Seq<char>, u64)>>,
    Ghost(excl): Ghost<Seq<Seq<char>>>,
)
    requires
        entries_distinct(es),
        eligible_subset(srt.deep_view(), es, excl),
        forall|p: Seq<char>|
            (exists|s: int|
                0 <= s < srt.deep_view().len() && (#[trigger] srt.deep_view()[s]).0 == p)
                == in_fresh(es, excl, p),
        forall|i: int, j: int|
            0 <= i < j < srt.deep_view().len() ==> (#[trigger] srt.deep_view()[i]).1 <= (
            #[trigger] srt.deep_view()[j]).1,
        records_wf(old(records).deep_view()),
    ensures
        records_wf(final (records).deep_view()),
        final (records).deep_view().len() >= old(records).deep_view().len(),
        forall|k: int|
            0 <= k < old(records).deep_view().len() ==> #[trigger] final (records).deep_view()[k]
                == old(records).deep_view()[k],
        forall|k: int|
            old(records).deep_view().len() <= k < final (records).deep_view().len() ==> (
            #[trigger] final (records).deep_view()[k]).present && in_fresh(
                es,
                excl,
                final (records).deep_view()[k].path,
            ) && !known(old(records).deep_view(), final (records).deep_view()[k].path),
        forall|p: Seq<char>|
            in_fresh(es, excl, p) && !known(old(records).deep_view(), p) ==> exists|k: int|
                old(records).deep_view().len() <= k < final (records).deep_view().len() && (
                #[trigger] final (records).deep_view()[k]).path == p,
        forall|k: int, l: int|
            old(records).deep_view().len() <= k < l < final (records).deep_view().len()
                ==> mtime_of(es, (#[trigger] final (records).deep_view()[k]).path) <= mtime_of(
                es,
                (#[trigger] final (records).deep_view()[l]).path,
            ),
{
    let ghost sd = srt.deep_view();
    let ghost before = records.deep_view();
    let len0 = records.len();
    let mut t: usize = 0;
    while t < srt.len()
        invariant
            0 <= t <= srt@.len(),
            sd == srt.deep_view(),
            len0 == before.len(),
            entries_distinct(es),
            eligible_subset(sd, es, excl),
            forall|p: Seq<char>|
                (exists|s: int| 0 <= s < sd.len() && (#[trigger] sd[s]).0 == p) == in_fresh(
                    es,
                    excl,
                    p,
                ),
            forall|i: int, j: int|
                0 <= i < j < sd.len() ==> (#[trigger] sd[i]).1 <= (#[trigger] sd[j]).1,
            records.deep_view().len() >= len0,
            forall|k: int| 0 <= k < len0 ==> #[trigger] records.deep_view()[k] == before[k],
            records_wf(records.deep_view()),
            forall|k: int|
                len0 <= k < records.deep_view().len() ==> (
                #[trigger] records.deep_view()[k]).present && in_fresh(
                    es,
                    excl,
                    records.deep_view()[k].path,
                ) && !known(before, records.deep_view()[k].path),
            forall|k: int|
                len0 <= k < records.deep_view().len() ==> exists|s: int|
                    0 <= s < t && (#[trigger] sd[s]).0 == (#[trigger] records.deep_view()[k]).path
                        && sd[s].1 == mtime_of(es, records.deep_view()[k].path),
            forall|s: int| 0 <= s < t ==> known(records.deep_view(), (#[trigger] sd[s]).0),
            forall|k: int, l: int|
                len0 <= k < l < records.deep_view().len() ==> mtime_of(
                    es,
                    (#[trigger] records.deep_view()[k]).path,
                ) <= mtime_of(es, (#[trigger] records.deep_view()[l]).path),
        decreases srt@.len() - t,
    {
        proof {
            assert(sd[t as int] == (srt@[t as int].0@, srt@[t as int].1));
            assert(sd.contains(sd[t as int]));
            assert(es.contains(sd[t as int]) && eligible(sd[t as int].0, excl));
            lemma_mtime_of(es, sd[t as int].0, sd[t as int].1);
            assert(in_fresh(es, excl, sd[t as int].0));
        }
        if !records_contain(records, &srt[t].0) {
            let ghost prev = records.deep_view();
            let id = records.len();
            records.push(FileRecord { path: srt[t].0.clone(), present: true, id });
            proof {
                assert(records.deep_view() =~~= prev.push(
                    RecordModel { path: sd[t as int].0, present: true, id: id as int },
                ));
                assert forall|k: int| 0 <= k < len0 implies (#[trigger] before[k]).path != sd[t as int].0 by {
                    assert(prev[k].path == before[k].path);
                }
                assert(!known(before, sd[t as int].0));
                assert forall|k: int| len0 <= k < prev.len() implies mtime_of(
                    es,
                    (#[trigger] prev[k]).path,
                ) <= mtime_of(es, sd[t as int].0) by {
                    let s = choose|s: int|
                        0 <= s < t && (#[trigger] sd[s]).0 == prev[k].path && sd[s].1 == mtime_of(
                            es,
                            prev[k].path,
                        );
                    assert(sd[s].1 <= sd[t as int].1);
                }
                assert(records.deep_view()[prev.len() as int].path == sd[t as int].0);
                assert forall|s: int|
                    0 <= s < t + 1 implies known(
                    records.deep_view(),
                    (#[trigger] sd[s]).0,
                ) by {
                    if s < t {
                        let k = choose|k: int|
                            0 <= k < prev.len() && (#[trigger] prev[k]).path == sd[s].0;
                        assert(records.deep_view()[k].path == sd[s].0);
                    } else {
                        assert(records.deep_view()[prev.len() as int].path == sd[s].0);
                    }
                }
            }
        }
        t = t + 1;
    }
    proof {
        // a fresh eligible unknown path is one of the scan lines, so the
        // loop handled it
        assert forall|p: Seq<char>|
            in_fresh(es, excl, p) && !known(before, p) implies exists|k: int|
            len0 <= k < records.deep_view().len() && (#[trigger] records.deep_view()[k]).path
                == p by {
            let s = choose|s: int| 0 <= s < sd.len() && (#[trigger] sd[s]).0 == p;
            assert(known(records.deep_view(), sd[s].0));
            let k = choose|k: int|
                0 <= k < records.deep_view().len() && (#[trigger] records.deep_view()[k]).path
                    == p;
            if k < len0 {
                assert(before[k].path == p);
            }
            assert(len0 <= k < records.deep_view().len() && records.deep_view()[k].path == p);
        }
    }
}

/// The registry of discovered files.  One instance lives for the whole
/// process; the surrounding server serializes access to it.
pub struct KnownFiles {
    root: String,
    excluded: Vec<String>,
    records: Vec<FileRecord>,
}

impl View for KnownFiles {
    type V = Seq<RecordModel>;

    closed spec fn view(&self) -> Seq<RecordModel> {
        self.records.deep_view()
    }
}

impl KnownFiles {
    /// Every record's id is its position, so ids are unique, dense, and
    /// assigned in discovery order; paths are tracked at most once.
    pub open spec fn wf(&self) -> bool {
        records_wf(self@)
    }

    /// The watched root, as handed to the constructor.
    pub closed spec fn root_model(&self) -> Seq<char> {
        self.root@
    }

    /// The exclusion suffixes, as handed to the constructor.
    pub closed spec fn excluded_model(&self) -> Seq<Seq<char>> {
        self.excluded.deep_view()
    }

    /// A registry for the given root with no files discovered yet.
    pub fn new(p: &str, excluded: Vec<String>) -> (r: Self)
        ensures
            r.wf(),
            r@.len() == 0,
            r.root_model() == p@,
            r.excluded_model() == excluded.deep_view(),
    {
        let r = KnownFiles { root: p.to_owned(), excluded, records: Vec::new() };
        proof {
            assert(r@ =~= Seq::<RecordModel>::empty());
        }
        r
    }

    /// The watched root.
    pub fn root(&self) -> (r: &String)
        ensures
            r@ == self.root_model(),
    {
        &self.root
    }

    /// Folds one directory scan into the registry: `entries` pairs each
    /// file path under the root with its modification time, one entry
    /// per path, as a directory walk yields them.  Existing records keep
    /// their ids and paths and have their presence set to whether the
    /// fresh scan carries them; newly seen eligible paths get records
    /// with the next ids, in ascending modification-time order.
    #[verifier::rlimit(50)]
    pub fn generate(&mut self, entries: &Vec<(String, u64)>)
        requires
            old(self).wf(),
            entries_distinct(entries.deep_view()),
        ensures
            final (self).wf(),
            final (self).root_model() == old(self).root_model(),
            final (self).excluded_model() == old(self).excluded_model(),
            // ids already assigned never change
            final (self)@.len() >= old(self)@.len(),
            forall|i: int|
                0 <= i < old(self)@.len() ==> (#[trigger] final (self)@[i]).path
                    == old(self)@[i].path && final (self)@[i].id == old(self)@[i].id,
            // presence reflects exactly the fresh eligible set
            forall|i: int|
                0 <= i < final (self)@.len() ==> ((#[trigger] final (self)@[i]).present
                    <==> in_fresh(
                    entries.deep_view(),
                    old(self).excluded_model(),
                    final (self)@[i].path,
                )),
            // every new record is a fresh eligible path not seen before
            forall|i: int|
                old(self)@.len() <= i < final (self)@.len() ==> in_fresh(
                    entries.deep_view(),
                    old(self).excluded_model(),
                    (#[trigger] final (self)@[i]).path,
                ) && !known(old(self)@, final (self)@[i].path),
            // every fresh eligible path not seen before got a new record
            forall|p: Seq<char>|
                in_fresh(entries.deep_view(), old(self).excluded_model(), p) && !known(
                    old(self)@,
                    p,
                ) ==> exists|i: int|
                    old(self)@.len() <= i < final (self)@.len() && (
                    #[trigger] final (self)@[i]).path == p,
            // new ids ascend with the modification time
            forall|i: int, j: int|
                old(self)@.len() <= i < j < final (self)@.len() ==> mtime_of(
                    entries.deep_view(),
                    (#[trigger] final (self)@[i]).path,
                ) <= mtime_of(entries.deep_view(), (#[trigger] final (self)@[j]).path),
    {
        let ghost es = entries.deep_view();
        let ghost excl = self.excluded.deep_view();
        let ghost before = self@;

        let elig = filter_eligible(entries, &self.excluded);
        let srt = sort_by_mtime(elig);
        proof {
            lemma_scan_facts(elig.deep_view(), srt.deep_view(), es, excl);
        }

        let marked = mark_presence(&self.records, &srt);
        self.records = marked;
        let ghost mid = self@;
        proof {
            // presence of the old records now reflects the fresh set
            assert forall|k: int| 0 <= k < mid.len() implies ((#[trigger] mid[k]).present
                <==> in_fresh(es, excl, mid[k].path)) by {
                assert(mid[k].path == before[k].path);
            }
            assert(records_wf(mid));
        }

        append_new(&mut self.records, &srt, Ghost(es), Ghost(excl));
        proof {
            let now = self@;
            // a path known among the rescanned records was known before
            assert forall|p: Seq<char>| known(mid, p) == known(before, p) by {
                if known(mid, p) {
                    let k = choose|k: int| 0 <= k < mid.len() && (#[trigger] mid[k]).path == p;
                    assert(before[k].path == p);
                }
                if known(before, p) {
                    let k = choose|k: int|
                        0 <= k < before.len() && (#[trigger] before[k]).path == p;
                    assert(mid[k].path == p);
                }
            }
            assert forall|i: int| 0 <= i < now.len() implies ((#[trigger] now[i]).present
                <==> in_fresh(es, excl, now[i].path)) by {
                if i < mid.len() {
                    assert(now[i] == mid[i]);
                }
            }
        }
    }

    /// The path of the present record with this id; `NotFound` when no
    /// record has the id or its file was absent at the latest rescan.
    pub fn get_path(&self, file_id: usize) -> (r: Result<String, crate::RequestError>)
        requires
            self.wf(),
        ensures
            r matches Ok(p) ==> file_id < self@.len() && self@[file_id as int].present && p@
                == self@[file_id as int].path,
            r is Err <==> !(file_id < self@.len() && self@[file_id as int].present),
            r matches Err(e) ==> e == crate::RequestError::NotFound,
    {
        if file_id < self.records.len() {
            proof {
                assert(self@[file_id as int] == self.records@[file_id as int]@);
            }
            let rec = &self.records[file_id];
            if rec.present {
                Ok(rec.path.clone())
            } else {
                Err(crate::RequestError::NotFound)
            }
        } else {
            Err(crate::RequestError::NotFound)
        }
    }

    /// The `(id, path)` pairs of the present records, in ascending id
    /// order.
    pub fn list(&self) -> (r: Vec<(usize, String)>)
        requires
            self.wf(),
        ensures
            forall|k: int|
                0 <= k < r@.len() ==> (#[trigger] r@[k]).0 < self@.len()
                    && self@[r@[k].0 as int].present && r@[k].1@ == self@[r@[k].0 as int].path,
            forall|k: int, l: int|
                0 <= k < l < r@.len() ==> (#[trigger] r@[k]).0 < (#[trigger] r@[l]).0,
            forall|i: int|
                0 <= i < self@.len() && (#[trigger] self@[i]).present ==> exists|k: int|
                    0 <= k < r@.len() && (#[trigger] r@[k]).0 == i,
    {
        let mut out: Vec<(usize, String)> = Vec::new();
        let mut i: usize = 0;
        while i < self.records.len()
            invariant
                0 <= i <= self.records@.len(),
                self@ == self.records.deep_view(),
                self@.len() == self.records@.len(),
                forall|k: int|
                    0 <= k < out@.len() ==> (#[trigger] out@[k]).0 < i
                        && self@[out@[k].0 as int].present && out@[k].1@ == self@[out@[
                        k].0 as int].path,
                forall|k: int, l: int|
                    0 <= k < l < out@.len() ==> (#[trigger] out@[k]).0 < (#[trigger] out@[l]).0,
                forall|j: int|
                    0 <= j < i && (#[trigger] self@[j]).present ==> exists|k: int|
                        0 <= k < out@.len() && (#[trigger] out@[k]).0 == j,
            decreases self.records@.len() - i,
        {
            proof {
                assert(self@[i as int] == self.records@[i as int]@);
            }
            if self.records[i].present {
                let ghost prev = out@;
                out.push((i, self.records[i].path.clone()));
                proof {
                    assert(out@[prev.len() as int].0 == i);
                    assert forall|j: int|
                        0 <= j < i + 1 && (#[trigger] self@[j]).present implies exists|k: int|
                        0 <= k < out@.len() && (#[trigger] out@[k]).0 == j by {
                        if j < i {
                            let k = choose|k: int|
                                0 <= k < prev.len() && (#[trigger] prev[k]).0 == j;
                            assert(out@[k].0 == j);
                        } else {
                            assert(out@[prev.len() as int].0 == j);
                        }
                    }
                }
            }
            i = i + 1;
        }
        out
    }
}

/// Ids and paths, once assigned, survive any number of rescans: when one
/// rescan turns `r0` into `r1` and a later one turns `r1` into `r2`, as
/// `generate` ensures, every record of `r0` keeps its path and id in
/// `r2`.  Repeating this argument covers any chain of rescans.
pub proof fn lemma_ids_stable_across_rescans(
    r0: Seq<RecordModel>,
    r1: Seq<RecordModel>,
    r2: Seq<RecordModel>,
)
    requires
        r1.len() >= r0.len(),
        forall|i: int| 0 <= i < r0.len() ==> (#[trigger] r1[i]).path == r0[i].path && r1[i].id == r0[i].id,
        r2.len() >= r1.len(),
        forall|i: int| 0 <= i < r1.len() ==> (#[trigger] r2[i]).path == r1[i].path && r2[i].id == r1[i].id,
    ensures
        r2.len() >= r0.len(),
        forall|i: int| 0 <= i < r0.len() ==> (#[trigger] r2[i]).path == r0[i].path && r2[i].id == r0[i].id,
{
}

/// Ids are never reused: in a well-formed registry, two records always
/// carry different ids.
pub proof fn lemma_ids_unique(rs: Seq<RecordModel>)
    requires
        records_wf(rs),
    ensures
        forall|i: int, j: int| 0 <= i < j < rs.len() ==> (#[trigger] rs[i]).id != (#[trigger] rs[j]).id,
{
}

/// A path matching an exclusion suffix is never in any rescan's fresh
/// set, even when it carries the watched extension, so no rescan ever
/// assigns it an id.
pub proof fn lemma_excluded_never_fresh(
    es: Seq<(Seq<char>, u64)>,
    excluded: Seq<Seq<char>>,
    path: Seq<char>,
    k: int,
)
    requires
        0 <= k < excluded.len(),
        is_excluded_spec(encode_utf8(path), encode_utf8(excluded[k])),
    ensures
        !in_fresh(es, excluded, path),
{
}

/// What one rescan guarantees, as `generate` ensures it: old records
/// keep their paths and ids, presence reflects exactly the fresh set,
/// and the new records are exactly the fresh paths not seen before.
pub open spec fn rescan_rel(
    es: Seq<(Seq<char>, u64)>,
    excl: Seq<Seq<char>>,
    r0: Seq<RecordModel>,
    r1: Seq<RecordModel>,
) -> bool {
    &&& r1.len() >= r0.len()
    &&& forall|i: int|
        0 <= i < r0.len() ==> (#[trigger] r1[i]).path == r0[i].path && r1[i].id == r0[i].id
    &&& forall|i: int|
        0 <= i < r1.len() ==> ((#[trigger] r1[i]).present <==> in_fresh(es, excl, r1[i].path))
    &&& forall|i: int|
        r0.len() <= i < r1.len() ==> in_fresh(es, excl, (#[trigger] r1[i]).path) && !known(
            r0,
            r1[i].path,
        )
    &&& forall|p: Seq<char>|
        in_fresh(es, excl, p) && !known(r0, p) ==> exists|i: int|
            r0.len() <= i < r1.len() && (#[trigger] r1[i]).path == p
}

/// Rescanning the same set twice changes nothing the second time: the
/// registry reaches a fixed point after one rescan of a scan result.
pub proof fn lemma_rescan_idempotent(
    es: Seq<(Seq<char>, u64)>,
    excl: Seq<Seq<char>>,
    r0: Seq<RecordModel>,
    r1: Seq<RecordModel>,
    r2: Seq<RecordModel>,
)
    requires
        records_wf(r2),
        rescan_rel(es, excl, r0, r1),
        rescan_rel(es, excl, r1, r2),
    ensures
        r2 == r1,
{
    // the second rescan finds every fresh path already tracked, so a
    // record past r1's length would have an impossible id
    assert forall|i: int| r1.len() <= i < r2.len() implies (#[trigger] r2[i]).id < 0 by {
        let p = r2[i].path;
        assert(in_fresh(es, excl, p) && !known(r1, p));
        if known(r0, p) {
            let k = choose|k: int| 0 <= k < r0.len() && (#[trigger] r0[k]).path == p;
            assert(r1[k].path == p);
        } else {
            let k = choose|k: int| r0.len() <= k < r1.len() && (#[trigger] r1[k]).path == p;
            assert(0 <= k < r1.len() && r1[k].path == p);
        }
    }
    if r2.len() > r1.len() {
        assert(r2[r1.len() as int].id < 0);
        assert(r2[r1.len() as int].id == r1.len());
    }
    assert(r2.len() == r1.len());
    assert forall|i: int| 0 <= i < r1.len() implies r2[i] == r1[i] by {
        assert(r2[i].path == r1[i].path && r2[i].id == r1[i].id);
        assert(r2[i].present <==> in_fresh(es, excl, r2[i].path));
        assert(r1[i].present <==> in_fresh(es, excl, r1[i].path));
    }
    assert(r2 =~= r1);
}

} // verus!