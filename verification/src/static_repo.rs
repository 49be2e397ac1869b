//! Static repository: immutable binary-search lookup and iteration over the
//! snapshot builder's sorted table. The table never changes after
//! construction; every lookup is a pure read.

use vstd::prelude::*;
use crate::paths::{lex_lt, lemma_lex_trichotomy, lemma_lex_transitive, lemma_lex_skip_common,
    normal_seq, has_prefix, no_backslash, str_set_has};
use crate::record::{FileRecord, RecordView};

verus! {

/// The table a record vector stands for.
pub open spec fn models(entries: Seq<FileRecord>) -> Seq<RecordView> {
    entries.map_values(|r: FileRecord| r@)
}

/// Strictly ascending by relative path in the byte-wise order: the sort
/// comparator of the generator is the lookup comparator, and keys are unique.
pub open spec fn sorted_strict(rs: Seq<RecordView>) -> bool {
    forall|i: int, j: int| 0 <= i < j < rs.len() ==> lex_lt(
        rs[i].relative_path,
        rs[j].relative_path,
    )
}

/// Some record in the table carries this key.
pub open spec fn table_has(rs: Seq<RecordView>, key: Seq<char>) -> bool {
    exists|i: int| 0 <= i < rs.len() && rs[i].relative_path == key
}

/// The index of the record with this key, where one exists.
pub open spec fn table_index(rs: Seq<RecordView>, key: Seq<char>) -> int {
    choose|i: int| 0 <= i < rs.len() && rs[i].relative_path == key
}

/// What a lookup by exact key equality returns: the one record with that
/// key, or nothing. This is the linear-scan semantics the binary search is
/// held to.
pub open spec fn lookup(rs: Seq<RecordView>, key: Seq<char>) -> Option<RecordView> {
    if table_has(rs, key) {
        Some(rs[table_index(rs, key)])
    } else {
        None
    }
}

/// A front-to-back linear scan: the first record carrying the key, if any.
pub open spec fn scan_find(rs: Seq<RecordView>, key: Seq<char>) -> Option<RecordView>
    decreases rs.len(),
{
    if rs.len() == 0 {
        None
    } else if rs[0].relative_path == key {
        Some(rs[0])
    } else {
        scan_find(rs.skip(1), key)
    }
}

/// Law: on a strictly sorted table the lookup semantics the binary search is
/// proved against returns exactly what a linear scan returns, for every key.
pub proof fn lemma_lookup_equals_scan(rs: Seq<RecordView>, key: Seq<char>)
    requires
        sorted_strict(rs),
    ensures
        lookup(rs, key) == scan_find(rs, key),
    decreases rs.len(),
{
    lemma_sorted_unique(rs);
    if rs.len() == 0 {
        assert(!table_has(rs, key));
    } else if rs[0].relative_path == key {
        assert(table_has(rs, key));
        let t = table_index(rs, key);
        assert(0 <= t < rs.len() && rs[t].relative_path == key);
        assert(t == 0);
    } else {
        let tail = rs.skip(1);
        assert(forall|j: int| 0 <= j < tail.len() ==> tail[j] == rs[j + 1]);
        assert forall|i: int, j: int| 0 <= i < j < tail.len() implies lex_lt(
            tail[i].relative_path,
            tail[j].relative_path,
        ) by {
            assert(lex_lt(rs[i + 1].relative_path, rs[j + 1].relative_path));
        }
        lemma_lookup_equals_scan(tail, key);
        if table_has(rs, key) {
            let t = table_index(rs, key);
            assert(0 <= t < rs.len() && rs[t].relative_path == key);
            assert(t != 0);
            assert(tail[t - 1].relative_path == key);
            assert(table_has(tail, key));
            let t2 = table_index(tail, key);
            assert(0 <= t2 < tail.len() && tail[t2].relative_path == key);
            lemma_sorted_unique(tail);
            assert(t2 == t - 1);
        } else {
            if table_has(tail, key) {
                let t2 = table_index(tail, key);
                assert(rs[t2 + 1].relative_path == key);
                assert(false);
            }
        }
    }
}

/// In a strictly sorted table keys never repeat.
pub proof fn lemma_sorted_unique(rs: Seq<RecordView>)
    requires
        sorted_strict(rs),
    ensures
        forall|i: int, j: int|
            0 <= i < rs.len() && 0 <= j < rs.len() && i != j ==> rs[i].relative_path
                != rs[j].relative_path,
{
    assert forall|i: int, j: int|
        0 <= i < rs.len() && 0 <= j < rs.len() && i != j implies rs[i].relative_path
        != rs[j].relative_path by {
        lemma_lex_trichotomy(rs[i].relative_path, rs[j].relative_path);
    }
}

/// The compiled backend: a sorted table of records frozen at build time and
/// the ordered list of public paths (each carrying the prefix) it yields on
/// iteration.
pub struct Static {
    pub entries: Vec<FileRecord>,
    pub paths: Vec<String>,
    pub prefix: Option<String>,
}

impl Static {
    /// The configured prefix, empty when none is set.
    pub open spec fn prefix_view(&self) -> Seq<char> {
        match self.prefix {
            Some(p) => p@,
            None => Seq::empty(),
        }
    }

    /// Well-formedness: the table is strictly sorted; the public path list
    /// mirrors it entry for entry with the prefix prepended; prefix and keys
    /// are in normalized (forward-slash) form.
    pub open spec fn wf(&self) -> bool {
        &&& sorted_strict(models(self.entries@))
        &&& self.paths@.len() == self.entries@.len()
        &&& forall|i: int|
            0 <= i < self.paths@.len() ==> self.paths@[i]@ == self.prefix_view() + models(
                self.entries@,
            )[i].relative_path
        &&& no_backslash(self.prefix_view())
        &&& forall|i: int|
            0 <= i < self.entries@.len() ==> no_backslash(
                #[trigger] models(self.entries@)[i].relative_path,
            )
    }

    /// The internal key a query resolves to: separators normalized, then the
    /// prefix required and stripped; a prefix mismatch resolves to nothing.
    pub open spec fn spec_key(&self, q: Seq<char>) -> Option<Seq<char>> {
        let nq = normal_seq(q);
        match self.prefix {
            Some(p) => if has_prefix(nq, p@) {
                Some(nq.skip(p@.len() as int))
            } else {
                None
            },
            None => Some(nq),
        }
    }

    /// What `get` returns, for every query.
    pub open spec fn spec_get(&self, q: Seq<char>) -> Option<RecordView> {
        match self.spec_key(q) {
            Some(k) => lookup(models(self.entries@), k),
            None => None,
        }
    }

    /// Binary search by exact key equality over the sorted table.
    fn find(&self, key: &str) -> (r: Option<FileRecord>)
        requires
            self.wf(),
        ensures
            (r is Some) == (lookup(models(self.entries@), key@) is Some),
            (r matches Some(rec) ==> Some(rec@) == lookup(models(self.entries@), key@)),
    {
        let ghost rs = models(self.entries@);
        let mut lo: usize = 0;
        let mut hi: usize = self.entries.len();
        while lo < hi
            invariant
                lo <= hi <= self.entries@.len(),
                self.wf(),
                rs == models(self.entries@),
                forall|i: int| 0 <= i < lo ==> lex_lt(rs[i].relative_path, key@),
                forall|i: int| hi <= i < rs.len() ==> lex_lt(key@, rs[i].relative_path),
            decreases hi - lo,
        {
            let mid = lo + (hi - lo) / 2;
            let entry = &self.entries[mid];
            proof {
                assert(rs[mid as int] == entry@);
            }
            if crate::paths::str_lt(entry.relative_path.as_str(), key) {
                proof {
                    assert forall|i: int| 0 <= i < mid + 1 implies lex_lt(
                        rs[i].relative_path,
                        key@,
                    ) by {
                        if i < mid {
                            lemma_lex_transitive(
                                rs[i].relative_path,
                                rs[mid as int].relative_path,
                                key@,
                            );
                        }
                    }
                }
                lo = mid + 1;
            } else if crate::paths::str_lt(key, entry.relative_path.as_str()) {
                proof {
                    assert forall|i: int| mid <= i < rs.len() implies lex_lt(
                        key@,
                        rs[i].relative_path,
                    ) by {
                        if i > mid {
                            lemma_lex_transitive(
                                key@,
                                rs[mid as int].relative_path,
                                rs[i].relative_path,
                            );
                        }
                    }
                }
                hi = mid;
            } else {
                proof {
                    lemma_lex_trichotomy(rs[mid as int].relative_path, key@);
                    assert(rs[mid as int].relative_path == key@);
                    assert(table_has(rs, key@));
                    lemma_sorted_unique(rs);
                    let t = table_index(rs, key@);
                    assert(0 <= t < rs.len() && rs[t].relative_path == key@);
                    assert(t == mid);
                }
                return Some(entry.clone_record());
            }
        }
        proof {
            if table_has(rs, key@) {
                let t = table_index(rs, key@);
                assert(0 <= t < rs.len() && rs[t].relative_path == key@);
                lemma_lex_trichotomy(key@, key@);
                assert(false);
            }
        }
        None
    }

    /// Looks a public path up in the frozen table: separators normalized,
    /// prefix required and stripped, then binary search by exact key
    /// equality; the match is returned as a copy.
    pub fn get(&self, file_path: &str) -> (r: Option<FileRecord>)
        requires
            self.wf(),
        ensures
            (r is Some) == (self.spec_get(file_path@) is Some),
            (r matches Some(rec) ==> Some(rec@) == self.spec_get(file_path@)),
    {
        let nq = crate::paths::normalize_separators(file_path);
        match &self.prefix {
            Some(p) => {
                match crate::paths::strip_prefix_str(nq.as_str(), p.as_str()) {
                    Some(k) => self.find(k.as_str()),
                    None => None,
                }
            },
            None => self.find(nq.as_str()),
        }
    }

    /// The precomputed ordered list of public paths, as the snapshot builder
    /// produced it; independent of `get` and never of the live filesystem.
    pub fn iter(&self) -> (r: Vec<String>)
        ensures
            r.deep_view() == self.paths.deep_view(),
    {
        let mut out: Vec<String> = Vec::new();
        let mut i: usize = 0;
        while i < self.paths.len()
            invariant
                i <= self.paths@.len(),
                out@.len() == i,
                forall|j: int| 0 <= j < i ==> out@[j]@ == self.paths@[j]@,
            decreases self.paths@.len() - i,
        {
            out.push(self.paths[i].clone());
            i = i + 1;
        }
        proof {
            assert(out.deep_view() =~= self.paths.deep_view());
        }
        out
    }
}

/// Law: the table serves exactly what was embedded. For every entry of a
/// well-formed snapshot, `get` on its public path — the prefix followed by
/// its relative path — returns that very record; and since `spec_get` is the
/// linear-scan semantics `lookup`, the binary search agrees with a linear
/// scan on every query by `get`'s own contract.
pub proof fn lemma_get_returns_embedded(s: Static, i: int)
    requires
        s.wf(),
        0 <= i < s.entries@.len(),
    ensures
        s.spec_get(s.prefix_view() + models(s.entries@)[i].relative_path) == Some(
            models(s.entries@)[i],
        ),
{
    let rel = models(s.entries@)[i].relative_path;
    let q = s.prefix_view() + rel;
    assert forall|j: int| 0 <= j < q.len() implies q[j] != '\\' by {
        if j < s.prefix_view().len() {
            assert(s.prefix_view()[j] != '\\');
        } else {
            assert(rel[j - s.prefix_view().len()] != '\\');
        }
    }
    assert(normal_seq(q) =~= q);
    match s.prefix {
        Some(p) => {
            assert(q.subrange(0, p@.len() as int) =~= p@);
            assert(has_prefix(q, p@));
            assert(q.skip(p@.len() as int) =~= rel);
        },
        None => {
            assert(q =~= rel);
        },
    }
    assert(s.spec_key(q) == Some(rel));
    assert(table_has(models(s.entries@), rel));
    lemma_sorted_unique(models(s.entries@));
    let t = table_index(models(s.entries@), rel);
    assert(0 <= t < s.entries@.len() && models(s.entries@)[t].relative_path == rel);
    assert(t == i);
}

/// Law: iteration and lookup agree. In a well-formed snapshot the public
/// path list is strictly ascending — so free of duplicates — every listed
/// path is found by `get`, and every query `get` finds corresponds to a
/// listed path: the one made of the prefix and the match's relative path.
pub proof fn lemma_iter_get_agree(s: Static)
    requires
        s.wf(),
    ensures
        forall|i: int|
            0 <= i < s.paths@.len() ==> #[trigger] s.spec_get(s.paths@[i]@) == Some(
                models(s.entries@)[i],
            ),
        forall|q: Seq<char>|
            #[trigger] s.spec_get(q) matches Some(v) ==> str_set_has(
                s.paths@,
                s.prefix_view() + v.relative_path,
            ),
        forall|i: int, j: int| 0 <= i < j < s.paths@.len() ==> lex_lt(s.paths@[i]@, s.paths@[j]@),
{
    assert forall|i: int| 0 <= i < s.paths@.len() implies #[trigger] s.spec_get(s.paths@[i]@)
        == Some(models(s.entries@)[i]) by {
        assert(s.paths@[i]@ == s.prefix_view() + models(s.entries@)[i].relative_path);
        lemma_get_returns_embedded(s, i);
    }
    assert forall|q: Seq<char>| #[trigger] s.spec_get(q) is Some implies str_set_has(
        s.paths@,
        s.prefix_view() + s.spec_get(q)->Some_0.relative_path,
    ) by {
        let v = s.spec_get(q)->Some_0;
        let key = s.spec_key(q)->Some_0;
        let t = table_index(models(s.entries@), key);
        assert(0 <= t < s.entries@.len() && models(s.entries@)[t].relative_path == key);
        assert(v == models(s.entries@)[t]);
        assert(s.paths@[t]@ == s.prefix_view() + v.relative_path);
    }
    assert forall|i: int, j: int| 0 <= i < j < s.paths@.len() implies lex_lt(
        s.paths@[i]@,
        s.paths@[j]@,
    ) by {
        let pa = s.paths@[i]@;
        let pb = s.paths@[j]@;
        assert(forall|m: int|
            0 <= m < s.prefix_view().len() ==> pa[m] == s.prefix_view()[m] && pb[m]
                == s.prefix_view()[m]);
        lemma_lex_skip_common(pa, pb, s.prefix_view().len() as int);
        assert(pa.skip(s.prefix_view().len() as int) =~= models(s.entries@)[i].relative_path);
        assert(pb.skip(s.prefix_view().len() as int) =~= models(s.entries@)[j].relative_path);
    }
}

} // verus!
