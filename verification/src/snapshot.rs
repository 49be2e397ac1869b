//! Snapshot builder: runs once at build time over the discovered files,
//! filters them through the pattern matcher, extracts metadata, and produces
//! the sorted table and the ordered public path list the static repository
//! serves from.

use vstd::prelude::*;
use crate::paths::{lex_lt, lemma_lex_trichotomy, lemma_lex_transitive, normal_seq, no_backslash,
    normalize_separators};
use crate::pattern::{accepted, is_path_included};
use crate::record::{FileRecord, RecordView, record_model, build_record};
use crate::static_repo::{Static, models, sorted_strict};
use crate::config::EmbedConfig;

verus! {

/// Mathematical model of one discovered file.
#[verifier::ext_equal]
pub ghost struct SourceFileView {
    pub rel_path: Seq<char>,
    pub content: Seq<u8>,
    pub last_modified: Option<u64>,
}

/// One file as the discoverer hands it over: its relative path (separators
/// not yet normalized), its bytes, and its optional timestamp.
pub struct SourceFile {
    pub rel_path: String,
    pub content: Vec<u8>,
    pub last_modified: Option<u64>,
}

impl View for SourceFile {
    type V = SourceFileView;

    open spec fn view(&self) -> SourceFileView {
        SourceFileView {
            rel_path: self.rel_path@,
            content: self.content@,
            last_modified: self.last_modified,
        }
    }
}

/// The record the builder embeds for one discovered file.
pub open spec fn embedded_model(f: SourceFileView) -> RecordView {
    record_model(normal_seq(f.rel_path), f.content, f.last_modified)
}

/// Some record of the table equals `v`.
pub open spec fn contains_rec(rs: Seq<RecordView>, v: RecordView) -> bool {
    exists|i: int| 0 <= i < rs.len() && rs[i] == v
}

/// Normalization never leaves a backslash behind.
pub proof fn lemma_normal_no_backslash(s: Seq<char>)
    ensures
        no_backslash(normal_seq(s)),
{
    assert forall|j: int| 0 <= j < normal_seq(s).len() implies normal_seq(s)[j] != '\\' by {
        assert(normal_seq(s)[j] == if s[j] == '\\' {
            '/'
        } else {
            s[j]
        });
    }
}

/// Places one record into the table at its sorted position; the key must be
/// fresh so the table stays strictly sorted.
fn insert_sorted(entries: &mut Vec<FileRecord>, rec: FileRecord)
    requires
        sorted_strict(models(old(entries)@)),
        forall|i: int|
            0 <= i < old(entries)@.len() ==> models(old(entries)@)[i].relative_path
                != rec@.relative_path,
    ensures
        sorted_strict(models(final(entries)@)),
        final(entries)@.len() == old(entries)@.len() + 1,
        forall|v: RecordView|
            #[trigger] contains_rec(models(final(entries)@), v) <==> (contains_rec(
                models(old(entries)@),
                v,
            ) || v == rec@),
{
    let ghost rs0 = models(old(entries)@);
    let mut k: usize = 0;
    while k < entries.len() && crate::paths::str_lt(
        entries[k].relative_path.as_str(),
        rec.relative_path.as_str(),
    )
        invariant
            k <= entries@.len(),
            entries == old(entries),
            rs0 == models(entries@),
            forall|i: int| 0 <= i < k ==> lex_lt(rs0[i].relative_path, rec@.relative_path),
        decreases entries@.len() - k,
    {
        k = k + 1;
    }
    proof {
        if k < entries@.len() {
            lemma_lex_trichotomy(rs0[k as int].relative_path, rec@.relative_path);
            assert(lex_lt(rec@.relative_path, rs0[k as int].relative_path));
        }
    }
    entries.insert(k, rec);
    proof {
        let rs1 = models(entries@);
        assert(entries@ == old(entries)@.insert(k as int, rec));
        assert(rs1.len() == rs0.len() + 1);
        assert forall|i: int| 0 <= i < rs1.len() implies rs1[i] == (if i < k {
            rs0[i]
        } else if i == k {
            rec@
        } else {
            rs0[i - 1]
        }) by {
            if i < k {
                assert(entries@[i] == old(entries)@[i]);
            } else if i == k {
                assert(entries@[i] == rec);
            } else {
                assert(entries@[i] == old(entries)@[i - 1]);
            }
        }
        assert forall|i: int, j: int| 0 <= i < j < rs1.len() implies lex_lt(
            rs1[i].relative_path,
            rs1[j].relative_path,
        ) by {
            if i < k && j == k {
            } else if i == k && j > k {
                if k < rs0.len() {
                    if j - 1 > k {
                        lemma_lex_transitive(
                            rec@.relative_path,
                            rs0[k as int].relative_path,
                            rs0[j - 1].relative_path,
                        );
                    }
                }
            } else if i < k && j > k {
                if k < rs0.len() {
                    if j - 1 == k {
                    } else {
                        assert(lex_lt(rs0[i].relative_path, rs0[j - 1].relative_path));
                    }
                } else {
                    assert(false);
                }
            }
        }
        assert forall|v: RecordView| #[trigger]
            contains_rec(rs1, v) implies (contains_rec(rs0, v) || v == rec@) by {
            let i = choose|i: int| 0 <= i < rs1.len() && rs1[i] == v;
            if i < k {
                assert(rs0[i] == v);
            } else if i > k {
                assert(rs0[i - 1] == v);
            }
        }
        assert forall|v: RecordView| contains_rec(rs0, v) || v == rec@ implies #[trigger]
            contains_rec(rs1, v) by {
            if v == rec@ {
                assert(rs1[k as int] == v);
            } else {
                let i = choose|i: int| 0 <= i < rs0.len() && rs0[i] == v;
                if i < k {
                    assert(rs1[i] == v);
                } else {
                    assert(rs1[i + 1] == v);
                }
            }
        }
    }
}

/// Builds the compiled backend from the discovered files: every file whose
/// normalized path passes the pattern filters is embedded, with its digest,
/// mimetype and timestamp, into a table sorted ascending by relative path,
/// and nothing else is. Discovered paths must be distinct once normalized,
/// and the prefix must be in normalized form.
pub fn build_snapshot(files: &Vec<SourceFile>, config: &EmbedConfig) -> (r: Static)
    requires
        forall|i: int, j: int|
            0 <= i < files@.len() && 0 <= j < files@.len() && i != j ==> normal_seq(
                files@[i]@.rel_path,
            ) != normal_seq(files@[j]@.rel_path),
        no_backslash(config.prefix_view()),
    ensures
        r.wf(),
        r.prefix_view() == config.prefix_view(),
        forall|i: int|
            0 <= i < files@.len() && accepted(
                config.includes.deep_view(),
                config.excludes.deep_view(),
                normal_seq(#[trigger] files@[i]@.rel_path),
            ) ==> contains_rec(models(r.entries@), embedded_model(files@[i]@)),
        forall|v: RecordView|
            #[trigger] contains_rec(models(r.entries@), v) ==> exists|i: int|
                0 <= i < files@.len() && accepted(
                    config.includes.deep_view(),
                    config.excludes.deep_view(),
                    normal_seq(files@[i]@.rel_path),
                ) && v == embedded_model(files@[i]@),
{
    let ghost inc = config.includes.deep_view();
    let ghost exc = config.excludes.deep_view();
    let mut entries: Vec<FileRecord> = Vec::new();
    let mut idx: usize = 0;
    while idx < files.len()
        invariant
            idx <= files@.len(),
            forall|i: int, j: int|
                0 <= i < files@.len() && 0 <= j < files@.len() && i != j ==> normal_seq(
                    files@[i]@.rel_path,
                ) != normal_seq(files@[j]@.rel_path),
            inc == config.includes.deep_view(),
            exc == config.excludes.deep_view(),
            sorted_strict(models(entries@)),
            forall|i: int|
                0 <= i < idx && accepted(inc, exc, normal_seq(#[trigger] files@[i]@.rel_path))
                    ==> contains_rec(models(entries@), embedded_model(files@[i]@)),
            forall|v: RecordView|
                #[trigger] contains_rec(models(entries@), v) ==> exists|i: int|
                    0 <= i < idx && accepted(inc, exc, normal_seq(files@[i]@.rel_path)) && v
                        == embedded_model(files@[i]@),
        decreases files@.len() - idx,
    {
        let f = &files[idx];
        let norm = normalize_separators(f.rel_path.as_str());
        if is_path_included(norm.as_str(), &config.includes, &config.excludes) {
            let content = vstd::slice::slice_to_vec(f.content.as_slice());
            let rec = build_record(norm, content, f.last_modified);
            proof {
                assert(rec@ =~= embedded_model(files@[idx as int]@));
                assert forall|m: int|
                    0 <= m < entries@.len() implies models(entries@)[m].relative_path
                    != rec@.relative_path by {
                    assert(contains_rec(models(entries@), models(entries@)[m]));
                    let i2 = choose|i2: int|
                        0 <= i2 < idx && accepted(inc, exc, normal_seq(files@[i2]@.rel_path))
                            && models(entries@)[m] == embedded_model(files@[i2]@);
                    assert(normal_seq(files@[i2]@.rel_path) != normal_seq(
                        files@[idx as int]@.rel_path,
                    ));
                }
            }
            insert_sorted(&mut entries, rec);
            proof {
                assert forall|i: int|
                    0 <= i < idx + 1 && accepted(
                        inc,
                        exc,
                        normal_seq(#[trigger] files@[i]@.rel_path),
                    ) implies contains_rec(models(entries@), embedded_model(files@[i]@)) by {
                    if i < idx {
                        assert(contains_rec(models(entries@), embedded_model(files@[i]@)));
                    } else {
                        assert(contains_rec(models(entries@), rec@));
                    }
                }
            }
        } else {
            proof {
                assert(!accepted(inc, exc, normal_seq(files@[idx as int]@.rel_path)));
            }
        }
        idx = idx + 1;
    }
    let mut paths: Vec<String> = Vec::new();
    let mut i: usize = 0;
    while i < entries.len()
        invariant
            i <= entries@.len(),
            paths@.len() == i,
            forall|j: int|
                0 <= j < i ==> paths@[j]@ == config.prefix_view() + models(
                    entries@,
                )[j].relative_path,
        decreases entries@.len() - i,
    {
        let p: String = match &config.prefix {
            Some(pf) => {
                let mut s = pf.clone();
                s.append(entries[i].relative_path.as_str());
                s
            },
            None => entries[i].relative_path.clone(),
        };
        proof {
            assert(p@ =~= config.prefix_view() + models(entries@)[i as int].relative_path);
        }
        paths.push(p);
        i = i + 1;
    }
    let prefix: Option<String> = match &config.prefix {
        Some(pf) => Some(pf.clone()),
        None => None,
    };
    let st = Static { entries, paths, prefix };
    proof {
        assert(st.prefix_view() == config.prefix_view());
        assert forall|m: int| 0 <= m < st.entries@.len() implies no_backslash(
            #[trigger] models(st.entries@)[m].relative_path,
        ) by {
            assert(contains_rec(models(st.entries@), models(st.entries@)[m]));
            let i2 = choose|i2: int|
                0 <= i2 < files@.len() && accepted(inc, exc, normal_seq(files@[i2]@.rel_path))
                    && models(st.entries@)[m] == embedded_model(files@[i2]@);
            lemma_normal_no_backslash(files@[i2]@.rel_path);
        }
        assert(st.wf());
    }
    st
}

} // verus!
