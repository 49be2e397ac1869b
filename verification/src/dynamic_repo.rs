//! Dynamic repository: the live backend re-resolves and re-reads from the
//! filesystem on every call. The decisions — separator normalization,
//! prefix stripping, the path-traversal containment check against the
//! canonical folder root, and the pattern re-check — are made here; the
//! caller at the filesystem edge performs resolution and reading and hands
//! the outcomes back, so every decision is verified for every outcome.

use vstd::prelude::*;
use crate::paths::{lex_lt, lemma_lex_trichotomy, lemma_lex_transitive, lemma_lex_skip_common,
    normal_seq, has_prefix, within_root, normalize_separators};
use crate::pattern::{accepted, is_path_included};
use crate::paths::str_set_has;
use crate::record::{build_record, record_model, FileRecord};

verus! {

/// The live backend: the canonical folder root and the read-only lookup
/// configuration. No state is kept between calls, so concurrent calls are
/// independent and externally modified files are observed immediately.
pub struct Dynamic {
    /// The canonicalized absolute folder all paths resolve within.
    pub root: String,
    /// Optional fixed string every public path must carry.
    pub prefix: Option<String>,
    /// Glob patterns a candidate path must match one of, when any are given.
    pub includes: Vec<String>,
    /// Glob patterns that reject a path outright.
    pub excludes: Vec<String>,
}

impl Dynamic {
    /// The configured prefix, empty when none is set.
    pub open spec fn prefix_view(&self) -> Seq<char> {
        match self.prefix {
            Some(p) => p@,
            None => Seq::empty(),
        }
    }

    /// The relative path a query resolves to: separators normalized, then
    /// the prefix required and stripped; a mismatch resolves to nothing.
    pub open spec fn spec_rel(&self, q: Seq<char>) -> Option<Seq<char>> {
        let nq = normal_seq(q);
        match self.prefix {
            Some(p) => if has_prefix(nq, p@) {
                Some(nq.skip(p@.len() as int))
            } else {
                None
            },
            None => Some(nq),
        }
    }

    /// Resolves a query to the relative path and the candidate the caller
    /// must canonicalize; `None` exactly on a prefix mismatch.
    pub fn prepare(&self, file_path: &str) -> (r: Option<(String, String)>)
        ensures
            (r is Some) == (self.spec_rel(file_path@) is Some),
            (r matches Some(pair) ==> Some(pair.0@) == self.spec_rel(file_path@) && pair.1@
                == self.root@ + "/"@ + pair.0@),
    {
        let nq = normalize_separators(file_path);
        let rel: String = match &self.prefix {
            Some(p) => {
                match crate::paths::strip_prefix_str(nq.as_str(), p.as_str()) {
                    Some(k) => k,
                    None => {
                        return None;
                    },
                }
            },
            None => nq,
        };
        let mut cand = self.root.clone();
        cand.append("/");
        cand.append(rel.as_str());
        Some((rel, cand))
    }

    /// Whether a lookup is served: the canonical resolution must lie within
    /// the folder root — the path-traversal containment guarantee — and the
    /// relative path must pass the pattern filters.
    pub open spec fn spec_authorized(&self, rel: Seq<char>, canonical: Seq<char>) -> bool {
        within_root(self.root@, canonical) && accepted(
            self.includes.deep_view(),
            self.excludes.deep_view(),
            rel,
        )
    }

    /// Decides whether the resolved candidate may be read and served.
    pub fn authorize(&self, rel: &str, canonical: &str) -> (r: bool)
        ensures
            r == self.spec_authorized(rel@, canonical@),
    {
        if !crate::paths::is_within_root(self.root.as_str(), canonical) {
            return false;
        }
        is_path_included(rel, &self.includes, &self.excludes)
    }

    /// Law: path traversal is contained. Whatever the query was and however
    /// the filesystem resolved it — `..` segments, symbolic links — a
    /// candidate whose canonical path lies outside the folder root is never
    /// authorized, so the lookup yields "not found" even when a same-named
    /// file exists outside the root.
    pub proof fn lemma_traversal_contained(&self, rel: Seq<char>, canonical: Seq<char>)
        requires
            !within_root(self.root@, canonical),
        ensures
            !self.spec_authorized(rel, canonical),
    {
    }

    /// Finishes a live lookup with the outcome of the fresh read: a read
    /// failure after the containment and pattern checks is "not found",
    /// uniformly, and bytes that were read become a freshly built record
    /// for the relative path — nothing is cached between calls.
    pub fn complete(&self, rel: String, outcome: Option<(Vec<u8>, Option<u64>)>) -> (r: Option<
        FileRecord,
    >)
        ensures
            (r is Some) == (outcome is Some),
            (r matches Some(rec) ==> outcome matches Some(o) && rec@ == record_model(
                rel@,
                o.0@,
                o.1,
            )),
    {
        match outcome {
            Some((content, last_modified)) => Some(build_record(rel, content, last_modified)),
            None => None,
        }
    }

    /// `t` is the public form of some walked path that passes the filters.
    pub open spec fn from_walk(&self, walked: Seq<String>, t: Seq<char>) -> bool {
        exists|i: int|
            0 <= i < walked.len() && t == self.prefix_view() + normal_seq(walked[i]@) && accepted(
                self.includes.deep_view(),
                self.excludes.deep_view(),
                normal_seq(walked[i]@),
            )
    }

    /// A fresh iteration pass over the walked folder contents: normalizes,
    /// filters through the pattern matcher, removes duplicates, sorts, and
    /// prepends the prefix. The result reflects exactly the accepted walked
    /// paths, in strictly ascending order.
    pub fn iter_paths(&self, walked: &Vec<String>) -> (r: Vec<String>)
        ensures
            forall|k: int| #![trigger r@[k]]
                0 <= k < r@.len() ==> self.from_walk(walked@, r@[k]@),
            forall|i: int|
                0 <= i < walked@.len() && accepted(
                    self.includes.deep_view(),
                    self.excludes.deep_view(),
                    normal_seq(#[trigger] walked@[i]@),
                ) ==> str_set_has(r@, self.prefix_view() + normal_seq(walked@[i]@)),
            forall|k: int, l: int| 0 <= k < l < r@.len() ==> lex_lt(r@[k]@, r@[l]@),
    {
        let ghost inc = self.includes.deep_view();
        let ghost exc = self.excludes.deep_view();
        let mut rels: Vec<String> = Vec::new();
        let mut idx: usize = 0;
        while idx < walked.len()
            invariant
                idx <= walked@.len(),
                inc == self.includes.deep_view(),
                exc == self.excludes.deep_view(),
                forall|k: int, l: int| 0 <= k < l < rels@.len() ==> lex_lt(rels@[k]@, rels@[l]@),
                forall|t: Seq<char>|
                    #[trigger] str_set_has(rels@, t) <==> exists|i: int|
                        0 <= i < idx && t == normal_seq(walked@[i]@) && accepted(
                            inc,
                            exc,
                            normal_seq(walked@[i]@),
                        ),
            decreases walked@.len() - idx,
        {
            let ghost rels0 = rels@;
            let norm = normalize_separators(walked[idx].as_str());
            let ghost nrm = norm@;
            proof {
                assert(nrm == normal_seq(walked@[idx as int]@));
            }
            let ok = is_path_included(norm.as_str(), &self.includes, &self.excludes);
            let already = if ok {
                contains_str(&rels, norm.as_str())
            } else {
                false
            };
            if ok && !already {
                proof {
                    assert forall|k: int| 0 <= k < rels0.len() implies rels0[k]@ != nrm by {
                        if rels0[k]@ == nrm {
                            assert(str_set_has(rels0, nrm));
                        }
                    }
                }
                insert_sorted_str(&mut rels, norm);
            }
            proof {
                assert(ok == accepted(inc, exc, nrm));
                if ok && already {
                    assert(str_set_has(rels0, nrm));
                }
                assert forall|t: Seq<char>| #[trigger]
                    str_set_has(rels@, t) implies exists|i: int|
                    0 <= i < idx + 1 && t == normal_seq(walked@[i]@) && accepted(
                        inc,
                        exc,
                        normal_seq(walked@[i]@),
                    ) by {
                    if str_set_has(rels0, t) {
                        let i0 = choose|i0: int|
                            0 <= i0 < idx && t == normal_seq(walked@[i0]@) && accepted(
                                inc,
                                exc,
                                normal_seq(walked@[i0]@),
                            );
                        assert(0 <= i0 < idx + 1 && t == normal_seq(walked@[i0]@) && accepted(
                            inc,
                            exc,
                            normal_seq(walked@[i0]@),
                        ));
                    } else {
                        assert(t == nrm);
                        assert(accepted(inc, exc, normal_seq(walked@[idx as int]@)));
                    }
                }
                assert forall|t: Seq<char>|
                    (exists|i: int|
                        0 <= i < idx + 1 && t == normal_seq(walked@[i]@) && accepted(
                            inc,
                            exc,
                            normal_seq(walked@[i]@),
                        )) implies #[trigger] str_set_has(rels@, t) by {
                    let i0 = choose|i0: int|
                        0 <= i0 < idx + 1 && t == normal_seq(walked@[i0]@) && accepted(
                            inc,
                            exc,
                            normal_seq(walked@[i0]@),
                        );
                    if i0 < idx {
                        assert(str_set_has(rels0, t));
                    } else {
                        assert(t == nrm);
                        assert(ok);
                        if already {
                            assert(str_set_has(rels0, nrm));
                        }
                        assert(str_set_has(rels@, nrm));
                    }
                }
            }
            idx = idx + 1;
        }
        let mut out: Vec<String> = Vec::new();
        let mut i: usize = 0;
        while i < rels.len()
            invariant
                i <= rels@.len(),
                out@.len() == i,
                forall|j: int| 0 <= j < i ==> out@[j]@ == self.prefix_view() + rels@[j]@,
            decreases rels@.len() - i,
        {
            let p: String = match &self.prefix {
                Some(pf) => {
                    let mut s = pf.clone();
                    s.append(rels[i].as_str());
                    s
                },
                None => rels[i].clone(),
            };
            proof {
                assert(p@ =~= self.prefix_view() + rels@[i as int]@);
            }
            out.push(p);
            i = i + 1;
        }
        proof {
            assert forall|k: int, l: int| 0 <= k < l < out@.len() implies lex_lt(
                out@[k]@,
                out@[l]@,
            ) by {
                let pa = out@[k]@;
                let pb = out@[l]@;
                assert(forall|j: int|
                    0 <= j < self.prefix_view().len() ==> pa[j] == self.prefix_view()[j] && pb[j]
                        == self.prefix_view()[j]);
                lemma_lex_skip_common(pa, pb, self.prefix_view().len() as int);
                assert(pa.skip(self.prefix_view().len() as int) =~= rels@[k]@);
                assert(pb.skip(self.prefix_view().len() as int) =~= rels@[l]@);
            }
            assert forall|k: int| #![trigger out@[k]]
                0 <= k < out@.len() implies self.from_walk(walked@, out@[k]@) by {
                assert(str_set_has(rels@, rels@[k]@));
                let i0 = choose|i0: int|
                    0 <= i0 < walked@.len() && rels@[k]@ == normal_seq(walked@[i0]@) && accepted(
                        inc,
                        exc,
                        normal_seq(walked@[i0]@),
                    );
                assert(out@[k]@ == self.prefix_view() + normal_seq(walked@[i0]@));
            }
            assert forall|i: int|
                0 <= i < walked@.len() && accepted(inc, exc, normal_seq(#[trigger] walked@[i]@))
                implies str_set_has(out@, self.prefix_view() + normal_seq(walked@[i]@)) by {
                assert(str_set_has(rels@, normal_seq(walked@[i]@)));
                let k0 = choose|k0: int| 0 <= k0 < rels@.len() && rels@[k0]@ == normal_seq(
                    walked@[i]@,
                );
                assert(out@[k0]@ == self.prefix_view() + normal_seq(walked@[i]@));
            }
        }
        out
    }
}

/// Whether some element of the vector equals `s`.
fn contains_str(v: &Vec<String>, s: &str) -> (r: bool)
    ensures
        r == exists|k: int| 0 <= k < v@.len() && v@[k]@ == s@,
{
    let mut k: usize = 0;
    while k < v.len()
        invariant
            k <= v@.len(),
            forall|j: int| 0 <= j < k ==> v@[j]@ != s@,
        decreases v@.len() - k,
    {
        if crate::paths::str_eq(v[k].as_str(), s) {
            return true;
        }
        k = k + 1;
    }
    false
}

/// Places a fresh string into the vector at its sorted position.
fn insert_sorted_str(v: &mut Vec<String>, s: String)
    requires
        forall|k: int, l: int| 0 <= k < l < old(v)@.len() ==> lex_lt(old(v)@[k]@, old(v)@[l]@),
        forall|k: int| 0 <= k < old(v)@.len() ==> old(v)@[k]@ != s@,
    ensures
        forall|k: int, l: int| 0 <= k < l < final(v)@.len() ==> lex_lt(final(v)@[k]@, final(v)@[l]@),
        final(v)@.len() == old(v)@.len() + 1,
        forall|t: Seq<char>|
            #[trigger] str_set_has(final(v)@, t) <==> (str_set_has(old(v)@, t) || t == s@),
{
    let ghost vs0 = old(v)@;
    let mut k: usize = 0;
    while k < v.len() && crate::paths::str_lt(v[k].as_str(), s.as_str())
        invariant
            k <= v@.len(),
            v@ == vs0,
            forall|i: int| 0 <= i < k ==> lex_lt(vs0[i]@, s@),
        decreases v@.len() - k,
    {
        k = k + 1;
    }
    proof {
        if k < v@.len() {
            lemma_lex_trichotomy(vs0[k as int]@, s@);
            assert(lex_lt(s@, vs0[k as int]@));
        }
    }
    v.insert(k, s);
    proof {
        let vs1 = v@;
        assert(vs1 == vs0.insert(k as int, s));
        assert forall|i: int| 0 <= i < vs1.len() implies vs1[i] == (if i < k {
            vs0[i]
        } else if i == k {
            s
        } else {
            vs0[i - 1]
        }) by {
            if i < k {
                assert(vs1[i] == vs0[i]);
            } else if i == k {
                assert(vs1[i] == s);
            } else {
                assert(vs1[i] == vs0[i - 1]);
            }
        }
        assert forall|i: int, j: int| 0 <= i < j < vs1.len() implies lex_lt(vs1[i]@, vs1[j]@) by {
            if i == k && j > k {
                if j - 1 > k {
                    lemma_lex_transitive(s@, vs0[k as int]@, vs0[j - 1]@);
                }
            } else if i < k && j > k {
                if j - 1 == k {
                } else {
                    assert(lex_lt(vs0[i]@, vs0[j - 1]@));
                }
            }
        }
        assert forall|t: Seq<char>| #[trigger]
            str_set_has(vs1, t) implies (str_set_has(vs0, t) || t == s@) by {
            let m = choose|m: int| 0 <= m < vs1.len() && vs1[m]@ == t;
            if m < k {
                assert(vs0[m]@ == t);
            } else if m > k {
                assert(vs0[m - 1]@ == t);
            }
        }
        assert forall|t: Seq<char>| str_set_has(vs0, t) || t == s@ implies #[trigger]
            str_set_has(vs1, t) by {
            if t == s@ {
                assert(vs1[k as int]@ == t);
            } else {
                let m = choose|m: int| 0 <= m < vs0.len() && vs0[m]@ == t;
                if m < k {
                    assert(vs1[m]@ == t);
                } else {
                    assert(vs1[m + 1]@ == t);
                }
            }
        }
    }
}

} // verus!
