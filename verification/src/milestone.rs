//! The milestone query: the earliest version of a package, by
//! semantic-versioning precedence, that reached 1.0.0 — not the first one
//! in file order.
use vstd::prelude::*;

verus! {

use crate::version::{
    Version,
    VersionView,
    version_lt,
    version_le,
    version_copy,
    version_lt_exec,
    lemma_version_trichotomy,
    lemma_version_lt_le_trans,
    lemma_version_asym,
};
use crate::record::CrateVersion;
use crate::index::{Index, index_wf};
use crate::bytes::{bytes_copy, bytes_lt, lex_lt, lemma_lex_trichotomy, lemma_lex_trans};

/// The 1.0.0 release.
pub open spec fn one_oh() -> VersionView {
    VersionView { major: 1, minor: 0, patch: 0, pre: Seq::<u8>::empty(), build: Seq::<u8>::empty() }
}

/// The version is at least 1.0.0 under precedence (so `1.0.0-alpha` has
/// not reached the milestone).
pub open spec fn reached_one_oh(v: VersionView) -> bool {
    !version_lt(v, one_oh())
}

pub open spec fn has_milestone(recs: Seq<CrateVersion>) -> bool {
    exists|j: int| 0 <= j < recs.len() && reached_one_oh((#[trigger] recs[j]).vers@)
}

/// `vv` is the milestone of the record list: a version of some record, at
/// least 1.0.0, minimal under precedence among such versions; among
/// precedence-equal candidates the earliest record in file order decides.
pub open spec fn is_milestone(recs: Seq<CrateVersion>, vv: VersionView) -> bool {
    exists|j: int|
        {
            &&& 0 <= j < recs.len()
            &&& (#[trigger] recs[j]).vers@ == vv
            &&& reached_one_oh(vv)
            &&& forall|k: int|
                0 <= k < recs.len() && reached_one_oh((#[trigger] recs[k]).vers@) ==> version_le(
                    vv,
                    recs[k].vers@,
                )
            &&& forall|k: int|
                0 <= k < j && reached_one_oh((#[trigger] recs[k]).vers@) ==> version_lt(
                    vv,
                    recs[k].vers@,
                )
        }
}

/// The earliest version in the list, by precedence, that is at least
/// 1.0.0; `None` when no version qualifies.
pub fn milestone_version(recs: &Vec<CrateVersion>) -> (r: Option<Version>)
    ensures
        r is Some <==> has_milestone(recs@),
        match r {
            Option::Some(v) => is_milestone(recs@, v@),
            Option::None => true,
        },
{
    let one = Version { major: 1, minor: 0, patch: 0, pre: Vec::new(), build: Vec::new() };
    proof {
        assert(one@.pre =~= one_oh().pre);
        assert(one@.build =~= one_oh().build);
        assert(one@ == one_oh());
    }
    let mut best: Option<Version> = Option::None;
    let ghost mut best_idx: int = 0;
    let mut j: usize = 0;
    while j < recs.len()
        invariant
            0 <= j <= recs.len(),
            one@ == one_oh(),
            match best {
                Option::None => forall|k: int|
                    0 <= k < j ==> !reached_one_oh((#[trigger] recs@[k]).vers@),
                Option::Some(bv) => {
                    &&& 0 <= best_idx < j
                    &&& recs@[best_idx].vers@ == bv@
                    &&& reached_one_oh(bv@)
                    &&& forall|k: int|
                        0 <= k < j && reached_one_oh((#[trigger] recs@[k]).vers@) ==> version_le(
                            bv@,
                            recs@[k].vers@,
                        )
                    &&& forall|k: int|
                        0 <= k < best_idx && reached_one_oh((#[trigger] recs@[k]).vers@)
                            ==> version_lt(bv@, recs@[k].vers@)
                },
            },
        decreases recs.len() - j,
    {
        let qualifies = !version_lt_exec(&recs[j].vers, &one);
        if qualifies {
            let replace: bool = match &best {
                Option::None => true,
                Option::Some(bv) => version_lt_exec(&recs[j].vers, bv),
            };
            if replace {
                proof {
                    if best is Some {
                        let bv = best->0;
                        assert forall|k: int|
                            0 <= k < j + 1 && reached_one_oh((#[trigger] recs@[k]).vers@)
                            implies version_le(recs@[j as int].vers@, recs@[k].vers@) by {
                            if k < j {
                                lemma_version_lt_le_trans(
                                    recs@[j as int].vers@,
                                    bv@,
                                    recs@[k].vers@,
                                );
                            } else {
                                assert(version_le(recs@[j as int].vers@, recs@[k].vers@));
                            }
                        }
                        assert forall|k: int|
                            0 <= k < j && reached_one_oh((#[trigger] recs@[k]).vers@)
                            implies version_lt(recs@[j as int].vers@, recs@[k].vers@) by {
                            lemma_version_lt_le_trans(recs@[j as int].vers@, bv@, recs@[k].vers@);
                        }
                    }
                }
                best = Option::Some(version_copy(&recs[j].vers));
                proof {
                    best_idx = j as int;
                }
            } else {
                proof {
                    let bv = best->0;
                    lemma_version_trichotomy(recs@[j as int].vers@, bv@);
                    assert(version_le(bv@, recs@[j as int].vers@));
                }
            }
        }
        j = j + 1;
    }
    best
}


/// Two milestones of the same record list are the same version view: the
/// precedence order pins the version, and the file-order tie-break pins the
/// build metadata.
pub proof fn lemma_milestone_unique(recs: Seq<CrateVersion>, v1: VersionView, v2: VersionView)
    requires
        is_milestone(recs, v1),
        is_milestone(recs, v2),
    ensures
        v1 == v2,
{
    let j1 = choose|j: int|
        {
            &&& 0 <= j < recs.len()
            &&& (#[trigger] recs[j]).vers@ == v1
            &&& reached_one_oh(v1)
            &&& forall|k: int|
                0 <= k < recs.len() && reached_one_oh((#[trigger] recs[k]).vers@) ==> version_le(
                    v1,
                    recs[k].vers@,
                )
            &&& forall|k: int|
                0 <= k < j && reached_one_oh((#[trigger] recs[k]).vers@) ==> version_lt(
                    v1,
                    recs[k].vers@,
                )
        };
    let j2 = choose|j: int|
        {
            &&& 0 <= j < recs.len()
            &&& (#[trigger] recs[j]).vers@ == v2
            &&& reached_one_oh(v2)
            &&& forall|k: int|
                0 <= k < recs.len() && reached_one_oh((#[trigger] recs[k]).vers@) ==> version_le(
                    v2,
                    recs[k].vers@,
                )
            &&& forall|k: int|
                0 <= k < j && reached_one_oh((#[trigger] recs[k]).vers@) ==> version_lt(
                    v2,
                    recs[k].vers@,
                )
        };
    if j1 < j2 {
        assert(version_lt(v2, v1));
        assert(version_le(v1, v2));
        lemma_version_lt_le_trans(v2, v1, v2);
        lemma_version_asym(v2, v2);
    } else if j2 < j1 {
        assert(version_lt(v1, v2));
        assert(version_le(v2, v1));
        lemma_version_lt_le_trans(v1, v2, v1);
        lemma_version_asym(v1, v1);
    }
}

/// Whether a pair list holds `(n, vv)`.
pub open spec fn milestone_pair_in(s: Seq<(Vec<u8>, Version)>, n: Seq<u8>, vv: VersionView) -> bool {
    exists|i: int| 0 <= i < s.len() && (#[trigger] s[i]).0@ == n && s[i].1@ == vv
}

pub open spec fn pair_key_in(s: Seq<(Vec<u8>, Version)>, n: Seq<u8>) -> bool {
    exists|i: int| 0 <= i < s.len() && (#[trigger] s[i]).0@ == n
}

/// Strictly ascending by package name.
pub open spec fn sorted_pairs(s: Seq<(Vec<u8>, Version)>) -> bool {
    forall|i: int, j: int|
        0 <= i < j < s.len() ==> lex_lt((#[trigger] s[i]).0@, (#[trigger] s[j]).0@)
}

fn insert_pair_sorted(v: &mut Vec<(Vec<u8>, Version)>, name: Vec<u8>, ver: Version)
    requires
        sorted_pairs(old(v)@),
        !pair_key_in(old(v)@, name@),
    ensures
        sorted_pairs(final(v)@),
        forall|n: Seq<u8>, vv: VersionView|
            milestone_pair_in(final(v)@, n, vv) <==> (milestone_pair_in(old(v)@, n, vv) || (n
                == name@ && vv == ver@)),
        forall|n: Seq<u8>|
            pair_key_in(final(v)@, n) <==> (pair_key_in(old(v)@, n) || n == name@),
{
    let ghost orig = v@;
    let mut i: usize = 0;
    let mut stop: bool = false;
    while i < v.len() && !stop
        invariant
            0 <= i <= v.len(),
            v@ == orig,
            sorted_pairs(orig),
            forall|k: int| 0 <= k < i ==> lex_lt((#[trigger] orig[k]).0@, name@),
            stop ==> i < v.len() && !lex_lt(orig[i as int].0@, name@),
        decreases v.len() - i + (if stop { 0int } else { 1int }),
    {
        if bytes_lt(&v[i].0, &name) {
            i = i + 1;
        } else {
            stop = true;
        }
    }
    proof {
        if i < orig.len() {
            lemma_lex_trichotomy(orig[i as int].0@, name@);
            assert(orig[i as int].0@ != name@);
            assert(lex_lt(name@, orig[i as int].0@));
        }
    }
    let ghost nv = ver@;
    v.insert(i, (name, ver));
    proof {
        let iv = v@;
        assert(iv[i as int].0@ == name@ && iv[i as int].1@ == nv);
        assert forall|p: int, q: int|
            0 <= p < q < iv.len() implies lex_lt((#[trigger] iv[p]).0@, (#[trigger] iv[q]).0@) by {
            if p < i && q == i {
            } else if p == i && q > i {
                if q - 1 > i {
                    lemma_lex_trans(name@, orig[i as int].0@, orig[q - 1].0@);
                }
            } else if p < i && q > i {
                if q - 1 > i {
                    lemma_lex_trans(name@, orig[i as int].0@, orig[q - 1].0@);
                }
                lemma_lex_trans(orig[p].0@, name@, orig[q - 1].0@);
            }
        }
        assert forall|n: Seq<u8>, vv: VersionView|
            milestone_pair_in(iv, n, vv) <==> (milestone_pair_in(orig, n, vv) || (n == name@ && vv
                == nv)) by {
            if milestone_pair_in(orig, n, vv) {
                let k = choose|k: int| 0 <= k < orig.len() && (#[trigger] orig[k]).0@ == n
                    && orig[k].1@ == vv;
                if k < i {
                    assert(iv[k].0@ == n && iv[k].1@ == vv);
                } else {
                    assert(iv[k + 1].0@ == n && iv[k + 1].1@ == vv);
                }
            }
            if milestone_pair_in(iv, n, vv) {
                let k = choose|k: int| 0 <= k < iv.len() && (#[trigger] iv[k]).0@ == n && iv[k].1@
                    == vv;
                if k < i {
                    assert(orig[k].0@ == n && orig[k].1@ == vv);
                } else if k > i {
                    assert(orig[k - 1].0@ == n && orig[k - 1].1@ == vv);
                }
            }
        }
        assert forall|n: Seq<u8>|
            pair_key_in(iv, n) <==> (pair_key_in(orig, n) || n == name@) by {
            if pair_key_in(orig, n) {
                let k = choose|k: int| 0 <= k < orig.len() && (#[trigger] orig[k]).0@ == n;
                if k < i {
                    assert(iv[k].0@ == n);
                } else {
                    assert(iv[k + 1].0@ == n);
                }
            }
            if pair_key_in(iv, n) {
                let k = choose|k: int| 0 <= k < iv.len() && (#[trigger] iv[k]).0@ == n;
                if k < i {
                    assert(orig[k].0@ == n);
                } else if k > i {
                    assert(orig[k - 1].0@ == n);
                }
            }
        }
    }
}

/// The milestone of every package that has one, one pair per package,
/// sorted by package name; packages without a qualifying version are left
/// out.
pub fn all_milestones(ix: &Index) -> (r: Vec<(Vec<u8>, Version)>)
    requires
        ix.wf(),
    ensures
        sorted_pairs(r@),
        forall|n: Seq<u8>, vv: VersionView|
            milestone_pair_in(r@, n, vv) <==> exists|i: int|
                0 <= i < ix.entries@.len() && (#[trigger] ix.entries@[i]).0@ == n && is_milestone(
                    ix.entries@[i].1@,
                    vv,
                ),
{
    let entries = &ix.entries;
    let mut out: Vec<(Vec<u8>, Version)> = Vec::new();
    let mut i: usize = 0;
    while i < entries.len()
        invariant
            0 <= i <= entries.len(),
            entries == &ix.entries,
            index_wf(entries@),
            sorted_pairs(out@),
            forall|n: Seq<u8>, vv: VersionView|
                milestone_pair_in(out@, n, vv) <==> exists|i2: int|
                    0 <= i2 < i && (#[trigger] entries@[i2]).0@ == n && is_milestone(
                        entries@[i2].1@,
                        vv,
                    ),
            forall|n: Seq<u8>|
                pair_key_in(out@, n) ==> exists|i2: int|
                    0 <= i2 < i && (#[trigger] entries@[i2]).0@ == n,
        decreases entries.len() - i,
    {
        let ghost old_out = out@;
        match milestone_version(&entries[i].1) {
            Option::Some(v) => {
                let ghost gv = v@;
                proof {
                    if pair_key_in(out@, entries@[i as int].0@) {
                        let i2 = choose|i2: int|
                            0 <= i2 < i && (#[trigger] entries@[i2]).0@ == entries@[i as int].0@;
                    }
                }
                insert_pair_sorted(&mut out, bytes_copy(&entries[i].0), v);
                proof {
                    assert forall|n: Seq<u8>, vv: VersionView|
                        milestone_pair_in(out@, n, vv) <==> exists|i2: int|
                            0 <= i2 < i + 1 && (#[trigger] entries@[i2]).0@ == n && is_milestone(
                                entries@[i2].1@,
                                vv,
                            ) by {
                        if milestone_pair_in(out@, n, vv) {
                            if !milestone_pair_in(old_out, n, vv) {
                                assert(n == entries@[i as int].0@ && vv == gv);
                                assert(is_milestone(entries@[i as int].1@, vv));
                            }
                        }
                        if exists|i2: int|
                            0 <= i2 < i + 1 && (#[trigger] entries@[i2]).0@ == n && is_milestone(
                                entries@[i2].1@,
                                vv,
                            ) {
                            let i2 = choose|i2: int|
                                0 <= i2 < i + 1 && (#[trigger] entries@[i2]).0@ == n
                                    && is_milestone(entries@[i2].1@, vv);
                            if i2 == i {
                                lemma_milestone_unique(entries@[i as int].1@, vv, gv);
                                assert(milestone_pair_in(out@, n, vv));
                            }
                        }
                    }
                }
            },
            Option::None => {
                proof {
                    assert forall|n: Seq<u8>, vv: VersionView|
                        milestone_pair_in(out@, n, vv) <==> exists|i2: int|
                            0 <= i2 < i + 1 && (#[trigger] entries@[i2]).0@ == n && is_milestone(
                                entries@[i2].1@,
                                vv,
                            ) by {
                        if exists|i2: int|
                            0 <= i2 < i + 1 && (#[trigger] entries@[i2]).0@ == n && is_milestone(
                                entries@[i2].1@,
                                vv,
                            ) {
                            let i2 = choose|i2: int|
                                0 <= i2 < i + 1 && (#[trigger] entries@[i2]).0@ == n
                                    && is_milestone(entries@[i2].1@, vv);
                            if i2 == i {
                                let jw = choose|jw: int|
                                    {
                                        &&& 0 <= jw < entries@[i as int].1@.len()
                                        &&& (#[trigger] entries@[i as int].1@[jw]).vers@ == vv
                                        &&& reached_one_oh(vv)
                                        &&& forall|k: int|
                                            0 <= k < entries@[i as int].1@.len() && reached_one_oh(
                                                (#[trigger] entries@[i as int].1@[k]).vers@,
                                            ) ==> version_le(vv, entries@[i as int].1@[k].vers@)
                                        &&& forall|k: int|
                                            0 <= k < jw && reached_one_oh(
                                                (#[trigger] entries@[i as int].1@[k]).vers@,
                                            ) ==> version_lt(vv, entries@[i as int].1@[k].vers@)
                                    };
                                assert(has_milestone(entries@[i as int].1@));
                            }
                        }
                    }
                }
            },
        }
        i = i + 1;
    }
    out
}

} // verus!
