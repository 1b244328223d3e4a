//! Per-package version retention.
//!
//! Given one package's artifact list and a retention budget `keep_recent`,
//! keep the newest versions only: walking versions newest first, a stable
//! version is kept while fewer than `keep_recent` versions are kept, an
//! unstable one also needs fewer than `keep_recent / 2` unstable versions
//! kept so far; every artifact of a kept version is kept.  If any filename
//! fails to parse, the package is returned unchanged (all-or-nothing: an
//! unrecognized naming scheme means the package is never pruned).

use vstd::multiset::Multiset;
use vstd::prelude::*;

use crate::filename::{spec_filename_parses, spec_filename_version, version_from_filename};
use crate::version::{
    lemma_vers_transitive, lemma_vers_trichotomy, spec_is_stable, vers_le, vers_lt, version_eq,
    version_is_stable, version_lt, Version, VersionView,
};

verus! {

/// Mathematical value of a listing entry.
#[verifier::ext_equal]
pub ghost struct EntryView {
    pub url: Seq<u8>,
    pub filename: Seq<u8>,
}

/// One artifact on a package's listing page: its (cleaned) URL and its
/// filename, in page order.
pub struct ListingEntry {
    pub url: Vec<u8>,
    pub filename: Vec<u8>,
}

impl View for ListingEntry {
    type V = EntryView;

    open spec fn view(&self) -> EntryView {
        EntryView { url: self.url@, filename: self.filename@ }
    }
}

pub open spec fn entry_views(s: Seq<ListingEntry>) -> Seq<EntryView> {
    s.map_values(|e: ListingEntry| e@)
}

pub open spec fn entry_parses(e: EntryView) -> bool {
    spec_filename_parses(e.filename)
}

pub open spec fn vers_of(e: EntryView) -> VersionView {
    spec_filename_version(e.filename)
}

pub open spec fn all_parse(vs: Seq<EntryView>) -> bool {
    forall|i: int| 0 <= i < vs.len() ==> entry_parses(#[trigger] vs[i])
}

/// The versions named by the entries, in entry order.
pub open spec fn vers_seq(vs: Seq<EntryView>) -> Seq<VersionView> {
    vs.map_values(|e: EntryView| vers_of(e))
}

/// The set of versions named by the entries.
pub open spec fn version_set(vs: Seq<EntryView>) -> Set<VersionView> {
    vers_seq(vs).to_set()
}

proof fn lemma_to_set_push(s: Seq<VersionView>, x: VersionView)
    ensures
        s.push(x).to_set() =~= s.to_set().insert(x),
{
    assert forall|y: VersionView|
        s.push(x).to_set().contains(y) == s.to_set().insert(x).contains(y) by {
        if s.push(x).to_set().contains(y) {
            assert(s.push(x).contains(y));
            let idx = choose|idx: int| 0 <= idx < s.push(x).len() && s.push(x)[idx] == y;
            if idx < s.len() {
                assert(s[idx] == y);
                assert(s.contains(y));
            } else {
                assert(y == x);
            }
            assert(s.to_set().insert(x).contains(y));
        }
        if s.to_set().insert(x).contains(y) {
            if y == x {
                assert(s.push(x)[s.len() as int] == y);
            } else {
                assert(s.contains(y));
                let idx = choose|idx: int| 0 <= idx < s.len() && s[idx] == y;
                assert(s.push(x)[idx] == y);
            }
            assert(s.push(x).contains(y));
        }
    }
    assert(s.push(x).to_set() =~= s.to_set().insert(x));
}

pub open spec fn unstable_of(s: Set<VersionView>) -> Set<VersionView> {
    s.filter(|v: VersionView| !spec_is_stable(v))
}

/// The versions in `s` strictly newer than `v`.
pub open spec fn newer_in(s: Set<VersionView>, v: VersionView) -> Set<VersionView> {
    s.filter(|w: VersionView| vers_lt(v, w))
}

pub open spec fn newer_unstable_in(s: Set<VersionView>, v: VersionView) -> Set<VersionView> {
    s.filter(|w: VersionView| vers_lt(v, w) && !spec_is_stable(w))
}

/// The newest-first walk keeps version `v` exactly when fewer than `k` kept
/// versions are newer, and, unless `v` is stable, fewer than `k / 2` kept
/// unstable versions are newer.  Over the kept set itself this
/// characterizes the walk's outcome.
pub open spec fn retained(s: Set<VersionView>, v: VersionView, k: int) -> bool {
    &&& newer_in(s, v).len() < k
    &&& (spec_is_stable(v) || newer_unstable_in(s, v).len() < k / 2)
}

/// What the retention filter guarantees when every filename parses: the
/// output is no longer than the input; at most `k` versions are retained,
/// at most `k / 2` of them unstable; the output is ordered newest first;
/// each input artifact appears in the output with its input multiplicity if
/// its version is retained and not at all otherwise; and a version is
/// retained exactly when the newest-first walk keeps it.
pub open spec fn retention_ok(inv: Seq<EntryView>, outv: Seq<EntryView>, k: int) -> bool {
    let rset = version_set(outv);
    &&& outv.len() <= inv.len()
    &&& rset.finite()
    &&& rset.len() <= k
    &&& unstable_of(rset).len() <= k / 2
    &&& forall|i: int, j: int|
        0 <= i < j < outv.len() ==> vers_le(vers_of(#[trigger] outv[j]), vers_of(#[trigger] outv[i]))
    &&& forall|e: EntryView|
        #[trigger] outv.to_multiset().count(e) == if rset.contains(vers_of(e)) {
            inv.to_multiset().count(e)
        } else {
            0
        }
    &&& forall|v: VersionView|
        #[trigger] version_set(inv).contains(v) ==> (rset.contains(v) <==> retained(rset, v, k))
}

proof fn lemma_le_lt(a: VersionView, b: VersionView, c: VersionView)
    requires
        vers_le(a, b),
        vers_lt(b, c),
    ensures
        vers_lt(a, c),
{
    if a != b {
        lemma_vers_transitive(a, b, c);
    }
}

proof fn lemma_lt_le(a: VersionView, b: VersionView, c: VersionView)
    requires
        vers_lt(a, b),
        vers_le(b, c),
    ensures
        vers_lt(a, c),
{
    if b != c {
        lemma_vers_transitive(a, b, c);
    }
}

proof fn lemma_filter_insert<A>(s: Set<A>, x: A, p: spec_fn(A) -> bool)
    ensures
        p(x) ==> s.insert(x).filter(p) == s.filter(p).insert(x),
        !p(x) ==> s.insert(x).filter(p) == s.filter(p),
{
    if p(x) {
        assert(s.insert(x).filter(p) =~= s.filter(p).insert(x));
    } else {
        assert(s.insert(x).filter(p) =~= s.filter(p));
    }
}

/// An entry with its parsed version.
struct VEntry {
    entry: ListingEntry,
    vers: Version,
}

spec fn ve_wf(ve: VEntry) -> bool {
    &&& entry_parses(ve.entry@)
    &&& ve.vers@ == vers_of(ve.entry@)
}

spec fn vviews(s: Seq<VEntry>) -> Seq<EntryView> {
    s.map_values(|ve: VEntry| ve.entry@)
}

/// Parse every entry's filename, or report that some filename fails.
fn parse_all(entries: &Vec<ListingEntry>) -> (r: Option<Vec<Version>>)
    ensures
        match r {
            Some(vs) => {
                &&& vs@.len() == entries@.len()
                &&& forall|j: int|
                    0 <= j < entries@.len() ==> entry_parses(#[trigger] entries@[j]@) && vs@[j]@
                        == vers_of(entries@[j]@)
            },
            None => !all_parse(entry_views(entries@)),
        },
{
    let mut vs: Vec<Version> = Vec::new();
    let mut i: usize = 0;
    while i < entries.len()
        invariant
            0 <= i <= entries@.len(),
            vs@.len() == i,
            forall|j: int|
                0 <= j < i ==> entry_parses(#[trigger] entries@[j]@) && vs@[j]@ == vers_of(
                    entries@[j]@,
                ),
        decreases entries@.len() - i,
    {
        match version_from_filename(&entries[i].filename) {
            None => {
                proof {
                    assert(!entry_parses(entry_views(entries@)[i as int]));
                }
                return None;
            },
            Some(v) => {
                vs.push(v);
            },
        }
        i = i + 1;
    }
    Some(vs)
}

/// Pair each entry with its parsed version.
fn build_ventries(entries: Vec<ListingEntry>, pvers: Vec<Version>) -> (r: Vec<VEntry>)
    requires
        entries@.len() == pvers@.len(),
        forall|j: int|
            0 <= j < entries@.len() ==> entry_parses(#[trigger] entries@[j]@) && pvers@[j]@
                == vers_of(entries@[j]@),
    ensures
        r@.len() == entries@.len(),
        forall|j: int| 0 <= j < r@.len() ==> ve_wf(#[trigger] r@[j]),
        vviews(r@) == entry_views(entries@),
{
    let ghost oe = entries@;
    let ghost ov = pvers@;
    let mut entries = entries;
    let mut pvers = pvers;
    let mut out: Vec<VEntry> = Vec::new();
    while entries.len() > 0
        invariant
            out@.len() + entries@.len() == oe.len(),
            pvers@.len() == entries@.len(),
            entries@ == oe.skip(out@.len() as int),
            pvers@ == ov.skip(out@.len() as int),
            forall|j: int|
                0 <= j < out@.len() ==> ve_wf(#[trigger] out@[j]) && out@[j].entry@ == oe[j]@,
        decreases entries@.len(),
    {
        let ghost n = out@.len() as int;
        let e = entries.remove(0);
        let v = pvers.remove(0);
        proof {
            assert(e@ == oe[n]@);
            assert(v@ == ov[n]@);
            assert(oe.skip(n).remove(0) =~= oe.skip(n + 1));
            assert(ov.skip(n).remove(0) =~= ov.skip(n + 1));
        }
        out.push(VEntry { entry: e, vers: v });
    }
    proof {
        assert(vviews(out@) =~= entry_views(oe));
    }
    out
}

/// Sort entries by version, newest first.
fn sort_desc(v: Vec<VEntry>) -> (r: Vec<VEntry>)
    requires
        forall|i: int| 0 <= i < v@.len() ==> ve_wf(#[trigger] v@[i]),
    ensures
        r@.len() == v@.len(),
        forall|i: int| 0 <= i < r@.len() ==> ve_wf(#[trigger] r@[i]),
        vviews(r@).to_multiset() == vviews(v@).to_multiset(),
        forall|i: int, j: int| 0 <= i < j < r@.len() ==> vers_le(r@[j].vers@, r@[i].vers@),
{
    broadcast use vstd::seq_lib::group_to_multiset_ensures;

    let ghost origm = vviews(v@).to_multiset();
    let mut v = v;
    let mut out: Vec<VEntry> = Vec::new();
    while v.len() > 0
        invariant
            out@.len() + v@.len() == origm.len(),
            forall|i: int| 0 <= i < v@.len() ==> ve_wf(#[trigger] v@[i]),
            forall|i: int| 0 <= i < out@.len() ==> ve_wf(#[trigger] out@[i]),
            vviews(out@).to_multiset().add(vviews(v@).to_multiset()) == origm,
            forall|i: int, j: int| 0 <= i < j < out@.len() ==> vers_le(out@[j].vers@, out@[i].vers@),
            forall|i: int, t: int|
                0 <= i < out@.len() && 0 <= t < v@.len() ==> vers_le(
                    #[trigger] v@[t].vers@,
                    #[trigger] out@[i].vers@,
                ),
        decreases v@.len(),
    {
        let mut m: usize = 0;
        let mut j: usize = 1;
        while j < v.len()
            invariant
                0 <= m < v@.len(),
                1 <= j <= v@.len(),
                forall|t: int| 0 <= t < j ==> vers_le(#[trigger] v@[t].vers@, v@[m as int].vers@),
            decreases v@.len() - j,
        {
            let ghost old_m = m as int;
            if version_lt(&v[m].vers, &v[j].vers) {
                m = j;
                proof {
                    assert forall|t: int| 0 <= t < j + 1 implies vers_le(
                        #[trigger] v@[t].vers@,
                        v@[m as int].vers@,
                    ) by {
                        if t < j {
                            lemma_le_lt(v@[t].vers@, v@[old_m].vers@, v@[m as int].vers@);
                        }
                    }
                }
            } else {
                proof {
                    lemma_vers_trichotomy(v@[m as int].vers@, v@[j as int].vers@);
                }
            }
            j = j + 1;
        }
        let ghost prev_v = v@;
        let ghost prev_out = out@;
        let ve = v.remove(m);
        let ghost vev = ve.entry@;
        out.push(ve);
        proof {
            assert(forall|t: int|
                0 <= t < v@.len() ==> v@[t] == (if t < m {
                    prev_v[t]
                } else {
                    prev_v[t + 1]
                }));
            assert(vviews(v@) =~= vviews(prev_v).remove(m as int));
            assert(vviews(out@) =~= vviews(prev_out).push(vev));
            assert(vviews(prev_v)[m as int] == vev);
            assert(vviews(prev_v).remove(m as int).to_multiset() =~= vviews(
                prev_v,
            ).to_multiset().remove(vev));
            assert(vviews(prev_v).to_multiset().count(vev) > 0) by {
                assert(vviews(prev_v).contains(vev));
            }
            assert(vviews(out@).to_multiset().add(vviews(v@).to_multiset()) =~= origm);
        }
    }
    out
}

/// Apply the retention budget `keep_recent` to one package's entries.
///
/// If some filename does not parse, the input is returned unchanged.
/// Otherwise the newest-first walk described by `retention_ok` decides
/// which versions stay: at most `keep_recent` versions, at most
/// `keep_recent / 2` of them unstable, each retained version complete with
/// all of its artifacts, newest first.
pub fn truncate_to_recent(entries: Vec<ListingEntry>, keep_recent: usize) -> (result: Vec<
    ListingEntry,
>)
    ensures
        !all_parse(entry_views(entries@)) ==> entry_views(result@) == entry_views(entries@),
        all_parse(entry_views(entries@)) ==> retention_ok(
            entry_views(entries@),
            entry_views(result@),
            keep_recent as int,
        ),
{
    broadcast use vstd::seq_lib::group_to_multiset_ensures;

    let ghost inv = entry_views(entries@);
    let pvers = match parse_all(&entries) {
        None => {
            return entries;
        },
        Some(pvers) => pvers,
    };
    proof {
        assert(all_parse(inv));
    }
    let ventries = build_ventries(entries, pvers);
    let mut sorted = sort_desc(ventries);
    let ghost sortedv = vviews(sorted@);
    let ghost k = keep_recent as int;
    proof {
        assert(sortedv.to_multiset() == inv.to_multiset());
        assert(forall|a: int, b: int|
            0 <= a < b < sortedv.len() ==> vers_le(
                vers_of(#[trigger] sortedv[b]),
                vers_of(#[trigger] sortedv[a]),
            ));
    }
    let at_most_unstable = keep_recent / 2;
    let mut result: Vec<ListingEntry> = Vec::new();
    let mut selected: usize = 0;
    let mut sel_unstable: usize = 0;
    let mut prev: Option<Version> = None;
    let mut cut = false;
    let ghost mut i: int = 0;
    let ghost mut rset = Set::<VersionView>::empty();
    proof {
        assert(entry_views(result@) =~= Seq::<EntryView>::empty());
        assert(version_set(entry_views(result@)) =~= rset);
        assert(Seq::<EntryView>::empty().to_multiset() =~= Multiset::<EntryView>::empty());
        assert(unstable_of(rset) =~= Set::<VersionView>::empty());
    }
    while !cut && sorted.len() > 0
        invariant
            0 <= i <= sortedv.len(),
            vviews(sorted@) == sortedv.skip(i),
            forall|t: int| 0 <= t < sorted@.len() ==> ve_wf(#[trigger] sorted@[t]),
            forall|t: int| i <= t < sortedv.len() ==> entry_parses(#[trigger] sortedv[t]),
            rset.finite(),
            selected == rset.len(),
            sel_unstable == unstable_of(rset).len(),
            selected <= keep_recent,
            sel_unstable <= at_most_unstable,
            result@.len() <= i,
            version_set(entry_views(result@)) == rset,
            match prev {
                None => rset == Set::<VersionView>::empty(),
                Some(p) => {
                    &&& rset.contains(p@)
                    &&& forall|w: VersionView| #[trigger] rset.contains(w) ==> vers_le(p@, w)
                    &&& forall|t: int|
                        i <= t < sortedv.len() ==> vers_le(vers_of(#[trigger] sortedv[t]), p@)
                },
            },
            forall|a: int, b: int|
                0 <= a < b < entry_views(result@).len() ==> vers_le(
                    vers_of(#[trigger] entry_views(result@)[b]),
                    vers_of(#[trigger] entry_views(result@)[a]),
                ),
            forall|e: EntryView|
                #[trigger] entry_views(result@).to_multiset().count(e) == if rset.contains(
                    vers_of(e),
                ) {
                    sortedv.take(i).to_multiset().count(e)
                } else {
                    0
                },
            forall|j: int|
                0 <= j < i ==> rset.contains(vers_of(#[trigger] sortedv[j])) || (!spec_is_stable(
                    vers_of(sortedv[j]),
                ) && sel_unstable >= at_most_unstable),
            forall|j: int|
                0 <= j < i ==> (rset.contains(vers_of(#[trigger] sortedv[j])) <==> retained(
                    rset,
                    vers_of(sortedv[j]),
                    k,
                )),
            cut ==> selected >= keep_recent && forall|w: VersionView, t: int|
                #![trigger rset.contains(w), sortedv[t]]
                rset.contains(w) && i <= t < sortedv.len() ==> vers_lt(vers_of(sortedv[t]), w),
        decreases sorted@.len() + (if cut {
            0int
        } else {
            1int
        }),
    {
        let ghost v_cur = vers_of(sortedv[i]);
        let ghost prev_sorted = sorted@;
        let ghost prev_result = result@;
        proof {
            assert(sorted@[0].entry@ == sortedv.skip(i)[0]);
            assert(sorted@[0].vers@ == v_cur);
            assert(sortedv.take(i + 1) =~= sortedv.take(i).push(sortedv[i]));
            assert(prev_sorted.remove(0) =~= prev_sorted.skip(1));
            assert(vviews(prev_sorted.skip(1)) =~= sortedv.skip(i + 1)) by {
                assert forall|t: int|
                    0 <= t < prev_sorted.len() - 1 implies vviews(prev_sorted.skip(1))[t]
                    == sortedv[i + 1 + t] by {
                    assert(prev_sorted.skip(1)[t] == prev_sorted[t + 1]);
                    assert(vviews(prev_sorted)[t + 1] == sortedv.skip(i)[t + 1]);
                }
            }
        }
        let is_eq = match &prev {
            Some(p) => version_eq(p, &sorted[0].vers),
            None => false,
        };
        if is_eq {
            // Another artifact of the version kept last: keep it too.
            let ve = sorted.remove(0);
            let VEntry { entry, vers: _vers } = ve;
            let ghost pv = entry@;
            result.push(entry);
            proof {
                let p = prev->Some_0@;
                assert(v_cur == p);
                assert(rset.contains(v_cur));
                assert(entry_views(result@) =~= entry_views(prev_result).push(pv));
                assert(vviews(sorted@) =~= sortedv.skip(i + 1));
                assert(version_set(entry_views(result@)) =~= rset) by {
                    assert(vers_seq(entry_views(result@)) =~= vers_seq(
                        entry_views(prev_result),
                    ).push(v_cur));
                    lemma_to_set_push(vers_seq(entry_views(prev_result)), v_cur);
                    assert(rset.insert(v_cur) =~= rset);
                }
                // order: the new element is older than everything kept
                assert forall|a: int|
                    0 <= a < entry_views(prev_result).len() implies vers_le(
                        v_cur,
                        vers_of(#[trigger] entry_views(prev_result)[a]),
                    ) by {
                    let w = vers_of(entry_views(prev_result)[a]);
                    assert(vers_seq(entry_views(prev_result))[a] == w);
                    assert(vers_seq(entry_views(prev_result)).contains(w));
                    assert(version_set(entry_views(prev_result)).contains(w));
                }
                // counts: one more artifact of a retained version
                assert forall|e: EntryView| #[trigger]
                    entry_views(result@).to_multiset().count(e) == (if rset.contains(vers_of(e)) {
                        sortedv.take(i + 1).to_multiset().count(e)
                    } else {
                        0int as nat
                    }) by {
                    assert(entry_views(result@).to_multiset() =~= entry_views(
                        prev_result,
                    ).to_multiset().insert(pv));
                    assert(sortedv.take(i + 1).to_multiset() =~= sortedv.take(
                        i,
                    ).to_multiset().insert(sortedv[i]));
                    assert(vers_of(pv) == v_cur);
                }
                // the walk keeps this version: its newer retained versions
                // are the rest of the kept set
                assert(newer_in(rset, v_cur) =~= rset.remove(v_cur)) by {
                    assert forall|w: VersionView| #[trigger]
                        rset.contains(w) && w != v_cur implies vers_lt(v_cur, w) by {
                        lemma_vers_trichotomy(v_cur, w);
                    }
                    lemma_vers_trichotomy(v_cur, v_cur);
                }
                vstd::set::axiom_set_remove_len(rset, v_cur);
                assert(newer_in(rset, v_cur).len() < k);
                if !spec_is_stable(v_cur) {
                    assert(newer_unstable_in(rset, v_cur) =~= unstable_of(rset).remove(v_cur));
                    assert(unstable_of(rset).contains(v_cur));
                    vstd::set::axiom_set_remove_len(unstable_of(rset), v_cur);
                    assert(newer_unstable_in(rset, v_cur).len() < k / 2);
                }
                assert(retained(rset, v_cur, k));
                i = i + 1;
            }
        } else if selected >= keep_recent {
            // Enough versions kept: everything older is dropped.
            cut = true;
            proof {
                assert forall|w: VersionView, t: int|
                    #![trigger rset.contains(w), sortedv[t]]
                    rset.contains(w) && i <= t < sortedv.len() implies vers_lt(
                        vers_of(sortedv[t]),
                        w,
                    ) by {
                    let p = prev->Some_0@;
                    assert(rset.contains(p));
                    assert(v_cur != p);
                    assert(vers_le(v_cur, p));
                    assert(vers_lt(v_cur, p)) by {
                        lemma_vers_trichotomy(v_cur, p);
                    }
                    assert(vers_le(vers_of(sortedv[t]), v_cur));
                    lemma_le_lt(vers_of(sortedv[t]), v_cur, p);
                    lemma_lt_le(vers_of(sortedv[t]), p, w);
                }
            }
        } else {
            let stable = version_is_stable(&sorted[0].vers);
            if stable || sel_unstable < at_most_unstable {
                // A new version is kept.
                let ghost old_prev = prev;
                let ve = sorted.remove(0);
                let VEntry { entry, vers } = ve;
                let ghost pv = entry@;
                result.push(entry);
                if !stable {
                    sel_unstable = sel_unstable + 1;
                }
                selected = selected + 1;
                prev = Some(vers);
                proof {
                    let ghost old_rset = rset;
                    rset = rset.insert(v_cur);
                    i = i + 1;
                    // the new version is strictly older than everything kept
                    assert forall|w: VersionView| #[trigger]
                        old_rset.contains(w) implies vers_lt(v_cur, w) by {
                        assert(old_prev is Some) by {
                            if old_prev is None {
                                assert(old_rset == Set::<VersionView>::empty());
                            }
                        }
                        let p = old_prev->Some_0@;
                        assert(vers_le(v_cur, p));
                        assert(v_cur != p);
                        assert(vers_lt(v_cur, p)) by {
                            lemma_vers_trichotomy(v_cur, p);
                        }
                        lemma_lt_le(v_cur, p, w);
                    }
                    assert(!old_rset.contains(v_cur)) by {
                        if old_rset.contains(v_cur) {
                            assert(vers_lt(v_cur, v_cur));
                            lemma_vers_trichotomy(v_cur, v_cur);
                        }
                    }
                    vstd::set::axiom_set_insert_len(old_rset, v_cur);
                    lemma_filter_insert(old_rset, v_cur, |v: VersionView| !spec_is_stable(v));
                    if !spec_is_stable(v_cur) {
                        vstd::set::axiom_set_insert_len(unstable_of(old_rset), v_cur);
                        assert(!unstable_of(old_rset).contains(v_cur));
                    }
                    assert(entry_views(result@) =~= entry_views(prev_result).push(pv));
                    assert(vviews(sorted@) =~= sortedv.skip(i));
                    assert(version_set(entry_views(result@)) =~= rset) by {
                        assert(vers_seq(entry_views(result@)) =~= vers_seq(
                            entry_views(prev_result),
                        ).push(v_cur));
                        lemma_to_set_push(vers_seq(entry_views(prev_result)), v_cur);
                    }
                    // no earlier entry carries this version: an earlier
                    // artifact of it would have been decided, either kept
                    // (but it is not in the kept set) or rejected for the
                    // used-up unstable allowance (but this branch kept it)
                    assert forall|j: int| 0 <= j < i - 1 implies vers_of(#[trigger] sortedv[j])
                        != v_cur by {
                        if vers_of(sortedv[j]) == v_cur {
                            assert(false);
                        }
                    }
                    // order among kept artifacts
                    assert forall|a: int|
                        0 <= a < entry_views(prev_result).len() implies vers_le(
                            v_cur,
                            vers_of(#[trigger] entry_views(prev_result)[a]),
                        ) by {
                        let w = vers_of(entry_views(prev_result)[a]);
                        assert(vers_seq(entry_views(prev_result))[a] == w);
                        assert(vers_seq(entry_views(prev_result)).contains(w));
                        assert(version_set(entry_views(prev_result)).contains(w));
                        assert(vers_lt(v_cur, w));
                    }
                    // counts
                    assert forall|e: EntryView| #[trigger]
                        entry_views(result@).to_multiset().count(e) == (if rset.contains(
                            vers_of(e),
                        ) {
                            sortedv.take(i).to_multiset().count(e)
                        } else {
                            0int as nat
                        }) by {
                        assert(entry_views(result@).to_multiset() =~= entry_views(
                            prev_result,
                        ).to_multiset().insert(pv));
                        assert(sortedv.take(i).to_multiset() =~= sortedv.take(i
                            - 1).to_multiset().insert(sortedv[i - 1]));
                        if vers_of(e) == v_cur {
                            if sortedv.take(i - 1).to_multiset().count(e) > 0 {
                                assert(sortedv.take(i - 1).contains(e));
                                let j = choose|j: int|
                                    0 <= j < i - 1 && #[trigger] sortedv.take(i - 1)[j] == e;
                                assert(vers_of(sortedv[j]) == v_cur);
                            }
                            assert(sortedv.take(i - 1).to_multiset().count(e) == 0);
                        }
                    }
                    // the iff-characterization for older decisions is
                    // unchanged by the insertion
                    assert forall|j: int| 0 <= j < i - 1 implies (rset.contains(
                        vers_of(#[trigger] sortedv[j]),
                    ) <==> retained(rset, vers_of(sortedv[j]), k)) by {
                        let u = vers_of(sortedv[j]);
                        assert(vers_le(v_cur, u));
                        assert(!vers_lt(u, v_cur)) by {
                            lemma_vers_trichotomy(u, v_cur);
                        }
                        lemma_filter_insert(old_rset, v_cur, |w: VersionView| vers_lt(u, w));
                        lemma_filter_insert(
                            old_rset,
                            v_cur,
                            |w: VersionView| vers_lt(u, w) && !spec_is_stable(w),
                        );
                        assert(newer_in(rset, u) == newer_in(old_rset, u));
                        assert(newer_unstable_in(rset, u) == newer_unstable_in(old_rset, u));
                        assert(u != v_cur);
                    }
                    // ... and holds for the new version
                    assert(newer_in(rset, v_cur) =~= old_rset) by {
                        lemma_vers_trichotomy(v_cur, v_cur);
                    }
                    assert(newer_unstable_in(rset, v_cur) =~= unstable_of(old_rset)) by {
                        lemma_vers_trichotomy(v_cur, v_cur);
                    }
                    assert(retained(rset, v_cur, k));
                }
            } else {
                // Unstable and the unstable allowance is used up: skip this
                // artifact but keep walking.
                let _ve = sorted.remove(0);
                proof {
                    assert(vviews(sorted@) =~= sortedv.skip(i + 1));
                    // this version is not kept
                    assert(!rset.contains(v_cur)) by {
                        if rset.contains(v_cur) {
                            let p = prev->Some_0@;
                            assert(vers_le(p, v_cur));
                            assert(vers_le(v_cur, p));
                            lemma_vers_trichotomy(v_cur, p);
                            assert(v_cur == p);
                        }
                    }
                    assert forall|w: VersionView| #[trigger]
                        rset.contains(w) implies vers_lt(v_cur, w) by {
                        let p = prev->Some_0@;
                        assert(vers_le(v_cur, p));
                        assert(v_cur != p);
                        lemma_vers_trichotomy(v_cur, p);
                        lemma_lt_le(v_cur, p, w);
                    }
                    assert(newer_unstable_in(rset, v_cur) =~= unstable_of(rset));
                    assert(!retained(rset, v_cur, k));
                    // counts: the skipped artifact's version is not in the
                    // kept set
                    assert forall|e: EntryView| #[trigger]
                        entry_views(result@).to_multiset().count(e) == (if rset.contains(
                            vers_of(e),
                        ) {
                            sortedv.take(i + 1).to_multiset().count(e)
                        } else {
                            0int as nat
                        }) by {
                        assert(sortedv.take(i + 1).to_multiset() =~= sortedv.take(
                            i,
                        ).to_multiset().insert(sortedv[i]));
                        if rset.contains(vers_of(e)) {
                            assert(vers_of(e) != v_cur);
                            assert(e != sortedv[i]);
                        }
                    }
                    i = i + 1;
                }
            }
        }
    }
    proof {
        let outv = entry_views(result@);
        if !cut {
            assert(sortedv.skip(i).len() == 0);
            assert(i == sortedv.len());
            assert(sortedv.take(i) =~= sortedv);
        } else {
            // everything from position i on is older than every kept
            // version, so it is neither kept nor owed
            assert forall|j: int| i <= j < sortedv.len() implies !rset.contains(
                vers_of(#[trigger] sortedv[j]),
            ) && !retained(rset, vers_of(sortedv[j]), k) by {
                let u = vers_of(sortedv[j]);
                if rset.contains(u) {
                    assert(vers_lt(u, u));
                    lemma_vers_trichotomy(u, u);
                }
                assert(newer_in(rset, u) =~= rset);
                assert(newer_in(rset, u).len() >= k);
            }
            assert forall|e: EntryView| #[trigger]
                outv.to_multiset().count(e) == (if rset.contains(vers_of(e)) {
                    sortedv.to_multiset().count(e)
                } else {
                    0int as nat
                }) by {
                assert(sortedv =~= sortedv.take(i) + sortedv.skip(i));
                vstd::seq_lib::lemma_multiset_commutative(sortedv.take(i), sortedv.skip(i));
                if rset.contains(vers_of(e)) {
                    if sortedv.skip(i).to_multiset().count(e) > 0 {
                        assert(sortedv.skip(i).contains(e));
                        let j = choose|j: int|
                            0 <= j < sortedv.skip(i).len() && #[trigger] sortedv.skip(i)[j] == e;
                        assert(sortedv[i + j] == e);
                        assert(!rset.contains(vers_of(e)));
                    }
                    assert(sortedv.skip(i).to_multiset().count(e) == 0);
                }
            }
        }
        // every input version is decided as the walk decides it
        assert forall|v: VersionView| #[trigger]
            version_set(inv).contains(v) implies (rset.contains(v) <==> retained(
            rset,
            v,
            k,
        )) by {
            let mapped = vers_seq(inv);
            assert(mapped.contains(v));
            let a = choose|a: int| 0 <= a < mapped.len() && mapped[a] == v;
            assert(vers_of(inv[a]) == v);
            assert(inv.to_multiset().count(inv[a]) > 0) by {
                assert(inv.contains(inv[a]));
            }
            assert(sortedv.to_multiset().count(inv[a]) > 0);
            assert(sortedv.contains(inv[a]));
            let b = choose|b: int| 0 <= b < sortedv.len() && #[trigger] sortedv[b] == inv[a];
            assert(vers_of(sortedv[b]) == v);
            if b < i {
            } else {
                assert(cut);
            }
        }
        // counts transfer from the sorted order back to the input order
        assert forall|e: EntryView| #[trigger]
            outv.to_multiset().count(e) == (if rset.contains(vers_of(e)) {
                inv.to_multiset().count(e)
            } else {
                0int as nat
            }) by {
            assert(sortedv.to_multiset() == inv.to_multiset());
        }
        assert(outv.len() == outv.to_multiset().len());
        assert(inv.len() == inv.to_multiset().len());
        assert(outv.len() <= inv.len()) by {
            lemma_count_le_len(outv, inv);
        }
    }
    result
}

/// If every element appears in `b` at least as often as in `a`, then `a` is
/// no longer than `b`.
proof fn lemma_count_le_len(a: Seq<EntryView>, b: Seq<EntryView>)
    requires
        forall|e: EntryView| #[trigger] a.to_multiset().count(e) <= b.to_multiset().count(e),
    ensures
        a.len() <= b.len(),
{
    broadcast use vstd::seq_lib::group_to_multiset_ensures;

    lemma_multiset_le_len(a.to_multiset(), b.to_multiset());
}

proof fn lemma_multiset_le_len(a: Multiset<EntryView>, b: Multiset<EntryView>)
    requires
        forall|e: EntryView| #[trigger] a.count(e) <= b.count(e),
    ensures
        a.len() <= b.len(),
    decreases a.len(),
{
    if a.len() > 0 {
        let e = a.choose();
        assert(a.count(e) > 0);
        assert(b.count(e) > 0);
        lemma_multiset_le_len(a.remove(e), b.remove(e));
    }
}

} // verus!
