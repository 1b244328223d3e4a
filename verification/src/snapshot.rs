//! The package source: per-package scanning, snapshot assembly and the
//! transfer resolver.
//!
//! `Pypi` holds the configuration surface: the listing (simple index) base,
//! the package base, the popularity-query flag, the optional retention
//! budget and the debug flag.  Scanning one package turns its fetched
//! listing document into cleaned, ordered artifact entries and applies the
//! retention budget; a failed fetch contributes an empty list and never
//! fails the crawl.  Assembly flattens all per-package results, keeps the
//! URLs under the normalized package base, and strips that base; the
//! transfer resolver maps an entry back to its absolute URL.

use vstd::prelude::*;

use crate::listing::{
    anchor_views, parse_anchors, parse_index_names, spec_anchors, spec_index_names, AnchorView,
};
use crate::retention::{
    all_parse, entry_views, retention_ok, truncate_to_recent, EntryView, ListingEntry,
};
use crate::urls::{
    normalize_base, resolve_artifact_url, spec_normalized_base, spec_resolved, transfer_url,
};

verus! {

/// One snapshot entry: a path relative to the package base.
pub struct SnapshotPath(pub Vec<u8>);

impl View for SnapshotPath {
    type V = Seq<u8>;

    open spec fn view(&self) -> Seq<u8> {
        self.0@
    }
}

/// An absolute download URL for one snapshot entry.
pub struct TransferURL(pub Vec<u8>);

impl View for TransferURL {
    type V = Seq<u8>;

    open spec fn view(&self) -> Seq<u8> {
        self.0@
    }
}

pub open spec fn path_views(s: Seq<SnapshotPath>) -> Seq<Seq<u8>> {
    s.map_values(|p: SnapshotPath| p@)
}

/// The entry an anchor yields: its href resolved against `{base}/{name}/`
/// and cleaned, and its link text as the filename.
pub open spec fn scanned_of(anchors: Seq<AnchorView>, base: Seq<u8>, name: Seq<u8>) -> Seq<
    EntryView,
> {
    anchors.map_values(
        |a: AnchorView| EntryView { url: spec_resolved(base, name, a.href), filename: a.text },
    )
}

/// What scanning one fetched listing document yields before retention: one
/// entry per anchor, in page order.
pub open spec fn spec_scanned(doc: Seq<u8>, base: Seq<u8>, name: Seq<u8>) -> Seq<EntryView> {
    scanned_of(spec_anchors(doc, 0), base, name)
}

/// Scan one package's listing.  A failed fetch (`doc` is `None`)
/// contributes an empty list: one package's failure never fails the crawl.
/// With a retention budget the scanned entries pass through the retention
/// filter; without one they are returned as scanned.
pub fn scan_package(
    doc: &Option<Vec<u8>>,
    simple_base: &Vec<u8>,
    name: &Vec<u8>,
    keep_recent: Option<usize>,
) -> (r: Vec<ListingEntry>)
    ensures
        doc is None ==> r@.len() == 0,
        doc is Some ==> ({
            let scanned = spec_scanned(doc->Some_0@, simple_base@, name@);
            match keep_recent {
                None => entry_views(r@) == scanned,
                Some(k) => (!all_parse(scanned) ==> entry_views(r@) == scanned) && (all_parse(
                    scanned,
                ) ==> retention_ok(scanned, entry_views(r@), k as int)),
            }
        }),
{
    let d = match doc {
        None => {
            return Vec::new();
        },
        Some(d) => d,
    };
    let ghost scanned = spec_scanned(d@, simple_base@, name@);
    let anchors = parse_anchors(d);
    let mut entries: Vec<ListingEntry> = Vec::new();
    let mut i: usize = 0;
    while i < anchors.len()
        invariant
            0 <= i <= anchors@.len(),
            anchor_views(anchors@) == spec_anchors(d@, 0),
            entry_views(entries@) == scanned_of(
                anchor_views(anchors@).take(i as int),
                simple_base@,
                name@,
            ),
        decreases anchors@.len() - i,
    {
        let ghost prev = entries@;
        let url = resolve_artifact_url(simple_base, name, &anchors[i].href);
        let filename = crate::listing::copy_range(&anchors[i].text, 0, anchors[i].text.len());
        proof {
            assert(filename@ =~= anchors@[i as int].text@);
        }
        entries.push(ListingEntry { url, filename });
        proof {
            let a = anchor_views(anchors@)[i as int];
            assert(entry_views(entries@) =~= entry_views(prev).push(
                EntryView { url: spec_resolved(simple_base@, name@, a.href), filename: a.text },
            ));
            assert(anchor_views(anchors@).take((i + 1) as int) =~= anchor_views(anchors@).take(
                i as int,
            ).push(a));
            assert(scanned_of(anchor_views(anchors@).take((i + 1) as int), simple_base@, name@)
                =~= scanned_of(anchor_views(anchors@).take(i as int), simple_base@, name@).push(
                EntryView { url: spec_resolved(simple_base@, name@, a.href), filename: a.text },
            ));
        }
        i = i + 1;
    }
    proof {
        assert(anchor_views(anchors@).take(anchors@.len() as int) =~= anchor_views(anchors@));
        assert(entry_views(entries@) == scanned);
    }
    match keep_recent {
        None => entries,
        Some(k) => truncate_to_recent(entries, k),
    }
}

/// The per-package entry lists, as mathematical values.
pub open spec fn package_views(ps: Seq<Vec<ListingEntry>>) -> Seq<Seq<EntryView>> {
    ps.map_values(|p: Vec<ListingEntry>| entry_views(p@))
}

/// The URLs of the entries, in order.
pub open spec fn urls_of(vs: Seq<EntryView>) -> Seq<Seq<u8>> {
    vs.map_values(|e: EntryView| e.url)
}

/// The URLs that start with the (already normalized) base, in order.
pub open spec fn kept_urls(us: Seq<Seq<u8>>, nb: Seq<u8>) -> Seq<Seq<u8>> {
    us.filter(|u: Seq<u8>| nb.is_prefix_of(u))
}

/// The URLs with the (already normalized) base stripped.
pub open spec fn stripped(us: Seq<Seq<u8>>, nb: Seq<u8>) -> Seq<Seq<u8>> {
    us.map_values(|u: Seq<u8>| u.skip(nb.len() as int))
}

/// The snapshot assembled from flattened entries: the URLs that start with
/// the normalized package base, in order, with that base stripped.
pub open spec fn spec_assemble(vs: Seq<EntryView>, base: Seq<u8>) -> Seq<Seq<u8>> {
    stripped(kept_urls(urls_of(vs), spec_normalized_base(base)), spec_normalized_base(base))
}

/// Every assembled snapshot entry, prefixed with the normalized package
/// base, reproduces a URL that was actually observed during scanning.
pub proof fn lemma_entry_reproduces_url(vs: Seq<EntryView>, base: Seq<u8>, i: int)
    requires
        0 <= i < spec_assemble(vs, base).len(),
    ensures
        exists|j: int|
            0 <= j < vs.len() && #[trigger] vs[j].url == spec_normalized_base(base)
                + spec_assemble(vs, base)[i],
{
    let nb = spec_normalized_base(base);
    let urls = urls_of(vs);
    let kept = kept_urls(urls, nb);
    Seq::lemma_filter_pred(urls, |u: Seq<u8>| nb.is_prefix_of(u), i);
    Seq::lemma_filter_contains_rev(urls, |u: Seq<u8>| nb.is_prefix_of(u), kept[i]);
    assert(urls.contains(kept[i]));
    let j = choose|j: int| 0 <= j < urls.len() && urls[j] == kept[i];
    assert(vs[j].url == kept[i]);
    assert(nb.is_prefix_of(kept[i]));
    assert(kept[i] =~= nb + kept[i].skip(nb.len() as int));
    assert(spec_assemble(vs, base)[i] == kept[i].skip(nb.len() as int));
}

/// `true` exactly when `p` is a prefix of `u`.
fn has_prefix(u: &Vec<u8>, p: &Vec<u8>) -> (r: bool)
    ensures
        r == p@.is_prefix_of(u@),
{
    if p.len() > u.len() {
        return false;
    }
    let mut j: usize = 0;
    while j < p.len()
        invariant
            0 <= j <= p@.len() <= u@.len(),
            forall|t: int| 0 <= t < j ==> u@[t] == p@[t],
        decreases p@.len() - j,
    {
        if u[j] != p[j] {
            proof {
                assert(!(p@ =~= u@.subrange(0, p@.len() as int)));
            }
            return false;
        }
        j = j + 1;
    }
    proof {
        assert(p@ =~= u@.subrange(0, p@.len() as int));
    }
    true
}

impl Pypi {
    /// Parse the registry's root listing into package names (full index
    /// scan discovery).
    pub fn index_names(&self, doc: &Vec<u8>) -> (r: Vec<Vec<u8>>)
        ensures
            crate::listing::name_views(r@) == spec_index_names(doc@, self.debug),
    {
        parse_index_names(doc, self.debug)
    }

    /// Scan one package's fetched listing document under this
    /// configuration.
    pub fn scan_package(&self, name: &Vec<u8>, doc: &Option<Vec<u8>>) -> (r: Vec<ListingEntry>)
        ensures
            doc is None ==> r@.len() == 0,
            doc is Some ==> ({
                let scanned = spec_scanned(doc->Some_0@, self.simple_base@, name@);
                match self.keep_recent {
                    None => entry_views(r@) == scanned,
                    Some(k) => (!all_parse(scanned) ==> entry_views(r@) == scanned) && (all_parse(
                        scanned,
                    ) ==> retention_ok(scanned, entry_views(r@), k as int)),
                }
            }),
    {
        scan_package(doc, &self.simple_base, name, self.keep_recent)
    }

    /// Flatten the per-package results, in submission order, keep the URLs
    /// under the normalized package base, and strip that base.  An entry
    /// outside the base is dropped, never an error; nothing is
    /// deduplicated.
    pub fn assemble_snapshot(&self, packages: Vec<Vec<ListingEntry>>) -> (r: Vec<SnapshotPath>)
        ensures
            path_views(r@) == spec_assemble(package_views(packages@).flatten(), self.package_base@),
    {
        broadcast use vstd::prelude::Seq::lemma_flatten_push;

        let nb = normalize_base(&self.package_base);
        let ghost base = self.package_base@;
        let mut snap: Vec<SnapshotPath> = Vec::new();
        let ghost mut flat: Seq<EntryView> = Seq::empty();
        proof {
            assert(package_views(packages@).take(0) =~= Seq::<Seq<EntryView>>::empty());
            assert(Seq::<Seq<EntryView>>::empty().flatten() =~= Seq::<EntryView>::empty());
            assert(path_views(snap@) =~= spec_assemble(flat, base));
            reveal(Seq::filter);
        }
        let mut p: usize = 0;
        while p < packages.len()
            invariant
                0 <= p <= packages@.len(),
                nb@ == spec_normalized_base(base),
                base == self.package_base@,
                flat == package_views(packages@).take(p as int).flatten(),
                path_views(snap@) == spec_assemble(flat, base),
            decreases packages@.len() - p,
        {
            let mut q: usize = 0;
            while q < packages[p].len()
                invariant
                    0 <= p < packages@.len(),
                    0 <= q <= packages@[p as int]@.len(),
                    nb@ == spec_normalized_base(base),
                    base == self.package_base@,
                    flat == package_views(packages@).take(p as int).flatten() + entry_views(
                        packages@[p as int]@,
                    ).take(q as int),
                    path_views(snap@) == spec_assemble(flat, base),
                decreases packages@[p as int]@.len() - q,
            {
                let ghost prev_flat = flat;
                let ghost e = packages@[p as int]@[q as int]@;
                let entry = &packages[p];
                let u = &entry[q].url;
                proof {
                    flat = flat.push(e);
                    assert(entry_views(packages@[p as int]@).take((q + 1) as int) =~= entry_views(
                        packages@[p as int]@,
                    ).take(q as int).push(e));
                    assert(flat =~= package_views(packages@).take(p as int).flatten()
                        + entry_views(packages@[p as int]@).take((q + 1) as int));
                    reveal(Seq::filter);
                    assert(urls_of(flat) =~= urls_of(prev_flat).push(e.url));
                }
                if has_prefix(u, &nb) {
                    let mut path: Vec<u8> = Vec::new();
                    let mut t = nb.len();
                    while t < u.len()
                        invariant
                            nb@.len() <= t <= u@.len(),
                            path@ == u@.subrange(nb@.len() as int, t as int),
                        decreases u@.len() - t,
                    {
                        proof {
                            assert(u@.subrange(nb@.len() as int, (t + 1) as int) =~= u@.subrange(
                                nb@.len() as int,
                                t as int,
                            ).push(u@[t as int]));
                        }
                        path.push(u[t]);
                        t = t + 1;
                    }
                    let ghost prev_snap = snap@;
                    snap.push(SnapshotPath(path));
                    proof {
                        assert(path@ =~= e.url.skip(nb@.len() as int));
                        assert(path_views(snap@) =~= path_views(prev_snap).push(
                            e.url.skip(nb@.len() as int),
                        ));
                        reveal(Seq::filter);
                        assert(urls_of(flat).drop_last() =~= urls_of(prev_flat));
                        assert(urls_of(flat).last() == e.url);
                        assert(kept_urls(urls_of(flat), nb@) =~= kept_urls(
                            urls_of(prev_flat),
                            nb@,
                        ).push(e.url));
                        assert(stripped(kept_urls(urls_of(flat), nb@), nb@) =~= stripped(
                            kept_urls(urls_of(prev_flat), nb@),
                            nb@,
                        ).push(e.url.skip(nb@.len() as int)));
                        assert(path_views(snap@) =~= spec_assemble(flat, base));
                    }
                } else {
                    proof {
                        reveal(Seq::filter);
                        assert(urls_of(flat).drop_last() =~= urls_of(prev_flat));
                        assert(urls_of(flat).last() == e.url);
                        assert(kept_urls(urls_of(flat), nb@) =~= kept_urls(
                            urls_of(prev_flat),
                            nb@,
                        ));
                        assert(path_views(snap@) =~= spec_assemble(flat, base));
                    }
                }
                q = q + 1;
            }
            proof {
                assert(entry_views(packages@[p as int]@).take(
                    entry_views(packages@[p as int]@).len() as int,
                ) =~= entry_views(packages@[p as int]@));
                assert(package_views(packages@).take((p + 1) as int) =~= package_views(
                    packages@,
                ).take(p as int).push(package_views(packages@)[p as int]));
                assert(flat =~= package_views(packages@).take((p + 1) as int).flatten());
            }
            p = p + 1;
        }
        proof {
            assert(package_views(packages@).take(packages@.len() as int) =~= package_views(
                packages@,
            ));
        }
        snap
    }

    /// The transfer resolver: the absolute URL of one snapshot entry is the
    /// normalized package base followed by the entry, which reproduces the
    /// URL observed during scanning.
    pub fn get_object(&self, snapshot: &SnapshotPath) -> (r: TransferURL)
        ensures
            r@ == spec_normalized_base(self.package_base@) + snapshot@,
    {
        let nb = normalize_base(&self.package_base);
        TransferURL(transfer_url(&nb, &snapshot.0))
    }
}

/// The configuration surface of the source: listing base, package base,
/// popularity-query flag, optional retention budget, debug flag.
pub struct Pypi {
    pub simple_base: Vec<u8>,
    pub package_base: Vec<u8>,
    pub bq_query: bool,
    pub keep_recent: Option<usize>,
    pub debug: bool,
}

} // verus!
