use pypi_snapshot::coordinator::Coordinator;
use pypi_snapshot::discovery::{
    choose_strategy, collect_proxies, names_from_rows, CellValue, DiscoveryStrategy,
    ProxyDirective, ProxyEnv, ProxyIntercept, QueryRow,
};
use pypi_snapshot::filename::version_from_filename;
use pypi_snapshot::listing::parse_anchors;
use pypi_snapshot::retention::{truncate_to_recent, ListingEntry};
use pypi_snapshot::snapshot::{scan_package, Pypi, SnapshotPath};
use pypi_snapshot::urls::{
    clean_url, normalize_base, remove_dot_segments, resolve_artifact_url, transfer_url,
};
use pypi_snapshot::version::{version_parse, STABLE_RANK};

fn bv(s: &str) -> Vec<u8> {
    s.as_bytes().to_vec()
}

fn entry(url: &str, filename: &str) -> ListingEntry {
    ListingEntry { url: bv(url), filename: bv(filename) }
}

fn filenames(entries: &[ListingEntry]) -> Vec<Vec<u8>> {
    entries.iter().map(|e| e.filename.clone()).collect()
}

#[test]
fn parses_stable_version() {
    let v = version_parse(&bv("1.0.0")).expect("stable version");
    assert_eq!(v.nums, vec![1, 0, 0]);
    assert_eq!(v.rank, STABLE_RANK);
    assert_eq!(v.num, 0);
}

#[test]
fn parses_release_candidate() {
    let v = version_parse(&bv("2.0.0rc1")).expect("release candidate");
    assert_eq!(v.nums, vec![2, 0, 0]);
    assert_eq!(v.rank, 3);
    assert_eq!(v.num, 1);
}

#[test]
fn parses_dev_version_with_separator() {
    let v = version_parse(&bv("1.2.dev3")).expect("dev version");
    assert_eq!(v.nums, vec![1, 2]);
    assert_eq!(v.rank, 0);
    assert_eq!(v.num, 3);
}

#[test]
fn rejects_non_version_text() {
    assert!(version_parse(&bv("bar")).is_none());
    assert!(version_parse(&bv("1.0.0junk")).is_none());
    assert!(version_parse(&bv("")).is_none());
}

#[test]
fn filename_convention_extracts_version() {
    let v = version_from_filename(&bv("foo-1.0.0.tar.gz")).expect("sdist");
    assert_eq!(v.nums, vec![1, 0, 0]);
    assert_eq!(v.rank, STABLE_RANK);
    let w = version_from_filename(&bv("foo-2.0.0rc1-py3-none-any.whl")).expect("wheel");
    assert_eq!(w.nums, vec![2, 0, 0]);
    assert_eq!(w.rank, 3);
    assert_eq!(w.num, 1);
}

#[test]
fn filename_convention_rejects_other_names() {
    assert!(version_from_filename(&bv("data.tar")).is_none());
    assert!(version_from_filename(&bv("readme.txt")).is_none());
    assert!(version_from_filename(&bv("foo-bar-1.0.tar.gz")).is_none());
}

#[test]
fn retention_keeps_two_newest_versions() {
    // Budget 2, at most 1 unstable.  Newest first: 2.0.1 kept (1 version),
    // 2.0.0rc1 kept (unstable, 0 < 1; 2 versions), then the budget is
    // reached, so both 1.0.0 files are dropped.
    let entries = vec![
        entry("https://h/p/foo-1.0.0.tar.gz", "foo-1.0.0.tar.gz"),
        entry("https://h/p/foo-1.0.0.zip", "foo-1.0.0.zip"),
        entry("https://h/p/foo-2.0.0rc1.tar.gz", "foo-2.0.0rc1.tar.gz"),
        entry("https://h/p/foo-2.0.1.tar.gz", "foo-2.0.1.tar.gz"),
    ];
    let kept = truncate_to_recent(entries, 2);
    assert_eq!(
        filenames(&kept),
        vec![bv("foo-2.0.1.tar.gz"), bv("foo-2.0.0rc1.tar.gz")]
    );
}

#[test]
fn retention_keeps_every_artifact_of_a_kept_version() {
    let entries = vec![
        entry("https://h/p/a-2.0.tar.gz", "a-2.0.tar.gz"),
        entry("https://h/p/a-2.0.zip", "a-2.0.zip"),
        entry("https://h/p/a-1.0.tar.gz", "a-1.0.tar.gz"),
    ];
    let kept = truncate_to_recent(entries, 1);
    assert_eq!(filenames(&kept), vec![bv("a-2.0.tar.gz"), bv("a-2.0.zip")]);
}

#[test]
fn retention_caps_unstable_versions_at_half_the_budget() {
    // Budget 2 allows at most one unstable version: 3.0a1 is kept, 2.0b1 is
    // skipped (allowance used up), 1.0 is kept as the second version.
    let entries = vec![
        entry("https://h/p/x-3.0a1.tar.gz", "x-3.0a1.tar.gz"),
        entry("https://h/p/x-2.0b1.tar.gz", "x-2.0b1.tar.gz"),
        entry("https://h/p/x-1.0.tar.gz", "x-1.0.tar.gz"),
    ];
    let kept = truncate_to_recent(entries, 2);
    assert_eq!(filenames(&kept), vec![bv("x-3.0a1.tar.gz"), bv("x-1.0.tar.gz")]);
}

#[test]
fn retention_is_identity_when_a_filename_does_not_parse() {
    let entries = vec![
        entry("https://h/p/data.tar", "data.tar"),
        entry("https://h/p/readme.txt", "readme.txt"),
    ];
    let kept = truncate_to_recent(entries, 5);
    assert_eq!(filenames(&kept), vec![bv("data.tar"), bv("readme.txt")]);
    assert_eq!(kept.len(), 2);
}

#[test]
fn cleaner_strips_checksum_query_and_fragment() {
    let cleaned = clean_url(&bv("https://host/pkg/x-1.0.tar.gz?sha256=abcd#frag"));
    assert_eq!(cleaned, bv("https://host/pkg/x-1.0.tar.gz"));
}

#[test]
fn cleaner_is_idempotent_on_a_cleaned_url() {
    let once = clean_url(&bv("https://host/a?x=1#y"));
    let twice = clean_url(&once);
    assert_eq!(once, twice);
}

#[test]
fn dot_segments_are_removed_from_resolved_urls() {
    assert_eq!(
        remove_dot_segments(&bv("https://h/a/b/../../c/x.tar.gz")),
        bv("https://h/c/x.tar.gz")
    );
    assert_eq!(remove_dot_segments(&bv("https://h/a/./x")), bv("https://h/a/x"));
    assert_eq!(remove_dot_segments(&bv("https://h/../x")), bv("https://h/x"));
    assert_eq!(remove_dot_segments(&bv("https://h/a/b/..")), bv("https://h/a/"));
    assert_eq!(remove_dot_segments(&bv("no-scheme")), bv("no-scheme"));
}

#[test]
fn resolver_joins_and_cleans() {
    let url = resolve_artifact_url(
        &bv("https://h/simple"),
        &bv("foo"),
        &bv("foo-1.0.tar.gz#sha256=aa"),
    );
    assert_eq!(url, bv("https://h/simple/foo/foo-1.0.tar.gz"));
}

#[test]
fn anchors_are_parsed_in_document_order() {
    let doc = bv("<html><a href=\"u1\">t1</a> <a rel=\"x\" href=\"u2\">t2</a></html>");
    let anchors = parse_anchors(&doc);
    assert_eq!(anchors.len(), 2);
    assert_eq!(anchors[0].href, bv("u1"));
    assert_eq!(anchors[0].text, bv("t1"));
    assert_eq!(anchors[1].href, bv("u2"));
    assert_eq!(anchors[1].text, bv("t2"));
}

fn pypi(keep_recent: Option<usize>, debug: bool) -> Pypi {
    Pypi {
        simple_base: bv("https://h/simple"),
        package_base: bv("https://h/packages"),
        bq_query: false,
        keep_recent,
        debug,
    }
}

#[test]
fn index_names_in_document_order() {
    let doc = bv("<a href=\"a/\">alpha-pkg</a>\n<a href=\"b/\">beta-pkg</a>\n");
    let names = pypi(None, false).index_names(&doc);
    assert_eq!(names, vec![bv("alpha-pkg"), bv("beta-pkg")]);
}

#[test]
fn debug_mode_truncates_the_raw_index_document() {
    let mut doc = Vec::new();
    doc.extend_from_slice(b"<a href=\"a/\">first</a>");
    while doc.len() < 1000 {
        doc.push(b' ');
    }
    doc.extend_from_slice(b"<a href=\"b/\">second</a>");
    let all = pypi(None, false).index_names(&doc);
    assert_eq!(all, vec![bv("first"), bv("second")]);
    let truncated = pypi(None, true).index_names(&doc);
    assert_eq!(truncated, vec![bv("first")]);
}

#[test]
fn failed_fetch_contributes_no_entries() {
    let r = scan_package(&None, &bv("https://h/simple"), &bv("bar"), None);
    assert!(r.is_empty());
}

#[test]
fn scanning_resolves_and_cleans_urls() {
    let doc = bv("<a href=\"../../packages/foo-1.0.tar.gz#sha256=ab\">foo-1.0.tar.gz</a>");
    let p = pypi(None, false);
    let entries = p.scan_package(&bv("foo"), &Some(doc));
    assert_eq!(entries.len(), 1);
    assert_eq!(entries[0].url, bv("https://h/packages/foo-1.0.tar.gz"));
    assert_eq!(entries[0].filename, bv("foo-1.0.tar.gz"));
}

#[test]
fn assembly_strips_the_base_and_drops_foreign_urls() {
    let p = pypi(None, false);
    let packages = vec![
        vec![
            entry("https://h/packages/ab/x-1.0.tar.gz", "x-1.0.tar.gz"),
            entry("https://other/y-1.0.tar.gz", "y-1.0.tar.gz"),
        ],
        vec![entry("https://h/packages/cd/z-2.0.zip", "z-2.0.zip")],
    ];
    let snapshot = p.assemble_snapshot(packages);
    let paths: Vec<Vec<u8>> = snapshot.into_iter().map(|s| s.0).collect();
    assert_eq!(paths, vec![bv("ab/x-1.0.tar.gz"), bv("cd/z-2.0.zip")]);
}

#[test]
fn transfer_target_reproduces_the_observed_url() {
    let p = pypi(None, false);
    let target = p.get_object(&SnapshotPath(bv("ab/x-1.0.tar.gz")));
    assert_eq!(target.0, bv("https://h/packages/ab/x-1.0.tar.gz"));
}

#[test]
fn transfer_resolver_is_concatenation() {
    let t = transfer_url(&bv("https://h/packages/"), &bv("ab/x.tar.gz"));
    assert_eq!(t, bv("https://h/packages/ab/x.tar.gz"));
}

#[test]
fn base_normalization_adds_one_trailing_separator() {
    assert_eq!(normalize_base(&bv("https://h/p")), bv("https://h/p/"));
    assert_eq!(normalize_base(&bv("https://h/p/")), bv("https://h/p/"));
}

#[test]
fn one_failed_package_leaves_the_others_unaffected() {
    // Fan-out over two packages: "bar"'s fetch fails, "foo"'s succeeds.
    // The run completes, "bar" contributes zero entries, "foo" is intact.
    let p = pypi(None, false);
    let names = vec![bv("foo"), bv("bar")];
    let mut coord = Coordinator::new(names, 2);
    let i_foo = coord.start_next().expect("first task");
    let i_bar = coord.start_next().expect("second task");
    assert!(coord.start_next().is_none());
    let doc_foo = Some(bv("<a href=\"foo-1.0.tar.gz\">foo-1.0.tar.gz</a>"));
    let foo_entries = p.scan_package(&bv("foo"), &doc_foo);
    let bar_entries = p.scan_package(&bv("bar"), &None);
    // completion order need not match submission order
    coord.complete(i_bar, bar_entries);
    assert_eq!(coord.progress(), 1);
    coord.complete(i_foo, foo_entries);
    assert!(coord.is_done());
    let results = coord.into_results();
    assert_eq!(results.len(), 2);
    assert_eq!(results[0].len(), 1);
    assert_eq!(results[0][0].filename, bv("foo-1.0.tar.gz"));
    assert!(results[1].is_empty());
}

#[test]
fn coordinator_caps_in_flight_tasks() {
    let mut coord = Coordinator::new(vec![bv("a"), bv("b"), bv("c")], 1);
    let first = coord.start_next().expect("start the first task");
    assert!(coord.start_next().is_none());
    coord.complete(first, Vec::new());
    assert!(coord.start_next().is_some());
}

#[test]
fn strategy_selection_follows_the_configuration() {
    let (s, warn) = choose_strategy(false, true);
    assert!(matches!(s, DiscoveryStrategy::FullIndex));
    assert!(!warn);
    let (s, warn) = choose_strategy(true, true);
    assert!(matches!(s, DiscoveryStrategy::PopularityQuery));
    assert!(warn);
}

fn text_row(name: &str) -> QueryRow {
    QueryRow { cells: vec![Some(CellValue::Text(bv(name)))] }
}

#[test]
fn popularity_rows_yield_names_in_order() {
    let rows = vec![text_row("numpy"), text_row("requests")];
    let names = names_from_rows(rows).expect("well-formed rows");
    assert_eq!(names, vec![bv("numpy"), bv("requests")]);
}

#[test]
fn malformed_popularity_row_is_fatal() {
    assert!(names_from_rows(vec![QueryRow { cells: vec![] }]).is_none());
    assert!(names_from_rows(vec![QueryRow { cells: vec![None] }]).is_none());
    assert!(names_from_rows(vec![QueryRow { cells: vec![Some(CellValue::Other)] }]).is_none());
}

#[test]
fn proxies_follow_the_priority_order() {
    let env = ProxyEnv {
        http_lower: Some(bv("http://proxy-a")),
        http_upper: None,
        https_lower: None,
        https_upper: Some(bv("http://proxy-b")),
        all_lower: Some(bv("http://proxy-c")),
        all_upper: None,
    };
    let proxies: Vec<ProxyDirective> = collect_proxies(env);
    assert_eq!(proxies.len(), 3);
    assert_eq!(proxies[0].url, bv("http://proxy-a"));
    assert!(matches!(proxies[0].intercept, ProxyIntercept::HttpTargets));
    assert_eq!(proxies[1].url, bv("http://proxy-b"));
    assert!(matches!(proxies[1].intercept, ProxyIntercept::HttpsTargets));
    assert_eq!(proxies[2].url, bv("http://proxy-c"));
    assert!(matches!(proxies[2].intercept, ProxyIntercept::AllTargets));
}
