//! Discovery of the package names to scan, and the proxy-selection policy.
//!
//! Two mutually exclusive strategies produce the ordered name list: a full
//! index scan of the registry's root listing (parsed by the listing
//! module), or a popularity query against an external analytics warehouse
//! whose result rows carry the package name in their first column.  The
//! driver outside this crate performs the fetch or the query; the logic
//! here decides the strategy and turns query rows into names.  The proxy
//! policy reads the six conventional environment values, in a fixed
//! priority order.

use vstd::prelude::*;

verus! {

/// Which strategy produces the package-name list.
pub enum DiscoveryStrategy {
    /// One request for the registry's root listing; every anchor's link
    /// text is a package name.  Fatal on failure.
    FullIndex,
    /// A fixed analytic query for the most-downloaded packages over the
    /// trailing day.  Fatal on credential or query failure.
    PopularityQuery,
}

/// Select the discovery strategy from the configuration.  Debug mode has
/// no effect on the popularity query; choosing both is reported so a
/// warning can be logged.
pub fn choose_strategy(bq_query: bool, debug: bool) -> (r: (DiscoveryStrategy, bool))
    ensures
        bq_query ==> r.0 is PopularityQuery,
        !bq_query ==> r.0 is FullIndex,
        r.1 == (bq_query && debug),
{
    if bq_query {
        (DiscoveryStrategy::PopularityQuery, debug)
    } else {
        (DiscoveryStrategy::FullIndex, false)
    }
}

/// One cell value of a query result row, as the logic reads it: a text
/// value or anything else.
pub enum CellValue {
    Text(Vec<u8>),
    Other,
}

/// One result row: its cells in column order, each possibly absent.
pub struct QueryRow {
    pub cells: Vec<Option<CellValue>>,
}

/// The package name a row carries: the text value of its first column.
pub open spec fn spec_row_name(row: QueryRow) -> Option<Seq<u8>> {
    if row.cells@.len() > 0 {
        match row.cells@[0] {
            Some(CellValue::Text(t)) => Some(t@),
            _ => None,
        }
    } else {
        None
    }
}

/// Extract the package-name column from the query result rows, in result
/// order.  `None` exactly when some row has no first column or its first
/// column is not text; the caller treats that as a fatal query failure.
pub fn names_from_rows(rows: Vec<QueryRow>) -> (r: Option<Vec<Vec<u8>>>)
    ensures
        match r {
            Some(names) => {
                &&& names@.len() == rows@.len()
                &&& forall|j: int|
                    0 <= j < rows@.len() ==> spec_row_name(#[trigger] rows@[j]) == Some(
                        names@[j]@,
                    )
            },
            None => exists|j: int|
                0 <= j < rows@.len() && spec_row_name(#[trigger] rows@[j]) is None,
        },
{
    let ghost orig = rows@;
    let mut rows = rows;
    let mut names: Vec<Vec<u8>> = Vec::new();
    while rows.len() > 0
        invariant
            names@.len() + rows@.len() == orig.len(),
            rows@ == orig.skip(names@.len() as int),
            forall|j: int|
                0 <= j < names@.len() ==> spec_row_name(#[trigger] orig[j]) == Some(names@[j]@),
        decreases rows@.len(),
    {
        let ghost n = names@.len() as int;
        let row = rows.remove(0);
        proof {
            assert(orig.skip(n)[0] == orig[n]);
            assert(orig.skip(n).remove(0) =~= orig.skip(n + 1));
        }
        let mut cells = row.cells;
        if cells.len() == 0 {
            return None;
        }
        let first = cells.remove(0);
        match first {
            Some(CellValue::Text(t)) => {
                names.push(t);
            },
            _ => {
                return None;
            },
        }
    }
    Some(names)
}

/// Which targets a proxy intercepts.
pub enum ProxyIntercept {
    HttpTargets,
    HttpsTargets,
    AllTargets,
}

/// One proxy to install: what it intercepts and the proxy URL text.
pub struct ProxyDirective {
    pub intercept: ProxyIntercept,
    pub url: Vec<u8>,
}

/// The six conventional proxy environment values, where set.
pub struct ProxyEnv {
    pub http_lower: Option<Vec<u8>>,
    pub http_upper: Option<Vec<u8>>,
    pub https_lower: Option<Vec<u8>>,
    pub https_upper: Option<Vec<u8>>,
    pub all_lower: Option<Vec<u8>>,
    pub all_upper: Option<Vec<u8>>,
}

/// The proxies the environment calls for, in priority order: the
/// HTTP-scheme values interception HTTP targets, then the HTTPS-scheme
/// values, then the catch-all values, lower-case name before upper-case.
pub fn collect_proxies(env: ProxyEnv) -> (r: Vec<ProxyDirective>)
    ensures
        dirs_of(r@) == opt_dir(env.http_lower, 0) + opt_dir(env.http_upper, 0) + opt_dir(
            env.https_lower,
            1,
        ) + opt_dir(env.https_upper, 1) + opt_dir(env.all_lower, 2) + opt_dir(env.all_upper, 2),
{
    let mut out: Vec<ProxyDirective> = Vec::new();
    push_opt(&mut out, env.http_lower, ProxyIntercept::HttpTargets);
    proof {
        assert(dirs_of(out@) =~= opt_dir(env.http_lower, 0));
    }
    push_opt(&mut out, env.http_upper, ProxyIntercept::HttpTargets);
    push_opt(&mut out, env.https_lower, ProxyIntercept::HttpsTargets);
    push_opt(&mut out, env.https_upper, ProxyIntercept::HttpsTargets);
    push_opt(&mut out, env.all_lower, ProxyIntercept::AllTargets);
    push_opt(&mut out, env.all_upper, ProxyIntercept::AllTargets);
    proof {
        assert(dirs_of(out@) =~= opt_dir(env.http_lower, 0) + opt_dir(env.http_upper, 0) + opt_dir(
            env.https_lower,
            1,
        ) + opt_dir(env.https_upper, 1) + opt_dir(env.all_lower, 2) + opt_dir(env.all_upper, 2));
    }
    out
}

/// A numeric stand-in for the intercept kind, for stating order.
pub open spec fn intercept_rank(i: ProxyIntercept) -> int {
    match i {
        ProxyIntercept::HttpTargets => 0,
        ProxyIntercept::HttpsTargets => 1,
        ProxyIntercept::AllTargets => 2,
    }
}

/// The directives one optional environment value contributes.
pub open spec fn opt_dir(v: Option<Vec<u8>>, rank: int) -> Seq<(Seq<u8>, int)> {
    match v {
        Some(u) => seq![(u@, rank)],
        None => Seq::empty(),
    }
}

pub open spec fn dirs_of(s: Seq<ProxyDirective>) -> Seq<(Seq<u8>, int)> {
    s.map_values(|d: ProxyDirective| (d.url@, intercept_rank(d.intercept)))
}

fn push_opt(out: &mut Vec<ProxyDirective>, v: Option<Vec<u8>>, intercept: ProxyIntercept)
    ensures
        dirs_of(final(out)@) == dirs_of(old(out)@) + opt_dir(v, intercept_rank(intercept)),
{
    let ghost prev = out@;
    let ghost gv = v;
    let ghost gi = intercept;
    match v {
        Some(u) => {
            out.push(ProxyDirective { intercept, url: u });
            proof {
                assert(dirs_of(out@) =~= dirs_of(prev) + opt_dir(gv, intercept_rank(gi)));
            }
        },
        None => {
            proof {
                assert(dirs_of(out@) =~= dirs_of(prev) + opt_dir(gv, intercept_rank(gi)));
            }
        },
    }
}

} // verus!
