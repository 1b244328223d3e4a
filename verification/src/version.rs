//! Comparable, stability-tagged package versions.
//!
//! A version is parsed from a string such as `1.0.0`, `2.0.0rc1` or
//! `1.2.dev3`: one or more dot-separated numeric components, optionally
//! followed by a pre-release tag (`dev`, `a`/`alpha`, `b`/`beta`,
//! `c`/`rc`/`pre`/`preview`) and a tag number.  A version with no
//! pre-release tag is *stable*.  Versions are totally ordered: first by the
//! numeric components (lexicographically), then by tag rank (development
//! before alpha before beta before release candidates before stable), then
//! by tag number.

use vstd::prelude::*;

verus! {

/// Tag rank of a stable version (no pre-release tag).  Pre-release ranks
/// are strictly smaller: dev = 0, alpha = 1, beta = 2, release candidate = 3.
pub const STABLE_RANK: u8 = 9;

/// Mathematical value of a parsed version.
#[verifier::ext_equal]
pub ghost struct VersionView {
    pub nums: Seq<int>,
    pub rank: int,
    pub num: int,
}

/// A parsed version: numeric release components, pre-release tag rank and
/// tag number.  `rank == STABLE_RANK` means the version is stable and then
/// `num` is 0.
pub struct Version {
    pub nums: Vec<u64>,
    pub rank: u8,
    pub num: u64,
}

/// The numeric components of a version, as mathematical integers.
pub open spec fn nums_view(v: Seq<u64>) -> Seq<int> {
    v.map_values(|x: u64| x as int)
}

impl View for Version {
    type V = VersionView;

    open spec fn view(&self) -> VersionView {
        VersionView {
            nums: nums_view(self.nums@),
            rank: self.rank as int,
            num: self.num as int,
        }
    }
}

/// A stable version carries no pre-release qualifier.
pub open spec fn spec_is_stable(v: VersionView) -> bool {
    v.rank == STABLE_RANK
}

/// Strict lexicographic order on number sequences; a proper prefix is
/// smaller than the longer sequence.
pub open spec fn lex_lt(a: Seq<int>, b: Seq<int>) -> bool
    decreases a.len(),
{
    if a.len() == 0 {
        b.len() > 0
    } else if b.len() == 0 {
        false
    } else if a[0] == b[0] {
        lex_lt(a.drop_first(), b.drop_first())
    } else {
        a[0] < b[0]
    }
}

/// Strict total order on versions: numeric components first, then tag rank,
/// then tag number.
pub open spec fn vers_lt(a: VersionView, b: VersionView) -> bool {
    ||| lex_lt(a.nums, b.nums)
    ||| (a.nums == b.nums && (a.rank < b.rank || (a.rank == b.rank && a.num < b.num)))
}

pub open spec fn vers_le(a: VersionView, b: VersionView) -> bool {
    vers_lt(a, b) || a == b
}

pub proof fn lemma_lex_trichotomy(a: Seq<int>, b: Seq<int>)
    ensures
        lex_lt(a, b) || lex_lt(b, a) || a == b,
        lex_lt(a, b) ==> !lex_lt(b, a) && a != b,
        lex_lt(b, a) ==> !lex_lt(a, b) && a != b,
    decreases a.len(),
{
    if a.len() == 0 {
        if b.len() == 0 {
            assert(a =~= b);
        }
    } else if b.len() == 0 {
    } else if a[0] == b[0] {
        lemma_lex_trichotomy(a.drop_first(), b.drop_first());
        if a.drop_first() == b.drop_first() {
            assert forall|i: int| 0 <= i < a.len() implies a[i] == b[i] by {
                if i > 0 {
                    assert(a.drop_first()[i - 1] == b.drop_first()[i - 1]);
                }
            }
            assert(a.len() == b.len());
            assert(a =~= b);
        }
        if a == b {
            assert(a.drop_first() =~= b.drop_first());
        }
    } else {
        if a == b {
            assert(a[0] == b[0]);
        }
    }
}

pub proof fn lemma_lex_transitive(a: Seq<int>, b: Seq<int>, c: Seq<int>)
    requires
        lex_lt(a, b),
        lex_lt(b, c),
    ensures
        lex_lt(a, c),
    decreases a.len(),
{
    if a.len() == 0 {
    } else if a[0] == b[0] {
        if b[0] == c[0] {
            lemma_lex_transitive(a.drop_first(), b.drop_first(), c.drop_first());
        }
    } else {
    }
}

pub proof fn lemma_vers_trichotomy(a: VersionView, b: VersionView)
    ensures
        vers_lt(a, b) || vers_lt(b, a) || a == b,
        vers_lt(a, b) ==> !vers_lt(b, a) && a != b,
        vers_lt(b, a) ==> !vers_lt(a, b) && a != b,
{
    lemma_lex_trichotomy(a.nums, b.nums);
    if !lex_lt(a.nums, b.nums) && !lex_lt(b.nums, a.nums) {
        if a.rank == b.rank && a.num == b.num {
            assert(a =~= b);
        }
    }
}

pub proof fn lemma_vers_transitive(a: VersionView, b: VersionView, c: VersionView)
    requires
        vers_lt(a, b),
        vers_lt(b, c),
    ensures
        vers_lt(a, c),
{
    if lex_lt(a.nums, b.nums) && lex_lt(b.nums, c.nums) {
        lemma_lex_transitive(a.nums, b.nums, c.nums);
    }
}

/// Compare two versions: `true` exactly when `a` is strictly older than `b`.
pub fn version_lt(a: &Version, b: &Version) -> (r: bool)
    ensures
        r == vers_lt(a@, b@),
{
    let n = if a.nums.len() < b.nums.len() {
        a.nums.len()
    } else {
        b.nums.len()
    };
    let mut i: usize = 0;
    while i < n
        invariant
            0 <= i <= n,
            n <= a.nums.len(),
            n <= b.nums.len(),
            n == a.nums.len() || n == b.nums.len(),
            forall|j: int| 0 <= j < i ==> a.nums@[j] == b.nums@[j],
        decreases n - i,
    {
        if a.nums[i] < b.nums[i] {
            proof {
                lemma_lex_skip_prefix(a@.nums, b@.nums, i as int);
            }
            return true;
        }
        if a.nums[i] > b.nums[i] {
            proof {
                lemma_lex_skip_prefix(a@.nums, b@.nums, i as int);
                lemma_lex_trichotomy(a@.nums, b@.nums);
            }
            return false;
        }
        i = i + 1;
    }
    proof {
        lemma_lex_skip_prefix(a@.nums, b@.nums, n as int);
    }
    if a.nums.len() < b.nums.len() {
        return true;
    }
    if a.nums.len() > b.nums.len() {
        proof {
            lemma_lex_trichotomy(a@.nums, b@.nums);
        }
        return false;
    }
    proof {
        assert(a@.nums =~= b@.nums);
        lemma_lex_trichotomy(a@.nums, b@.nums);
    }
    if a.rank < b.rank {
        return true;
    }
    if a.rank > b.rank {
        return false;
    }
    a.num < b.num
}

/// With equal prefixes of length `i`, the lexicographic order is decided by
/// the remainders.
proof fn lemma_lex_skip_prefix(a: Seq<int>, b: Seq<int>, i: int)
    requires
        0 <= i <= a.len(),
        0 <= i <= b.len(),
        forall|j: int| 0 <= j < i ==> a[j] == b[j],
    ensures
        lex_lt(a, b) == lex_lt(a.skip(i), b.skip(i)),
    decreases i,
{
    if i > 0 {
        assert(a.drop_first() =~= a.skip(1));
        assert(b.drop_first() =~= b.skip(1));
        lemma_lex_skip_prefix(a.skip(1), b.skip(1), i - 1);
        assert(a.skip(1).skip(i - 1) =~= a.skip(i));
        assert(b.skip(1).skip(i - 1) =~= b.skip(i));
    } else {
        assert(a.skip(0) =~= a);
        assert(b.skip(0) =~= b);
    }
}

/// `true` exactly when the two versions are equal.
pub fn version_eq(a: &Version, b: &Version) -> (r: bool)
    ensures
        r == (a@ == b@),
{
    let lt = version_lt(a, b);
    let gt = version_lt(b, a);
    proof {
        lemma_vers_trichotomy(a@, b@);
    }
    !lt && !gt
}

/// `true` exactly when the version carries no pre-release qualifier.
pub fn version_is_stable(v: &Version) -> (r: bool)
    ensures
        r == spec_is_stable(v@),
{
    v.rank == STABLE_RANK
}

pub open spec fn is_digit(c: u8) -> bool {
    48 <= c && c <= 57
}

/// Separators tolerated between the release part, the tag and the tag
/// number: `.`, `-`, `_`.
pub open spec fn is_sep(c: u8) -> bool {
    c == 46 || c == 45 || c == 95
}

pub open spec fn is_lower_alpha(c: u8) -> bool {
    97 <= c && c <= 122
}

/// End of the run of decimal digits starting at `i`.
pub open spec fn digit_run_end(s: Seq<u8>, i: int) -> int
    decreases s.len() - i when 0 <= i <= s.len()
{
    if i < s.len() && is_digit(s[i]) {
        digit_run_end(s, i + 1)
    } else {
        i
    }
}

pub proof fn lemma_digit_run_end(s: Seq<u8>, i: int)
    requires
        0 <= i <= s.len(),
    ensures
        i <= digit_run_end(s, i) <= s.len(),
        forall|j: int| i <= j < digit_run_end(s, i) ==> is_digit(s[j]),
        digit_run_end(s, i) < s.len() ==> !is_digit(s[digit_run_end(s, i)]),
    decreases s.len() - i,
{
    if i < s.len() && is_digit(s[i]) {
        lemma_digit_run_end(s, i + 1);
    }
}

/// End of the run of lower-case letters starting at `i`.
pub open spec fn alpha_run_end(s: Seq<u8>, i: int) -> int
    decreases s.len() - i when 0 <= i <= s.len()
{
    if i < s.len() && is_lower_alpha(s[i]) {
        alpha_run_end(s, i + 1)
    } else {
        i
    }
}

/// Numeric value of the digit run `s[i..j]`.
pub open spec fn num_value(s: Seq<u8>, i: int, j: int) -> int
    decreases j - i when i <= j
{
    if j <= i {
        0
    } else {
        num_value(s, i, j - 1) * 10 + (s[j - 1] - 48)
    }
}

pub proof fn lemma_num_value_nonneg(s: Seq<u8>, i: int, j: int)
    requires
        i <= j,
        forall|k: int| i <= k < j ==> is_digit(s[k]),
    ensures
        num_value(s, i, j) >= 0,
    decreases j - i,
{
    if j > i {
        lemma_num_value_nonneg(s, i, j - 1);
    }
}

pub proof fn lemma_num_value_mono(s: Seq<u8>, i: int, j1: int, j2: int)
    requires
        i <= j1 <= j2,
        forall|k: int| i <= k < j2 ==> is_digit(s[k]),
    ensures
        num_value(s, i, j1) <= num_value(s, i, j2),
    decreases j2 - j1,
{
    if j2 > j1 {
        lemma_num_value_mono(s, i, j1, j2 - 1);
        lemma_num_value_nonneg(s, i, j2 - 1);
    }
}

/// The release part starting at `i`: the parsed numeric components and the
/// position just after the last digit consumed.
pub open spec fn release_parse(s: Seq<u8>, i: int) -> (Seq<int>, int)
    decreases s.len() - i when 0 <= i <= s.len() via release_parse_decreases
{
    if i < s.len() && is_digit(s[i]) {
        let e = digit_run_end(s, i);
        if e < s.len() && s[e] == 46 && e + 1 < s.len() && is_digit(s[e + 1]) {
            let r = release_parse(s, e + 1);
            (seq![num_value(s, i, e)] + r.0, r.1)
        } else {
            (seq![num_value(s, i, e)], e)
        }
    } else {
        (Seq::empty(), i)
    }
}

#[via_fn]
proof fn release_parse_decreases(s: Seq<u8>, i: int) {
    if 0 <= i <= s.len() && i < s.len() && is_digit(s[i]) {
        lemma_digit_run_end(s, i);
    }
}

/// Rank of a pre-release tag word, or `None` for an unknown word.  The
/// words are `dev` (0), `a`/`alpha` (1), `b`/`beta` (2) and
/// `c`/`rc`/`pre`/`preview` (3).
pub open spec fn spec_tag_rank(w: Seq<u8>) -> Option<int> {
    if w.len() == 1 {
        if w[0] == 97 {
            Some(1int)
        } else if w[0] == 98 {
            Some(2int)
        } else if w[0] == 99 {
            Some(3int)
        } else {
            None
        }
    } else if w.len() == 2 {
        if w[0] == 114 && w[1] == 99 {
            Some(3int)
        } else {
            None
        }
    } else if w.len() == 3 {
        if w[0] == 100 && w[1] == 101 && w[2] == 118 {
            Some(0int)
        } else if w[0] == 112 && w[1] == 114 && w[2] == 101 {
            Some(3int)
        } else {
            None
        }
    } else if w.len() == 4 {
        if w[0] == 98 && w[1] == 101 && w[2] == 116 && w[3] == 97 {
            Some(2int)
        } else {
            None
        }
    } else if w.len() == 5 {
        if w[0] == 97 && w[1] == 108 && w[2] == 112 && w[3] == 104 && w[4] == 97 {
            Some(1int)
        } else {
            None
        }
    } else if w.len() == 7 {
        if w[0] == 112 && w[1] == 114 && w[2] == 101 && w[3] == 118 && w[4] == 105 && w[5] == 101
            && w[6] == 119 {
            Some(3int)
        } else {
            None
        }
    } else {
        None
    }
}

/// The version grammar: one or more dot-separated digit runs, then
/// optionally one separator, a pre-release tag word, optionally one more
/// separator and a digit run for the tag number; nothing may follow.
pub open spec fn spec_parse_version(s: Seq<u8>) -> Option<VersionView> {
    if s.len() == 0 || !is_digit(s[0]) {
        None
    } else {
        let nums = release_parse(s, 0).0;
        let j = release_parse(s, 0).1;
        let k = if j < s.len() && is_sep(s[j]) {
            j + 1
        } else {
            j
        };
        let m = alpha_run_end(s, k);
        if m == k {
            if k == s.len() {
                Some(VersionView { nums, rank: STABLE_RANK as int, num: 0 })
            } else {
                None
            }
        } else {
            match spec_tag_rank(s.subrange(k, m)) {
                Some(rank) => {
                    let p = if m < s.len() && is_sep(s[m]) {
                        m + 1
                    } else {
                        m
                    };
                    let q = digit_run_end(s, p);
                    if q == s.len() {
                        Some(VersionView { nums, rank, num: num_value(s, p, q) })
                    } else {
                        None
                    }
                },
                None => None,
            }
        }
    }
}

/// Every numeric component of the parsed version fits in a machine word.
pub open spec fn spec_in_range(v: VersionView) -> bool {
    &&& forall|k: int| 0 <= k < v.nums.len() ==> #[trigger] v.nums[k] <= u64::MAX
    &&& v.num <= u64::MAX
}

fn exec_digit_run_end(s: &Vec<u8>, i: usize) -> (e: usize)
    requires
        i <= s.len(),
    ensures
        e == digit_run_end(s@, i as int),
        i <= e <= s.len(),
{
    let mut e = i;
    while e < s.len() && 48 <= s[e] && s[e] <= 57
        invariant
            i <= e <= s.len(),
            digit_run_end(s@, i as int) == digit_run_end(s@, e as int),
        decreases s.len() - e,
    {
        e = e + 1;
    }
    e
}

fn exec_alpha_run_end(s: &Vec<u8>, i: usize) -> (e: usize)
    requires
        i <= s.len(),
    ensures
        e == alpha_run_end(s@, i as int),
        i <= e <= s.len(),
{
    let mut e = i;
    while e < s.len() && 97 <= s[e] && s[e] <= 122
        invariant
            i <= e <= s.len(),
            alpha_run_end(s@, i as int) == alpha_run_end(s@, e as int),
        decreases s.len() - e,
    {
        e = e + 1;
    }
    e
}

/// Value of the digit run `s[i..j]`, or `None` when it exceeds `u64::MAX`.
fn parse_num_checked(s: &Vec<u8>, i: usize, j: usize) -> (r: Option<u64>)
    requires
        i <= j <= s.len(),
        forall|k: int| i <= k < j ==> is_digit(s@[k]),
    ensures
        match r {
            Some(v) => v as int == num_value(s@, i as int, j as int),
            None => num_value(s@, i as int, j as int) > u64::MAX,
        },
{
    let mut acc: u64 = 0;
    let mut cur = i;
    while cur < j
        invariant
            i <= cur <= j <= s.len(),
            forall|k: int| i <= k < j ==> is_digit(s@[k]),
            acc as int == num_value(s@, i as int, cur as int),
        decreases j - cur,
    {
        let d: u8 = s[cur] - 48;
        if acc > (u64::MAX - d as u64) / 10 {
            proof {
                lemma_num_value_mono(s@, i as int, cur as int + 1, j as int);
            }
            return None;
        }
        acc = acc * 10 + d as u64;
        cur = cur + 1;
    }
    Some(acc)
}

/// Rank of the tag word `s[k..m]`, matching `spec_tag_rank`.
fn exec_tag_rank(s: &Vec<u8>, k: usize, m: usize) -> (r: Option<u8>)
    requires
        k <= m <= s.len(),
    ensures
        match r {
            Some(t) => spec_tag_rank(s@.subrange(k as int, m as int)) == Some(t as int),
            None => spec_tag_rank(s@.subrange(k as int, m as int)) is None,
        },
{
    let ghost w = s@.subrange(k as int, m as int);
    let n = m - k;
    if n == 1 {
        if s[k] == 97 {
            return Some(1);
        }
        if s[k] == 98 {
            return Some(2);
        }
        if s[k] == 99 {
            return Some(3);
        }
        return None;
    }
    if n == 2 {
        if s[k] == 114 && s[k + 1] == 99 {
            return Some(3);
        }
        return None;
    }
    if n == 3 {
        if s[k] == 100 && s[k + 1] == 101 && s[k + 2] == 118 {
            return Some(0);
        }
        if s[k] == 112 && s[k + 1] == 114 && s[k + 2] == 101 {
            return Some(3);
        }
        return None;
    }
    if n == 4 {
        if s[k] == 98 && s[k + 1] == 101 && s[k + 2] == 116 && s[k + 3] == 97 {
            return Some(2);
        }
        return None;
    }
    if n == 5 {
        if s[k] == 97 && s[k + 1] == 108 && s[k + 2] == 112 && s[k + 3] == 104 && s[k + 4] == 97 {
            return Some(1);
        }
        return None;
    }
    if n == 7 {
        if s[k] == 112 && s[k + 1] == 114 && s[k + 2] == 101 && s[k + 3] == 118 && s[k + 4] == 105
            && s[k + 5] == 101 && s[k + 6] == 119 {
            return Some(3);
        }
        return None;
    }
    None
}

/// Parse a version string.  Returns `None` exactly when the string does not
/// match the version grammar or a numeric component exceeds `u64::MAX`.
pub fn version_parse(s: &Vec<u8>) -> (r: Option<Version>)
    ensures
        match r {
            Some(v) => spec_parse_version(s@) == Some(v@),
            None => spec_parse_version(s@) is None || !spec_in_range(
                spec_parse_version(s@)->Some_0,
            ),
        },
{
    if s.len() == 0 {
        return None;
    }
    if !(48 <= s[0] && s[0] <= 57) {
        return None;
    }
    let ghost total_nums = release_parse(s@, 0).0;
    let ghost total_end = release_parse(s@, 0).1;
    let mut nums: Vec<u64> = Vec::new();
    let mut i: usize = 0;
    let j: usize;
    proof {
        assert(nums_view(nums@) =~= Seq::<int>::empty());
        assert(total_nums =~= nums_view(nums@) + release_parse(s@, 0).0);
    }
    #[verifier::loop_isolation(true)]
    loop
        invariant_except_break
            total_nums == nums_view(nums@) + release_parse(s@, i as int).0,
        invariant
            0 <= i < s.len(),
            i <= s.len(),
            is_digit(s@[0]),
            is_digit(s@[i as int]),
            total_nums == release_parse(s@, 0).0,
            total_end == release_parse(s@, i as int).1,
        ensures
            j == total_end,
            j <= s.len(),
            total_nums == nums_view(nums@),
        decreases s.len() - i,
    {
        proof {
            lemma_digit_run_end(s@, i as int);
        }
        let e = exec_digit_run_end(s, i);
        let ghost rest = release_parse(s@, i as int).0;
        let ghost rest_end = release_parse(s@, i as int).1;
        proof {
            assert(rest[0] == num_value(s@, i as int, e as int));
        }
        match parse_num_checked(s, i, e) {
            None => {
                proof {
                    assert(total_nums[nums@.len() as int] == rest[0]);
                    assert(total_nums[nums@.len() as int] > u64::MAX);
                    let sp = spec_parse_version(s@);
                    if sp is Some {
                        assert(sp->Some_0.nums == total_nums);
                        assert(!spec_in_range(sp->Some_0));
                    }
                }
                return None;
            },
            Some(v) => {
                let ghost prev = nums@;
                nums.push(v);
                proof {
                    assert(nums@ =~= prev.push(v));
                    assert(nums_view(nums@) =~= nums_view(prev).push(v as int));
                }
            },
        }
        if e < s.len() && s[e] == 46 && e + 1 < s.len() && 48 <= s[e + 1] && s[e + 1] <= 57 {
            proof {
                assert(rest == seq![num_value(s@, i as int, e as int)] + release_parse(
                    s@,
                    (e + 1) as int,
                ).0);
                assert(total_nums =~= nums_view(nums@) + release_parse(s@, (e + 1) as int).0);
            }
            i = e + 1;
        } else {
            j = e;
            proof {
                assert(rest == seq![num_value(s@, i as int, e as int)]);
                assert(rest_end == e);
                assert(total_nums =~= nums_view(nums@));
            }
            break;
        }
    }
    let k = if j < s.len() && (s[j] == 46 || s[j] == 45 || s[j] == 95) {
        j + 1
    } else {
        j
    };
    let m = exec_alpha_run_end(s, k);
    proof {
        assert(forall|t: int| 0 <= t < total_nums.len() ==> #[trigger] total_nums[t] <= u64::MAX);
    }
    if m == k {
        if k == s.len() {
            let v = Version { nums, rank: STABLE_RANK, num: 0 };
            proof {
                assert(v@ =~= spec_parse_version(s@)->Some_0);
            }
            return Some(v);
        } else {
            return None;
        }
    }
    match exec_tag_rank(s, k, m) {
        None => {
            return None;
        },
        Some(rank) => {
            let p = if m < s.len() && (s[m] == 46 || s[m] == 45 || s[m] == 95) {
                m + 1
            } else {
                m
            };
            let q = exec_digit_run_end(s, p);
            proof {
                lemma_digit_run_end(s@, p as int);
            }
            if q != s.len() {
                return None;
            }
            match parse_num_checked(s, p, q) {
                None => {
                    return None;
                },
                Some(tn) => {
                    let v = Version { nums, rank, num: tn };
                    proof {
                        assert(v@ =~= spec_parse_version(s@)->Some_0);
                    }
                    return Some(v);
                },
            }
        },
    }
}

} // verus!
