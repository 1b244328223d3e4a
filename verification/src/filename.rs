//! Extracting a version from an artifact filename.
//!
//! The naming convention is `<name>-<version><suffix>.<ext>`: the name is a
//! nonempty run of word characters up to the first `-`; the version text is
//! the run of version characters after that `-`, cut short so that one of
//! the known archive extensions (`.tar.gz`, `tar.bz2`, `.zip`, `.whl`,
//! `.exe`, `.egg`) fits at the very end; the suffix between the two may hold
//! anything but a line break.  A filename outside the convention yields no
//! version; that is a data condition, not an error.

use vstd::prelude::*;

use crate::version::{
    is_digit, spec_in_range, spec_parse_version, version_parse, Version, VersionView,
};

verus! {

/// Word characters: ASCII digits, letters and `_`.
pub open spec fn is_word(c: u8) -> bool {
    is_digit(c) || (65 <= c && c <= 90) || (97 <= c && c <= 122) || c == 95
}

/// Characters allowed in the version text: word characters, `+`, and the
/// ASCII range from `.` to `_` (digits, upper-case letters and some
/// punctuation; notably not `-`).
pub open spec fn is_vclass(c: u8) -> bool {
    is_word(c) || (46 <= c && c <= 95) || c == 43
}

pub open spec fn word_run_end(s: Seq<u8>, i: int) -> int
    decreases s.len() - i when 0 <= i <= s.len()
{
    if i < s.len() && is_word(s[i]) {
        word_run_end(s, i + 1)
    } else {
        i
    }
}

pub open spec fn vclass_run_end(s: Seq<u8>, i: int) -> int
    decreases s.len() - i when 0 <= i <= s.len()
{
    if i < s.len() && is_vclass(s[i]) {
        vclass_run_end(s, i + 1)
    } else {
        i
    }
}

/// Length the known extension claims at the end of the filename: 7 for
/// `?tar.gz` (any character, then `tar.gz`) and `tar.bz2`, 4 for `?zip`,
/// `?whl`, `?exe` and `?egg`.  The any character may not be a line break.
pub open spec fn spec_ext_len(s: Seq<u8>) -> Option<int> {
    let n = s.len() as int;
    if n >= 7 && s[n - 6] == 116 && s[n - 5] == 97 && s[n - 4] == 114 && s[n - 3] == 46
        && s[n - 2] == 103 && s[n - 1] == 122 && s[n - 7] != 10 {
        Some(7int)  // ?tar.gz
    } else if n >= 7 && s[n - 7] == 116 && s[n - 6] == 97 && s[n - 5] == 114 && s[n - 4] == 46
        && s[n - 3] == 98 && s[n - 2] == 122 && s[n - 1] == 50 {
        Some(7int)  // tar.bz2
    } else if n >= 4 && s[n - 3] == 122 && s[n - 2] == 105 && s[n - 1] == 112 && s[n - 4] != 10 {
        Some(4int)  // ?zip
    } else if n >= 4 && s[n - 3] == 119 && s[n - 2] == 104 && s[n - 1] == 108 && s[n - 4] != 10 {
        Some(4int)  // ?whl
    } else if n >= 4 && s[n - 3] == 101 && s[n - 2] == 120 && s[n - 1] == 101 && s[n - 4] != 10 {
        Some(4int)  // ?exe
    } else if n >= 4 && s[n - 3] == 101 && s[n - 2] == 103 && s[n - 1] == 103 && s[n - 4] != 10 {
        Some(4int)  // ?egg
    } else {
        None
    }
}

/// The version text of a filename under the naming convention, or `None`
/// when the filename does not match it.
pub open spec fn spec_version_str(s: Seq<u8>) -> Option<Seq<u8>> {
    let n = s.len() as int;
    let w = word_run_end(s, 0);
    if w < 1 || w >= n || s[w] != 45 {
        None
    } else {
        match spec_ext_len(s) {
            None => None,
            Some(l) => {
                let c0 = w + 1;
                let r = vclass_run_end(s, c0);
                let ce = if r < n - l {
                    r
                } else {
                    n - l
                };
                if ce <= c0 {
                    None
                } else if exists|j: int| ce <= j < n - l && s[j] == 10 {
                    None
                } else {
                    Some(s.subrange(c0, ce))
                }
            },
        }
    }
}

/// `true` when the filename matches the convention and its version text
/// parses into a machine-representable version.
pub open spec fn spec_filename_parses(s: Seq<u8>) -> bool {
    &&& spec_version_str(s) is Some
    &&& spec_parse_version(spec_version_str(s)->Some_0) is Some
    &&& spec_in_range(spec_parse_version(spec_version_str(s)->Some_0)->Some_0)
}

/// The version of a parseable filename.
pub open spec fn spec_filename_version(s: Seq<u8>) -> VersionView {
    spec_parse_version(spec_version_str(s)->Some_0)->Some_0
}

fn exec_word_run_end(s: &Vec<u8>, i: usize) -> (e: usize)
    requires
        i <= s.len(),
    ensures
        e == word_run_end(s@, i as int),
        i <= e <= s.len(),
{
    let mut e = i;
    while e < s.len() && ((48 <= s[e] && s[e] <= 57) || (65 <= s[e] && s[e] <= 90) || (97 <= s[e]
        && s[e] <= 122) || s[e] == 95)
        invariant
            i <= e <= s.len(),
            word_run_end(s@, i as int) == word_run_end(s@, e as int),
        decreases s.len() - e,
    {
        e = e + 1;
    }
    e
}

fn exec_vclass_run_end(s: &Vec<u8>, i: usize) -> (e: usize)
    requires
        i <= s.len(),
    ensures
        e == vclass_run_end(s@, i as int),
        i <= e <= s.len(),
{
    let mut e = i;
    while e < s.len() && ((48 <= s[e] && s[e] <= 57) || (65 <= s[e] && s[e] <= 90) || (97 <= s[e]
        && s[e] <= 122) || s[e] == 95 || (46 <= s[e] && s[e] <= 95) || s[e] == 43)
        invariant
            i <= e <= s.len(),
            vclass_run_end(s@, i as int) == vclass_run_end(s@, e as int),
        decreases s.len() - e,
    {
        e = e + 1;
    }
    e
}

fn exec_ext_len(s: &Vec<u8>) -> (r: Option<usize>)
    ensures
        match r {
            Some(l) => spec_ext_len(s@) == Some(l as int) && 0 < l <= s.len(),
            None => spec_ext_len(s@) is None,
        },
{
    let n = s.len();
    if n >= 7 && s[n - 6] == 116 && s[n - 5] == 97 && s[n - 4] == 114 && s[n - 3] == 46
        && s[n - 2] == 103 && s[n - 1] == 122 && s[n - 7] != 10 {
        return Some(7);
    }
    if n >= 7 && s[n - 7] == 116 && s[n - 6] == 97 && s[n - 5] == 114 && s[n - 4] == 46
        && s[n - 3] == 98 && s[n - 2] == 122 && s[n - 1] == 50 {
        return Some(7);
    }
    if n >= 4 && s[n - 3] == 122 && s[n - 2] == 105 && s[n - 1] == 112 && s[n - 4] != 10 {
        return Some(4);
    }
    if n >= 4 && s[n - 3] == 119 && s[n - 2] == 104 && s[n - 1] == 108 && s[n - 4] != 10 {
        return Some(4);
    }
    if n >= 4 && s[n - 3] == 101 && s[n - 2] == 120 && s[n - 1] == 101 && s[n - 4] != 10 {
        return Some(4);
    }
    if n >= 4 && s[n - 3] == 101 && s[n - 2] == 103 && s[n - 1] == 103 && s[n - 4] != 10 {
        return Some(4);
    }
    None
}

/// Extract the version of an artifact filename, or `None` when the filename
/// falls outside the naming convention or its version text does not parse.
pub fn version_from_filename(name: &Vec<u8>) -> (r: Option<Version>)
    ensures
        r is Some <==> spec_filename_parses(name@),
        r is Some ==> r->Some_0@ == spec_filename_version(name@),
{
    let n = name.len();
    let w = exec_word_run_end(name, 0);
    if w < 1 || w >= n || name[w] != 45 {
        return None;
    }
    let l = match exec_ext_len(name) {
        None => {
            return None;
        },
        Some(l) => l,
    };
    let c0 = w + 1;
    let r = exec_vclass_run_end(name, c0);
    let ce = if r < n - l {
        r
    } else {
        n - l
    };
    if ce <= c0 {
        return None;
    }
    let mut j = ce;
    while j < n - l
        invariant
            ce <= j <= n - l,
            n == name.len(),
            forall|t: int| ce <= t < j ==> name@[t] != 10,
        decreases n - l - j,
    {
        if name[j] == 10 {
            return None;
        }
        j = j + 1;
    }
    let mut sub: Vec<u8> = Vec::new();
    let mut t = c0;
    while t < ce
        invariant
            c0 <= t <= ce <= name.len(),
            sub@ == name@.subrange(c0 as int, t as int),
        decreases ce - t,
    {
        proof {
            assert(name@.subrange(c0 as int, (t + 1) as int) =~= name@.subrange(
                c0 as int,
                t as int,
            ).push(name@[t as int]));
        }
        sub.push(name[t]);
        t = t + 1;
    }
    proof {
        assert(spec_version_str(name@) == Some(sub@));
    }
    version_parse(&sub)
}

} // verus!
