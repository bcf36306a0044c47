//! Match records built when a search pattern is located inside a line of
//! text.
//!
//! The searcher and its file walking live outside this library; what is
//! verified here is the pure part of the sink callback: locating every
//! non-overlapping occurrence of the pattern in the matched line and turning
//! each into a [`Match`] record carrying the line, the path, the line number,
//! and the one-based column of the occurrence.

use vstd::prelude::*;
use vstd::slice::slice_to_vec;
use vstd::string::StringSliceAdditionalSpecFns;

verus! {

/// Errors the search sink can report while building match records.
#[derive(Debug, Clone, Copy, PartialEq, Eq, Structural)]
pub enum SimpleSinkError {
    /// An error from the searcher itself, carried through the sink.
    StandardError,
    /// The sink was handed a match without any line.
    NoLine,
    /// The matched bytes could not be read as text.
    BadString,
}

/// One located occurrence of a search pattern.
#[derive(Debug)]
pub struct Match {
    /// The bytes of the matched region handed over by the searcher.
    pub text: Vec<u8>,
    /// The path of the file the match was found in; empty when the search ran
    /// over an anonymous buffer.
    pub path: String,
    /// The one-based line number, when the searcher counted lines.
    pub line_number: Option<u64>,
    /// The one-based byte column of the occurrence within the line.
    pub column: u64,
}

/// The starting indices of the non-overlapping, leftmost-first occurrences of
/// `needle` in `hay` at or after position `i`: an occurrence is consumed
/// whole before scanning on, as the standard library's `match_indices` does.
pub open spec fn match_scan(hay: Seq<u8>, needle: Seq<u8>, i: int) -> Seq<int>
    recommends
        needle.len() > 0,
    decreases hay.len() - i,
{
    if 0 <= i && i + needle.len() <= hay.len() && needle.len() > 0 {
        if hay.subrange(i, i + needle.len()) == needle {
            seq![i] + match_scan(hay, needle, i + needle.len())
        } else {
            match_scan(hay, needle, i + 1)
        }
    } else {
        Seq::<int>::empty()
    }
}

/// Every starting index of an occurrence of `needle` in `hay`, leftmost
/// first and non-overlapping; an empty needle matches before every position
/// and after the last one.
pub open spec fn spec_match_indices(hay: Seq<u8>, needle: Seq<u8>) -> Seq<int> {
    if needle.len() == 0 {
        Seq::<int>::new(hay.len() + 1, |k: int| k)
    } else {
        match_scan(hay, needle, 0)
    }
}

/// The one-based column of an occurrence starting at byte index `idx`,
/// saturating at the numeric limit.
pub open spec fn column_of(idx: int) -> int {
    if idx + 1 > u64::MAX as int {
        u64::MAX as int
    } else {
        idx + 1
    }
}

/// Whether `needle` occurs in `hay` starting exactly at `i`.
fn is_match_at(hay: &[u8], needle: &[u8], i: usize) -> (r: bool)
    requires
        i + needle@.len() <= hay@.len(),
    ensures
        r == (hay@.subrange(i as int, i as int + needle@.len() as int) == needle@),
{
    let m: usize = needle.len();
    let total: usize = hay.len();
    let mut k: usize = 0;
    while k < m
        invariant
            k <= m,
            m == needle@.len(),
            total == hay@.len(),
            i + m <= hay@.len(),
            forall|t: int| 0 <= t < k ==> hay@[i + t] == needle@[t],
        decreases m - k,
    {
        if hay[i + k] != needle[k] {
            proof {
                assert(hay@.subrange(i as int, i as int + m as int)[k as int] != needle@[k as int]);
            }
            return false;
        }
        k = k + 1;
    }
    proof {
        assert(hay@.subrange(i as int, i as int + m as int) =~= needle@);
    }
    true
}

/// The starting byte indices of all non-overlapping occurrences of `needle`
/// in `hay`, leftmost first.
pub fn match_indices(hay: &[u8], needle: &[u8]) -> (r: Vec<usize>)
    ensures
        r@.map_values(|v: usize| v as int) == spec_match_indices(hay@, needle@),
{
    let mut r: Vec<usize> = Vec::new();
    let n: usize = hay.len();
    let m: usize = needle.len();
    if m == 0 {
        let mut i: usize = 0;
        loop
            invariant_except_break
                i <= n,
                n == hay@.len(),
                needle@.len() == 0,
                r@.map_values(|v: usize| v as int) =~= Seq::<int>::new(i as nat, |k: int| k),
            ensures
                r@.map_values(|v: usize| v as int) =~= Seq::<int>::new(
                    hay@.len() + 1,
                    |k: int| k,
                ),
            decreases n - i,
        {
            let ghost rm = r@.map_values(|v: usize| v as int);
            r.push(i);
            proof {
                assert(r@.map_values(|v: usize| v as int) =~= rm.push(i as int));
                assert(r@.map_values(|v: usize| v as int) =~= Seq::<int>::new(
                    (i + 1) as nat,
                    |k: int| k,
                ));
            }
            if i == n {
                break;
            }
            i = i + 1;
        }
        return r;
    }
    let mut i: usize = 0;
    while i <= n && n - i >= m
        invariant
            n == hay@.len(),
            m == needle@.len(),
            m > 0,
            i <= n + 1,
            spec_match_indices(hay@, needle@) =~= r@.map_values(|v: usize| v as int) + match_scan(
                hay@,
                needle@,
                i as int,
            ),
        decreases n + 1 - i,
    {
        if is_match_at(hay, needle, i) {
            let ghost rm = r@.map_values(|v: usize| v as int);
            r.push(i);
            proof {
                assert(r@.map_values(|v: usize| v as int) =~= rm.push(i as int));
                assert(rm.push(i as int) =~= rm + seq![i as int]);
            }
            i = i + m;
        } else {
            i = i + 1;
        }
    }
    proof {
        assert(match_scan(hay@, needle@, i as int) =~= Seq::<int>::empty());
        assert(spec_match_indices(hay@, needle@) =~= r@.map_values(|v: usize| v as int));
    }
    r
}

impl Match {
    /// Builds one match record per occurrence of `pattern` in the matched
    /// line: each record carries the searcher's buffer bytes, the current
    /// path (empty when none is known), the line number, and the occurrence's
    /// one-based byte column. A match handed over without a line is the sink
    /// error `NoLine`; that is the only failure.
    pub fn from_sink_match_with_path(
        pattern: &str,
        line: Option<&[u8]>,
        buffer: &[u8],
        path: Option<&str>,
        line_number: Option<u64>,
    ) -> (r: Result<Vec<Match>, SimpleSinkError>)
        ensures
            line is None ==> (r matches Err(e) && e == SimpleSinkError::NoLine),
            line matches Some(l) ==> (r matches Ok(ms) && {
                let idxs = spec_match_indices(l@, pattern.spec_bytes());
                &&& ms@.len() == idxs.len()
                &&& (forall|k: int|
                    0 <= k < idxs.len() ==> (#[trigger] ms@[k]).text@ == buffer@ && ms@[k].path@
                        == (match path {
                        Some(p) => p@,
                        None => Seq::<char>::empty(),
                    }) && ms@[k].line_number == line_number && ms@[k].column as int == column_of(
                        idxs[k],
                    ))
            }),
    {
        let l: &[u8] = match line {
            Some(l) => l,
            None => {
                return Err(SimpleSinkError::NoLine);
            },
        };
        let idxs: Vec<usize> = match_indices(l, pattern.as_bytes());
        let ghost ids = spec_match_indices(l@, pattern.spec_bytes());
        let mut ms: Vec<Match> = Vec::new();
        let mut k: usize = 0;
        let n: usize = idxs.len();
        while k < n
            invariant
                k <= n,
                n == idxs@.len(),
                idxs@.map_values(|v: usize| v as int) == ids,
                ids == spec_match_indices(l@, pattern.spec_bytes()),
                ms@.len() == k,
                forall|t: int|
                    0 <= t < k ==> (#[trigger] ms@[t]).text@ == buffer@ && ms@[t].path@ == (
                    match path {
                        Some(p) => p@,
                        None => Seq::<char>::empty(),
                    }) && ms@[t].line_number == line_number && ms@[t].column as int == column_of(
                        ids[t],
                    ),
            decreases n - k,
        {
            let p_str: String = match path {
                Some(p) => p.to_owned(),
                None => String::new(),
            };
            let col: u64 = (idxs[k] as u64).saturating_add(1);
            proof {
                assert(ids[k as int] == idxs@.map_values(|v: usize| v as int)[k as int]);
            }
            ms.push(Match { text: slice_to_vec(buffer), path: p_str, line_number, column: col });
            k = k + 1;
        }
        Ok(ms)
    }
}

} // verus!
