//! Choosing the connection-tracking table to read. The filesystem probes are
//! made by the caller; these functions decide from their outcomes.

use vstd::prelude::*;
use vstd::string::*;
use crate::text::{chars_of, is_blank, is_lit, is_whitespace, is_ws};

verus! {

/// A resolved table path, or the sentinel that asks for another attempt later.
#[derive(Debug, PartialEq, Eq)]
pub enum SourcePath {
    Resolved(String),
    Unresolved,
}

pub open spec fn path_view(p: SourcePath) -> Option<Seq<char>> {
    match p {
        SourcePath::Resolved(s) => Some(s@),
        SourcePath::Unresolved => None,
    }
}

pub open spec fn string_views(v: Seq<String>) -> Seq<Seq<char>> {
    v.map_values(|s: String| s@)
}

/// The index of the first `true` in `flags`.
pub open spec fn first_hit(flags: Seq<bool>) -> Option<int>
    decreases flags.len(),
{
    if flags.len() == 0 {
        None
    } else {
        match first_hit(flags.drop_last()) {
            Some(i) => Some(i),
            None => if flags.last() {
                Some(flags.len() - 1)
            } else {
                None
            },
        }
    }
}

/// The candidate at the first hit, if any.
pub open spec fn pick_spec(cands: Seq<Seq<char>>, hits: Seq<bool>) -> Option<Seq<char>> {
    match first_hit(hits) {
        Some(i) => Some(cands[i]),
        None => None,
    }
}

pub proof fn lemma_first_hit(flags: Seq<bool>)
    ensures
        first_hit(flags) is None <==> (forall|j: int| 0 <= j < flags.len() ==> !#[trigger] flags[j]),
        first_hit(flags) is Some ==> {
            let i = first_hit(flags)->0;
            &&& 0 <= i < flags.len()
            &&& flags[i]
            &&& forall|j: int| 0 <= j < i ==> !#[trigger] flags[j]
        },
    decreases flags.len(),
{
    if flags.len() > 0 {
        let d = flags.drop_last();
        lemma_first_hit(d);
        assert forall|j: int| 0 <= j < d.len() implies d[j] == flags[j] by {}
    }
}

/// The candidate whose probe hit first.
pub fn pick_first(cands: &Vec<String>, hits: &Vec<bool>) -> (r: SourcePath)
    requires
        cands@.len() == hits@.len(),
    ensures
        path_view(r) == pick_spec(string_views(cands@), hits@),
{
    let mut i: usize = 0;
    while i < hits.len()
        invariant
            i <= hits@.len(),
            cands@.len() == hits@.len(),
            first_hit(hits@.take(i as int)) is None,
        decreases hits@.len() - i,
    {
        assert(hits@.take(i + 1).drop_last() =~= hits@.take(i as int));
        if hits[i] {
            assert(first_hit(hits@.take(i + 1)) == Some(i as int));
            proof {
                lemma_first_hit_prefix(hits@, i + 1);
            }
            let c = cands[i].clone();
            assert(string_views(cands@)[i as int] == c@);
            return SourcePath::Resolved(c);
        }
        i = i + 1;
    }
    assert(hits@.take(i as int) =~= hits@);
    SourcePath::Unresolved
}

pub proof fn lemma_first_hit_prefix(flags: Seq<bool>, n: int)
    requires
        0 <= n <= flags.len(),
        first_hit(flags.take(n)) is Some,
    ensures
        first_hit(flags) == first_hit(flags.take(n)),
    decreases flags.len(),
{
    if n < flags.len() {
        assert(flags.drop_last().take(n) =~= flags.take(n));
        lemma_first_hit_prefix(flags.drop_last(), n);
    } else {
        assert(flags.take(n) =~= flags);
    }
}

/// The requested value that asks for auto-detection.
pub open spec fn is_auto_spec(requested: Seq<char>) -> bool {
    requested == "auto"@
}

pub fn is_auto(requested: &str) -> (r: bool)
    ensures
        r == is_auto_spec(requested@),
{
    let cs = chars_of(requested);
    is_lit(&cs, "auto")
}

/// The paths tried for a concrete request, in order: the request itself, the
/// request under the `/host` root, then the primary and legacy table names
/// under the `/host` root and under the plain root.
pub open spec fn resolution_candidates_spec(requested: Seq<char>) -> Seq<Seq<char>> {
    seq![
        requested,
        "/host"@ + requested,
        "/host/proc/net/nf_conntrack"@,
        "/host/proc/net/ip_conntrack"@,
        "/proc/net/nf_conntrack"@,
        "/proc/net/ip_conntrack"@,
    ]
}

pub fn resolution_candidates(requested: &str) -> (r: Vec<String>)
    ensures
        string_views(r@) == resolution_candidates_spec(requested@),
{
    let mut r: Vec<String> = Vec::new();
    r.push(String::from_str(requested));
    r.push(String::from_str("/host").concat(requested));
    r.push(String::from_str("/host/proc/net/nf_conntrack"));
    r.push(String::from_str("/host/proc/net/ip_conntrack"));
    r.push(String::from_str("/proc/net/nf_conntrack"));
    r.push(String::from_str("/proc/net/ip_conntrack"));
    assert(string_views(r@) =~= resolution_candidates_spec(requested@));
    r
}

/// The table that a request resolves to. `"auto"` takes what detection found;
/// otherwise the first of `resolution_candidates_spec` that exists, or nothing.
pub open spec fn resolve_spec(requested: Seq<char>, exists: Seq<bool>, detected: Option<Seq<char>>) -> Option<Seq<char>> {
    if is_auto_spec(requested) {
        detected
    } else {
        pick_spec(resolution_candidates_spec(requested), exists)
    }
}

/// Resolves a requested table path. `exists[i]` tells whether the `i`-th of
/// `resolution_candidates(requested)` exists; `detected` is what
/// auto-detection found, used only for `"auto"`.
pub fn resolve_conntrack_path(requested: &str, exists: &Vec<bool>, detected: SourcePath) -> (r: SourcePath)
    requires
        exists@.len() == 6,
    ensures
        path_view(r) == resolve_spec(requested@, exists@, path_view(detected)),
{
    if is_auto(requested) {
        return detected;
    }
    let cands = resolution_candidates(requested);
    assert(string_views(cands@).len() == cands@.len());
    pick_first(&cands, exists)
}

/// The tables that auto-detection examines, in order: IPv4 and IPv6 variants
/// under the `/host` root, then under the plain root.
pub open spec fn detection_candidates_spec() -> Seq<Seq<char>> {
    seq![
        "/host/proc/net/nf_conntrack"@,
        "/host/proc/net/ip_conntrack"@,
        "/host/proc/net/nf_conntrack6"@,
        "/proc/net/nf_conntrack"@,
        "/proc/net/ip_conntrack"@,
        "/proc/net/nf_conntrack6"@,
        "/proc/net/ip_conntrack6"@,
    ]
}

pub fn detection_candidates() -> (r: Vec<String>)
    ensures
        string_views(r@) == detection_candidates_spec(),
{
    let mut r: Vec<String> = Vec::new();
    r.push(String::from_str("/host/proc/net/nf_conntrack"));
    r.push(String::from_str("/host/proc/net/ip_conntrack"));
    r.push(String::from_str("/host/proc/net/nf_conntrack6"));
    r.push(String::from_str("/proc/net/nf_conntrack"));
    r.push(String::from_str("/proc/net/ip_conntrack"));
    r.push(String::from_str("/proc/net/nf_conntrack6"));
    r.push(String::from_str("/proc/net/ip_conntrack6"));
    assert(string_views(r@) =~= detection_candidates_spec());
    r
}

/// A probe qualifies when its first line was read and holds more than
/// whitespace.
pub open spec fn qualifies(probe: Option<String>) -> bool {
    match probe {
        Some(line) => !is_blank(line@),
        None => false,
    }
}

pub open spec fn qualifying(probes: Seq<Option<String>>) -> Seq<bool> {
    probes.map_values(|p: Option<String>| qualifies(p))
}

/// Whether a line holds more than whitespace.
pub fn has_content(line: &str) -> (r: bool)
    ensures
        r == !is_blank(line@),
{
    let cs = chars_of(line);
    let mut i: usize = 0;
    while i < cs.len()
        invariant
            cs@ == line@,
            i <= cs@.len(),
            forall|k: int| 0 <= k < i ==> is_ws(#[trigger] cs@[k]),
        decreases cs@.len() - i,
    {
        if !is_whitespace(cs[i]) {
            return true;
        }
        i = i + 1;
    }
    false
}

/// Auto-detection. `first_lines[i]` is the first line read from the `i`-th of
/// `detection_candidates()`, or `None` where it does not exist or could not be
/// opened or read. The first candidate whose line is not blank is chosen.
pub fn detect_conntrack_candidate(first_lines: &Vec<Option<String>>) -> (r: SourcePath)
    requires
        first_lines@.len() == 7,
    ensures
        path_view(r) == pick_spec(detection_candidates_spec(), qualifying(first_lines@)),
{
    let mut hits: Vec<bool> = Vec::new();
    let mut i: usize = 0;
    while i < first_lines.len()
        invariant
            i <= first_lines@.len(),
            hits@ == qualifying(first_lines@).take(i as int),
        decreases first_lines@.len() - i,
    {
        let hit = match &first_lines[i] {
            Some(line) => has_content(line.as_str()),
            None => false,
        };
        hits.push(hit);
        i = i + 1;
        assert(hits@ =~= qualifying(first_lines@).take(i as int));
    }
    assert(hits@ =~= qualifying(first_lines@));
    let cands = detection_candidates();
    assert(string_views(cands@).len() == cands@.len());
    pick_first(&cands, &hits)
}

/// For a concrete request that does not exist: the first alternate that
/// exists is chosen, and where none exists the result is unresolved.
pub proof fn lemma_resolution_fallback(requested: Seq<char>, exists: Seq<bool>, detected: Option<Seq<char>>)
    requires
        !is_auto_spec(requested),
        exists.len() == 6,
        !exists[0],
    ensures
        (forall|j: int| 1 <= j < 6 ==> !#[trigger] exists[j]) ==> resolve_spec(requested, exists, detected) is None,
        forall|i: int|
            1 <= i < 6 && #[trigger] exists[i] && (forall|j: int| 1 <= j < i ==> !#[trigger] exists[j])
                ==> resolve_spec(requested, exists, detected) == Some(resolution_candidates_spec(requested)[i]),
{
    lemma_first_hit(exists);
    if first_hit(exists) is Some {
        let k = first_hit(exists)->0;
        assert forall|i: int|
            1 <= i < 6 && #[trigger] exists[i] && (forall|j: int| 1 <= j < i ==> !#[trigger] exists[j])
                implies k == i by {
            if k < i {
                assert(!exists[k]);
            }
        }
    }
}

} // verus!
