//! The per-file half of the tree scan: extraction of a file's declared
//! identity and references through the fixed text patterns, the
//! source-file filter, and accumulation of records into an import map.
//! Walking the directory tree and reading files is the caller's
//! business; this module takes each file's text as a plain value.

use vstd::prelude::*;
use crate::builder::clone_refs;
use crate::escape::str_eq;
use crate::module_map::{ModuleMap, spec_inserted};

verus! {

/// The identity the extraction pattern finds in one file's text, if
/// any: the first capture of the first `package IDENT;` match.
pub uninterp spec fn package_of(text: Seq<char>) -> Option<Seq<char>>;

/// The references the extraction pattern finds in one file's text: the
/// first capture of every `import IDENT;` match, in file order,
/// duplicates kept.
pub uninterp spec fn imports_of(text: Seq<char>) -> Seq<Seq<char>>;

/// Relies on regex::Regex::new and regex::Regex::captures with the
/// pattern `package\s+(\S+);`: the first capture group of the first
/// match, a function of the text alone.
#[verifier::external_body]
fn extract_package(text: &str) -> (r: Option<String>)
    ensures
        r.deep_view() == package_of(text@),
{
    let re = regex::Regex::new(r"package\s+(\S+);").unwrap();
    re.captures(text).and_then(|c| c.get(1)).map(|m| m.as_str().to_string())
}

/// Relies on regex::Regex::new and regex::Regex::captures_iter with
/// the pattern `import\s+(\S+);`: the first capture group of every
/// match, in order, a function of the text alone.
#[verifier::external_body]
fn extract_imports(text: &str) -> (r: Vec<String>)
    ensures
        r.deep_view() == imports_of(text@),
{
    let re = regex::Regex::new(r"import\s+(\S+);").unwrap();
    re.captures_iter(text).map(|c| c[1].to_string()).collect()
}

/// The fixed source-file filter: exact match on the `java` extension.
pub fn is_source_extension(ext: &str) -> (r: bool)
    ensures
        r == (ext@ == "java"@),
{
    str_eq(ext, "java")
}

/// Extract one file's record: its declared identity and references,
/// or nothing when no identity is declared.
pub fn extract_record(text: &str) -> (r: Option<(String, Vec<String>)>)
    ensures
        match r {
            Some(rec) => package_of(text@) == Some(rec.0@) && rec.1.deep_view() == imports_of(
                text@,
            ),
            None => package_of(text@) is None,
        },
{
    match extract_package(text) {
        Some(identity) => Some((identity, extract_imports(text))),
        None => None,
    }
}

/// Record one source file's text in the import map: when an identity
/// is declared, its entry is inserted (overwriting any earlier entry
/// for the same identity); otherwise the map is left unchanged.
pub fn scan_file(map: &mut ModuleMap, text: &str)
    requires
        old(map).wf(),
    ensures
        final(map).wf(),
        match package_of(text@) {
            Some(identity) => spec_inserted(*old(map), *final(map), identity, imports_of(text@)),
            None => *final(map) == *old(map),
        },
{
    match extract_record(text) {
        Some(rec) => {
            map.insert(rec.0, rec.1);
        },
        None => {},
    }
}

/// No identity occurs twice among the records.
pub open spec fn records_distinct(rs: Seq<(Seq<char>, Seq<Seq<char>>)>) -> bool {
    forall|t: int, u: int| 0 <= t < u < rs.len() ==> rs[t].0 != rs[u].0
}

/// The map holds exactly the records' identities, each with its
/// record's references.
pub open spec fn map_matches_records(m: ModuleMap, rs: Seq<(Seq<char>, Seq<Seq<char>>)>) -> bool {
    &&& (forall|k: Seq<char>|
        m.contains_key(k) <==> exists|t: int| 0 <= t < rs.len() && (#[trigger] rs[t]).0 == k)
    &&& (forall|t: int|
        0 <= t < rs.len() ==> m.contains_key((#[trigger] rs[t]).0) && m.refs_of(rs[t].0) == rs[t].1)
}

/// Merge scan records into one import map, in order: a later record
/// for an identity overwrites an earlier one.
#[verifier::loop_isolation(false)]
pub fn from_records(records: &Vec<(String, Vec<String>)>) -> (m: ModuleMap)
    ensures
        m.wf(),
        forall|k: Seq<char>|
            m.contains_key(k) <==> exists|t: int|
                0 <= t < records@.len() && (#[trigger] records@[t]).0@ == k,
        forall|t: int|
            0 <= t < records@.len() && (forall|u: int|
                t < u < records@.len() ==> (#[trigger] records@[u]).0@ != records@[t].0@)
                ==> m.contains_key((#[trigger] records@[t]).0@) && m.refs_of(records@[t].0@)
                == records@[t].1.deep_view(),
        records_distinct(records.deep_view()) ==> map_matches_records(m, records.deep_view()),
{
    let n: usize = records.len();
    let mut m = ModuleMap::new();
    let mut i: usize = 0;
    while i < n
        invariant
            m.wf(),
            0 <= i <= n,
            forall|k: Seq<char>|
                m.contains_key(k) <==> exists|t: int|
                    0 <= t < i && (#[trigger] records@[t]).0@ == k,
            forall|t: int|
                0 <= t < i && (forall|u: int|
                    t < u < i ==> (#[trigger] records@[u]).0@ != records@[t].0@) ==> m.contains_key(
                    (#[trigger] records@[t]).0@,
                ) && m.refs_of(records@[t].0@) == records@[t].1.deep_view(),
        decreases n - i,
    {
        let key = records[i].0.clone();
        let refs = clone_refs(&records[i].1);
        m.insert(key, refs);
        i = i + 1;
    }
    proof {
        if records_distinct(records.deep_view()) {
            assert forall|t: int| 0 <= t < records@.len() implies m.contains_key(
                (#[trigger] records.deep_view()[t]).0,
            ) && m.refs_of(records.deep_view()[t].0) == records.deep_view()[t].1 by {
                assert(records.deep_view()[t].0 == records@[t].0@);
                assert forall|u: int|
                    t < u < records@.len() implies (#[trigger] records@[u]).0@
                    != records@[t].0@ by {
                    assert(records.deep_view()[u].0 == records@[u].0@);
                }
            }
            assert forall|k: Seq<char>| m.contains_key(k) implies exists|t: int|
                0 <= t < records.deep_view().len() && (#[trigger] records.deep_view()[t]).0 == k by {
                let t = choose|t: int| 0 <= t < records@.len() && (#[trigger] records@[t]).0@ == k;
                assert(records.deep_view()[t].0 == k);
            }
        }
    }
    m
}

/// Scan determinism: two scans that produce the same records — in any
/// order — with no duplicate identities give import maps with the same
/// key set and, for every key, the same references.
pub proof fn lemma_scan_determinism(
    m1: ModuleMap,
    m2: ModuleMap,
    r1: Seq<(Seq<char>, Seq<Seq<char>>)>,
    r2: Seq<(Seq<char>, Seq<Seq<char>>)>,
)
    requires
        records_distinct(r1),
        records_distinct(r2),
        map_matches_records(m1, r1),
        map_matches_records(m2, r2),
        forall|t: int| 0 <= t < r1.len() ==> r2.contains(#[trigger] r1[t]),
        forall|t: int| 0 <= t < r2.len() ==> r1.contains(#[trigger] r2[t]),
    ensures
        forall|k: Seq<char>| m1.contains_key(k) <==> m2.contains_key(k),
        forall|k: Seq<char>| m1.contains_key(k) ==> m1.refs_of(k) == m2.refs_of(k),
{
    assert forall|k: Seq<char>| m1.contains_key(k) implies m2.contains_key(k) && m1.refs_of(k)
        == m2.refs_of(k) by {
        let t = choose|t: int| 0 <= t < r1.len() && (#[trigger] r1[t]).0 == k;
        let u = choose|u: int| 0 <= u < r2.len() && r2[u] == r1[t];
        assert(r2.contains(r1[t]));
        assert(m1.refs_of(k) == r1[t].1);
        assert(m2.refs_of(r2[u].0) == r2[u].1);
    }
    assert forall|k: Seq<char>| m2.contains_key(k) implies m1.contains_key(k) by {
        let t = choose|t: int| 0 <= t < r2.len() && (#[trigger] r2[t]).0 == k;
        let u = choose|u: int| 0 <= u < r1.len() && r1[u] == r2[t];
        assert(r1.contains(r2[t]));
        assert(m1.contains_key(r1[u].0));
    }
}

} // verus!
