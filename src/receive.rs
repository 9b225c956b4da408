use vstd::prelude::*;
use crate::manifest::Manifest;
use crate::path::{get_export_path, split_name, segments_ok, string_views, PathError};

verus! {

#[derive(Debug, PartialEq, Eq)]
pub enum ReceiveError {
    /// The ticket could not be parsed.
    InvalidTicket(String),
    /// The peer could not be reached.
    ConnectError(String),
    /// The transport aborted the download.
    DownloadAborted(String),
    /// An export target already exists.
    ExportConflict(String),
    /// A manifest name cannot be placed under the destination.
    InvalidPath(PathError),
    /// The local store failed.
    Store(String),
}

/// What the pre-flight size discovery of a download tells.
#[derive(Debug, Clone, Copy, PartialEq, Eq, Structural)]
pub struct DownloadTotals {
    /// The byte size of every blob listed, saturated at `u64::MAX`.
    pub total_size: u64,
    /// How many files the collection holds: every blob but its metadata.
    pub file_count: usize,
    /// How many items the download reports on: the sequence itself and
    /// each blob it lists.
    pub expected_items: usize,
}

pub open spec fn sum_u64(s: Seq<u64>) -> int
    decreases s.len(),
{
    if s.len() == 0 {
        0
    } else {
        sum_u64(s.drop_last()) + s.last()
    }
}

pub open spec fn saturate(n: int) -> u64 {
    if n <= u64::MAX {
        n as u64
    } else {
        u64::MAX
    }
}

proof fn lemma_sum_u64_nonneg(s: Seq<u64>)
    ensures
        sum_u64(s) >= 0,
    decreases s.len(),
{
    if s.len() > 0 {
        lemma_sum_u64_nonneg(s.drop_last());
    }
}

/// Totals from the sizes of the blobs of a hash sequence, the first of
/// which is the collection's metadata.
pub fn download_totals(sizes: &Vec<u64>) -> (r: DownloadTotals)
    ensures
        r.total_size == saturate(sum_u64(sizes@)),
        r.file_count == if sizes@.len() == 0 { 0 } else { sizes@.len() - 1 as int },
        r.expected_items == if sizes@.len() == usize::MAX { usize::MAX as int } else { sizes@.len() + 1 as int },
{
    let mut total: u64 = 0;
    let mut i: usize = 0;
    while i < sizes.len()
        invariant
            0 <= i <= sizes@.len(),
            total == saturate(sum_u64(sizes@.take(i as int))),
        decreases sizes@.len() - i,
    {
        proof {
            assert(sizes@.take(i + 1).drop_last() =~= sizes@.take(i as int));
            lemma_sum_u64_nonneg(sizes@.take(i as int));
        }
        total = total.saturating_add(sizes[i]);
        i += 1;
    }
    assert(sizes@.take(sizes@.len() as int) =~= sizes@);
    let n = sizes.len();
    DownloadTotals {
        total_size: total,
        file_count: n.saturating_sub(1),
        expected_items: n.saturating_add(1),
    }
}

fn clone_strings(v: &Vec<String>) -> (r: Vec<String>)
    ensures
        string_views(r@) == string_views(v@),
{
    let mut r: Vec<String> = Vec::new();
    let mut i: usize = 0;
    while i < v.len()
        invariant
            0 <= i <= v@.len(),
            r@ == v@.take(i as int),
        decreases v@.len() - i,
    {
        r.push(v[i].clone());
        assert(r@ =~= v@.take(i + 1));
        i += 1;
    }
    assert(v@.take(v@.len() as int) =~= v@);
    r
}

/// Resolves the export target of every manifest entry under `root`; fails
/// if any name could lead out of it.
pub fn export_targets(root: &Vec<String>, manifest: &Manifest) -> (r: Result<Vec<Vec<String>>, PathError>)
    ensures
        r is Ok <==> forall|k: int| 0 <= k < manifest.entries@.len() ==> segments_ok(
            split_name(#[trigger] manifest.entries@[k].name@),
        ),
        r matches Ok(ts) ==> ts@.len() == manifest.entries@.len() && forall|k: int|
            0 <= k < ts@.len() ==> string_views(#[trigger] ts@[k]@) == string_views(root@)
                + split_name(manifest.entries@[k].name@),
        r matches Err(e) ==> e == PathError::TraversalAttempt,
{
    let mut targets: Vec<Vec<String>> = Vec::new();
    let mut k: usize = 0;
    while k < manifest.entries.len()
        invariant
            0 <= k <= manifest.entries@.len(),
            targets@.len() == k,
            forall|j: int| 0 <= j < k ==> segments_ok(split_name(#[trigger] manifest.entries@[j].name@)),
            forall|j: int|
                0 <= j < k ==> string_views(#[trigger] targets@[j]@) == string_views(root@) + split_name(
                    manifest.entries@[j].name@,
                ),
        decreases manifest.entries@.len() - k,
    {
        let base = clone_strings(root);
        match get_export_path(base, manifest.entries[k].name.as_str()) {
            Ok(t) => {
                targets.push(t);
            },
            Err(e) => {
                return Err(e);
            },
        }
        k += 1;
    }
    Ok(targets)
}

/// The first export target that already exists, given for each target
/// whether it exists. An export stops there with `ExportConflict`, and the
/// working directory, with its verified data, is kept for another attempt.
pub fn first_conflict(exists: &Vec<bool>) -> (r: Option<usize>)
    ensures
        r matches Some(i) ==> i < exists@.len() && exists@[i as int] && forall|j: int|
            0 <= j < i ==> !#[trigger] exists@[j],
        r is None ==> forall|j: int| 0 <= j < exists@.len() ==> !#[trigger] exists@[j],
{
    let mut i: usize = 0;
    while i < exists.len()
        invariant
            0 <= i <= exists@.len(),
            forall|j: int| 0 <= j < i ==> !#[trigger] exists@[j],
        decreases exists@.len() - i,
    {
        if exists[i] {
            return Some(i);
        }
        i += 1;
    }
    None
}

} // verus!
