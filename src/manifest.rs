use vstd::prelude::*;
use vstd::multiset::Multiset;
use crate::path::{
    canonicalized_path_to_string, components_ok, encode_path, lemma_encoded_name_resolves_inside_root,
    normal_parts, PathComponent, PathError,
};

verus! {

broadcast use vstd::seq_lib::group_to_multiset_ensures;

/// The content identifier the store gives to a blob.
#[derive(Debug, Clone, Copy)]
pub struct ContentHash {
    pub bytes: [u8; 32],
}

/// One file of a shared tree: its `/`-joined relative name and its content.
pub struct ManifestEntry {
    pub name: String,
    pub hash: ContentHash,
}

/// The sorted list of shared files and the byte size of all of them.
pub struct Manifest {
    pub entries: Vec<ManifestEntry>,
    pub total_size: u64,
}

/// What the store reported for one imported file.
pub struct ImportedFile {
    pub name: String,
    pub hash: ContentHash,
    pub size: u64,
}

#[derive(Debug, Clone, Copy, PartialEq, Eq, Structural)]
pub enum EntryKind {
    File,
    Directory,
    Symlink,
}

/// One entry found while walking a tree, with its path relative to the
/// parent of the shared root.
pub struct WalkEntry {
    pub kind: EntryKind,
    pub relative: Vec<PathComponent>,
}

/// A regular file chosen for import: its manifest name and the position of
/// its walk entry.
pub struct SourceFile {
    pub name: String,
    pub index: usize,
}

#[derive(Debug, PartialEq, Eq)]
pub enum IngestError {
    /// The shared path does not exist.
    PathNotFound,
    /// A file's relative path cannot be encoded as a manifest name.
    InvalidPath(PathError),
    /// Walking the tree failed.
    Walk(String),
    /// Importing one file into the store failed.
    ImportFailed(String),
    /// Storing the manifest itself failed.
    ManifestStoreFailed(String),
}

/// Code-point lexicographic order on names, the order of `String`'s `Ord`.
pub open spec fn lex_lt(a: Seq<char>, b: Seq<char>) -> bool
    decreases a.len(),
{
    if a.len() == 0 {
        b.len() > 0
    } else if b.len() == 0 {
        false
    } else if a[0] != b[0] {
        (a[0] as int) < (b[0] as int)
    } else {
        lex_lt(a.drop_first(), b.drop_first())
    }
}

pub proof fn lemma_lex_lt_transitive(a: Seq<char>, b: Seq<char>, c: Seq<char>)
    requires
        lex_lt(a, b),
        lex_lt(b, c),
    ensures
        lex_lt(a, c),
    decreases a.len(),
{
    if a.len() > 0 && a[0] == b[0] && b[0] == c[0] {
        lemma_lex_lt_transitive(a.drop_first(), b.drop_first(), c.drop_first());
    }
}

pub proof fn lemma_lex_lt_irreflexive(a: Seq<char>)
    ensures
        !lex_lt(a, a),
    decreases a.len(),
{
    if a.len() > 0 {
        lemma_lex_lt_irreflexive(a.drop_first());
    }
}

/// No entry's name comes before the name of an entry ahead of it.
pub open spec fn entries_sorted(s: Seq<ManifestEntry>) -> bool {
    forall|j: int, k: int| 0 <= j < k < s.len() ==> !lex_lt(#[trigger] s[k].name@, #[trigger] s[j].name@)
}

pub open spec fn entry_of(f: ImportedFile) -> ManifestEntry {
    ManifestEntry { name: f.name, hash: f.hash }
}

pub open spec fn entries_of(files: Seq<ImportedFile>) -> Seq<ManifestEntry>
    decreases files.len(),
{
    if files.len() == 0 {
        seq![]
    } else {
        entries_of(files.drop_last()).push(entry_of(files.last()))
    }
}

pub open spec fn sum_sizes(files: Seq<ImportedFile>) -> int
    decreases files.len(),
{
    if files.len() == 0 {
        0
    } else {
        sum_sizes(files.drop_last()) + files.last().size
    }
}

/// `m` lists exactly the imported files, sorted by name, and their size.
pub open spec fn entry_names(s: Seq<ManifestEntry>) -> Seq<Seq<char>> {
    s.map_values(|e: ManifestEntry| e.name@)
}

pub open spec fn manifest_built(files: Seq<ImportedFile>, m: Manifest) -> bool {
    &&& entries_sorted(m.entries@)
    &&& m.entries@.to_multiset() == entries_of(files).to_multiset()
    &&& entry_names(m.entries@).to_multiset() == imported_names(files).to_multiset()
    &&& m.total_size == sum_sizes(files)
}

/// The positions of the regular files among the walk entries.
pub open spec fn file_indices(es: Seq<WalkEntry>) -> Seq<int>
    decreases es.len(),
{
    if es.len() == 0 {
        seq![]
    } else if es.last().kind == EntryKind::File {
        file_indices(es.drop_last()).push(es.len() - 1)
    } else {
        file_indices(es.drop_last())
    }
}

pub open spec fn sources_ok(es: Seq<WalkEntry>) -> bool {
    forall|i: int|
        0 <= i < es.len() && (#[trigger] es[i]).kind == EntryKind::File ==> components_ok(
            es[i].relative@,
            true,
        )
}

/// `plan` holds one source per regular file of `es`, in walk order, named
/// by its encoded relative path.
pub open spec fn sources_planned(es: Seq<WalkEntry>, plan: Seq<SourceFile>) -> bool {
    &&& plan.len() == file_indices(es).len()
    &&& forall|j: int|
        0 <= j < plan.len() ==> {
            &&& (#[trigger] plan[j]).index == file_indices(es)[j]
            &&& plan[j].name@ == encode_path(es[plan[j].index as int].relative@)
        }
}

proof fn lemma_file_indices_bounds(es: Seq<WalkEntry>)
    ensures
        forall|j: int|
            0 <= j < file_indices(es).len() ==> 0 <= #[trigger] file_indices(es)[j] < es.len()
                && es[file_indices(es)[j]].kind == EntryKind::File,
    decreases es.len(),
{
    if es.len() > 0 {
        lemma_file_indices_bounds(es.drop_last());
    }
}

/// Chooses the regular files among the walk entries and names each one by
/// its relative path; directories and symbolic links are skipped.
pub fn plan_sources(entries: &Vec<WalkEntry>) -> (r: Result<Vec<SourceFile>, IngestError>)
    ensures
        r is Ok <==> sources_ok(entries@),
        r matches Ok(plan) ==> sources_planned(entries@, plan@),
        r matches Err(e) ==> e == IngestError::InvalidPath(PathError::InvalidComponent),
{
    let mut plan: Vec<SourceFile> = Vec::new();
    let mut i: usize = 0;
    while i < entries.len()
        invariant
            0 <= i <= entries@.len(),
            sources_ok(entries@.take(i as int)),
            sources_planned(entries@.take(i as int), plan@),
        decreases entries@.len() - i,
    {
        let ghost pre = entries@.take(i as int);
        let ghost next = entries@.take(i + 1);
        assert(next.drop_last() =~= pre);
        proof {
            lemma_file_indices_bounds(pre);
        }
        let entry = &entries[i];
        if entry.kind == EntryKind::File {
            match canonicalized_path_to_string(&entry.relative, true) {
                Ok(name) => {
                    plan.push(SourceFile { name, index: i });
                },
                Err(_) => {
                    assert(!sources_ok(entries@)) by {
                        assert(entries@[i as int] == entry);
                    }
                    return Err(IngestError::InvalidPath(PathError::InvalidComponent));
                },
            }
        }
        assert(sources_planned(next, plan@)) by {
            assert forall|j: int| 0 <= j < plan@.len() implies {
                &&& (#[trigger] plan@[j]).index == file_indices(next)[j]
                &&& plan@[j].name@ == encode_path(next[plan@[j].index as int].relative@)
            } by {
                if j < file_indices(pre).len() {
                    assert(next[file_indices(pre)[j]] == pre[file_indices(pre)[j]]);
                }
            }
        }
        assert(sources_ok(next)) by {
            assert forall|k: int| 0 <= k < next.len() && (#[trigger] next[k]).kind == EntryKind::File
                implies components_ok(next[k].relative@, true) by {
                if k < i {
                    assert(next[k] == pre[k]);
                }
            }
        }
        i += 1;
    }
    assert(entries@.take(entries@.len() as int) =~= entries@);
    Ok(plan)
}

fn name_lt(a: &str, b: &str) -> (r: bool)
    ensures
        r == lex_lt(a@, b@),
{
    let na = a.unicode_len();
    let nb = b.unicode_len();
    let mut i: usize = 0;
    assert(a@.skip(0) =~= a@);
    assert(b@.skip(0) =~= b@);
    while i < na && i < nb
        invariant
            na == a@.len(),
            nb == b@.len(),
            0 <= i <= na,
            i <= nb,
            lex_lt(a@, b@) == lex_lt(a@.skip(i as int), b@.skip(i as int)),
        decreases na - i,
    {
        let ca = a.get_char(i);
        let cb = b.get_char(i);
        assert(a@.skip(i as int)[0] == ca);
        assert(b@.skip(i as int)[0] == cb);
        if ca != cb {
            return (ca as u32) < (cb as u32);
        }
        assert(a@.skip(i as int).drop_first() =~= a@.skip(i + 1));
        assert(b@.skip(i as int).drop_first() =~= b@.skip(i + 1));
        i += 1;
    }
    i == na && i < nb
}

/// Inserts `e` after every entry whose name does not come after its own.
fn insert_sorted(out: &mut Vec<ManifestEntry>, e: ManifestEntry)
    requires
        entries_sorted(old(out)@),
    ensures
        entries_sorted(final(out)@),
        final(out)@.to_multiset() == old(out)@.to_multiset().insert(e),
        entry_names(final(out)@).to_multiset() == entry_names(old(out)@).to_multiset().insert(e.name@),
{
    let mut pos: usize = 0;
    while pos < out.len() && !name_lt(e.name.as_str(), out[pos].name.as_str())
        invariant
            0 <= pos <= out@.len(),
            forall|j: int| 0 <= j < pos ==> !lex_lt(e.name@, #[trigger] out@[j].name@),
        decreases out@.len() - pos,
    {
        pos += 1;
    }
    let ghost before = out@;
    let ghost name = e.name@;
    out.insert(pos, e);
    assert(entry_names(out@) =~= entry_names(before).insert(pos as int, name));
    assert forall|j: int, k: int| 0 <= j < k < out@.len() implies !lex_lt(
        #[trigger] out@[k].name@,
        #[trigger] out@[j].name@,
    ) by {
        if k == pos {
            assert(out@[j] == before[j]);
        } else if j == pos {
            assert(out@[k] == before[k - 1]);
            assert(lex_lt(e.name@, before[pos as int].name@));
            if lex_lt(before[k - 1].name@, e.name@) {
                lemma_lex_lt_transitive(before[k - 1].name@, e.name@, before[pos as int].name@);
                if k - 1 == pos {
                    lemma_lex_lt_irreflexive(before[pos as int].name@);
                }
            }
        } else {
            let jj = if j < pos { j } else { j - 1 };
            let kk = if k < pos { k } else { k - 1 };
            assert(out@[j] == before[jj]);
            assert(out@[k] == before[kk]);
        }
    }
}

/// Builds the manifest of the imported files: their names and hashes sorted
/// by name, and the sum of their sizes.
pub fn build_manifest(files: Vec<ImportedFile>) -> (m: Manifest)
    requires
        sum_sizes(files@) <= u64::MAX,
    ensures
        manifest_built(files@, m),
{
    let ghost all = files@;
    let mut rest = files;
    let mut entries: Vec<ManifestEntry> = Vec::new();
    let mut total: u64 = 0;
    proof {
        lemma_sum_sizes_prefix(all);
    }
    while rest.len() > 0
        invariant
            rest@ =~= all.take(rest@.len() as int),
            rest@.len() <= all.len(),
            forall|n: int| 0 <= n <= all.len() ==> 0 <= #[trigger] sum_sizes(all.take(n)) <= sum_sizes(all),
            sum_sizes(all) <= u64::MAX,
            total + sum_sizes(rest@) == sum_sizes(all),
            entries_sorted(entries@),
            entries@.to_multiset().add(entries_of(rest@).to_multiset()) == entries_of(all).to_multiset(),
            entry_names(entries@).to_multiset().add(imported_names(rest@).to_multiset())
                == imported_names(all).to_multiset(),
        decreases rest@.len(),
    {
        let ghost pre = rest@;
        let f = rest.pop().unwrap();
        assert(rest@ =~= pre.drop_last());
        assert(rest@ =~= all.take(rest@.len() as int));
        assert(sum_sizes(pre) == sum_sizes(rest@) + f.size);
        total = total + f.size;
        let ghost em = entries@.to_multiset();
        let ghost nm = entry_names(entries@).to_multiset();
        assert(imported_names(pre) =~= imported_names(rest@).push(f.name@));
        insert_sorted(&mut entries, ManifestEntry { name: f.name, hash: f.hash });
        assert(entry_names(entries@).to_multiset().add(imported_names(rest@).to_multiset()) =~= nm.add(
            imported_names(pre).to_multiset(),
        ));
        assert(entries_of(pre) == entries_of(rest@).push(entry_of(f)));
        assert(entries@.to_multiset().add(entries_of(rest@).to_multiset()) =~= em.add(
            entries_of(pre).to_multiset(),
        ));
    }
    assert(entries_of(rest@) =~= seq![]);
    assert(entries_of(rest@).to_multiset() =~= Multiset::empty());
    assert(entries@.to_multiset() =~= entries@.to_multiset().add(Multiset::empty()));
    assert(imported_names(rest@) =~= seq![]);
    assert(imported_names(rest@).to_multiset() =~= Multiset::empty());
    assert(entry_names(entries@).to_multiset() =~= entry_names(entries@).to_multiset().add(
        Multiset::empty(),
    ));
    Manifest { entries, total_size: total }
}

proof fn lemma_sum_sizes_prefix(all: Seq<ImportedFile>)
    ensures
        forall|n: int| 0 <= n <= all.len() ==> 0 <= #[trigger] sum_sizes(all.take(n)) <= sum_sizes(all),
    decreases all.len(),
{
    assert(all.take(all.len() as int) =~= all);
    if all.len() > 0 {
        let pre = all.drop_last();
        lemma_sum_sizes_prefix(pre);
        assert forall|n: int| 0 <= n <= all.len() implies 0 <= #[trigger] sum_sizes(all.take(n)) <= sum_sizes(all) by {
            assert(pre.take(pre.len() as int) =~= pre);
            assert(sum_sizes(all) == sum_sizes(pre) + all.last().size);
            if n < all.len() {
                assert(all.take(n) =~= pre.take(n));
            }
        }
    } else {
        assert(all.take(0) =~= seq![]);
    }
}

pub open spec fn imported_names(files: Seq<ImportedFile>) -> Seq<Seq<char>> {
    files.map_values(|f: ImportedFile| f.name@)
}

pub open spec fn planned_names(plan: Seq<SourceFile>) -> Seq<Seq<char>> {
    plan.map_values(|p: SourceFile| p.name@)
}

proof fn lemma_entries_of(files: Seq<ImportedFile>)
    ensures
        entries_of(files).len() == files.len(),
        forall|j: int| 0 <= j < files.len() ==> #[trigger] entries_of(files)[j] == entry_of(files[j]),
    decreases files.len(),
{
    if files.len() > 0 {
        lemma_entries_of(files.drop_last());
    }
}

/// A manifest built from the imports of a planned walk has one entry per
/// regular file of the walk, sorted by name, and each entry names a regular
/// file: directories and symbolic links never appear. The imports may have
/// completed in any order.
pub proof fn lemma_manifest_lists_regular_files(
    es: Seq<WalkEntry>,
    plan: Seq<SourceFile>,
    files: Seq<ImportedFile>,
    m: Manifest,
)
    requires
        sources_planned(es, plan),
        imported_names(files).to_multiset() == planned_names(plan).to_multiset(),
        manifest_built(files, m),
    ensures
        m.entries@.len() == file_indices(es).len(),
        entries_sorted(m.entries@),
        forall|k: int|
            0 <= k < m.entries@.len() ==> exists|i: int|
                0 <= i < es.len() && es[i].kind == EntryKind::File && (#[trigger] m.entries@[k]).name@
                    == encode_path(es[i].relative@),
{
    lemma_entries_of(files);
    lemma_file_indices_bounds(es);
    assert(m.entries@.len() == m.entries@.to_multiset().len());
    assert(entries_of(files).len() == entries_of(files).to_multiset().len());
    assert(imported_names(files).len() == imported_names(files).to_multiset().len());
    assert(planned_names(plan).len() == planned_names(plan).to_multiset().len());
    assert forall|k: int| 0 <= k < m.entries@.len() implies exists|i: int|
        0 <= i < es.len() && es[i].kind == EntryKind::File && (#[trigger] m.entries@[k]).name@
            == encode_path(es[i].relative@) by {
        let e = m.entries@[k];
        assert(m.entries@.contains(e));
        assert(m.entries@.to_multiset().count(e) > 0);
        assert(entries_of(files).to_multiset().count(e) > 0);
        assert(entries_of(files).contains(e));
        let j = choose|j: int| 0 <= j < entries_of(files).len() && entries_of(files)[j] == e;
        assert(entries_of(files)[j] == entry_of(files[j]));
        assert(imported_names(files)[j] == e.name@);
        assert(imported_names(files).contains(e.name@));
        assert(imported_names(files).to_multiset().count(e.name@) > 0);
        assert(planned_names(plan).to_multiset().count(e.name@) > 0);
        assert(planned_names(plan).contains(e.name@));
        let p = choose|p: int| 0 <= p < planned_names(plan).len() && planned_names(plan)[p] == e.name@;
        assert(plan[p].index == file_indices(es)[p]);
        let i = plan[p].index as int;
        assert(0 <= i < es.len() && es[i].kind == EntryKind::File && e.name@ == encode_path(es[i].relative@));
    }
}

pub proof fn lemma_lex_lt_total(a: Seq<char>, b: Seq<char>)
    requires
        a != b,
    ensures
        lex_lt(a, b) || lex_lt(b, a),
    decreases a.len(),
{
    if a.len() == 0 && b.len() == 0 {
        assert(a =~= b);
    } else if a.len() > 0 && b.len() > 0 && a[0] == b[0] {
        if a.drop_first() == b.drop_first() {
            assert(a =~= seq![a[0]] + a.drop_first());
            assert(b =~= seq![b[0]] + b.drop_first());
        }
        lemma_lex_lt_total(a.drop_first(), b.drop_first());
    } else if a.len() > 0 && b.len() > 0 {
        assert((a[0] as int) != (b[0] as int));
    }
}

proof fn lemma_file_indices_increasing(es: Seq<WalkEntry>)
    ensures
        forall|j: int, k: int|
            0 <= j < k < file_indices(es).len() ==> #[trigger] file_indices(es)[j] < #[trigger] file_indices(es)[k],
    decreases es.len(),
{
    if es.len() > 0 {
        let pre = es.drop_last();
        lemma_file_indices_increasing(pre);
        lemma_file_indices_bounds(pre);
    }
}

/// Distinct regular files of a walk have distinct, non-empty relative paths.
pub open spec fn file_paths_distinct(es: Seq<WalkEntry>) -> bool {
    &&& forall|i: int|
        0 <= i < es.len() && (#[trigger] es[i]).kind == EntryKind::File ==> es[i].relative@.len() > 0
    &&& forall|i: int, j: int|
        0 <= i < es.len() && 0 <= j < es.len() && i != j && (#[trigger] es[i]).kind == EntryKind::File
            && (#[trigger] es[j]).kind == EntryKind::File ==> normal_parts(es[i].relative@)
            != normal_parts(es[j].relative@)
}

/// When the regular files of a walk have distinct paths, the manifest built
/// from their imports lists names in strictly increasing order: no name
/// appears twice, whatever the order in which the imports completed.
pub proof fn lemma_manifest_names_unique(
    es: Seq<WalkEntry>,
    plan: Seq<SourceFile>,
    files: Seq<ImportedFile>,
    m: Manifest,
)
    requires
        sources_ok(es),
        file_paths_distinct(es),
        sources_planned(es, plan),
        imported_names(files).to_multiset() == planned_names(plan).to_multiset(),
        manifest_built(files, m),
    ensures
        forall|j: int, k: int|
            0 <= j < k < m.entries@.len() ==> lex_lt(
                #[trigger] m.entries@[j].name@,
                #[trigger] m.entries@[k].name@,
            ),
{
    lemma_file_indices_bounds(es);
    lemma_file_indices_increasing(es);
    let pn = planned_names(plan);
    assert forall|p: int, q: int| 0 <= p < pn.len() && 0 <= q < pn.len() && p != q implies pn[p]
        != pn[q] by {
        let ip = plan[p].index as int;
        let iq = plan[q].index as int;
        assert(ip == file_indices(es)[p] && iq == file_indices(es)[q]);
        if p < q {
            assert(file_indices(es)[p] < file_indices(es)[q]);
        } else {
            assert(file_indices(es)[q] < file_indices(es)[p]);
        }
        if pn[p] == pn[q] {
            assert(es[ip].kind == EntryKind::File && es[iq].kind == EntryKind::File);
            lemma_encoded_name_resolves_inside_root(es[ip].relative@);
            lemma_encoded_name_resolves_inside_root(es[iq].relative@);
            assert(normal_parts(es[ip].relative@) == normal_parts(es[iq].relative@));
        }
    }
    assert(pn.no_duplicates());
    pn.lemma_multiset_has_no_duplicates();
    let en = entry_names(m.entries@);
    assert forall|x: Seq<char>| en.to_multiset().contains(x) implies en.to_multiset().count(x)
        == 1 by {
        assert(en.to_multiset() == pn.to_multiset());
    }
    en.lemma_multiset_has_no_duplicates_conv();
    assert forall|j: int, k: int| 0 <= j < k < m.entries@.len() implies lex_lt(
        #[trigger] m.entries@[j].name@,
        #[trigger] m.entries@[k].name@,
    ) by {
        assert(en[j] == m.entries@[j].name@ && en[k] == m.entries@[k].name@);
        assert(en[j] != en[k]);
        lemma_lex_lt_total(en[j], en[k]);
    }
}

} // verus!
