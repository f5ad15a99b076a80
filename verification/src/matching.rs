//! Finding every file that shares a base name with the selected photo.
//!
//! The caller lists the regular files of the selected file's directory; this
//! module decides which of them belong to the same shot and in which order
//! they are shown.

use vstd::prelude::*;
use crate::names::{
    chars_lt, chars_precede, eq_ignore_ascii_case, extension_of,
    lemma_eq_ignore_ascii_case_equivalence, names_eq_ignore_ascii_case, split_file_name, stem_of,
};
use crate::ordering::{
    is_stable_sort_by, key_is, lemma_filter_no_duplicates, lemma_insert_keeps_stable_sort,
    lemma_same_groups_same_multiset, lemma_stable_sort_exists, lemma_stable_sort_members,
    lemma_stable_sort_unique,
};

verus! {

broadcast use vstd::seq_lib::group_seq_properties;

/// A regular file: its full path, as it is shown and deleted, and its file
/// name, the last component of that path.
pub struct FileEntry {
    pub path: String,
    pub name: String,
}

impl FileEntry {
    pub fn new(path: String, name: String) -> (entry: FileEntry)
        ensures
            entry.path == path,
            entry.name == name,
    {
        FileEntry { path, name }
    }

    /// A copy of this entry, field for field.
    pub fn duplicate(&self) -> (copy: FileEntry)
        ensures
            copy == *self,
    {
        FileEntry { path: self.path.clone(), name: self.name.clone() }
    }
}

/// What the caller read from disk for one run: the selected file, and every
/// regular file of its directory (the selected file among them).
pub struct Scan {
    pub target: FileEntry,
    pub directory: Vec<FileEntry>,
}

// ----- which files belong to a shot -----

/// The extensions treated as the same shot, compared ignoring ASCII case:
/// JPEG, then the RAW formats of Canon, Nikon, Sony, Fujifilm, Olympus,
/// Panasonic, and Adobe DNG.
pub open spec fn is_supported_extension(ext: Seq<char>) -> bool {
    ||| eq_ignore_ascii_case(ext, "jpg"@)
    ||| eq_ignore_ascii_case(ext, "jpeg"@)
    ||| eq_ignore_ascii_case(ext, "cr2"@)
    ||| eq_ignore_ascii_case(ext, "cr3"@)
    ||| eq_ignore_ascii_case(ext, "nef"@)
    ||| eq_ignore_ascii_case(ext, "arw"@)
    ||| eq_ignore_ascii_case(ext, "raf"@)
    ||| eq_ignore_ascii_case(ext, "orf"@)
    ||| eq_ignore_ascii_case(ext, "rw2"@)
    ||| eq_ignore_ascii_case(ext, "dng"@)
}

/// The supported formats are exactly the ten of the format table, in any
/// ASCII case: JPEG (`jpg`, `jpeg`), Canon (`cr2`, `cr3`), Nikon (`nef`),
/// Sony (`arw`), Fujifilm (`raf`), Olympus (`orf`), Panasonic (`rw2`) and
/// Adobe DNG (`dng`). Any other extension, such as `tif`, is not supported.
pub proof fn lemma_supported_formats(ext: Seq<char>)
    ensures
        is_supported_extension(ext) <==> {
            ||| eq_ignore_ascii_case(ext, seq!['j', 'p', 'g'])
            ||| eq_ignore_ascii_case(ext, seq!['j', 'p', 'e', 'g'])
            ||| eq_ignore_ascii_case(ext, seq!['c', 'r', '2'])
            ||| eq_ignore_ascii_case(ext, seq!['c', 'r', '3'])
            ||| eq_ignore_ascii_case(ext, seq!['n', 'e', 'f'])
            ||| eq_ignore_ascii_case(ext, seq!['a', 'r', 'w'])
            ||| eq_ignore_ascii_case(ext, seq!['r', 'a', 'f'])
            ||| eq_ignore_ascii_case(ext, seq!['o', 'r', 'f'])
            ||| eq_ignore_ascii_case(ext, seq!['r', 'w', '2'])
            ||| eq_ignore_ascii_case(ext, seq!['d', 'n', 'g'])
        },
{
    reveal_strlit("jpg");
    reveal_strlit("jpeg");
    reveal_strlit("cr2");
    reveal_strlit("cr3");
    reveal_strlit("nef");
    reveal_strlit("arw");
    reveal_strlit("raf");
    reveal_strlit("orf");
    reveal_strlit("rw2");
    reveal_strlit("dng");
    assert("jpg"@ =~= seq!['j', 'p', 'g']);
    assert("jpeg"@ =~= seq!['j', 'p', 'e', 'g']);
    assert("cr2"@ =~= seq!['c', 'r', '2']);
    assert("cr3"@ =~= seq!['c', 'r', '3']);
    assert("nef"@ =~= seq!['n', 'e', 'f']);
    assert("arw"@ =~= seq!['a', 'r', 'w']);
    assert("raf"@ =~= seq!['r', 'a', 'f']);
    assert("orf"@ =~= seq!['o', 'r', 'f']);
    assert("rw2"@ =~= seq!['r', 'w', '2']);
    assert("dng"@ =~= seq!['d', 'n', 'g']);
}

/// A file name is supported when it has a supported extension.
pub open spec fn is_supported(name: Seq<char>) -> bool {
    match extension_of(name) {
        Some(ext) => is_supported_extension(ext),
        None => false,
    }
}

/// `name` belongs to the shot of `target`: same stem ignoring ASCII case,
/// and a supported extension.
pub open spec fn pairs_with(target: Seq<char>, name: Seq<char>) -> bool {
    eq_ignore_ascii_case(stem_of(name), stem_of(target)) && is_supported(name)
}

pub open spec fn pairs_with_target(target: Seq<char>) -> spec_fn(FileEntry) -> bool {
    |e: FileEntry| pairs_with(target, e.name@)
}

/// The directory entries of the shot of `target`, in directory order; none
/// when `target` itself is not a supported file.
pub open spec fn selected(target: FileEntry, directory: Seq<FileEntry>) -> Seq<FileEntry> {
    if is_supported(target.name@) {
        directory.filter(pairs_with_target(target.name@))
    } else {
        Seq::empty()
    }
}

// ----- the display order -----

/// Names what `str::to_lowercase` returns: the Unicode lower-case mapping of
/// the text.
pub uninterp spec fn unicode_lowercase(s: Seq<char>) -> Seq<char>;

/// Calls `str::to_lowercase`. Trusted: the result is the Unicode lower case
/// of `s`, which depends on `s` alone; nothing more of it is stated.
#[verifier::external_body]
fn to_lowercase(s: &str) -> (lower: String)
    ensures
        lower@ == unicode_lowercase(s@),
{
    s.to_lowercase()
}

/// Entries are shown in the order of their lower-cased file names.
pub open spec fn sort_key(e: FileEntry) -> Seq<char> {
    unicode_lowercase(e.name@)
}

pub open spec fn entry_key() -> spec_fn(FileEntry) -> Seq<char> {
    |e: FileEntry| sort_key(e)
}

/// Every file of the shot of `target`, sorted by lower-cased file name,
/// files with equal keys in directory order.
pub open spec fn matching_files(target: FileEntry, directory: Seq<FileEntry>) -> Seq<FileEntry> {
    choose|out: Seq<FileEntry>| is_stable_sort_by(out, selected(target, directory), entry_key())
}

/// An entry together with the text it is ordered by.
pub struct KeyedEntry {
    pub key: String,
    pub entry: FileEntry,
}

impl KeyedEntry {
    pub fn new(key: String, entry: FileEntry) -> (keyed: KeyedEntry)
        ensures
            keyed.key == key,
            keyed.entry == entry,
    {
        KeyedEntry { key, entry }
    }

    /// A copy of this keyed entry, field for field.
    pub fn duplicate(&self) -> (copy: KeyedEntry)
        ensures
            copy == *self,
    {
        KeyedEntry { key: self.key.clone(), entry: self.entry.duplicate() }
    }
}

pub open spec fn keyed_key() -> spec_fn(KeyedEntry) -> Seq<char> {
    |k: KeyedEntry| k.key@
}

/// The entries of keyed entries, in order.
pub open spec fn entries_of(s: Seq<KeyedEntry>) -> Seq<FileEntry> {
    s.map_values(|k: KeyedEntry| k.entry)
}

/// Each key is the sort key of its entry.
pub open spec fn well_keyed(s: Seq<KeyedEntry>) -> bool {
    forall|i: int| 0 <= i < s.len() ==> #[trigger] s[i].key@ == sort_key(s[i].entry)
}

/// Sorts `items` by their keys in code-point order (the order of `String`s),
/// items with equal keys keeping their order.
pub fn sort_by_keys(items: &[KeyedEntry]) -> (sorted: Vec<KeyedEntry>)
    ensures
        is_stable_sort_by(sorted@, items@, keyed_key()),
{
    let mut sorted: Vec<KeyedEntry> = Vec::new();
    proof {
        assert(items@.take(0) =~= Seq::<KeyedEntry>::empty());
        assert(sorted@ =~= Seq::<KeyedEntry>::empty());
    }
    for i in 0..items.len()
        invariant
            is_stable_sort_by(sorted@, items@.take(i as int), keyed_key()),
    {
        let item = &items[i];
        let mut p = sorted.len();
        while p > 0 && chars_precede(item.key.as_str(), sorted[p - 1].key.as_str())
            invariant
                0 <= p <= sorted@.len(),
                forall|j: int|
                    p <= j < sorted@.len() ==> chars_lt(item.key@, #[trigger] sorted@[j].key@),
            decreases p,
        {
            p = p - 1;
        }
        proof {
            lemma_insert_keeps_stable_sort(sorted@, items@.take(i as int), keyed_key(), *item, p as int);
            assert(items@.take(i + 1) =~= items@.take(i as int).push(*item));
        }
        sorted.insert(p, item.duplicate());
    }
    proof {
        assert(items@.take(items@.len() as int) =~= items@);
    }
    sorted
}

/// For well-keyed items, filtering by key commutes with taking the entries.
proof fn lemma_filter_entries(s: Seq<KeyedEntry>, k: Seq<char>)
    requires
        well_keyed(s),
    ensures
        entries_of(s).filter(key_is(entry_key(), k)) == entries_of(s.filter(key_is(keyed_key(), k))),
    decreases s.len(),
{
    reveal(Seq::filter);
    if s.len() > 0 {
        let rest = s.drop_last();
        assert(well_keyed(rest)) by {
            assert forall|i: int| 0 <= i < rest.len() implies #[trigger] rest[i].key@ == sort_key(
                rest[i].entry,
            ) by {
                assert(rest[i] == s[i]);
            }
        }
        lemma_filter_entries(rest, k);
        assert(entries_of(s).drop_last() =~= entries_of(rest));
        assert(s[s.len() - 1].key@ == sort_key(s[s.len() - 1].entry));
        let pk = key_is(keyed_key(), k);
        if pk(s.last()) {
            assert(entries_of(rest.filter(pk).push(s.last())) =~= entries_of(rest.filter(pk)).push(
                s.last().entry,
            ));
        }
    }
}

/// A stable sort of well-keyed items by key gives, entry for entry, a
/// stable sort of their entries by sort key.
proof fn lemma_keyed_sort_sorts_entries(out: Seq<KeyedEntry>, inp: Seq<KeyedEntry>)
    requires
        is_stable_sort_by(out, inp, keyed_key()),
        well_keyed(inp),
    ensures
        is_stable_sort_by(entries_of(out), entries_of(inp), entry_key()),
{
    assert forall|i: int| 0 <= i < out.len() implies #[trigger] out[i].key@ == sort_key(out[i].entry) by {
        assert(out.contains(out[i]));
        lemma_stable_sort_members(out, inp, keyed_key(), out[i]);
        let j = choose|j: int| 0 <= j < inp.len() && inp[j] == out[i];
        assert(inp[j].key@ == sort_key(inp[j].entry));
    }
    let eo = entries_of(out);
    assert forall|i: int, j: int| 0 <= i < j < eo.len() implies !chars_lt(
        #[trigger] entry_key()(eo[j]),
        #[trigger] entry_key()(eo[i]),
    ) by {
        assert(out[i].key@ == sort_key(out[i].entry));
        assert(out[j].key@ == sort_key(out[j].entry));
        assert(!chars_lt(keyed_key()(out[j]), keyed_key()(out[i])));
    }
    assert forall|k: Seq<char>| #[trigger] eo.filter(key_is(entry_key(), k)) == entries_of(inp).filter(
        key_is(entry_key(), k),
    ) by {
        lemma_filter_entries(out, k);
        lemma_filter_entries(inp, k);
        assert(out.filter(key_is(keyed_key(), k)) == inp.filter(key_is(keyed_key(), k)));
    }
}

/// `matching_files` is the stable sort of the selected entries.
pub proof fn lemma_matching_files_sorted(target: FileEntry, directory: Seq<FileEntry>)
    ensures
        is_stable_sort_by(matching_files(target, directory), selected(target, directory), entry_key()),
{
    let w = lemma_stable_sort_exists(selected(target, directory), entry_key());
    assert(is_stable_sort_by(w, selected(target, directory), entry_key()));
}

// ----- laws of the selection -----

/// A file is among the matches of `target` exactly when it is in the
/// directory, `target` is supported, and it shares the stem of `target`
/// (ignoring ASCII case) with a supported extension.
pub proof fn lemma_matching_members(target: FileEntry, directory: Seq<FileEntry>, e: FileEntry)
    ensures
        matching_files(target, directory).contains(e) <==> (is_supported(target.name@)
            && directory.contains(e) && pairs_with(target.name@, e.name@)),
{
    lemma_matching_files_sorted(target, directory);
    lemma_stable_sort_members(
        matching_files(target, directory),
        selected(target, directory),
        entry_key(),
        e,
    );
    if is_supported(target.name@) {
        let p = pairs_with_target(target.name@);
        if directory.filter(p).contains(e) {
            directory.lemma_filter_contains_rev(p, e);
            let i = choose|i: int| 0 <= i < directory.filter(p).len() && directory.filter(p)[i] == e;
            directory.lemma_filter_pred(p, i);
        }
        if directory.contains(e) && pairs_with(target.name@, e.name@) {
            let i = choose|i: int| 0 <= i < directory.len() && directory[i] == e;
            directory.lemma_filter_contains(p, i);
        }
    }
}

/// The selected file is always deleted along with its pairs: a supported
/// file in the directory is among its own matches.
pub proof fn lemma_target_is_matched(target: FileEntry, directory: Seq<FileEntry>)
    requires
        directory.contains(target),
        is_supported(target.name@),
    ensures
        matching_files(target, directory).contains(target),
{
    lemma_eq_ignore_ascii_case_equivalence(
        stem_of(target.name@),
        stem_of(target.name@),
        stem_of(target.name@),
    );
    lemma_matching_members(target, directory, target);
}

/// Whichever file of a shot is selected, the same files are matched, in the
/// same order: if `other` is among the matches of `target`, selecting
/// `other` gives exactly the matches of `target`.
pub proof fn lemma_any_member_selects_the_same_files(
    target: FileEntry,
    other: FileEntry,
    directory: Seq<FileEntry>,
)
    requires
        matching_files(target, directory).contains(other),
    ensures
        matching_files(other, directory) == matching_files(target, directory),
{
    lemma_matching_members(target, directory, other);
    let st = stem_of(target.name@);
    let so = stem_of(other.name@);
    assert forall|e: FileEntry|
        #[trigger] pairs_with_target(target.name@)(e) == pairs_with_target(other.name@)(e) by {
        let se = stem_of(e.name@);
        lemma_eq_ignore_ascii_case_equivalence(se, so, st);
        lemma_eq_ignore_ascii_case_equivalence(se, st, so);
        lemma_eq_ignore_ascii_case_equivalence(so, st, se);
    }
    assert(pairs_with_target(target.name@) =~= pairs_with_target(other.name@));
    assert(selected(target, directory) == selected(other, directory));
}

/// A directory listed without repeats gives matches without repeats: no
/// file is deleted or shown twice.
pub proof fn lemma_matches_have_no_duplicates(target: FileEntry, directory: Seq<FileEntry>)
    requires
        directory.no_duplicates(),
    ensures
        matching_files(target, directory).no_duplicates(),
{
    let m = matching_files(target, directory);
    let sel = selected(target, directory);
    lemma_matching_files_sorted(target, directory);
    if is_supported(target.name@) {
        lemma_filter_no_duplicates(directory, pairs_with_target(target.name@));
    }
    lemma_same_groups_same_multiset(m, sel, entry_key());
    sel.lemma_multiset_has_no_duplicates();
    m.lemma_multiset_has_no_duplicates_conv();
}

// ----- the computation -----

fn is_supported_extension_text(ext: &str) -> (supported: bool)
    ensures
        supported == is_supported_extension(ext@),
{
    names_eq_ignore_ascii_case(ext, "jpg") || names_eq_ignore_ascii_case(ext, "jpeg")
        || names_eq_ignore_ascii_case(ext, "cr2") || names_eq_ignore_ascii_case(ext, "cr3")
        || names_eq_ignore_ascii_case(ext, "nef") || names_eq_ignore_ascii_case(ext, "arw")
        || names_eq_ignore_ascii_case(ext, "raf") || names_eq_ignore_ascii_case(ext, "orf")
        || names_eq_ignore_ascii_case(ext, "rw2") || names_eq_ignore_ascii_case(ext, "dng")
}

/// Whether the file name `name` has a supported extension.
pub fn is_supported_name(name: &str) -> (supported: bool)
    ensures
        supported == is_supported(name@),
{
    let (_, ext) = split_file_name(name);
    match ext {
        Some(ext) => is_supported_extension_text(ext),
        None => false,
    }
}

/// Returns every supported file in `directory` that shares the base name of
/// `target`, `target` itself included when it is listed. Returns nothing
/// when `target` is not itself a supported format, so acting on an
/// unrecognised file never deletes its neighbours while leaving the
/// selection behind. Comparisons ignore ASCII case; the result is sorted by
/// lower-cased file name, entries with equal keys in directory order.
pub fn find_matching_files(target: &FileEntry, directory: &[FileEntry]) -> (matches: Vec<FileEntry>)
    ensures
        matches@ == matching_files(*target, directory@),
        is_stable_sort_by(matches@, selected(*target, directory@), entry_key()),
        !is_supported(target.name@) ==> matches@.len() == 0,
        forall|e: FileEntry| #[trigger] matches@.contains(e) <==> (is_supported(target.name@)
            && directory@.contains(e) && pairs_with(target.name@, e.name@)),
        directory@.no_duplicates() ==> matches@.no_duplicates(),
        forall|i: int, j: int|
            0 <= i < j < matches@.len() ==> !chars_lt(
                #[trigger] unicode_lowercase(matches@[j].name@),
                #[trigger] unicode_lowercase(matches@[i].name@),
            ),
        forall|e: FileEntry| #[trigger] matches@.contains(e) <==> ({
            &&& is_supported(target.name@)
            &&& directory@.contains(e)
            &&& eq_ignore_ascii_case(stem_of(e.name@), stem_of(target.name@))
            &&& is_supported(e.name@)
        }),
{
    proof {
        lemma_matching_files_sorted(*target, directory@);
        assert forall|e: FileEntry| #[trigger] matching_files(*target, directory@).contains(e) <==> (
        is_supported(target.name@) && directory@.contains(e) && pairs_with(target.name@, e.name@)) by {
            lemma_matching_members(*target, directory@, e);
        }
        if directory@.no_duplicates() {
            lemma_matches_have_no_duplicates(*target, directory@);
        }
    }
    let mut keyed: Vec<KeyedEntry> = Vec::new();
    if is_supported_name(target.name.as_str()) {
        let (stem, _) = split_file_name(target.name.as_str());
        let ghost pred = pairs_with_target(target.name@);
        proof {
            reveal(Seq::filter);
            assert(directory@.take(0) =~= Seq::<FileEntry>::empty());
            assert(entries_of(keyed@) =~= Seq::<FileEntry>::empty());
        }
        for i in 0..directory.len()
            invariant
                stem@ == stem_of(target.name@),
                is_supported(target.name@),
                pred == pairs_with_target(target.name@),
                entries_of(keyed@) == directory@.take(i as int).filter(pred),
                well_keyed(keyed@),
        {
            let entry = &directory[i];
            let (entry_stem, _) = split_file_name(entry.name.as_str());
            proof {
                assert(directory@.take(i + 1) =~= directory@.take(i as int).push(directory@[i as int]));
                directory@.take(i as int).lemma_filter_push(directory@[i as int], pred);
            }
            if names_eq_ignore_ascii_case(entry_stem, stem) && is_supported_name(entry.name.as_str()) {
                let key = to_lowercase(entry.name.as_str());
                let ghost before = keyed@;
                keyed.push(KeyedEntry::new(key, entry.duplicate()));
                proof {
                    assert(entries_of(keyed@) =~= entries_of(before).push(*entry));
                    assert forall|j: int| 0 <= j < keyed@.len() implies #[trigger] keyed@[j].key@
                        == sort_key(keyed@[j].entry) by {
                        if j < before.len() {
                            assert(keyed@[j] == before[j]);
                        }
                    }
                }
            }
        }
        proof {
            assert(directory@.take(directory@.len() as int) =~= directory@);
        }
    }
    let sorted = sort_by_keys(keyed.as_slice());
    proof {
        lemma_keyed_sort_sorts_entries(sorted@, keyed@);
    }
    let mut matches: Vec<FileEntry> = Vec::new();
    for i in 0..sorted.len()
        invariant
            matches@ == entries_of(sorted@).take(i as int),
    {
        matches.push(sorted[i].entry.duplicate());
        proof {
            assert(entries_of(sorted@).take(i + 1) =~= entries_of(sorted@).take(i as int).push(
                sorted@[i as int].entry,
            ));
        }
    }
    proof {
        assert(entries_of(sorted@).take(sorted@.len() as int) =~= entries_of(sorted@));
        if !is_supported(target.name@) {
            assert(entries_of(keyed@) =~= selected(*target, directory@));
        }
        lemma_stable_sort_unique(matches@, matching_files(*target, directory@), entry_key());
        if !is_supported(target.name@) {
            lemma_same_groups_same_multiset(matches@, selected(*target, directory@), entry_key());
            assert(matches@.to_multiset().len() == 0);
        }
        assert forall|i: int, j: int| 0 <= i < j < matches@.len() implies !chars_lt(
            #[trigger] unicode_lowercase(matches@[j].name@),
            #[trigger] unicode_lowercase(matches@[i].name@),
        ) by {
            assert(!chars_lt(entry_key()(matches@[j]), entry_key()(matches@[i])));
        }
    }
    matches
}

} // verus!
