//! The classifier: which of the discovered files are shown in the tree, and
//! which of them also have their content taken into the digest.

use vstd::prelude::*;
use vstd::string::StringExecFns;
use vstd::string::StrSliceExecFns;
use crate::paths::{path_views, RelPath};
use crate::order::{sort_paths, sorted_by_text};
use crate::text::{chars_of, lowercased, str_eq, to_lowercase};

verus! {

/// The index of the last `.` in a name, or -1 where the name has none.
pub open spec fn last_dot(name: Seq<char>) -> int
    decreases name.len(),
{
    if name.len() == 0 {
        -1
    } else if name.last() == '.' {
        name.len() - 1
    } else {
        last_dot(name.drop_last())
    }
}

/// The extension of a file name: what follows its last `.`. A name without a
/// `.`, a name whose only `.` is its first character, and the name `..` have
/// no extension.
pub open spec fn extension(name: Seq<char>) -> Option<Seq<char>> {
    let dot = last_dot(name);
    if dot <= 0 || name == seq!['.', '.'] {
        None
    } else {
        Some(name.skip(dot + 1))
    }
}

/// The extension by which a path is judged: that of its last component, in
/// lower case and with the `.` in front.
pub open spec fn lower_extension(path: Seq<Seq<char>>) -> Option<Seq<char>> {
    if path.len() == 0 {
        None
    } else {
        match extension(path.last()) {
            Some(ext) => Some(seq!['.'] + lowercased(ext)),
            None => None,
        }
    }
}

/// The extensions of files whose content is never taken: images, fonts,
/// archives, binaries and the like.
pub open spec fn excluded_extensions() -> Seq<Seq<char>> {
    seq![
        ".png"@,
        ".jpg"@,
        ".jpeg"@,
        ".gif"@,
        ".bmp"@,
        ".ico"@,
        ".webp"@,
        ".svg"@,
        ".woff"@,
        ".woff2"@,
        ".ttf"@,
        ".eot"@,
        ".otf"@,
        ".zip"@,
        ".gz"@,
        ".tar"@,
        ".rar"@,
        ".7z"@,
        ".pack"@,
        ".wasm"@,
        ".dll"@,
        ".exe"@,
        ".so"@,
        ".a"@,
        ".lib"@,
        ".bin"@,
        ".o"@,
        ".pdf"@,
    ]
}

/// Whether the path's extension, whatever its case, is an excluded one.
pub open spec fn excluded_by_extension(path: Seq<Seq<char>>) -> bool {
    match lower_extension(path) {
        Some(ext) => excluded_extensions().contains(ext),
        None => false,
    }
}

/// Whether a size in bytes is over a limit given in KiB.
pub open spec fn over_limit(size: u64, max_size: u64) -> bool {
    size > max_size * 1024
}

/// What becomes of a file's content.
#[derive(Clone, Copy, PartialEq, Eq, Structural, Debug)]
pub enum ContentDecision {
    /// The content is taken into the digest.
    Include,
    /// The content is left out because of the file's extension.
    ExcludedExtension,
    /// The content is left out because the file is over the size limit.
    TooLarge,
}

/// The decision on a file with the given path and size: the extension is
/// looked at first, the size only where the extension lets the file pass.
pub open spec fn decision(path: Seq<Seq<char>>, size: u64, max_size: u64) -> ContentDecision {
    if excluded_by_extension(path) {
        ContentDecision::ExcludedExtension
    } else if over_limit(size, max_size) {
        ContentDecision::TooLarge
    } else {
        ContentDecision::Include
    }
}

/// A discovered file: where it is below the root and how many bytes it has.
#[derive(Debug, PartialEq, Eq)]
pub struct FileEntry {
    pub path: RelPath,
    pub size: u64,
}

/// What a `FileEntry` stands for.
pub struct EntryModel {
    pub path: Seq<Seq<char>>,
    pub size: u64,
}

impl View for FileEntry {
    type V = EntryModel;

    open spec fn view(&self) -> EntryModel {
        EntryModel { path: self.path@, size: self.size }
    }
}

/// What a list of entries stands for, in the same order.
pub open spec fn entry_views(entries: Seq<FileEntry>) -> Seq<EntryModel> {
    Seq::new(entries.len(), |i: int| entries[i]@)
}

/// The paths of all entries, in their order: the files of the tree.
pub open spec fn all_paths(entries: Seq<EntryModel>) -> Seq<Seq<Seq<char>>> {
    Seq::new(entries.len(), |i: int| entries[i].path)
}

/// The paths of the entries whose content is taken, in their order.
pub open spec fn included_paths(entries: Seq<EntryModel>, max_size: u64) -> Seq<Seq<Seq<char>>>
    decreases entries.len(),
{
    if entries.len() == 0 {
        Seq::empty()
    } else {
        let before = included_paths(entries.drop_last(), max_size);
        let entry = entries.last();
        if decision(entry.path, entry.size, max_size) == ContentDecision::Include {
            before.push(entry.path)
        } else {
            before
        }
    }
}

/// Whether the content of the file at path `p` is taken: one of the entries
/// has that path, no excluded extension, and a size within the limit.
pub open spec fn is_taken(entries: Seq<EntryModel>, max_size: u64, p: Seq<Seq<char>>) -> bool {
    exists|i: int|
        0 <= i < entries.len() && (#[trigger] entries[i]).path == p && !excluded_by_extension(p)
            && entries[i].size <= max_size * 1024
}

/// The two listings of a digest.
#[derive(Debug, PartialEq, Eq)]
pub struct Listings {
    /// The files shown in the tree.
    pub tree_files: Vec<RelPath>,
    /// The files whose content is taken.
    pub content_files: Vec<RelPath>,
}

impl Listings {
    /// Both listings are sorted, and every file whose content is taken is
    /// also shown in the tree.
    pub open spec fn well_formed(&self) -> bool {
        &&& sorted_by_text(path_views(self.tree_files@))
        &&& sorted_by_text(path_views(self.content_files@))
        &&& forall|p: Seq<Seq<char>>|
            path_views(self.content_files@).contains(p) ==> path_views(self.tree_files@).contains(
                p,
            )
    }
}

/// The extension of a file name, where it has one.
pub fn extension_of(name: &str) -> (ext: Option<String>)
    ensures
        match ext {
            Some(e) => extension(name@) == Some(e@),
            None => extension(name@) is None,
        },
{
    let chars = chars_of(name);
    let n = chars.len();
    let mut end: usize = n;
    proof {
        assert(name@.take(n as int) =~= name@);
    }
    while end > 0
        invariant
            chars@ == name@,
            n == chars.len(),
            end <= n,
            last_dot(name@) == last_dot(name@.take(end as int)),
        ensures
            end <= n,
            last_dot(name@) == end - 1,
            end > 0 ==> name@[end - 1] == '.',
        decreases end,
    {
        proof {
            let part = name@.take(end as int);
            assert(part.drop_last() =~= name@.take(end - 1));
        }
        if chars[end - 1] == '.' {
            break ;
        }
        end = end - 1;
    }
    if end <= 1 {
        return None;
    }
    if n == 2 && chars[0] == '.' {
        assert(name@ =~= seq!['.', '.']);
        return None;
    }
    Some(String::from_str(name.substring_char(end, n)))
}

/// Whether `ext`, an extension in lower case with its `.` in front, is one
/// of the excluded extensions.
pub fn is_excluded_extension(ext: &str) -> (r: bool)
    ensures
        r == excluded_extensions().contains(ext@),
{
    let list: [&str; 28] = [
        ".png",
        ".jpg",
        ".jpeg",
        ".gif",
        ".bmp",
        ".ico",
        ".webp",
        ".svg",
        ".woff",
        ".woff2",
        ".ttf",
        ".eot",
        ".otf",
        ".zip",
        ".gz",
        ".tar",
        ".rar",
        ".7z",
        ".pack",
        ".wasm",
        ".dll",
        ".exe",
        ".so",
        ".a",
        ".lib",
        ".bin",
        ".o",
        ".pdf",
    ];
    let ghost excluded = excluded_extensions();
    let mut i: usize = 0;
    while i < 28
        invariant
            i <= 28,
            excluded == excluded_extensions(),
            excluded.len() == 28,
            forall|k: int| 0 <= k < 28 ==> list@[k]@ == #[trigger] excluded[k],
            forall|k: int| 0 <= k < i ==> #[trigger] excluded[k] != ext@,
        decreases 28 - i,
    {
        if str_eq(list[i], ext) {
            return true;
        }
        i = i + 1;
    }
    false
}

/// Whether the path's extension, whatever its case, is an excluded one. A
/// file without an extension is never excluded.
pub fn has_excluded_extension(path: &RelPath) -> (r: bool)
    ensures
        r == excluded_by_extension(path@),
{
    match path.file_name() {
        None => false,
        Some(name) => match extension_of(name.as_str()) {
            None => false,
            Some(ext) => {
                let mut dotted = String::from_str(".");
                let lower = to_lowercase(ext.as_str());
                dotted.append(lower.as_str());
                proof {
                    reveal_strlit(".");
                    assert("."@ =~= seq!['.']);
                }
                is_excluded_extension(dotted.as_str())
            },
        },
    }
}

/// Whether a size in bytes is over a limit given in KiB. A file of exactly
/// the limit is not over it.
pub fn exceeds_limit(size: u64, max_size: u64) -> (r: bool)
    ensures
        r == over_limit(size, max_size),
{
    let limit: u128 = (max_size as u128) * 1024;
    (size as u128) > limit
}

/// Decides what becomes of the content of a file with the given path and
/// size, under a size limit given in KiB.
pub fn decide(path: &RelPath, size: u64, max_size: u64) -> (d: ContentDecision)
    ensures
        d == decision(path@, size, max_size),
{
    if has_excluded_extension(path) {
        ContentDecision::ExcludedExtension
    } else if exceeds_limit(size, max_size) {
        ContentDecision::TooLarge
    } else {
        ContentDecision::Include
    }
}

/// The content is taken of exactly the files that have no excluded extension
/// and are within the size limit.
pub proof fn lemma_included_paths(entries: Seq<EntryModel>, max_size: u64, p: Seq<Seq<char>>)
    ensures
        included_paths(entries, max_size).contains(p) <==> is_taken(entries, max_size, p),
    decreases entries.len(),
{
    if entries.len() > 0 {
        let before = entries.drop_last();
        lemma_included_paths(before, max_size, p);
        let inc = included_paths(entries, max_size);
        let inc_before = included_paths(before, max_size);
        if is_taken(entries, max_size, p) {
            let i = choose|i: int|
                0 <= i < entries.len() && (#[trigger] entries[i]).path == p
                    && !excluded_by_extension(p) && entries[i].size <= max_size * 1024;
            if i < entries.len() - 1 {
                assert(before[i] == entries[i]);
                let k = choose|k: int| 0 <= k < inc_before.len() && inc_before[k] == p;
                assert(inc[k] == p);
            } else {
                assert(inc[inc.len() - 1] == p);
            }
        }
    }
}

/// Every file whose content is taken is also a file of the tree.
pub proof fn lemma_content_within_tree(entries: Seq<EntryModel>, max_size: u64, p: Seq<Seq<char>>)
    requires
        included_paths(entries, max_size).contains(p),
    ensures
        all_paths(entries).contains(p),
{
    lemma_included_paths(entries, max_size, p);
    let i = choose|i: int|
        0 <= i < entries.len() && (#[trigger] entries[i]).path == p && !excluded_by_extension(p)
            && entries[i].size <= max_size * 1024;
    assert(all_paths(entries)[i] == p);
}

/// A file with an excluded extension never has its content taken, however
/// small it is.
pub proof fn lemma_excluded_extension_never_included(
    entries: Seq<EntryModel>,
    max_size: u64,
    p: Seq<Seq<char>>,
)
    requires
        excluded_by_extension(p),
    ensures
        !included_paths(entries, max_size).contains(p),
{
    lemma_included_paths(entries, max_size, p);
}

/// The size limit is inclusive: without an excluded extension, a file of
/// exactly `max_size` KiB has its content taken, and a file of one byte more
/// has not.
pub proof fn lemma_size_limit_is_inclusive(path: Seq<Seq<char>>, size: u64, max_size: u64)
    requires
        !excluded_by_extension(path),
    ensures
        size == max_size * 1024 ==> decision(path, size, max_size) == ContentDecision::Include,
        size == max_size * 1024 + 1 ==> decision(path, size, max_size)
            == ContentDecision::TooLarge,
        decision(path, size, max_size) == ContentDecision::Include <==> size <= max_size * 1024,
{
}

/// Classifies the discovered files: every file is shown in the tree, and the
/// content is taken of those that have no excluded extension and are not over
/// the limit of `max_size` KiB. Both listings come back sorted by path.
pub fn classify(entries: &Vec<FileEntry>, max_size: u64) -> (listings: Listings)
    ensures
        listings.well_formed(),
        path_views(listings.tree_files@).to_multiset() == all_paths(
            entry_views(entries@),
        ).to_multiset(),
        path_views(listings.content_files@).to_multiset() == included_paths(
            entry_views(entries@),
            max_size,
        ).to_multiset(),
        forall|p: Seq<Seq<char>>| #[trigger]
            path_views(listings.tree_files@).contains(p) <==> all_paths(
                entry_views(entries@),
            ).contains(p),
        forall|p: Seq<Seq<char>>| #[trigger]
            path_views(listings.content_files@).contains(p) <==> is_taken(
                entry_views(entries@),
                max_size,
                p,
            ),
{
    broadcast use vstd::seq_lib::to_multiset_contains;

    let ghost models = entry_views(entries@);
    let mut tree_files: Vec<RelPath> = Vec::new();
    let mut content_files: Vec<RelPath> = Vec::new();
    let n = entries.len();
    let mut i: usize = 0;
    while i < n
        invariant
            n == entries.len(),
            models == entry_views(entries@),
            i <= n,
            path_views(tree_files@) == all_paths(models.take(i as int)),
            path_views(content_files@) == included_paths(models.take(i as int), max_size),
        decreases n - i,
    {
        let entry = &entries[i];
        let ghost tree_before = path_views(tree_files@);
        tree_files.push(entry.path.duplicate());
        let taken = decide(&entry.path, entry.size, max_size) == ContentDecision::Include;
        if taken {
            content_files.push(entry.path.duplicate());
        }
        proof {
            let upto = models.take(i + 1);
            assert(upto.drop_last() =~= models.take(i as int));
            assert(path_views(tree_files@) =~= tree_before.push(entry.path@));
        }
        i = i + 1;
    }
    proof {
        assert(models.take(n as int) =~= models);
    }
    let ghost found = path_views(tree_files@);
    let ghost taken = path_views(content_files@);
    let listings = Listings {
        tree_files: sort_paths(tree_files),
        content_files: sort_paths(content_files),
    };
    proof {
        let tree = path_views(listings.tree_files@);
        let content = path_views(listings.content_files@);
        assert forall|p: Seq<Seq<char>>| #[trigger] tree.contains(p) <==> found.contains(p) by {
            assert(tree.to_multiset().count(p) == found.to_multiset().count(p));
        }
        assert forall|p: Seq<Seq<char>>| #[trigger] content.contains(p) <==> is_taken(
            models,
            max_size,
            p,
        ) by {
            assert(content.to_multiset().count(p) == taken.to_multiset().count(p));
            lemma_included_paths(models, max_size, p);
        }
        assert forall|p: Seq<Seq<char>>| #[trigger] content.contains(p) implies tree.contains(
            p,
        ) by {
            assert(content.to_multiset().count(p) == taken.to_multiset().count(p));
            lemma_content_within_tree(models, max_size, p);
        }
    }
    listings
}

} // verus!
