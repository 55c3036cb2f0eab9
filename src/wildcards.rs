//! Shortening a path list with per-directory wildcards: the files of a
//! directory whose entries all share one extension become `dir/*.ext`.
//!
//! Reading the directories is left to the caller: `wildcard_groups` groups
//! the paths by directory, `needs_listing` says which directories must be
//! listed, and `merge_groups` takes those listings. Files that cannot be
//! merged stay as they are, so no path is lost.

use vstd::prelude::*;
use crate::compiler_depend::{chars_of, push_char, strings_view};

verus! {

/// What `Path::parent` gives for a path: its directory, if it has one.
pub uninterp spec fn parent_of(p: Seq<char>) -> Option<Seq<char>>;

/// What `Path::extension` gives for a path: the extension of its file name.
pub uninterp spec fn extension_of(p: Seq<char>) -> Option<Seq<char>>;

/// What `Path::join` gives for a directory and a file name.
pub uninterp spec fn joined(dir: Seq<char>, name: Seq<char>) -> Seq<char>;

/// Relies on `std::path::Path::parent`, read back as a string.
#[verifier::external_body]
fn path_parent(p: &str) -> (r: Option<String>)
    ensures
        r is Some <==> parent_of(p@) is Some,
        r is Some ==> r->Some_0@ == parent_of(p@)->Some_0,
{
    std::path::Path::new(p).parent().map(|d| d.to_string_lossy().into_owned())
}

/// Relies on `std::path::Path::extension`, read back as a string.
#[verifier::external_body]
fn path_extension(p: &str) -> (r: Option<String>)
    ensures
        r is Some <==> extension_of(p@) is Some,
        r is Some ==> r->Some_0@ == extension_of(p@)->Some_0,
{
    std::path::Path::new(p).extension().map(|e| e.to_string_lossy().into_owned())
}

/// Relies on `std::path::Path::join`, read back as a string.
#[verifier::external_body]
fn path_join(dir: &str, name: &str) -> (r: String)
    ensures
        r@ == joined(dir@, name@),
{
    std::path::Path::new(dir).join(name).to_string_lossy().into_owned()
}

/// The directories of the paths in `ps`, each once, in order of first
/// appearance. Paths without a directory have none.
pub open spec fn dirs_of(ps: Seq<Seq<char>>) -> Seq<Seq<char>>
    decreases ps.len(),
{
    if ps.len() == 0 {
        Seq::empty()
    } else {
        let before = dirs_of(ps.drop_last());
        match parent_of(ps.last()) {
            Some(d) => if before.contains(d) {
                before
            } else {
                before.push(d)
            },
            None => before,
        }
    }
}

/// The paths of `ps` whose directory is `dir`, in order.
pub open spec fn files_in(ps: Seq<Seq<char>>, dir: Seq<char>) -> Seq<Seq<char>>
    decreases ps.len(),
{
    if ps.len() == 0 {
        Seq::empty()
    } else if parent_of(ps.last()) == Some(dir) {
        files_in(ps.drop_last(), dir).push(ps.last())
    } else {
        files_in(ps.drop_last(), dir)
    }
}

/// The files of one directory.
pub struct DirGroup {
    pub dir: String,
    pub files: Vec<String>,
}

/// Whether `s` holds a string equal to `d`.
fn holds(s: &Vec<String>, d: &String) -> (r: bool)
    ensures
        r == strings_view(s@).contains(d@),
{
    let mut k: usize = 0;
    while k < s.len()
        invariant
            k <= s@.len(),
            forall|i: int| 0 <= i < k ==> s@[i]@ != d@,
        decreases s@.len() - k,
    {
        if s[k] == *d {
            assert(strings_view(s@)[k as int] == d@);
            return true;
        }
        k = k + 1;
    }
    proof {
        if strings_view(s@).contains(d@) {
            let i = choose|i: int| 0 <= i < strings_view(s@).len() && strings_view(s@)[i] == d@;
            assert(s@[i]@ == d@);
        }
    }
    false
}

/// The directories of `paths`, each once, in order of first appearance.
fn directories(paths: &Vec<String>) -> (r: Vec<String>)
    ensures
        strings_view(r@) == dirs_of(strings_view(paths@)),
{
    let ghost ps = strings_view(paths@);
    let mut dirs: Vec<String> = Vec::new();
    let mut i: usize = 0;
    assert(ps.take(0) =~= Seq::<Seq<char>>::empty());
    assert(strings_view(dirs@) =~= Seq::<Seq<char>>::empty());
    while i < paths.len()
        invariant
            ps == strings_view(paths@),
            i <= paths@.len(),
            strings_view(dirs@) == dirs_of(ps.take(i as int)),
        decreases paths@.len() - i,
    {
        assert(ps.take(i + 1).drop_last() =~= ps.take(i as int));
        assert(ps.take(i + 1).last() == paths@[i as int]@);
        match path_parent(paths[i].as_str()) {
            Some(d) => {
                if !holds(&dirs, &d) {
                    let ghost prev = dirs@;
                    dirs.push(d);
                    assert(strings_view(dirs@) =~= strings_view(prev).push(d@));
                }
            },
            None => {},
        }
        i = i + 1;
    }
    assert(ps.take(paths@.len() as int) =~= ps);
    dirs
}

/// The paths of `paths` whose directory is `dir`, in order.
fn files_of(paths: &Vec<String>, dir: &String) -> (r: Vec<String>)
    ensures
        strings_view(r@) == files_in(strings_view(paths@), dir@),
{
    let ghost ps = strings_view(paths@);
    let mut files: Vec<String> = Vec::new();
    let mut i: usize = 0;
    assert(ps.take(0) =~= Seq::<Seq<char>>::empty());
    assert(strings_view(files@) =~= Seq::<Seq<char>>::empty());
    while i < paths.len()
        invariant
            ps == strings_view(paths@),
            i <= paths@.len(),
            strings_view(files@) == files_in(ps.take(i as int), dir@),
        decreases paths@.len() - i,
    {
        assert(ps.take(i + 1).drop_last() =~= ps.take(i as int));
        assert(ps.take(i + 1).last() == paths@[i as int]@);
        let here = match path_parent(paths[i].as_str()) {
            Some(d) => d == *dir,
            None => false,
        };
        if here {
            let ghost prev = files@;
            files.push(paths[i].clone());
            assert(strings_view(files@) =~= strings_view(prev).push(paths@[i as int]@));
        }
        i = i + 1;
    }
    assert(ps.take(paths@.len() as int) =~= ps);
    files
}

/// Whether every path of `ps` has a directory.
pub open spec fn all_have_dirs(ps: Seq<Seq<char>>) -> bool {
    forall|i: int| 0 <= i < ps.len() ==> (#[trigger] parent_of(ps[i])) is Some
}

/// The paths grouped by directory: one group for each directory, in order
/// of first appearance, with its files in their order in `paths`; `None`
/// when some path has no directory (`/`, or the empty path).
pub fn wildcard_groups(paths: &Vec<String>) -> (r: Option<Vec<DirGroup>>)
    ensures
        r is Some <==> all_have_dirs(strings_view(paths@)),
        r is Some ==> r->Some_0@.len() == dirs_of(strings_view(paths@)).len(),
        r is Some ==> forall|k: int|
            0 <= k < r->Some_0@.len() ==> {
                let d = dirs_of(strings_view(paths@))[k];
                &&& (#[trigger] r->Some_0@[k]).dir@ == d
                &&& strings_view(r->Some_0@[k].files@) == files_in(strings_view(paths@), d)
            },
{
    let mut i: usize = 0;
    while i < paths.len()
        invariant
            i <= paths@.len(),
            forall|j: int| 0 <= j < i ==> parent_of(paths@[j]@) is Some,
        decreases paths@.len() - i,
    {
        if path_parent(paths[i].as_str()).is_none() {
            assert(strings_view(paths@)[i as int] == paths@[i as int]@);
            return None;
        }
        i = i + 1;
    }
    assert forall|j: int| 0 <= j < strings_view(paths@).len() implies (#[trigger] parent_of(
        strings_view(paths@)[j],
    )) is Some by {
        assert(strings_view(paths@)[j] == paths@[j]@);
    }
    let dirs = directories(paths);
    let mut groups: Vec<DirGroup> = Vec::new();
    let mut k: usize = 0;
    while k < dirs.len()
        invariant
            strings_view(dirs@) == dirs_of(strings_view(paths@)),
            k <= dirs@.len(),
            groups@.len() == k,
            forall|j: int|
                0 <= j < k ==> {
                    let d = dirs_of(strings_view(paths@))[j];
                    &&& (#[trigger] groups@[j]).dir@ == d
                    &&& strings_view(groups@[j].files@) == files_in(strings_view(paths@), d)
                },
        decreases dirs@.len() - k,
    {
        assert(strings_view(dirs@)[k as int] == dirs@[k as int]@);
        let files = files_of(paths, &dirs[k]);
        groups.push(DirGroup { dir: dirs[k].clone(), files });
        k = k + 1;
    }
    Some(groups)
}

/// An optional string as an optional character sequence.
pub open spec fn opt_text(o: Option<String>) -> Option<Seq<char>> {
    match o {
        Some(t) => Some(t@),
        None => None,
    }
}

/// Whether every path of `ps` has the extension `ext` (none, for `None`).
pub open spec fn all_with_extension(ps: Seq<Seq<char>>, ext: Option<Seq<char>>) -> bool {
    forall|i: int| 0 <= i < ps.len() ==> extension_of(#[trigger] ps[i]) == ext
}

/// The file name that stands for every file with the extension `ext`.
pub open spec fn star_name(ext: Option<Seq<char>>) -> Seq<char> {
    match ext {
        Some(e) => seq!['*', '.'] + e,
        None => seq!['*'],
    }
}

/// Whether the files of a group share one extension: only then can the
/// group become a wildcard.
pub open spec fn uniform(files: Seq<Seq<char>>) -> bool {
    files.len() > 0 && all_with_extension(files, extension_of(files[0]))
}

/// The wildcards and the files kept as they are, for the first `k` groups.
/// A group whose files share one extension becomes a wildcard when every
/// entry of its directory's listing has that extension too; any other
/// group stays as its files.
pub open spec fn merge_upto(groups: Seq<DirGroup>, listings: Seq<Vec<String>>, k: int) -> (
    Seq<Seq<char>>,
    Seq<Seq<char>>,
)
    decreases k,
{
    if k <= 0 {
        (Seq::empty(), Seq::empty())
    } else {
        let (wild, kept) = merge_upto(groups, listings, k - 1);
        let files = strings_view(groups[k - 1].files@);
        if uniform(files) {
            let ext = extension_of(files[0]);
            if all_with_extension(strings_view(listings[k - 1]@), ext) {
                (wild.push(joined(groups[k - 1].dir@, star_name(ext))), kept)
            } else {
                (wild, kept + files)
            }
        } else {
            (wild, kept + files)
        }
    }
}

/// The merged path list: all wildcards, then all files kept as they are.
pub open spec fn merged(groups: Seq<DirGroup>, listings: Seq<Vec<String>>) -> Seq<Seq<char>> {
    let (wild, kept) = merge_upto(groups, listings, groups.len() as int);
    wild + kept
}

/// Whether every path of `ps` has the extension `ext`.
fn same_extension(ps: &Vec<String>, ext: &Option<String>) -> (r: bool)
    ensures
        r == all_with_extension(strings_view(ps@), opt_text(*ext)),
{
    let mut i: usize = 0;
    while i < ps.len()
        invariant
            i <= ps@.len(),
            forall|j: int| 0 <= j < i ==> extension_of(ps@[j]@) == opt_text(*ext),
        decreases ps@.len() - i,
    {
        let e = path_extension(ps[i].as_str());
        let same = match (&e, ext) {
            (Some(a), Some(b)) => *a == *b,
            (None, None) => true,
            _ => false,
        };
        if !same {
            assert(strings_view(ps@)[i as int] == ps@[i as int]@);
            return false;
        }
        i = i + 1;
    }
    proof {
        assert forall|j: int| 0 <= j < strings_view(ps@).len() implies extension_of(
            #[trigger] strings_view(ps@)[j],
        ) == opt_text(*ext) by {
            assert(strings_view(ps@)[j] == ps@[j]@);
        }
    }
    true
}

/// `*`, or `*.` and the extension.
fn wildcard_name(ext: &Option<String>) -> (r: String)
    ensures
        r@ == star_name(opt_text(*ext)),
{
    let mut name = String::new();
    push_char(&mut name, '*');
    match ext {
        Some(e) => {
            push_char(&mut name, '.');
            let cs = chars_of(e.as_str());
            let mut i: usize = 0;
            while i < cs.len()
                invariant
                    i <= cs@.len(),
                    cs@ == e@,
                    name@ == seq!['*', '.'] + cs@.take(i as int),
                decreases cs@.len() - i,
            {
                push_char(&mut name, cs[i]);
                assert(cs@.take(i + 1) =~= cs@.take(i as int).push(cs@[i as int]));
                i = i + 1;
            }
            assert(cs@.take(cs@.len() as int) =~= cs@);
        },
        None => {},
    }
    assert(seq!['*'] + Seq::<char>::empty() =~= seq!['*']);
    name
}

/// Appends copies of the strings of `src` to `dst`.
fn extend_strings(dst: &mut Vec<String>, src: &Vec<String>)
    ensures
        strings_view(final(dst)@) == strings_view(old(dst)@) + strings_view(src@),
{
    let ghost start = strings_view(dst@);
    let mut i: usize = 0;
    assert(strings_view(src@).take(0) =~= Seq::<Seq<char>>::empty());
    assert(start + Seq::<Seq<char>>::empty() =~= start);
    while i < src.len()
        invariant
            i <= src@.len(),
            strings_view(dst@) == start + strings_view(src@).take(i as int),
        decreases src@.len() - i,
    {
        let ghost prev = dst@;
        dst.push(src[i].clone());
        assert(strings_view(dst@) =~= strings_view(prev).push(src@[i as int]@));
        assert(strings_view(src@).take(i + 1) =~= strings_view(src@).take(i as int).push(
            src@[i as int]@,
        ));
        i = i + 1;
    }
    assert(strings_view(src@).take(src@.len() as int) =~= strings_view(src@));
}

/// Whether `merge_groups` reads the listing of the group's directory: only
/// where the group's files share one extension.
pub fn needs_listing(group: &DirGroup) -> (r: bool)
    ensures
        r == uniform(strings_view(group.files@)),
{
    if group.files.len() == 0 {
        return false;
    }
    let ext = path_extension(group.files[0].as_str());
    assert(strings_view(group.files@)[0] == group.files@[0]@);
    same_extension(&group.files, &ext)
}

/// Merges the groups of `wildcard_groups`, given for each group the paths of
/// its directory's entries, into one path list: the wildcards first, then
/// the files kept as they are. Every file of every group is in the result,
/// itself or under its directory's wildcard. A listing is read only where
/// `needs_listing` holds for its group.
pub fn merge_groups(groups: &Vec<DirGroup>, listings: &Vec<Vec<String>>) -> (r: Vec<String>)
    requires
        groups@.len() == listings@.len(),
    ensures
        strings_view(r@) == merged(groups@, listings@),
{
    let mut wild: Vec<String> = Vec::new();
    let mut kept: Vec<String> = Vec::new();
    let mut k: usize = 0;
    assert(strings_view(wild@) =~= Seq::<Seq<char>>::empty());
    assert(strings_view(kept@) =~= Seq::<Seq<char>>::empty());
    while k < groups.len()
        invariant
            groups@.len() == listings@.len(),
            k <= groups@.len(),
            (strings_view(wild@), strings_view(kept@)) == merge_upto(groups@, listings@, k as int),
        decreases groups@.len() - k,
    {
        let g = &groups[k];
        if g.files.len() > 0 {
            let ext = path_extension(g.files[0].as_str());
            assert(strings_view(g.files@)[0] == g.files@[0]@);
            if same_extension(&g.files, &ext) {
                if same_extension(&listings[k], &ext) {
                    let name = wildcard_name(&ext);
                    let ghost prev = wild@;
                    wild.push(path_join(g.dir.as_str(), name.as_str()));
                    assert(strings_view(wild@) =~= strings_view(prev).push(
                        joined(g.dir@, star_name(opt_text(ext))),
                    ));
                } else {
                    extend_strings(&mut kept, &g.files);
                }
            } else {
                extend_strings(&mut kept, &g.files);
            }
        } else {
            assert(strings_view(g.files@) =~= Seq::<Seq<char>>::empty());
            assert(strings_view(kept@) + strings_view(g.files@) =~= strings_view(kept@));
        }
        k = k + 1;
    }
    extend_strings(&mut wild, &kept);
    wild
}

/// Whether the path list `out` names the file `f` of the directory `dir`:
/// itself, or under the wildcard for its extension.
pub open spec fn covers(out: Seq<Seq<char>>, dir: Seq<char>, f: Seq<char>) -> bool {
    out.contains(f) || out.contains(joined(dir, star_name(extension_of(f))))
}

proof fn lemma_merge_upto_covers(
    groups: Seq<DirGroup>,
    listings: Seq<Vec<String>>,
    k: int,
    j: int,
    i: int,
)
    requires
        0 <= j < k <= groups.len(),
        0 <= i < groups[j].files@.len(),
    ensures
        ({
            let (wild, kept) = merge_upto(groups, listings, k);
            let f = groups[j].files@[i]@;
            kept.contains(f) || wild.contains(joined(groups[j].dir@, star_name(extension_of(f))))
        }),
    decreases k,
{
    let (wild, kept) = merge_upto(groups, listings, k);
    let (w0, k0) = merge_upto(groups, listings, k - 1);
    let files = strings_view(groups[k - 1].files@);
    let f = groups[j].files@[i]@;
    let target = joined(groups[j].dir@, star_name(extension_of(f)));
    if j < k - 1 {
        lemma_merge_upto_covers(groups, listings, k - 1, j, i);
        if k0.contains(f) {
            let x = choose|x: int| 0 <= x < k0.len() && k0[x] == f;
            assert(kept[x] == f);
        } else {
            let x = choose|x: int| 0 <= x < w0.len() && w0[x] == target;
            assert(wild[x] == target);
        }
    } else {
        assert(files[i] == f);
        if uniform(files) && all_with_extension(
            strings_view(listings[k - 1]@),
            extension_of(files[0]),
        ) {
            assert(wild[w0.len() as int] == target);
        } else {
            assert(kept[k0.len() + i] == f);
        }
    }
}

/// Merging loses no file: every file of every group is in the merged list,
/// itself or under its directory's wildcard for its extension.
pub proof fn lemma_merge_covers_every_file(
    groups: Seq<DirGroup>,
    listings: Seq<Vec<String>>,
    j: int,
    i: int,
)
    requires
        0 <= j < groups.len(),
        0 <= i < groups[j].files@.len(),
    ensures
        covers(merged(groups, listings), groups[j].dir@, groups[j].files@[i]@),
{
    lemma_merge_upto_covers(groups, listings, groups.len() as int, j, i);
    let (wild, kept) = merge_upto(groups, listings, groups.len() as int);
    let out = wild + kept;
    let f = groups[j].files@[i]@;
    if kept.contains(f) {
        let x = choose|x: int| 0 <= x < kept.len() && kept[x] == f;
        assert(out[wild.len() + x] == f);
    } else {
        let target = joined(groups[j].dir@, star_name(extension_of(f)));
        let x = choose|x: int| 0 <= x < wild.len() && wild[x] == target;
        assert(out[x] == target);
    }
}

} // verus!
