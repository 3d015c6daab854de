//! The tree of folders that hold the tracks, as a list to be shown.
//!
//! The list holds the folders whose own folders are all expanded, ordered by their lowercase
//! paths.

use crate::database::Track;
use crate::order;
use crate::order::{key_of_text, sort_stably};
use crate::paths;
use crate::paths::{ancestors_of, parent_of, path_key_of, shown_name_of};
use crate::text;
use vstd::hash_set::StringHashSet;
use vstd::prelude::*;
use vstd::string::*;

verus! {

/// The width by which a folder is shown further to the right than the folder that holds it.
pub const INDENT: u128 = 15;

/// A folder as it is shown.
#[derive(Debug)]
pub struct FolderItem {
    pub path: String,
    pub name: String,
    pub indent: u128,
    pub is_expanded: bool,
    pub has_children: bool,
}

/// What a `FolderItem` holds.
#[verifier::ext_equal]
pub struct Shown {
    pub path: Seq<char>,
    pub name: Seq<char>,
    pub indent: int,
    pub is_expanded: bool,
    pub has_children: bool,
}

impl View for FolderItem {
    type V = Shown;

    open spec fn view(&self) -> Shown {
        Shown {
            path: self.path@,
            name: self.name@,
            indent: self.indent as int,
            is_expanded: self.is_expanded,
            has_children: self.has_children,
        }
    }
}

/// The contents of a vector of texts.
pub open spec fn texts(v: Seq<String>) -> Seq<Seq<char>> {
    v.map_values(|s: String| s@)
}

/// The contents of a vector of items.
pub open spec fn items(v: Seq<FolderItem>) -> Seq<Shown> {
    v.map_values(|i: FolderItem| i@)
}

/// A spelling of the path `f` is among `known`.
pub open spec fn is_known(known: Seq<Seq<char>>, f: Seq<char>) -> bool {
    exists|i: int| 0 <= i < known.len() && paths::same_path(#[trigger] known[i], f)
}

/// The known folders and one more; a path that is known already keeps its first spelling.
pub open spec fn with_folder(known: Seq<Seq<char>>, f: Seq<char>) -> Seq<Seq<char>> {
    if is_known(known, f) {
        known
    } else {
        known.push(f)
    }
}

/// The known folders and those of a list.
pub open spec fn with_folders(known: Seq<Seq<char>>, more: Seq<Seq<char>>) -> Seq<Seq<char>>
    decreases more.len(),
{
    if more.len() == 0 {
        known
    } else {
        with_folder(with_folders(known, more.drop_last()), more.last())
    }
}

/// The folders that hold the tracks, directly or not, each path once.
pub open spec fn folders_of(tracks: Seq<Track>) -> Seq<Seq<char>>
    decreases tracks.len(),
{
    if tracks.len() == 0 {
        Seq::empty()
    } else {
        with_folders(folders_of(tracks.drop_last()), paths::ancestors(tracks.last().path@))
    }
}

/// All folders that hold `f` are expanded.
pub open spec fn is_visible(f: Seq<char>, expanded: Set<Seq<char>>) -> bool {
    forall|i: int|
        0 <= i < paths::ancestors(f).len() ==> expanded.contains(#[trigger] paths::ancestors(f)[i])
}

/// One of the folders stands directly in `f`.
pub open spec fn holds_folder(folders: Seq<Seq<char>>, f: Seq<char>) -> bool {
    exists|i: int|
        0 <= i < folders.len() && (paths::parent(#[trigger] folders[i]) matches Some(q)
            && paths::same_path(q, f))
}

/// How far to the right a path is shown: by the width of an indent for each component but the
/// first.
pub open spec fn indent_of(f: Seq<char>) -> int {
    if paths::components(f).len() == 0 {
        0
    } else {
        INDENT * (paths::components(f).len() - 1)
    }
}

/// A folder as it is shown among the others.
pub open spec fn shown(
    f: Seq<char>,
    folders: Seq<Seq<char>>,
    expanded: Set<Seq<char>>,
) -> Shown {
    Shown {
        path: f,
        name: paths::shown_name(f),
        indent: indent_of(f),
        is_expanded: expanded.contains(f),
        has_children: holds_folder(folders, f),
    }
}

/// Those of `listed` that are visible, as they are shown among the `folders`.
pub open spec fn visible_ones(
    listed: Seq<Seq<char>>,
    folders: Seq<Seq<char>>,
    expanded: Set<Seq<char>>,
) -> Seq<Shown>
    decreases listed.len(),
{
    if listed.len() == 0 {
        Seq::empty()
    } else {
        let rest = visible_ones(listed.drop_last(), folders, expanded);
        if is_visible(listed.last(), expanded) {
            rest.push(shown(listed.last(), folders, expanded))
        } else {
            rest
        }
    }
}

/// The folders in the order of the texts that stand beside them.
pub open spec fn arranged(folders: Seq<Seq<char>>, lowered: Seq<Seq<char>>) -> Seq<Seq<char>> {
    order::stable_order(lowered.map_values(|s: Seq<char>| order::text_key(s)), true).map_values(
        |i: int| folders[i],
    )
}

/// The list of folders that is shown, given the lowercase form of each path.
pub open spec fn folder_list(
    folders: Seq<Seq<char>>,
    lowered: Seq<Seq<char>>,
    expanded: Set<Seq<char>>,
) -> Seq<Shown> {
    visible_ones(arranged(folders, lowered), folders, expanded)
}

/// The lowercase forms of a list of texts.
pub open spec fn lowercase_all(s: Seq<Seq<char>>) -> Seq<Seq<char>> {
    s.map_values(|f: Seq<char>| text::lowercase(f))
}

/// The folders that are expanded.
pub struct ExpandedFolders {
    set: StringHashSet,
}

impl View for ExpandedFolders {
    type V = Set<Seq<char>>;

    closed spec fn view(&self) -> Set<Seq<char>> {
        self.set@
    }
}

/// The expanded folders after the one at `path` was toggled.
pub open spec fn toggled(expanded: Set<Seq<char>>, path: Seq<char>) -> Set<Seq<char>> {
    if expanded.contains(path) {
        expanded.remove(path)
    } else {
        expanded.insert(path)
    }
}

impl ExpandedFolders {
    /// No folder is expanded.
    pub fn new() -> (r: Self)
        ensures
            r@ == Set::<Seq<char>>::empty(),
    {
        ExpandedFolders { set: StringHashSet::new() }
    }

    /// Whether the folder at `path` is expanded.
    pub fn contains(&self, path: &str) -> (r: bool)
        ensures
            r == self@.contains(path@),
    {
        self.set.contains(path)
    }

    /// Collapses the folder at `path` if it is expanded, and expands it if it is not.
    pub fn toggle(&mut self, path: &str)
        ensures
            final(self)@ == toggled(old(self)@, path@),
    {
        if self.set.contains(path) {
            self.set.remove(path);
        } else {
            self.set.insert(path.to_owned());
        }
    }
}

/// `keys` holds the path keys of `folders` and nothing else.
spec fn keys_hold(keys: Set<Seq<char>>, folders: Seq<Seq<char>>) -> bool {
    forall|k: Seq<char>| #[trigger]
        keys.contains(k) <==> exists|i: int|
            0 <= i < folders.len() && paths::path_key(#[trigger] folders[i]) == k
}

proof fn known_by_key(keys: Set<Seq<char>>, folders: Seq<Seq<char>>, f: Seq<char>)
    requires
        keys_hold(keys, folders),
    ensures
        keys.contains(paths::path_key(f)) <==> is_known(folders, f),
{
    if keys.contains(paths::path_key(f)) {
        let i = choose|i: int|
            0 <= i < folders.len() && paths::path_key(#[trigger] folders[i]) == paths::path_key(f);
        paths::path_key_identifies(folders[i], f);
    }
    if is_known(folders, f) {
        let i = choose|i: int| 0 <= i < folders.len() && paths::same_path(#[trigger] folders[i], f);
        paths::path_key_identifies(folders[i], f);
    }
}

/// Adds a folder to the known ones.
fn note_folder(folders: &mut Vec<String>, keys: &mut StringHashSet, f: &String)
    requires
        keys_hold(old(keys)@, texts(old(folders)@)),
    ensures
        texts(final(folders)@) == with_folder(texts(old(folders)@), f@),
        keys_hold(final(keys)@, texts(final(folders)@)),
{
    let ghost before = texts(folders@);
    let ghost keys_before = keys@;
    let (_, key): (usize, String) = path_key_of(f.as_str());
    proof {
        known_by_key(keys@, before, f@);
    }
    if !keys.contains(key.as_str()) {
        folders.push(f.clone());
        keys.insert(key);
        let ghost after = texts(folders@);
        assert(after =~= before.push(f@));
        proof {
            assert forall|k: Seq<char>| #[trigger] keys@.contains(k) implies exists|i: int|
                0 <= i < after.len() && paths::path_key(#[trigger] after[i]) == k by {
                if k == paths::path_key(f@) {
                    assert(paths::path_key(after[before.len() as int]) == k);
                } else {
                    assert(keys_before.contains(k));
                    let i = choose|i: int|
                        0 <= i < before.len() && paths::path_key(#[trigger] before[i]) == k;
                    assert(paths::path_key(after[i]) == k);
                }
            }
            assert forall|k: Seq<char>|
                (exists|i: int|
                    0 <= i < after.len() && paths::path_key(#[trigger] after[i]) == k) implies #[trigger] keys@.contains(k) by {
                let i = choose|i: int|
                    0 <= i < after.len() && paths::path_key(#[trigger] after[i]) == k;
                if i < before.len() {
                    assert(paths::path_key(before[i]) == k);
                    assert(keys_before.contains(k));
                }
            }
        }
    }
}

/// Collects the folders that hold the tracks.
pub fn collect_folders(tracks: &Vec<Track>) -> (r: Vec<String>)
    ensures
        texts(r@) == folders_of(tracks@),
{
    let mut folders: Vec<String> = Vec::new();
    let mut keys: StringHashSet = StringHashSet::new();
    let mut n: usize = 0;
    assert(texts(folders@) =~= Seq::<Seq<char>>::empty());
    assert(folders_of(tracks@.take(0)) =~= Seq::<Seq<char>>::empty());
    while n < tracks.len()
        invariant
            n <= tracks@.len(),
            texts(folders@) == folders_of(tracks@.take(n as int)),
            keys_hold(keys@, texts(folders@)),
        decreases tracks@.len() - n,
    {
        let ghost known = texts(folders@);
        let up: Vec<String> = ancestors_of(tracks[n].path.as_str());
        let mut k: usize = 0;
        assert(texts(up@).take(0) =~= Seq::<Seq<char>>::empty());
        while k < up.len()
            invariant
                k <= up@.len(),
                texts(folders@) == with_folders(known, texts(up@).take(k as int)),
                keys_hold(keys@, texts(folders@)),
            decreases up@.len() - k,
        {
            assert(texts(up@).take(k + 1).drop_last() =~= texts(up@).take(k as int));
            note_folder(&mut folders, &mut keys, &up[k]);
            k += 1;
        }
        assert(texts(up@).take(k as int) =~= paths::ancestors(tracks@[n as int].path@));
        assert(tracks@.take(n + 1).drop_last() =~= tracks@.take(n as int));
        n += 1;
    }
    assert(tracks@.take(n as int) =~= tracks@);
    folders
}

/// Whether all folders that hold `f` are expanded.
pub fn visible(f: &str, expanded: &ExpandedFolders) -> (r: bool)
    ensures
        r == is_visible(f@, expanded@),
{
    let up: Vec<String> = ancestors_of(f);
    assert(texts(up@) == paths::ancestors(f@));
    let mut k: usize = 0;
    while k < up.len()
        invariant
            k <= up@.len(),
            texts(up@) == paths::ancestors(f@),
            forall|i: int| 0 <= i < k ==> expanded@.contains(#[trigger] paths::ancestors(f@)[i]),
        decreases up@.len() - k,
    {
        assert(paths::ancestors(f@)[k as int] == up@[k as int]@);
        if !expanded.contains(up[k].as_str()) {
            return false;
        }
        k += 1;
    }
    true
}

/// `keys` holds the path keys of the folders that hold `folders` directly, and nothing else.
spec fn parent_keys_hold(keys: Set<Seq<char>>, folders: Seq<Seq<char>>) -> bool {
    forall|k: Seq<char>| #[trigger]
        keys.contains(k) <==> exists|i: int|
            0 <= i < folders.len() && (paths::parent(#[trigger] folders[i]) matches Some(q)
                && paths::path_key(q) == k)
}

proof fn holder_by_key(keys: Set<Seq<char>>, folders: Seq<Seq<char>>, f: Seq<char>)
    requires
        parent_keys_hold(keys, folders),
    ensures
        keys.contains(paths::path_key(f)) <==> holds_folder(folders, f),
{
    if keys.contains(paths::path_key(f)) {
        let i = choose|i: int|
            0 <= i < folders.len() && (paths::parent(#[trigger] folders[i]) matches Some(q)
                && paths::path_key(q) == paths::path_key(f));
        paths::path_key_identifies(paths::parent(folders[i])->0, f);
    }
    if holds_folder(folders, f) {
        let i = choose|i: int|
            0 <= i < folders.len() && (paths::parent(#[trigger] folders[i]) matches Some(q)
                && paths::same_path(q, f));
        paths::path_key_identifies(paths::parent(folders[i])->0, f);
    }
}

/// The path keys of the folders that hold the given ones directly.
fn parent_keys(folders: &Vec<String>) -> (keys: StringHashSet)
    ensures
        parent_keys_hold(keys@, texts(folders@)),
{
    let mut keys: StringHashSet = StringHashSet::new();
    let mut n: usize = 0;
    let ghost all = texts(folders@);
    while n < folders.len()
        invariant
            n <= folders@.len(),
            all == texts(folders@),
            parent_keys_hold(keys@, all.take(n as int)),
        decreases folders@.len() - n,
    {
        let ghost keys_before = keys@;
        let ghost before = all.take(n as int);
        let ghost after = all.take(n + 1);
        assert(after[n as int] == folders@[n as int]@);
        match parent_of(folders[n].as_str()) {
            Some(q) => {
                let (_, key): (usize, String) = path_key_of(q.as_str());
                keys.insert(key);
            },
            None => {},
        }
        proof {
            assert forall|k: Seq<char>| #[trigger] keys@.contains(k) implies exists|i: int|
                0 <= i < after.len() && (paths::parent(#[trigger] after[i]) matches Some(q)
                    && paths::path_key(q) == k) by {
                if keys_before.contains(k) {
                    let i = choose|i: int|
                        0 <= i < before.len() && (paths::parent(#[trigger] before[i]) matches Some(q)
                            && paths::path_key(q) == k);
                    assert(after[i] == before[i]);
                }
            }
            assert forall|k: Seq<char>|
                (exists|i: int|
                    0 <= i < after.len() && (paths::parent(#[trigger] after[i]) matches Some(q)
                        && paths::path_key(q) == k)) implies #[trigger] keys@.contains(k) by {
                let i = choose|i: int|
                    0 <= i < after.len() && (paths::parent(#[trigger] after[i]) matches Some(q)
                        && paths::path_key(q) == k);
                if i < n {
                    assert(before[i] == after[i]);
                    assert(keys_before.contains(k));
                }
            }
        }
        n += 1;
    }
    assert(all.take(n as int) =~= all);
    keys
}

/// Shows a folder among the others, given the path keys of the folders that hold one.
fn show(f: &String, holders: &StringHashSet, expanded: &ExpandedFolders, folders: Ghost<Seq<Seq<char>>>) -> (r: FolderItem)
    requires
        parent_keys_hold(holders@, folders@),
    ensures
        r@ == shown(f@, folders@, expanded@),
{
    let (count, key): (usize, String) = path_key_of(f.as_str());
    proof {
        holder_by_key(holders@, folders@, f@);
    }
    let indent: u128 = if count == 0 {
        0
    } else {
        INDENT * (count as u128 - 1)
    };
    FolderItem {
        path: f.clone(),
        name: shown_name_of(f.as_str()),
        indent,
        is_expanded: expanded.contains(f.as_str()),
        has_children: holders.contains(key.as_str()),
    }
}

/// Lists the folders that are shown, given the lowercase form of each path.
pub fn list_folders(
    folders: &Vec<String>,
    lowered: &Vec<String>,
    expanded: &ExpandedFolders,
) -> (r: Vec<FolderItem>)
    requires
        folders@.len() == lowered@.len(),
    ensures
        items(r@) == folder_list(texts(folders@), texts(lowered@), expanded@),
{
    let mut keys: Vec<Vec<i64>> = Vec::new();
    let mut n: usize = 0;
    let ghost text_keys = texts(lowered@).map_values(|s: Seq<char>| order::text_key(s));
    while n < lowered.len()
        invariant
            n <= lowered@.len(),
            text_keys == texts(lowered@).map_values(|s: Seq<char>| order::text_key(s)),
            order::keys_of(keys@) == text_keys.take(n as int),
            keys@.len() == n,
        decreases lowered@.len() - n,
    {
        keys.push(key_of_text(lowered[n].as_str()));
        n += 1;
        assert(order::keys_of(keys@) =~= text_keys.take(n as int));
    }
    assert(text_keys.take(n as int) =~= text_keys);
    let order: Vec<usize> = sort_stably(&keys, true);
    let holders: StringHashSet = parent_keys(folders);
    let ghost all = texts(folders@);
    let ghost listed = arranged(all, texts(lowered@));
    let mut out: Vec<FolderItem> = Vec::new();
    let mut k: usize = 0;
    proof {
        order::stable_order_is_the_only_one(text_keys, true);
        let sorted = order::stable_order(text_keys, true);
        assert(sorted == order@.map_values(|i: usize| i as int));
        assert forall|i: int| 0 <= i < order@.len() implies (#[trigger] order@[i]) < folders@.len()
            && listed[i] == folders@[order@[i] as int]@ by {
            assert(sorted[i] == order@[i]);
            assert(listed[i] == all[sorted[i]]);
        }
    }
    assert(items(out@) =~= Seq::<Shown>::empty());
    while k < order.len()
        invariant
            k <= order@.len(),
            all == texts(folders@),
            parent_keys_hold(holders@, all),
            listed.len() == order@.len(),
            forall|i: int|
                0 <= i < order@.len() ==> (#[trigger] order@[i]) < folders@.len() && listed[i]
                    == folders@[order@[i] as int]@,
            items(out@) == visible_ones(listed.take(k as int), all, expanded@),
        decreases order@.len() - k,
    {
        let f: &String = &folders[order[k]];
        assert(listed.take(k + 1).drop_last() =~= listed.take(k as int));
        assert(listed.take(k + 1).last() == f@);
        let ghost before = items(out@);
        if visible(f.as_str(), expanded) {
            let item: FolderItem = show(f, &holders, expanded, Ghost(all));
            out.push(item);
            assert(items(out@) =~= before.push(item@));
        }
        k += 1;
    }
    assert(listed.take(k as int) =~= listed);
    out
}

/// Lists the folders that hold tracks and whose own folders are all expanded.
pub fn extract_folders_hierarchical(
    tracks: &Vec<Track>,
    expanded: &ExpandedFolders,
) -> (r: Vec<FolderItem>)
    ensures
        items(r@) == folder_list(
            folders_of(tracks@),
            lowercase_all(folders_of(tracks@)),
            expanded@,
        ),
{
    let folders: Vec<String> = collect_folders(tracks);
    let mut lowered: Vec<String> = Vec::new();
    let mut n: usize = 0;
    let ghost goal = lowercase_all(texts(folders@));
    while n < folders.len()
        invariant
            n <= folders@.len(),
            goal == lowercase_all(texts(folders@)),
            texts(lowered@) == goal.take(n as int),
            lowered@.len() == n,
        decreases folders@.len() - n,
    {
        lowered.push(folders[n].as_str().to_lowercase());
        n += 1;
        assert(texts(lowered@) =~= goal.take(n as int));
    }
    assert(goal.take(n as int) =~= goal);
    list_folders(&folders, &lowered, expanded)
}

/// Toggling a folder twice changes nothing.
pub proof fn toggling_twice_changes_nothing(expanded: Set<Seq<char>>, path: Seq<char>)
    ensures
        toggled(toggled(expanded, path), path) == expanded,
{
    assert(toggled(toggled(expanded, path), path) =~= expanded);
}

/// The folders that hold the folder `k` steps above `p` are those that hold `p` from there on.
pub proof fn ancestors_of_an_ancestor(p: Seq<char>, k: int)
    requires
        0 <= k < paths::ancestors(p).len(),
    ensures
        paths::ancestors(paths::ancestors(p)[k]) == paths::ancestors(p).skip(k + 1),
    decreases p.len(),
{
    paths::parent_is_proper_prefix(p);
    let q = paths::parent(p)->0;
    assert(paths::ancestors(p) == seq![q] + paths::ancestors(q));
    if k == 0 {
        assert(paths::ancestors(p).skip(1) =~= paths::ancestors(q));
    } else {
        ancestors_of_an_ancestor(q, k - 1);
        assert(paths::ancestors(p)[k] == paths::ancestors(q)[k - 1]);
        assert(paths::ancestors(p).skip(k + 1) =~= paths::ancestors(q).skip(k));
    }
}

/// No two of the folders are spellings of the same path.
pub open spec fn are_distinct(folders: Seq<Seq<char>>) -> bool {
    forall|i: int, j: int|
        0 <= i < j < folders.len() ==> !paths::same_path(#[trigger] folders[i], #[trigger] folders[j])
}

proof fn with_folders_facts(known: Seq<Seq<char>>, more: Seq<Seq<char>>)
    requires
        are_distinct(known),
    ensures
        are_distinct(with_folders(known, more)),
        known.len() <= with_folders(known, more).len(),
        known == with_folders(known, more).take(known.len() as int),
        forall|k: int| 0 <= k < more.len() ==> is_known(with_folders(known, more), #[trigger] more[k]),
        forall|i: int|
            known.len() <= i < with_folders(known, more).len() ==> more.contains(
                #[trigger] with_folders(known, more)[i],
            ),
    decreases more.len(),
{
    if more.len() == 0 {
        assert(known =~= known.take(known.len() as int));
    } else {
        let before = with_folders(known, more.drop_last());
        let after = with_folders(known, more);
        with_folders_facts(known, more.drop_last());
        assert(after.take(known.len() as int) =~= before.take(known.len() as int));
        assert forall|k: int| 0 <= k < more.len() implies is_known(after, #[trigger] more[k]) by {
            if k < more.len() - 1 {
                assert(is_known(before, more.drop_last()[k]));
                let i = choose|i: int|
                    0 <= i < before.len() && paths::same_path(#[trigger] before[i], more[k]);
                assert(paths::same_path(after[i], more[k]));
            } else if !is_known(before, more[k]) {
                assert(paths::same_path(after[before.len() as int], more[k]));
            }
        }
        assert forall|i: int| known.len() <= i < after.len() implies more.contains(
            #[trigger] after[i],
        ) by {
            if i < before.len() {
                assert(more.drop_last().contains(before[i]));
                let m = choose|m: int| 0 <= m < more.len() - 1 && more.drop_last()[m] == before[i];
                assert(more[m] == after[i]);
            } else {
                assert(more[more.len() - 1] == after[i]);
            }
        }
    }
}

/// The folders of a library are those that hold its tracks: no path occurs twice, each folder that
/// holds a track, directly or not, is there, and nothing else is.
pub proof fn folders_are_those_that_hold_tracks(tracks: Seq<Track>)
    ensures
        are_distinct(folders_of(tracks)),
        forall|n: int, k: int|
            0 <= n < tracks.len() && 0 <= k < paths::ancestors(tracks[n].path@).len() ==> is_known(
                folders_of(tracks),
                #[trigger] paths::ancestors(tracks[n].path@)[k],
            ),
        forall|i: int|
            0 <= i < folders_of(tracks).len() ==> exists|n: int|
                0 <= n < tracks.len() && paths::ancestors((#[trigger] tracks[n]).path@).contains(
                    #[trigger] folders_of(tracks)[i],
                ),
    decreases tracks.len(),
{
    if tracks.len() > 0 {
        let before = folders_of(tracks.drop_last());
        let after = folders_of(tracks);
        let more = paths::ancestors(tracks.last().path@);
        folders_are_those_that_hold_tracks(tracks.drop_last());
        with_folders_facts(before, more);
        assert forall|n: int, k: int|
            0 <= n < tracks.len() && 0 <= k < paths::ancestors(
                tracks[n].path@,
            ).len() implies is_known(after, #[trigger] paths::ancestors(tracks[n].path@)[k]) by {
            if n < tracks.len() - 1 {
                let f = paths::ancestors(tracks.drop_last()[n].path@)[k];
                assert(is_known(before, f));
                let i = choose|i: int|
                    0 <= i < before.len() && paths::same_path(#[trigger] before[i], f);
                assert(after[i] == after.take(before.len() as int)[i]);
            }
        }
        assert forall|i: int| 0 <= i < after.len() implies exists|n: int|
            0 <= n < tracks.len() && paths::ancestors((#[trigger] tracks[n]).path@).contains(
                #[trigger] after[i],
            ) by {
            if i < before.len() {
                assert(after[i] == after.take(before.len() as int)[i]);
                assert(before[i] == after[i]);
                let n = choose|n: int|
                    0 <= n < tracks.drop_last().len() && paths::ancestors(
                        (#[trigger] tracks.drop_last()[n]).path@,
                    ).contains(before[i]);
                assert(tracks[n] == tracks.drop_last()[n]);
            } else {
                assert(tracks[tracks.len() - 1] == tracks.last());
            }
        }
    }
}

/// A folder of a library is one of those that hold some track.
proof fn folder_holds_a_track(tracks: Seq<Track>, i: int) -> (at: (int, int))
    requires
        0 <= i < folders_of(tracks).len(),
    ensures
        0 <= at.0 < tracks.len(),
        0 <= at.1 < paths::ancestors(tracks[at.0].path@).len(),
        paths::ancestors(tracks[at.0].path@)[at.1] == folders_of(tracks)[i],
{
    let f = folders_of(tracks)[i];
    folders_are_those_that_hold_tracks(tracks);
    let n = choose|n: int|
        0 <= n < tracks.len() && paths::ancestors((#[trigger] tracks[n]).path@).contains(f);
    let up = paths::ancestors(tracks[n].path@);
    let m = choose|m: int| 0 <= m < up.len() && up[m] == f;
    (n, m)
}

/// The folders of a library form a tree: what holds one of them is one of them.
#[verifier::spinoff_prover]
pub proof fn folders_form_a_tree(tracks: Seq<Track>, i: int, k: int)
    requires
        0 <= i < folders_of(tracks).len(),
        0 <= k < paths::ancestors(folders_of(tracks)[i]).len(),
    ensures
        is_known(folders_of(tracks), paths::ancestors(folders_of(tracks)[i])[k]),
{
    let f = folders_of(tracks)[i];
    let (n, m) = folder_holds_a_track(tracks, i);
    let path = tracks[n].path@;
    ancestors_of_an_ancestor(path, m);
    assert(paths::ancestors(f)[k] == paths::ancestors(path)[m + 1 + k]);
    folder_above_is_known(tracks, n, m + 1 + k);
}

proof fn folder_above_is_known(tracks: Seq<Track>, n: int, k: int)
    requires
        0 <= n < tracks.len(),
        0 <= k < paths::ancestors(tracks[n].path@).len(),
    ensures
        is_known(folders_of(tracks), paths::ancestors(tracks[n].path@)[k]),
{
    folders_are_those_that_hold_tracks(tracks);
}

/// What holds a visible folder is expanded and visible itself.
pub proof fn what_holds_a_visible_folder_is_visible(f: Seq<char>, expanded: Set<Seq<char>>, k: int)
    requires
        is_visible(f, expanded),
        0 <= k < paths::ancestors(f).len(),
    ensures
        expanded.contains(paths::ancestors(f)[k]),
        is_visible(paths::ancestors(f)[k], expanded),
{
    ancestors_of_an_ancestor(f, k);
    let a = paths::ancestors(f)[k];
    assert forall|i: int| 0 <= i < paths::ancestors(a).len() implies expanded.contains(
        #[trigger] paths::ancestors(a)[i],
    ) by {
        assert(paths::ancestors(a)[i] == paths::ancestors(f)[k + 1 + i]);
    }
}

/// Where nothing is expanded, the visible folders are those that no other folder holds; expanding
/// more hides none.
pub proof fn expanding_shows_more(f: Seq<char>, fewer: Set<Seq<char>>, more: Set<Seq<char>>)
    ensures
        is_visible(f, Set::empty()) <==> paths::ancestors(f).len() == 0,
        is_visible(f, fewer) && fewer.subset_of(more) ==> is_visible(f, more),
{
    if paths::ancestors(f).len() > 0 {
        assert(!Set::<Seq<char>>::empty().contains(paths::ancestors(f)[0]));
    }
}

/// Each item comes from a visible folder, in the order of the folders.
proof fn visible_ones_come_in_order(
    listed: Seq<Seq<char>>,
    folders: Seq<Seq<char>>,
    expanded: Set<Seq<char>>,
) -> (from: Seq<int>)
    ensures
        from.len() == visible_ones(listed, folders, expanded).len(),
        forall|i: int|
            0 <= i < from.len() ==> {
                &&& 0 <= #[trigger] from[i] < listed.len()
                &&& is_visible(listed[from[i]], expanded)
                &&& visible_ones(listed, folders, expanded)[i] == shown(
                    listed[from[i]],
                    folders,
                    expanded,
                )
            },
        forall|i: int, j: int| 0 <= i < j < from.len() ==> from[i] < from[j],
        forall|a: int|
            0 <= a < listed.len() && is_visible(#[trigger] listed[a], expanded) ==> from.contains(a),
    decreases listed.len(),
{
    if listed.len() == 0 {
        Seq::empty()
    } else {
        let rest = visible_ones_come_in_order(listed.drop_last(), folders, expanded);
        let last = listed.len() - 1;
        assert forall|a: int|
            0 <= a < last && is_visible(#[trigger] listed[a], expanded) implies rest.contains(a) by {
            assert(listed.drop_last()[a] == listed[a]);
        }
        assert forall|i: int| 0 <= i < rest.len() implies listed[#[trigger] rest[i]]
            == listed.drop_last()[rest[i]] by {}
        if is_visible(listed.last(), expanded) {
            let from = rest.push(last);
            assert forall|a: int|
                0 <= a < listed.len() && is_visible(
                    #[trigger] listed[a],
                    expanded,
                ) implies from.contains(a) by {
                if a < last {
                    let m = choose|m: int| 0 <= m < rest.len() && rest[m] == a;
                    assert(from[m] == a);
                } else {
                    assert(from[rest.len() as int] == a);
                }
            }
            from
        } else {
            rest
        }
    }
}

/// The list shows each visible folder once and no other, and is ordered by the lowercase forms:
/// there is a numbering of its items by positions of folders.
pub proof fn the_list_shows_the_visible_folders(
    folders: Seq<Seq<char>>,
    lowered: Seq<Seq<char>>,
    expanded: Set<Seq<char>>,
) -> (from: Seq<int>)
    requires
        folders.len() == lowered.len(),
    ensures
        from.len() == folder_list(folders, lowered, expanded).len(),
        from.no_duplicates(),
        forall|i: int|
            0 <= i < from.len() ==> {
                &&& 0 <= #[trigger] from[i] < folders.len()
                &&& is_visible(folders[from[i]], expanded)
                &&& folder_list(folders, lowered, expanded)[i] == shown(
                    folders[from[i]],
                    folders,
                    expanded,
                )
            },
        forall|a: int|
            0 <= a < folders.len() && is_visible(#[trigger] folders[a], expanded) ==> from.contains(
                a,
            ),
        forall|i: int, j: int|
            0 <= i < j < from.len() ==> !order::lex_less(
                order::text_key(#[trigger] lowered[from[j]]),
                order::text_key(#[trigger] lowered[from[i]]),
            ),
{
    let keys = lowered.map_values(|s: Seq<char>| order::text_key(s));
    let sorted = order::stable_order(keys, true);
    let listed = arranged(folders, lowered);
    order::stable_order_is_the_only_one(keys, true);
    assert(order::is_stable_order(keys, true, sorted));
    let picked = visible_ones_come_in_order(listed, folders, expanded);
    let from = picked.map_values(|i: int| sorted[i]);
    assert forall|i: int| 0 <= i < from.len() implies {
        &&& 0 <= #[trigger] from[i] < folders.len()
        &&& is_visible(folders[from[i]], expanded)
        &&& folder_list(folders, lowered, expanded)[i] == shown(folders[from[i]], folders, expanded)
    } by {
        assert(listed[picked[i]] == folders[sorted[picked[i]]]);
    }
    assert forall|i: int, j: int| 0 <= i < j < from.len() implies from[i] != from[j]
        && !order::lex_less(
        order::text_key(#[trigger] lowered[from[j]]),
        order::text_key(#[trigger] lowered[from[i]]),
    ) by {
        assert(picked[i] < picked[j]);
        assert(order::precedes(keys, true, sorted[picked[i]], sorted[picked[j]]));
        order::precedes_asymmetric(keys, true, from[i], from[j]);
    }
    assert forall|i: int, j: int|
        0 <= i < from.len() && 0 <= j < from.len() && i != j implies from[i] != from[j] by {
        let (a, b) = if i < j {
            (i, j)
        } else {
            (j, i)
        };
        assert(order::text_key(lowered[from[b]]) == order::text_key(lowered[from[b]]));
        assert(order::text_key(lowered[from[a]]) == order::text_key(lowered[from[a]]));
    }
    assert forall|a: int|
        0 <= a < folders.len() && is_visible(
            #[trigger] folders[a],
            expanded,
        ) implies from.contains(a) by {
        assert(sorted.contains(a));
        let m = choose|m: int| 0 <= m < sorted.len() && sorted[m] == a;
        assert(listed[m] == folders[a]);
        let i = choose|i: int| 0 <= i < picked.len() && picked[i] == m;
        assert(from[i] == a);
    }
    from
}

/// A text comes before every longer one that begins with it.
proof fn a_beginning_comes_first(a: Seq<char>, b: Seq<char>)
    requires
        a.is_prefix_of(b),
        a.len() < b.len(),
    ensures
        order::lex_less(order::text_key(a), order::text_key(b)),
    decreases a.len(),
{
    let x = order::text_key(a);
    let y = order::text_key(b);
    if a.len() > 0 {
        assert(a[0] == b[0]) by {
            assert(a == b.take(a.len() as int));
        }
        assert(a.drop_first() =~= b.drop_first().take(a.len() - 1)) by {
            assert(a == b.take(a.len() as int));
        }
        a_beginning_comes_first(a.drop_first(), b.drop_first());
        assert(x.drop_first() =~= order::text_key(a.drop_first()));
        assert(y.drop_first() =~= order::text_key(b.drop_first()));
    }
}

/// The lowercase form of each folder is a proper beginning of those of the folders directly in it.
pub open spec fn forms_are_nested(folders: Seq<Seq<char>>, lowered: Seq<Seq<char>>) -> bool {
    forall|i: int, j: int|
        0 <= i < folders.len() && 0 <= j < folders.len() && paths::parent(#[trigger] folders[j])
            == Some(#[trigger] folders[i]) ==> lowered[i].is_prefix_of(lowered[j])
            && lowered[i].len() < lowered[j].len()
}

/// The item at `i` shows the folder that directly holds the one at `j`, and stands before it.
pub open spec fn holder_stands_before(list: Seq<Shown>, i: int, j: int) -> bool {
    &&& 0 <= i < j < list.len()
    &&& paths::parent(list[j].path) == Some(list[i].path)
    &&& list[i].is_expanded
    &&& list[i].has_children
    &&& list[j].indent == list[i].indent + INDENT
}

/// A listed folder comes after the one that directly holds it, where that is one of the folders:
/// some earlier item shows it, expanded and with children, one indent further to the left.
pub proof fn a_listed_folder_comes_after_its_holder(
    folders: Seq<Seq<char>>,
    lowered: Seq<Seq<char>>,
    expanded: Set<Seq<char>>,
    j: int,
) -> (i: int)
    requires
        folders.len() == lowered.len(),
        forms_are_nested(folders, lowered),
        0 <= j < folder_list(folders, lowered, expanded).len(),
        ({
            let up = paths::ancestors(folder_list(folders, lowered, expanded)[j].path);
            up.len() > 0 && folders.contains(up[0])
        }),
    ensures
        holder_stands_before(folder_list(folders, lowered, expanded), i, j),
{
    let list = folder_list(folders, lowered, expanded);
    let from = the_list_shows_the_visible_folders(folders, lowered, expanded);
    let b = from[j];
    let f = folders[b];
    assert(list[j] == shown(f, folders, expanded));
    let q = paths::ancestors(f)[0];
    assert(paths::parent(f) == Some(q));
    let a = choose|a: int| 0 <= a < folders.len() && folders[a] == q;
    what_holds_a_visible_folder_is_visible(f, expanded, 0);
    assert(is_visible(folders[a], expanded));
    assert(from.contains(a));
    let i = choose|i: int| 0 <= i < from.len() && from[i] == a;
    assert(list[i] == shown(q, folders, expanded));
    paths::parent_is_proper_prefix(f);
    assert(lowered[a].is_prefix_of(lowered[b]) && lowered[a].len() < lowered[b].len());
    a_beginning_comes_first(lowered[a], lowered[b]);
    if j < i {
        assert(!order::lex_less(
            order::text_key(lowered[from[i]]),
            order::text_key(lowered[from[j]]),
        ));
    }
    assert(i != j);
    assert(holds_folder(folders, q)) by {
        assert(paths::parent(folders[b]) matches Some(p) && paths::same_path(p, q));
    }
    paths::parent_drops_last_component(f);
    paths::parent_drops_last_component(q);
    i
}

/// The lowercase forms of the folders of a library are nested as the folders are.
pub proof fn lowercase_folders_are_nested(tracks: Seq<Track>)
    ensures
        forms_are_nested(folders_of(tracks), lowercase_all(folders_of(tracks))),
{
    let folders = folders_of(tracks);
    let lowered = lowercase_all(folders);
    assert forall|i: int, j: int|
        0 <= i < folders.len() && 0 <= j < folders.len() && paths::parent(#[trigger] folders[j])
            == Some(#[trigger] folders[i]) implies lowered[i].is_prefix_of(lowered[j])
        && lowered[i].len() < lowered[j].len() by {
        let f = folders[j];
        let q = folders[i];
        folder_has_a_parent(tracks, i);
        paths::parent_is_proper_prefix(f);
        paths::a_separator_follows_the_parent(f);
        text::lowercase_is_parted_by_slashes(f, q.len() as int);
        assert(f.take(q.len() as int) == q);
        assert(lowered[i] =~= lowered[j].take(lowered[i].len() as int));
    }
}

proof fn folder_has_a_parent(tracks: Seq<Track>, i: int)
    requires
        0 <= i < folders_of(tracks).len(),
    ensures
        paths::parent(folders_of(tracks)[i]) is Some,
{
    let (n, m) = folder_holds_a_track(tracks, i);
    ancestor_has_a_parent(tracks[n].path@, m);
}

proof fn ancestor_has_a_parent(p: Seq<char>, k: int)
    requires
        0 <= k < paths::ancestors(p).len(),
    ensures
        paths::parent(paths::ancestors(p)[k]) is Some,
    decreases p.len(),
{
    paths::parent_is_proper_prefix(p);
    let q = paths::parent(p)->0;
    assert(paths::ancestors(p) == seq![q] + paths::ancestors(q));
    if k > 0 {
        ancestor_has_a_parent(q, k - 1);
    }
}

/// In a library whose paths are spelled plainly, each listed folder that another one holds comes
/// after the one that directly holds it: that one is shown by an earlier item, expanded and with
/// children, one indent further to the left.
pub proof fn folders_come_after_their_holders(
    tracks: Seq<Track>,
    expanded: Set<Seq<char>>,
    j: int,
) -> (i: int)
    requires
        forall|n: int| 0 <= n < tracks.len() ==> paths::is_plain((#[trigger] tracks[n]).path@),
        0 <= j < folder_list(
            folders_of(tracks),
            lowercase_all(folders_of(tracks)),
            expanded,
        ).len(),
        paths::ancestors(
            folder_list(folders_of(tracks), lowercase_all(folders_of(tracks)), expanded)[j].path,
        ).len() > 0,
    ensures
        holder_stands_before(
            folder_list(folders_of(tracks), lowercase_all(folders_of(tracks)), expanded),
            i,
            j,
        ),
{
    let folders = folders_of(tracks);
    let lowered = lowercase_all(folders);
    let from = the_list_shows_the_visible_folders(folders, lowered, expanded);
    let f = folders[from[j]];
    assert(folder_list(folders, lowered, expanded)[j] == shown(f, folders, expanded));
    let q = paths::ancestors(f)[0];
    lowercase_folders_are_nested(tracks);
    folders_form_a_tree(tracks, from[j], 0);
    folder_is_plain(tracks, from[j]);
    paths::ancestors_are_plain(f, 0);
    let a = choose|a: int| 0 <= a < folders.len() && paths::same_path(#[trigger] folders[a], q);
    folder_is_plain(tracks, a);
    paths::plain_spellings_are_unique(folders[a], q);
    assert(folders.contains(q));
    a_listed_folder_comes_after_its_holder(folders, lowered, expanded, j)
}

proof fn folder_is_plain(tracks: Seq<Track>, i: int)
    requires
        forall|n: int| 0 <= n < tracks.len() ==> paths::is_plain((#[trigger] tracks[n]).path@),
        0 <= i < folders_of(tracks).len(),
    ensures
        paths::is_plain(folders_of(tracks)[i]),
{
    let (n, m) = folder_holds_a_track(tracks, i);
    assert(paths::is_plain(tracks[n].path@));
    paths::ancestors_are_plain(tracks[n].path@, m);
}

/// The list of folders that is shown for a library.
pub open spec fn shown_list(tracks: Seq<Track>, expanded: Set<Seq<char>>) -> Seq<Shown> {
    folder_list(folders_of(tracks), lowercase_all(folders_of(tracks)), expanded)
}

/// Each folder that holds a track is among the folders of the library, in some spelling, and each of
/// these holds a track; no two of them are the same path.
pub proof fn the_folders_are_those_of_the_tracks(tracks: Seq<Track>, n: int, k: int, i: int)
    ensures
        0 <= n < tracks.len() && 0 <= k < paths::ancestors(tracks[n].path@).len() ==> exists|m: int|
            0 <= m < folders_of(tracks).len() && paths::components(#[trigger] folders_of(tracks)[m])
                == paths::components(paths::ancestors(tracks[n].path@)[k]),
        0 <= i < folders_of(tracks).len() ==> exists|m: int|
            0 <= m < tracks.len() && paths::ancestors((#[trigger] tracks[m]).path@).contains(
                folders_of(tracks)[i],
            ),
        0 <= i < k < folders_of(tracks).len() ==> paths::components(folders_of(tracks)[i])
            != paths::components(folders_of(tracks)[k]),
{
    let folders = folders_of(tracks);
    folders_are_those_that_hold_tracks(tracks);
    if 0 <= n < tracks.len() && 0 <= k < paths::ancestors(tracks[n].path@).len() {
        folder_above_is_known(tracks, n, k);
        let f = paths::ancestors(tracks[n].path@)[k];
        let m = choose|m: int| 0 <= m < folders.len() && paths::same_path(#[trigger] folders[m], f);
        assert(paths::components(folders[m]) == paths::components(f));
    }
    if 0 <= i < folders.len() {
        let (m, at) = folder_holds_a_track(tracks, i);
        assert(paths::ancestors(tracks[m].path@).contains(folders[i]));
    }
    if 0 <= i < k < folders.len() {
        assert(!paths::same_path(folders[i], folders[k]));
    }
}

/// A folder of the library is listed exactly if all folders above it are expanded: nothing that the
/// user could see is missing, and nothing that is folded away is shown.
pub proof fn a_folder_is_listed_if_all_above_it_are_expanded(
    tracks: Seq<Track>,
    expanded: Set<Seq<char>>,
    m: int,
)
    requires
        0 <= m < folders_of(tracks).len(),
    ensures
        (exists|i: int|
            0 <= i < shown_list(tracks, expanded).len() && (#[trigger] shown_list(
                tracks,
                expanded,
            )[i]).path == folders_of(tracks)[m]) <==> (forall|k: int|
            0 <= k < paths::ancestors(folders_of(tracks)[m]).len() ==> expanded.contains(
                #[trigger] paths::ancestors(folders_of(tracks)[m])[k],
            )),
{
    let folders = folders_of(tracks);
    let lowered = lowercase_all(folders);
    let list = shown_list(tracks, expanded);
    let f = folders[m];
    let from = the_list_shows_the_visible_folders(folders, lowered, expanded);
    if exists|i: int| 0 <= i < list.len() && (#[trigger] list[i]).path == f {
        let i = choose|i: int| 0 <= i < list.len() && (#[trigger] list[i]).path == f;
        assert(is_visible(folders[from[i]], expanded));
        assert(list[i] == shown(folders[from[i]], folders, expanded));
        assert(is_visible(f, expanded));
    }
    if is_visible(f, expanded) {
        assert(from.contains(m));
        let i = choose|i: int| 0 <= i < from.len() && from[i] == m;
        assert(list[i] == shown(folders[from[i]], folders, expanded));
        assert(list[i].path == f);
    }
}

/// What an item of the list says of its folder: it is one of the folders of the library; its name is
/// the last component of its path, or the path where that is two dots; it stands fifteen to the right
/// for each component but the first; it is expanded if the user expanded it; and it has children if
/// the library has a folder directly in it.
pub proof fn items_tell_of_their_folders(
    tracks: Seq<Track>,
    expanded: Set<Seq<char>>,
    i: int,
)
    requires
        0 <= i < shown_list(tracks, expanded).len(),
    ensures
        ({
            let item = shown_list(tracks, expanded)[i];
            let f = item.path;
            let cs = paths::components(f);
            let n = f.len() - item.name.len();
            &&& folders_of(tracks).contains(f)
            &&& cs.len() > 0
            &&& cs.last() == seq!['.', '.'] ==> item.name == f
            &&& cs.last() != seq!['.', '.'] ==> {
                &&& item.name == cs.last()
                &&& item.name.len() > 0
                &&& !item.name.contains('/')
                &&& n >= 0
                &&& f.skip(n) == item.name
                &&& n > 0 ==> f[n - 1] == '/'
            }
            &&& item.indent == 15 * (cs.len() - 1)
            &&& item.is_expanded <==> expanded.contains(f)
            &&& item.has_children <==> exists|m: int|
                0 <= m < folders_of(tracks).len() && (paths::parent(
                    #[trigger] folders_of(tracks)[m],
                ) matches Some(q) && paths::components(q) == cs)
        }),
{
    let folders = folders_of(tracks);
    let from = the_list_shows_the_visible_folders(folders, lowercase_all(folders), expanded);
    let item = shown_list(tracks, expanded)[i];
    let f = folders[from[i]];
    assert(item == shown(f, folders, expanded));
    let (n, k) = folder_holds_a_track(tracks, from[i]);
    paths::folders_are_shown_by_their_last_component(tracks[n].path@, k);
    if holds_folder(folders, f) {
        let m = choose|m: int|
            0 <= m < folders.len() && (paths::parent(#[trigger] folders[m]) matches Some(q)
                && paths::same_path(q, f));
        assert(paths::parent(folders[m]) matches Some(q) && paths::components(q)
            == paths::components(f));
    }
    if exists|m: int|
        0 <= m < folders.len() && (paths::parent(#[trigger] folders[m]) matches Some(q)
            && paths::components(q) == paths::components(f)) {
        let m = choose|m: int|
            0 <= m < folders.len() && (paths::parent(#[trigger] folders[m]) matches Some(q)
                && paths::components(q) == paths::components(f));
        assert(paths::parent(folders[m]) matches Some(q) && paths::same_path(q, f));
    }
}

/// The list shows no path twice, and is ordered by the lowercase paths.
pub proof fn the_list_is_ordered_by_lowercase_paths(
    tracks: Seq<Track>,
    expanded: Set<Seq<char>>,
    i: int,
    j: int,
)
    requires
        0 <= i < j < shown_list(tracks, expanded).len(),
    ensures
        ({
            let (a, b) = (shown_list(tracks, expanded)[i], shown_list(tracks, expanded)[j]);
            &&& paths::components(a.path) != paths::components(b.path)
            &&& !order::comes_before(text::lowercase(b.path), text::lowercase(a.path))
        }),
{
    let folders = folders_of(tracks);
    let lowered = lowercase_all(folders);
    let list = shown_list(tracks, expanded);
    let from = the_list_shows_the_visible_folders(folders, lowered, expanded);
    folders_are_those_that_hold_tracks(tracks);
    let (a, b) = (from[i], from[j]);
    assert(a != b);
    assert(list[i] == shown(folders[a], folders, expanded));
    assert(list[j] == shown(folders[b], folders, expanded));
    if a < b {
        assert(!paths::same_path(folders[a], folders[b]));
    } else {
        assert(!paths::same_path(folders[b], folders[a]));
    }
    assert(!order::lex_less(order::text_key(lowered[b]), order::text_key(lowered[a])));
    order::text_keys_order_as_texts(lowered[b], lowered[a]);
}

/// Toggling a folder changes whether it is expanded, and nothing else.
pub proof fn toggling_changes_one_folder(
    expanded: Set<Seq<char>>,
    path: Seq<char>,
    other: Seq<char>,
)
    ensures
        toggled(expanded, path).contains(path) <==> !expanded.contains(path),
        other != path ==> (toggled(expanded, path).contains(other) <==> expanded.contains(other)),
{
}

/// A further track adds its folders behind those that are there, and leaves these as they are
/// spelled.
pub proof fn known_folders_keep_their_spelling(tracks: Seq<Track>, t: Track)
    ensures
        folders_of(tracks).is_prefix_of(folders_of(tracks.push(t))),
        folders_of(Seq::<Track>::empty()).len() == 0,
{
    folders_are_those_that_hold_tracks(tracks);
    assert(tracks.push(t).drop_last() =~= tracks);
    with_folders_facts(folders_of(tracks), paths::ancestors(t.path@));
}

} // verus!
