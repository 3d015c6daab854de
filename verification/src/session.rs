//! What the user has chosen to see, and how each choice changes it.

use crate::database::Track;
use crate::folders;
use crate::folders::{extract_folders_hierarchical, ExpandedFolders, FolderItem};
use crate::listing;
use crate::listing::{try_filtered_tracks, TrackRow};
use crate::paths;
use crate::paths::parent_of;
use crate::text::same_text;
use vstd::prelude::*;
use vstd::string::*;

verus! {

/// What the user sees of the library: all its tracks, the folders that are expanded, and which
/// tracks are listed in which order.
pub struct UiState {
    pub expanded_folders: ExpandedFolders,
    pub search_query: String,
    pub selected_folder: String,
    pub all_tracks: Vec<Track>,
    pub sort_column: String,
    pub sort_asc: bool,
}

/// The column and the direction of the list after a column was clicked: the column that orders the
/// list already changes the direction, another one orders upwards.
pub open spec fn sort_after(column: Seq<char>, ascending: bool, clicked: Seq<char>) -> (
    Seq<char>,
    bool,
) {
    if clicked == column {
        (column, !ascending)
    } else {
        (clicked, true)
    }
}

/// Clicking a column twice leaves the list ordered by it, in the direction opposite to that after
/// the first click; if the list was ordered by it before, nothing has changed.
pub proof fn clicking_twice_restores_the_direction(
    column: Seq<char>,
    ascending: bool,
    clicked: Seq<char>,
)
    ensures
        ({
            let (c1, a1) = sort_after(column, ascending, clicked);
            let (c2, a2) = sort_after(c1, a1, clicked);
            &&& c1 == clicked && c2 == clicked
            &&& a2 == !a1
            &&& clicked == column ==> a2 == ascending
            &&& clicked != column ==> a1
        }),
{
}

impl UiState {
    /// A library as it is first seen: nothing is expanded, no folder is selected, nothing is searched
    /// for, and the list is ordered by name, upwards.
    pub fn new(tracks: Vec<Track>) -> (r: Self)
        ensures
            r.expanded_folders@ == Set::<Seq<char>>::empty(),
            r.search_query@ == Seq::<char>::empty(),
            r.selected_folder@ == Seq::<char>::empty(),
            r.all_tracks == tracks,
            r.sort_column@ == "name"@,
            r.sort_asc,
    {
        UiState {
            expanded_folders: ExpandedFolders::new(),
            search_query: String::new(),
            selected_folder: String::new(),
            all_tracks: tracks,
            sort_column: "name".to_owned(),
            sort_asc: true,
        }
    }

    /// Replaces the tracks, after a scan.
    pub fn replace_tracks(&mut self, tracks: Vec<Track>)
        ensures
            *final(self) == (UiState { all_tracks: tracks, ..*old(self) }),
    {
        self.all_tracks = tracks;
    }

    /// Lists only the tracks of a folder.
    pub fn select_folder(&mut self, path: &str)
        ensures
            final(self).selected_folder@ == path@,
            *final(self) == (UiState {
                selected_folder: final(self).selected_folder,
                ..*old(self)
            }),
    {
        self.selected_folder = path.to_owned();
    }

    /// Expands or collapses a folder.
    pub fn toggle_folder(&mut self, path: &str)
        ensures
            final(self).expanded_folders@ == folders::toggled(old(self).expanded_folders@, path@),
            *final(self) == (UiState {
                expanded_folders: final(self).expanded_folders,
                ..*old(self)
            }),
    {
        self.expanded_folders.toggle(path);
    }

    /// Lists only the tracks that a query finds.
    pub fn search_tracks(&mut self, query: &str)
        ensures
            final(self).search_query@ == query@,
            *final(self) == (UiState { search_query: final(self).search_query, ..*old(self) }),
    {
        self.search_query = query.to_owned();
    }

    /// Orders the list by a column, or changes the direction if it is ordered by that column already.
    pub fn sort_tracks(&mut self, column: &str)
        ensures
            (final(self).sort_column@, final(self).sort_asc) == sort_after(
                old(self).sort_column@,
                old(self).sort_asc,
                column@,
            ),
            *final(self) == (UiState {
                sort_column: final(self).sort_column,
                sort_asc: final(self).sort_asc,
                ..*old(self)
            }),
    {
        if same_text(self.sort_column.as_str(), column) {
            self.sort_asc = !self.sort_asc;
        } else {
            self.sort_column = column.to_owned();
            self.sort_asc = true;
        }
    }

    /// The folders that are shown.
    pub fn folders(&self) -> (r: Vec<FolderItem>)
        ensures
            folders::items(r@) == folders::folder_list(
                folders::folders_of(self.all_tracks@),
                folders::lowercase_all(folders::folders_of(self.all_tracks@)),
                self.expanded_folders@,
            ),
    {
        extract_folders_hierarchical(&self.all_tracks, &self.expanded_folders)
    }

    /// The positions of the tracks that are listed, in order.
    pub open spec fn listed(&self) -> Seq<int> {
        listing::filtered(
            self.all_tracks@,
            self.selected_folder@,
            self.search_query@,
            self.sort_column@,
            self.sort_asc,
        )
    }

    /// The tracks that are listed, if they all can be shown.
    pub fn tracks(&self) -> (r: Option<Vec<TrackRow>>)
        ensures
            match r {
                Some(rows) => listing::can_be_listed(self.all_tracks@, self.listed())
                    && listing::rows_show(rows@, self.all_tracks@, self.listed()),
                None => !listing::can_be_listed(self.all_tracks@, self.listed()),
            },
    {
        try_filtered_tracks(
            &self.all_tracks,
            self.selected_folder.as_str(),
            self.search_query.as_str(),
            self.sort_column.as_str(),
            self.sort_asc,
        )
    }
}

/// The path that a file manager opens: the folder of a file, if it has one, and anything else itself.
pub fn file_manager_target(path: &str, is_file: bool) -> (r: String)
    ensures
        r@ == match paths::parent(path@) {
            Some(folder) => if is_file {
                folder
            } else {
                path@
            },
            None => path@,
        },
{
    if is_file {
        match parent_of(path) {
            Some(folder) => folder,
            None => path.to_owned(),
        }
    } else {
        path.to_owned()
    }
}

} // verus!
