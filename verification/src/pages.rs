//! Which page the window returns to, and what the back action does.
//!
//! Pages share one retained repository: leaving the settings or the project
//! hub never rebuilds the workspace, so returning only has to pick the page.
use vstd::prelude::*;
use crate::paths::{paths_equal, same_path};
use crate::project_library::copy_bytes;

verus! {

/// The pages of the window.
#[derive(Clone, Copy, Debug, PartialEq, Eq, Structural)]
pub enum AppPage {
    Repository,
    Projects,
    Settings,
}

/// What the repository page is showing.
#[derive(Clone, Copy, Debug, PartialEq, Eq, Structural)]
pub enum WorkspaceMode {
    History,
    Compare,
    Working,
}

/// The part of the window's state that the back action reads.
#[derive(Clone, Copy, Debug, PartialEq, Eq, Structural)]
pub struct Workspace {
    pub page: AppPage,
    /// The page that opened the current one.
    pub origin: AppPage,
    /// Whether a repository is open.
    pub repository: bool,
    pub mode: WorkspaceMode,
    pub blame_visible: bool,
    pub file_history_active: bool,
    pub inspection_active: bool,
}

/// What pressing back does.
#[derive(Clone, Copy, Debug, PartialEq, Eq, Structural)]
pub enum BackStep {
    /// A dialog or sheet owns the keyboard: nothing happens.
    Ignore,
    /// Leave the settings or the project hub for `return_page`.
    ReturnFromPage,
    /// Leave the repository for the project hub.
    ShowProjects,
    /// Close the inspection or comparison and show the history.
    BackToHistory,
}

pub open spec fn page_after(page: AppPage, origin: AppPage, repository: bool) -> AppPage {
    if page == AppPage::Settings && origin == AppPage::Projects {
        AppPage::Projects
    } else if repository {
        AppPage::Repository
    } else {
        AppPage::Projects
    }
}

/// The page to show when leaving `page`: the settings return to the project
/// hub they were opened from; otherwise an open repository is shown, and
/// without one the project hub.
pub fn return_page(page: AppPage, origin: AppPage, repository: bool) -> (r: AppPage)
    ensures
        r == page_after(page, origin, repository),
{
    match page {
        AppPage::Settings if origin == AppPage::Projects => AppPage::Projects,
        _ => if repository {
            AppPage::Repository
        } else {
            AppPage::Projects
        },
    }
}

/// Whether the repository page shows something above the plain history.
pub open spec fn inspecting(w: Workspace) -> bool {
    w.blame_visible || w.file_history_active || w.inspection_active || w.mode != WorkspaceMode::History
}

pub open spec fn back_text(w: Workspace) -> Seq<char> {
    match w.page {
        AppPage::Settings => if page_after(w.page, w.origin, w.repository) == AppPage::Projects {
            "Back to Projects"@
        } else {
            "Back to repository"@
        },
        AppPage::Projects => "Back to repository"@,
        AppPage::Repository => if w.blame_visible {
            "Back from Blame"@
        } else if w.file_history_active {
            "Back from File History"@
        } else if w.inspection_active {
            "Back to inspection"@
        } else if w.mode != WorkspaceMode::History {
            "Back to History"@
        } else {
            "Back to Projects"@
        },
    }
}

/// The label of the back button.
pub fn back_label(w: &Workspace) -> (r: &'static str)
    ensures
        r@ == back_text(*w),
{
    match w.page {
        AppPage::Settings => {
            match return_page(w.page, w.origin, w.repository) {
                AppPage::Projects => "Back to Projects",
                _ => "Back to repository",
            }
        },
        AppPage::Projects => "Back to repository",
        AppPage::Repository => {
            if w.blame_visible {
                "Back from Blame"
            } else if w.file_history_active {
                "Back from File History"
            } else if w.inspection_active {
                "Back to inspection"
            } else if w.mode != WorkspaceMode::History {
                "Back to History"
            } else {
                "Back to Projects"
            }
        },
    }
}

pub open spec fn back_step_of(dialog_open: bool, w: Workspace) -> BackStep {
    if dialog_open {
        BackStep::Ignore
    } else if w.page != AppPage::Repository {
        BackStep::ReturnFromPage
    } else if !inspecting(w) {
        BackStep::ShowProjects
    } else {
        BackStep::BackToHistory
    }
}

/// What the back action does: nothing while a dialog is open; another page
/// returns; the plain history leaves for the project hub; anything shown
/// above the history closes back to it.
pub fn back_step(dialog_open: bool, w: &Workspace) -> (r: BackStep)
    ensures
        r == back_step_of(dialog_open, *w),
{
    if dialog_open {
        BackStep::Ignore
    } else if w.page != AppPage::Repository {
        BackStep::ReturnFromPage
    } else if w.mode == WorkspaceMode::History && !w.blame_visible && !w.file_history_active
        && !w.inspection_active {
        BackStep::ShowProjects
    } else {
        BackStep::BackToHistory
    }
}

/// Back closes what the repository page shows above the plain history
/// before it ever leaves the repository: with blame, a file history, an
/// inspection or another mode shown, back returns to the history, and it
/// leaves for the project hub only from the plain history. What back does
/// agrees with its label.
pub proof fn law_back_closes_what_is_shown_first(w: Workspace)
    ensures
        w.page == AppPage::Repository && (w.blame_visible || w.file_history_active
            || w.inspection_active || w.mode != WorkspaceMode::History) ==> back_step_of(false, w)
            == BackStep::BackToHistory,
        (back_step_of(false, w) == BackStep::ShowProjects) == (w.page == AppPage::Repository
            && w.mode == WorkspaceMode::History && !w.blame_visible && !w.file_history_active
            && !w.inspection_active),
        back_step_of(true, w) == BackStep::Ignore,
        w.page != AppPage::Repository ==> back_step_of(false, w) == BackStep::ReturnFromPage,
        w.page == AppPage::Repository && (back_text(w) == "Back from Blame"@ || back_text(w)
            == "Back from File History"@ || back_text(w) == "Back to inspection"@ || back_text(w)
            == "Back to History"@) ==> back_step_of(false, w) == BackStep::BackToHistory,
        back_step_of(false, w) == BackStep::ShowProjects ==> back_text(w) == "Back to Projects"@,
{
    reveal_strlit("Back from Blame");
    reveal_strlit("Back from File History");
    reveal_strlit("Back to inspection");
    reveal_strlit("Back to History");
    reveal_strlit("Back to Projects");
    assert("Back to Projects"@.len() == 16);
    assert("Back from Blame"@.len() == 15);
    assert("Back from File History"@.len() == 22);
    assert("Back to inspection"@.len() == 18);
    assert("Back to History"@.len() == 15);
}

/// The settings return to the page they were opened from, the repository
/// only while one is open.
pub proof fn law_settings_return_to_their_origin(origin: AppPage, repository: bool)
    requires
        origin != AppPage::Settings,
        origin == AppPage::Repository ==> repository,
    ensures
        page_after(AppPage::Settings, origin, repository) == origin,
{
}

/// The repository the branch inputs were typed for.
#[derive(Debug, Default)]
pub struct BranchInputScope {
    pub repository: Option<Vec<u8>>,
}

impl BranchInputScope {
    /// Records that `repository` is now open; true when another repository
    /// was open before, so the branch inputs start empty.
    pub fn opened(&mut self, repository: &[u8]) -> (r: bool)
        ensures
            r == (old(self).repository matches Some(previous) && !same_path(previous@, repository@)),
            final(self).repository matches Some(now) && now@ == repository@,
    {
        let changed = match &self.repository {
            Some(previous) => !paths_equal(previous.as_slice(), repository),
            None => false,
        };
        self.repository = Some(copy_bytes(repository));
        changed
    }
}

} // verus!
