use gitturtle::pages::{
    back_label, back_step, return_page, AppPage, BackStep, BranchInputScope, Workspace, WorkspaceMode,
};

#[test]
fn settings_returns_to_the_page_it_was_opened_from() {
    assert_eq!(
        return_page(AppPage::Settings, AppPage::Projects, true),
        AppPage::Projects
    );
    assert_eq!(
        return_page(AppPage::Settings, AppPage::Repository, true),
        AppPage::Repository
    );
    assert_eq!(
        return_page(AppPage::Settings, AppPage::Repository, false),
        AppPage::Projects
    );
}

#[test]
fn project_hub_return_requires_a_resolved_repository() {
    assert_eq!(
        return_page(AppPage::Projects, AppPage::Settings, false),
        AppPage::Projects
    );
    assert_eq!(
        return_page(AppPage::Projects, AppPage::Settings, true),
        AppPage::Repository
    );
}

fn history() -> Workspace {
    Workspace {
        page: AppPage::Repository,
        origin: AppPage::Repository,
        repository: true,
        mode: WorkspaceMode::History,
        blame_visible: false,
        file_history_active: false,
        inspection_active: false,
    }
}

#[test]
fn back_labels_name_what_closes() {
    assert_eq!(back_label(&history()), "Back to Projects");
    assert_eq!(
        back_label(&Workspace { blame_visible: true, file_history_active: true, ..history() }),
        "Back from Blame"
    );
    assert_eq!(
        back_label(&Workspace { file_history_active: true, ..history() }),
        "Back from File History"
    );
    assert_eq!(
        back_label(&Workspace { inspection_active: true, ..history() }),
        "Back to inspection"
    );
    assert_eq!(
        back_label(&Workspace { mode: WorkspaceMode::Compare, ..history() }),
        "Back to History"
    );
    assert_eq!(
        back_label(&Workspace { page: AppPage::Projects, ..history() }),
        "Back to repository"
    );
    assert_eq!(
        back_label(&Workspace { page: AppPage::Settings, origin: AppPage::Projects, ..history() }),
        "Back to Projects"
    );
    assert_eq!(
        back_label(&Workspace { page: AppPage::Settings, ..history() }),
        "Back to repository"
    );
}

#[test]
fn back_steps_follow_the_page_and_what_it_shows() {
    assert_eq!(back_step(true, &history()), BackStep::Ignore);
    assert_eq!(back_step(false, &history()), BackStep::ShowProjects);
    assert_eq!(
        back_step(false, &Workspace { mode: WorkspaceMode::Working, ..history() }),
        BackStep::BackToHistory
    );
    assert_eq!(
        back_step(false, &Workspace { page: AppPage::Settings, ..history() }),
        BackStep::ReturnFromPage
    );
}

#[test]
fn branch_inputs_reset_only_when_another_repository_opens() {
    let mut scope = BranchInputScope::default();
    assert!(!scope.opened(b"/work/repo"));
    assert!(!scope.opened(b"/work/repo/"));
    assert!(scope.opened(b"/work/other"));
    assert_eq!(scope.repository, Some(b"/work/other".to_vec()));
}
