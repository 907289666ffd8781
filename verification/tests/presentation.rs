use std::collections::BTreeMap;

use shapebit::presentation::{
    build_presentations, compact_application_label, fallback_application_name, launcher_search,
    ApplicationCatalog, ApplicationMetadata, ToplevelState, WorkspaceState,
};


fn toplevel(title: &str, app_id: &str, workspace: Option<u32>, active: bool) -> ToplevelState {
    ToplevelState { title: title.into(), app_id: app_id.into(), workspace, active }
}

#[test]
fn fallback_uses_the_last_application_id_component() {
    assert_eq!(fallback_application_name("org.example.Editor"), "Editor");
    assert_eq!(fallback_application_name("Terminal"), "Terminal");
}

#[test]
fn compact_labels_preserve_short_names_and_truncate_long_names() {
    assert_eq!(compact_application_label("Terminal"), "Terminal");
    assert_eq!(compact_application_label("Long Application"), "Long Appli…");
}

#[test]
fn groups_toplevels_by_application_within_each_workspace() {
    let workspaces = BTreeMap::from([(
        7,
        WorkspaceState {
            position: 0,
            active: true,
        },
    )]);
    let toplevels = BTreeMap::from([
        (
            11,
            ToplevelState {
                title: "First".into(),
                app_id: "org.example.Editor".into(),
                workspace: Some(7),
                active: true,
            },
        ),
        (
            12,
            ToplevelState {
                title: "Second".into(),
                app_id: "org.example.Editor".into(),
                workspace: Some(7),
                active: false,
            },
        ),
    ]);

    let presentations = build_presentations(&workspaces, &toplevels, &ApplicationCatalog::empty());

    assert_eq!(presentations.len(), 1);
    assert_eq!(presentations[0].applications.len(), 1);
    assert_eq!(presentations[0].applications[0].count, 2);
    assert_eq!(presentations[0].applications[0].activation_handle, 11);
    assert_eq!(presentations[0].windows.len(), 2);
}

#[test]
fn applications_are_ordered_by_identity_and_labelled_from_the_catalog() {
    let mut catalog = ApplicationCatalog::empty();
    catalog.add_application(
        "org.example.Editor.desktop",
        ApplicationMetadata { display_name: "Text Editor Deluxe".into(), icon: Some(4) },
    );
    catalog.add_application(
        "org.example.Editor.desktop",
        ApplicationMetadata { display_name: "Ignored".into(), icon: None },
    );
    assert_eq!(catalog.resolve("org.example.Editor").unwrap().display_name, "Text Editor Deluxe");
    assert_eq!(catalog.resolve("org.example.Editor.desktop").unwrap().icon, Some(4));
    assert!(catalog.resolve("org.example").is_none());

    let workspaces = BTreeMap::from([
        (2, WorkspaceState::default()),
        (1, WorkspaceState { position: 0, active: true }),
    ]);
    let toplevels = BTreeMap::from([
        (20, toplevel("Notes", "org.example.Editor", Some(1), false)),
        (21, toplevel("", "org.other.Viewer", Some(1), false)),
        (22, toplevel("", "", Some(1), true)),
        (23, toplevel("Draft", "org.example.Editor", Some(1), true)),
        (24, toplevel("Elsewhere", "org.example.Editor", Some(2), false)),
        (25, toplevel("Loose", "", None, false)),
    ]);

    let presentations = build_presentations(&workspaces, &toplevels, &catalog);
    assert_eq!(presentations.len(), 2);

    let first = &presentations[0];
    assert_eq!((first.handle, first.position, first.active), (1, 0, true));
    let titles: Vec<&str> = first.windows.iter().map(|w| w.title.as_str()).collect();
    assert_eq!(titles, ["Notes", "Viewer", "Window", "Draft"]);
    assert!(first.windows[0].resolved);
    assert_eq!(first.windows[0].application_label, "Text Editor Deluxe");
    assert_eq!(first.windows[0].icon, Some(4));
    assert!(!first.windows[1].resolved);
    assert_eq!(first.windows[1].application_label, "Viewer");

    let labels: Vec<&str> = first.applications.iter().map(|a| a.label.as_str()).collect();
    assert_eq!(labels, ["Window", "Text Edito…", "Viewer"]);
    let editor = &first.applications[1];
    assert_eq!(editor.count, 2);
    assert_eq!(editor.activation_handle, 23);
    assert!(editor.active);
    assert!(editor.resolved);
    assert_eq!(editor.tooltip, "Text Editor Deluxe (org.example.Editor)");
    assert_eq!(first.applications[2].tooltip, "org.other.Viewer");
    assert_eq!(first.applications[2].activation_handle, 21);

    let second = &presentations[1];
    assert_eq!(second.windows.len(), 1);
    assert_eq!(second.applications[0].count, 1);
}

#[test]
fn launcher_search_trims_and_lowercases_the_query() {
    let names = vec!["Firefox".to_string(), "Text Editor".to_string(), "Terminal".to_string()];
    assert_eq!(launcher_search(&names, "  TE\t"), vec![false, true, true]);
    assert_eq!(launcher_search(&names, "fox"), vec![true, false, false]);
    assert_eq!(launcher_search(&names, "t e"), vec![false, true, false]);
    assert_eq!(launcher_search(&names, "xyz"), vec![false, false, false]);
}

#[test]
fn launcher_search_with_a_blank_query_shows_every_application() {
    let names = vec!["Firefox".to_string(), "Terminal".to_string()];
    assert_eq!(launcher_search(&names, ""), vec![true, true]);
    assert_eq!(launcher_search(&names, " \u{3000}\n"), vec![true, true]);
}
