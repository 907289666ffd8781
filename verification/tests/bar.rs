use shapebit::bar::bar_segments;
use shapebit::presentation::{ApplicationPresentation, WorkspacePresentation};

fn application(label: &str, tooltip: &str, count: u32, handle: u32) -> ApplicationPresentation {
    ApplicationPresentation {
        activation_handle: handle,
        label: label.into(),
        tooltip: tooltip.into(),
        icon: Some(3),
        count,
        active: handle == 21,
        resolved: true,
    }
}

fn workspace(handle: u32, position: u32, active: bool, applications: Vec<ApplicationPresentation>) -> WorkspacePresentation {
    WorkspacePresentation { handle, position, active, applications, windows: Vec::new() }
}

#[test]
fn bar_segments_follow_position_and_count_windows() {
    let workspaces = vec![
        workspace(7, 11, false, vec![]),
        workspace(4, 0, true, vec![
            application("Editor", "Text Editor (org.example.Editor)", 3, 21),
            application("Viewer", "org.other.Viewer", 1, 22),
        ]),
        workspace(9, 11, false, vec![]),
    ];
    let segments = bar_segments(&workspaces);
    let handles: Vec<u32> = segments.iter().map(|s| s.handle).collect();
    assert_eq!(handles, [4, 7, 9]);
    assert_eq!(segments[0].number, 1);
    assert_eq!(segments[0].label, "1");
    assert_eq!(segments[0].tooltip, "Activate Workspace 1");
    assert!(segments[0].active);
    assert_eq!(segments[1].label, "12");
    assert_eq!(segments[2].tooltip, "Activate Workspace 12");
    let badges = &segments[0].badges;
    assert_eq!(badges.len(), 2);
    assert_eq!(badges[0].text, "Editor ×3");
    assert_eq!(badges[0].tooltip, "Activate Text Editor (org.example.Editor)");
    assert!(badges[0].active);
    assert_eq!(badges[0].activation_handle, 21);
    assert_eq!(badges[0].icon, Some(3));
    assert_eq!(badges[1].text, "Viewer");
    assert!(!badges[1].active);
}

#[test]
fn bar_segments_of_no_workspaces_are_empty() {
    assert!(bar_segments(&[]).is_empty());
}
