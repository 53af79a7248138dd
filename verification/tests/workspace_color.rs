use myhack::workspace_hue_step;

fn workspace_color_hue(path: &str, remote: Option<(&str, &str)>) -> f32 {
    workspace_hue_step(path.as_bytes(), remote) as f32 / 3600.0
}

#[test]
fn keeps_known_workspace_color_stable() {
    assert_eq!(workspace_color_hue("/home/wsh/fork/zed", None), 1696.0 / 3600.0);
}

#[test]
fn distinguishes_same_directory_name_under_different_parents() {
    assert_ne!(
        workspace_color_hue("/work/project", None),
        workspace_color_hue("/personal/project", None),
    );
}

#[test]
fn distinguishes_local_and_remote_hosts() {
    let path = "/work/project";
    let local = workspace_color_hue(path, None);
    let first_host = workspace_color_hue(path, Some(("ssh", "first")));
    let second_host = workspace_color_hue(path, Some(("ssh", "second")));
    assert_ne!(local, first_host);
    assert_ne!(first_host, second_host);
    assert_ne!(first_host, workspace_color_hue(path, Some(("wsl", "first"))));
}

#[test]
fn supports_unicode_paths_and_bounds_hue() {
    for path in ["/work/project", "/home/wsh/日本語", "/", ""] {
        let hue = workspace_color_hue(path, None);
        assert!((0.0..1.0).contains(&hue));
    }
}

#[test]
fn local_is_the_local_connection_with_no_host() {
    assert_eq!(
        workspace_hue_step(b"/work/project", None),
        workspace_hue_step(b"/work/project", Some(("local", ""))),
    );
    assert_eq!(workspace_hue_step(b"/home/wsh/fork/zed", None), 1696);
}
