use hyprmonitor::refresh::{basename, command_lines, handling_for, plan_refresh, Handling, ProcInfo, RefreshAction, SIGUSR2};

fn proc(pid: i32, comm: &str, argv: &[&str]) -> ProcInfo {
    ProcInfo {
        pid,
        comm: comm.to_string(),
        argv: argv.iter().map(|s| s.to_string()).collect(),
    }
}

#[test]
fn waybar_reloads_via_sigusr2() {
    let procs = vec![proc(100, "waybar", &["/usr/bin/waybar"])];
    assert_eq!(
        plan_refresh(&procs),
        vec![RefreshAction::Signal { pid: 100, signal: SIGUSR2, client: "waybar" }]
    );
}

#[test]
fn swaybg_restarts_from_its_argv() {
    let argv = ["/usr/bin/swaybg", "-i", "/home/u/bg.png", "-m", "fill"];
    let procs = vec![proc(200, "swaybg", &argv)];
    assert_eq!(
        plan_refresh(&procs),
        vec![RefreshAction::Restart {
            pid: 200,
            argv: argv.iter().map(|s| s.to_string()).collect(),
            client: "swaybg",
        }]
    );
}

#[test]
fn unknown_clients_are_ignored() {
    let procs = vec![proc(1, "alacritty", &["alacritty"]), proc(2, "Hyprland", &["Hyprland"])];
    assert!(plan_refresh(&procs).is_empty());
}

#[test]
fn self_healing_or_stateful_clients_are_left_alone() {
    let procs = vec![
        proc(3, "swww-daemon", &["/usr/bin/swww-daemon"]),
        proc(4, "swww", &["swww"]),
        proc(5, "eww", &["/usr/bin/eww", "daemon"]),
    ];
    assert!(plan_refresh(&procs).is_empty());
}

#[test]
fn matches_on_argv0_when_comm_differs() {
    let procs = vec![proc(6, "gjs", &["/usr/bin/hyprpanel"])];
    assert_eq!(
        plan_refresh(&procs),
        vec![RefreshAction::Restart {
            pid: 6,
            argv: vec!["/usr/bin/hyprpanel".to_string()],
            client: "hyprpanel",
        }]
    );
}

#[test]
fn restartable_client_without_argv_is_skipped() {
    let procs = vec![proc(7, "swaybg", &[])];
    assert!(plan_refresh(&procs).is_empty());
}

#[test]
fn preserves_order_across_multiple_clients() {
    let procs = vec![proc(10, "waybar", &["waybar"]), proc(11, "swaybg", &["swaybg", "-i", "/bg"])];
    let actions = plan_refresh(&procs);
    assert_eq!(actions.len(), 2);
    assert!(matches!(actions[0], RefreshAction::Signal { pid: 10, .. }));
    assert!(matches!(actions[1], RefreshAction::Restart { pid: 11, .. }));
}

#[test]
fn basename_takes_text_after_last_slash() {
    assert_eq!(basename("/usr/bin/waybar"), "waybar");
    assert_eq!(basename("waybar"), "waybar");
    assert_eq!(basename("/usr/bin/"), "");
}

#[test]
fn waybar_recognised_by_argv0_reloads() {
    let procs = vec![proc(12, "python3", &["/opt/waybar"])];
    assert_eq!(
        plan_refresh(&procs),
        vec![RefreshAction::Signal { pid: 12, signal: SIGUSR2, client: "waybar" }]
    );
}

#[test]
fn handling_reloads_waybar_restarts_other_known_clients() {
    assert_eq!(handling_for("waybar"), Some(Handling::Reload(12)));
    for name in ["swaybg", "hyprpaper", "mpvpaper", "wpaperd", "hyprpanel", "ironbar"] {
        assert_eq!(handling_for(name), Some(Handling::Restart));
    }
    assert_eq!(handling_for("eww"), None);
    assert_eq!(handling_for("swww-daemon"), None);
}

#[test]
fn command_lines_for_each_action() {
    let signal = RefreshAction::Signal { pid: 4242, signal: SIGUSR2, client: "waybar" };
    assert_eq!(command_lines(&signal), vec![vec!["kill".to_string(), "-12".to_string(), "4242".to_string()]]);
    let restart = RefreshAction::Restart {
        pid: 77,
        argv: vec!["/usr/bin/swaybg".to_string(), "-i".to_string(), "/tmp/bg.png".to_string()],
        client: "swaybg",
    };
    assert_eq!(
        command_lines(&restart),
        vec![
            vec!["kill".to_string(), "77".to_string()],
            vec![
                "setsid".to_string(),
                "-f".to_string(),
                "--".to_string(),
                "/usr/bin/swaybg".to_string(),
                "-i".to_string(),
                "/tmp/bg.png".to_string(),
            ],
        ]
    );
    let negative = RefreshAction::Signal { pid: -3, signal: 9, client: "waybar" };
    assert_eq!(command_lines(&negative)[0], vec!["kill".to_string(), "-9".to_string(), "-3".to_string()]);
}
