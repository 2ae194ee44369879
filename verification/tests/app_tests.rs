use snapshot::app::{Application, StartPlan, WorkDirAction, WorkDirStep};
use snapshot::components::{parse_commands, Param};

fn strings(items: &[&str]) -> Vec<String> {
    items.iter().map(|s| s.to_string()).collect()
}

#[test]
fn start_without_commands_shows_help() {
    assert!(matches!(Application::start(Vec::new()), StartPlan::Help));
    assert!(matches!(Application::start(strings(&["program", "x"])), StartPlan::Help));
}

#[test]
fn start_without_set_keeps_work_dir() {
    match Application::start(strings(&["program", "-d", "dir"])) {
        StartPlan::Run { commands, work_dir } => {
            assert_eq!(commands.len(), 1);
            assert!(matches!(work_dir, WorkDirAction::Keep));
        }
        StartPlan::Help => panic!("expected a run"),
    }
}

#[test]
fn start_with_set_path() {
    match Application::start(strings(&["program", "-s", "/tmp/work", "-d", "x"])) {
        StartPlan::Run { commands, work_dir } => {
            assert_eq!(commands.len(), 2);
            match work_dir {
                WorkDirAction::SetTo(path) => assert_eq!(path, "/tmp/work"),
                _ => panic!("expected a path"),
            }
        }
        StartPlan::Help => panic!("expected a run"),
    }
}

#[test]
fn set_with_two_paths_is_invalid() {
    let args = parse_commands(strings(&["-s", "a", "b"]));
    assert!(matches!(args[0].param, Param::WithTwo(..)));
    assert!(matches!(Application::is_change_work_dir_action(&args), WorkDirAction::Invalid));
}

#[test]
fn first_set_command_wins() {
    let args = parse_commands(strings(&["-s", "first", "-s", "second"]));
    match Application::is_change_work_dir_action(&args) {
        WorkDirAction::SetTo(path) => assert_eq!(path, "first"),
        _ => panic!("expected a path"),
    }
    let args = parse_commands(strings(&["-sx", "first", "-x", "y"]));
    assert!(matches!(Application::is_change_work_dir_action(&args), WorkDirAction::Keep));
}

#[test]
fn empty_config_means_current_dir() {
    match Application::read_work_directory("") {
        WorkDirStep::Done(d) => assert_eq!(d, "."),
        WorkDirStep::Probe(_) => panic!("expected the current directory"),
    }
}

#[test]
fn config_first_line_is_probed() {
    for (content, line) in [
        ("/home/me/work", "/home/me/work"),
        ("/a\n/b\n", "/a"),
        ("/a\r\n/b", "/a"),
        ("/a\r", "/a\r"),
        ("\nrest", ""),
        ("x\ry\nz", "x\ry"),
    ] {
        match Application::read_work_directory(content) {
            WorkDirStep::Probe(p) => assert_eq!(p, line),
            WorkDirStep::Done(_) => panic!("expected a probe"),
        }
    }
}

#[test]
fn probe_result_decides() {
    assert_eq!(Application::work_dir_after_probe(String::from("/w"), true), "/w");
    assert_eq!(Application::work_dir_after_probe(String::from("/w"), false), ".");
}
