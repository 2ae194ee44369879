use snapshot::components::{key_check, parse_commands, CompletedCommand, Key, Param};

fn strings(items: &[&str]) -> Vec<String> {
    items.iter().map(|s| s.to_string()).collect()
}

#[test]
fn test_parse_with_all_valid_args() {
    let args = vec![
        String::from("-r"),
        String::from("-t"),
        String::from("one"),
        String::from("two"),
        String::from("ignored"),
        String::from("-t"),
        String::from("one"),
    ];
    let parse_result = parse_commands(args);
    let parse_vector = vec![
        CompletedCommand { key: Key::from("-r"), param: Param::Without },
        CompletedCommand {
            key: Key::from("-t"),
            param: Param::WithTwo(String::from("one"), String::from("two")),
        },
        CompletedCommand { key: Key::from("-t"), param: Param::With(String::from("one")) },
    ];
    assert_eq!(parse_result, parse_vector);
}

#[test]
fn test_parse_without_valid_args() {
    let args = vec![
        String::from("one"),
        String::from("two"),
        String::from("one"),
        String::from("two"),
    ];
    let result_parse = parse_commands(args);
    assert_eq!(result_parse, Vec::<CompletedCommand>::new());
}

#[test]
fn key_check_accepts_only_a_leading_dash() {
    assert!(key_check("-s"));
    assert!(key_check("-"));
    assert!(key_check("--long"));
    assert!(!key_check(""));
    assert!(!key_check("s-"));
    assert!(!key_check(" -s"));
}

#[test]
fn parse_empty_command_line() {
    assert_eq!(parse_commands(Vec::new()), Vec::<CompletedCommand>::new());
}

#[test]
fn parse_key_at_the_end_has_no_param() {
    let cmds = parse_commands(strings(&["path", "-d"]));
    assert_eq!(cmds, vec![CompletedCommand { key: Key::from("-d"), param: Param::Without }]);
}

#[test]
fn parse_key_followed_by_key() {
    let cmds = parse_commands(strings(&["-a", "-b", "x"]));
    assert_eq!(
        cmds,
        vec![
            CompletedCommand { key: Key::from("-a"), param: Param::Without },
            CompletedCommand { key: Key::from("-b"), param: Param::With(String::from("x")) },
        ]
    );
}

#[test]
fn parse_second_param_stops_at_key() {
    let cmds = parse_commands(strings(&["-c", "snap1", "-s", "dir"]));
    assert_eq!(
        cmds,
        vec![
            CompletedCommand { key: Key::from("-c"), param: Param::With(String::from("snap1")) },
            CompletedCommand { key: Key::from("-s"), param: Param::With(String::from("dir")) },
        ]
    );
}

#[test]
fn parse_two_params() {
    let cmds = parse_commands(strings(&["-c", "snap1", "snap2"]));
    assert_eq!(
        cmds,
        vec![CompletedCommand {
            key: Key::from("-c"),
            param: Param::WithTwo(String::from("snap1"), String::from("snap2")),
        }]
    );
}

#[test]
fn parse_one_command_per_key() {
    let cmds = parse_commands(strings(&["-a", "b", "c", "d", "-e", "f", "-g", "-h"]));
    let keys: Vec<&str> = cmds.iter().map(|c| c.key.as_str()).collect();
    assert_eq!(keys, vec!["-a", "-e", "-g", "-h"]);
}
