use place_canvas::console::parse_parts;
use place_canvas::console::parse_u32;
use place_canvas::console::run_command;
use place_canvas::console::split_command;
use place_canvas::engine::UpdateMsg;

#[test]
fn split_plain_tokens() {
    assert_eq!(split_command("a bb ccc"), vec!["a", "bb", "ccc"]);
    assert_eq!(split_command("  spaced   out  "), vec!["spaced", "out"]);
    assert_eq!(split_command(""), Vec::<String>::new());
    assert_eq!(split_command("   "), Vec::<String>::new());
}

#[test]
fn split_respects_quotes() {
    assert_eq!(
        split_command("say \"hello world\" 'x y'"),
        vec!["say", "hello world", "x y"]
    );
    assert_eq!(split_command("\"one two\"three"), vec!["one two", "three"]);
}

#[test]
fn split_respects_backslash() {
    // an escaped quote joins the part
    assert_eq!(split_command("a\\\"b"), vec!["a\"b"]);
    // a lone backslash is dropped, a doubled one keeps one
    assert_eq!(split_command("a\\b"), vec!["ab"]);
    assert_eq!(split_command("a\\\\b"), vec!["a\\b"]);
}

#[test]
fn parse_parts_splits_params_and_args() {
    let parts: Vec<String> = vec!["cmd", "--key", "value", "pos1", "pos2"]
        .into_iter()
        .map(str::to_string)
        .collect();
    let call = parse_parts(parts).unwrap();
    assert_eq!(call.command, "cmd");
    assert_eq!(call.params, vec![("key".to_string(), "value".to_string())]);
    assert_eq!(call.args, vec!["pos1", "pos2"]);
    assert!(parse_parts(Vec::new()).is_none());
}

#[test]
fn parse_u32_cases() {
    assert_eq!(parse_u32("42"), Some(42));
    assert_eq!(parse_u32("+7"), Some(7));
    assert_eq!(parse_u32("0"), Some(0));
    assert_eq!(parse_u32(""), None);
    assert_eq!(parse_u32("+"), None);
    assert_eq!(parse_u32("abc"), None);
    assert_eq!(parse_u32("12x"), None);
    assert_eq!(parse_u32("4294967295"), Some(u32::MAX));
    assert_eq!(parse_u32("4294967296"), None);
}

#[test]
fn run_command_help_and_unknown() {
    let infos: Vec<String> = Vec::new();
    let out = run_command(&infos, "help");
    assert_eq!(out.lines, vec!["Commands: set-size, broadcast, list-clients"]);
    assert!(out.updates.is_empty());
    let out = run_command(&infos, "wibble");
    assert_eq!(out.lines, vec!["Unknown command, `help` for help"]);
    assert!(out.updates.is_empty());
    let out = run_command(&infos, "   ");
    assert!(out.lines.is_empty());
    assert!(out.updates.is_empty());
}

#[test]
fn run_command_set_size() {
    let infos: Vec<String> = Vec::new();
    let out = run_command(&infos, "set-size 200");
    assert!(out.lines.is_empty());
    assert_eq!(out.updates.len(), 1);
    assert!(matches!(out.updates[0], UpdateMsg::SetSize(200)));
    let out = run_command(&infos, "set-size");
    assert_eq!(out.lines, vec!["set-size <size>"]);
    assert!(out.updates.is_empty());
    let out = run_command(&infos, "set-size huge");
    assert_eq!(out.lines, vec!["set-size <size: integer>"]);
    assert!(out.updates.is_empty());
}

#[test]
fn run_command_broadcast() {
    let infos: Vec<String> = Vec::new();
    let out = run_command(&infos, "broadcast \"service restarts soon\"");
    assert!(out.lines.is_empty());
    assert_eq!(out.updates.len(), 1);
    match &out.updates[0] {
        UpdateMsg::Broadcast { text } => assert_eq!(text, "service restarts soon"),
        _ => panic!("expected a broadcast"),
    }
    let out = run_command(&infos, "broadcast");
    assert_eq!(out.lines, vec!["broadcast <message>"]);
}

#[test]
fn run_command_list_clients() {
    let infos = vec!["addr: a, ua: x".to_string(), "addr: b, ua: y".to_string()];
    let out = run_command(&infos, "list-clients");
    assert_eq!(out.lines, infos);
    assert!(out.updates.is_empty());
}
