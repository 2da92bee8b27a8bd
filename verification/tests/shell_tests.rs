use supno::autocomplete_input;
use supno::decode_document;
use supno::encode_document;
use supno::is_up_token;
use supno::split_char;
use supno::shell_key_outcome;
use supno::CommandResult;
use supno::ShellKey;
use supno::ShellSignal;
use supno::Supno;

fn session(text: &str) -> Supno {
    Supno::new(decode_document(text).unwrap())
}

#[test]
fn new_session_starts_at_root() {
    let s = session("{\"a\":\"1\"}");
    assert_eq!(s.cwd_string(), "/");
    assert!(!s.has_been_modified);
}

#[test]
fn up_at_root_is_a_no_op() {
    let mut s = session("{\"a\":\"1\"}");
    let r = s.move_to_dir("..");
    assert_eq!(r, CommandResult::Okay);
    assert_eq!(s.cwd_string(), "/");
    let r2 = s.move_to_dir("...");
    assert_eq!(r2, CommandResult::Okay);
    assert_eq!(s.cwd_string(), "/");
}

#[test]
fn up_token_shapes() {
    assert!(is_up_token(".."));
    assert!(is_up_token("."));
    assert!(is_up_token("...."));
    assert!(is_up_token(""));
    assert!(!is_up_token("..a"));
}

#[test]
fn cd_descends_and_pops() {
    let mut s = session("{\"gnome\":{\"wa\":{},\"donkey\":\"horse\"}}");
    assert_eq!(s.move_to_dir("gnome"), CommandResult::Okay);
    assert_eq!(s.cwd_string(), "/gnome");
    assert_eq!(s.move_to_dir("wa"), CommandResult::Okay);
    assert_eq!(s.cwd_string(), "/gnome/wa");
    assert_eq!(s.move_to_dir(".."), CommandResult::Okay);
    assert_eq!(s.cwd_string(), "/gnome");
    assert_eq!(s.move_to_dir("donkey"), CommandResult::BadArgs);
    assert_eq!(s.move_to_dir("missing"), CommandResult::BadArgs);
    assert_eq!(s.cwd_string(), "/gnome");
    assert!(!s.has_been_modified);
}

#[test]
fn mkdir_creates_and_enters() {
    let mut s = session("{}");
    assert_eq!(s.create_dir("a"), CommandResult::Okay);
    assert_eq!(s.cwd_string(), "/a");
    assert!(s.has_been_modified);
    assert_eq!(s.create_dir("b"), CommandResult::Okay);
    assert_eq!(s.cwd_string(), "/a/b");
    s.move_to_dir("..");
    s.move_to_dir("..");
    assert_eq!(encode_document(&s.data), "{\"a\":{\"b\":{}}}");
}

#[test]
fn creating_an_existing_name_fails_and_changes_nothing() {
    let mut s = session("{\"x\":\"1\",\"d\":{}}");
    let before = encode_document(&s.data);
    assert_eq!(s.create_dir("x"), CommandResult::BadArgs);
    assert_eq!(s.create_dir("d"), CommandResult::BadArgs);
    let (r, open) = s.create_file("x");
    assert_eq!(r, CommandResult::BadArgs);
    assert!(open.is_none());
    let (r2, open2) = s.create_file("d");
    assert_eq!(r2, CommandResult::BadArgs);
    assert!(open2.is_none());
    assert_eq!(encode_document(&s.data), before);
    assert_eq!(s.cwd_string(), "/");
    assert!(!s.has_been_modified);
}

#[test]
fn reserved_names_cannot_be_created() {
    let mut s = session("{}");
    assert_eq!(s.create_dir(".."), CommandResult::BadArgs);
    let (r, open) = s.create_file(".");
    assert_eq!(r, CommandResult::BadArgs);
    assert!(open.is_none());
    assert_eq!(encode_document(&s.data), "{}");
}

#[test]
fn create_file_opens_and_marks_modified() {
    let mut s = session("{}");
    let (r, open) = s.create_file("notes");
    assert_eq!(r, CommandResult::Okay);
    assert_eq!(open.unwrap(), "notes");
    assert_eq!(encode_document(&s.data), "{\"notes\":\"\"}");
    assert!(s.has_been_modified);
}

#[test]
fn remove_item_removes_and_marks_modified() {
    let mut s = session("{\"a\":\"1\",\"b\":\"2\"}");
    assert_eq!(s.remove_item("a"), CommandResult::Okay);
    assert!(s.has_been_modified);
    assert_eq!(encode_document(&s.data), "{\"b\":\"2\"}");
    assert_eq!(s.remove_item("a"), CommandResult::BadArgs);
    assert_eq!(encode_document(&s.data), "{\"b\":\"2\"}");
}

#[test]
fn save_file_marks_modified_only_on_change() {
    let mut s = session("{\"f\":\"\"}");
    assert_eq!(s.save_file("f", String::new()), CommandResult::Okay);
    assert!(!s.has_been_modified);
    assert_eq!(s.save_file("f", "text".to_string()), CommandResult::Okay);
    assert!(s.has_been_modified);
    assert_eq!(encode_document(&s.data), "{\"f\":\"text\"}");
}

#[test]
fn save_file_uses_last_saved_content_as_baseline() {
    let mut s = session("{\"f\":\"one\"}");
    assert_eq!(s.save_file("f", "one".to_string()), CommandResult::Okay);
    assert!(!s.has_been_modified);
    assert_eq!(s.save_file("f", "two".to_string()), CommandResult::Okay);
    assert!(s.has_been_modified);
}

#[test]
fn list_dir_splits_directories_and_files() {
    let s = session("{\"f\":\"1\",\"d\":{},\"g\":\"2\"}");
    let (items, dirs, files) = s.list_dir();
    assert_eq!(items, vec!["f".to_string(), "d".to_string(), "g".to_string()]);
    assert_eq!(dirs, "d ");
    assert_eq!(files, "f g ");
}

#[test]
fn handle_command_dispatch_table() {
    let mut s = session("{\"gnome\":{},\"letter\":\"hi\"}");
    assert_eq!(s.handle_command(String::new()), (CommandResult::Okay, None));
    assert_eq!(s.handle_command("ok".to_string()), (CommandResult::Okay, None));
    assert_eq!(s.handle_command("cd".to_string()), (CommandResult::BadArgs, None));
    assert_eq!(s.handle_command("cd a b".to_string()), (CommandResult::BadArgs, None));
    assert_eq!(s.handle_command("cd gnome".to_string()), (CommandResult::Okay, None));
    assert_eq!(s.cwd_string(), "/gnome");
    assert_eq!(s.handle_command("cd ..".to_string()), (CommandResult::Okay, None));
    assert_eq!(s.handle_command("edit letter".to_string()), (
        CommandResult::Okay,
        Some("letter".to_string()),
    ));
    assert_eq!(s.handle_command("edit gnome".to_string()), (CommandResult::BadArgs, None));
    assert_eq!(s.handle_command("n letter".to_string()), (CommandResult::BadArgs, None));
    assert_eq!(s.handle_command("exit".to_string()), (CommandResult::Exit, None));
}

#[test]
fn handle_command_bare_paths() {
    let mut s = session("{\"gnome\":{},\"letter\":\"hi\"}");
    assert_eq!(s.handle_command("gnome".to_string()), (CommandResult::Okay, None));
    assert_eq!(s.cwd_string(), "/gnome");
    assert_eq!(s.handle_command("..".to_string()), (CommandResult::Okay, None));
    assert_eq!(s.handle_command("letter".to_string()), (
        CommandResult::Okay,
        Some("letter".to_string()),
    ));
    assert_eq!(s.handle_command("missing".to_string()), (CommandResult::NotFound, None));
}

#[test]
fn whole_session_edits_the_document() {
    let mut s = session("{\"keep\":\"old\"}");
    assert_eq!(s.handle_command("mkdir notes".to_string()), (CommandResult::Okay, None));
    assert_eq!(s.cwd_string(), "/notes");
    let (r, open) = s.handle_command("new today".to_string());
    assert_eq!(r, CommandResult::Okay);
    assert_eq!(open.unwrap(), "today");
    assert_eq!(s.save_file("today", "rain".to_string()), CommandResult::Okay);
    assert_eq!(s.handle_command("..".to_string()), (CommandResult::Okay, None));
    assert_eq!(s.handle_command("rm keep".to_string()), (CommandResult::Okay, None));
    assert!(s.has_been_modified);
    assert_eq!(encode_document(&s.data), "{\"notes\":{\"today\":\"rain\"}}");
}

#[test]
fn abort_discards_pending_changes() {
    let mut s = session("{\"a\":\"1\"}");
    s.remove_item("a");
    assert!(s.has_been_modified);
    assert_eq!(s.handle_command("abort".to_string()), (CommandResult::Exit, None));
    assert!(!s.has_been_modified);
}

#[test]
fn process_command_reports_errors_and_recovers() {
    let mut s = session("{\"gnome\":{},\"letter\":\"hi\"}");
    let (r, _open) = s.process_command(&"cd".to_string());
    assert_eq!(r, CommandResult::BadArgs);
    assert_eq!(s.error_message, "bad args");
    let (r2, _open2) = s.process_command(&"cd gnome".to_string());
    assert_eq!(r2, CommandResult::Okay);
    assert_eq!(s.error_message, "");
}

#[test]
fn process_command_retries_with_autocompletion() {
    let mut s = session("{\"gnome\":{},\"letter\":\"hi\"}");
    let (r, open) = s.process_command(&"gno".to_string());
    assert_eq!(r, CommandResult::Okay);
    assert!(open.is_none());
    assert_eq!(s.cwd_string(), "/gnome");
    assert_eq!(s.error_message, "");
    let (back, _) = s.process_command(&"..".to_string());
    assert_eq!(back, CommandResult::Okay);
    let (r2, open2) = s.process_command(&"lett".to_string());
    assert_eq!(r2, CommandResult::Okay);
    assert_eq!(open2.unwrap(), "letter");
}

#[test]
fn process_command_reports_a_plain_miss() {
    let mut s = session("{\"gnome\":{}}");
    let (r, _open) = s.process_command(&"zzz".to_string());
    assert_eq!(r, CommandResult::NotFound);
    assert_eq!(s.error_message, "unknown command or nonexisting file/directory");
}

#[test]
fn go_back_pops_or_quits() {
    let mut s = session("{\"gnome\":{}}");
    s.move_to_dir("gnome");
    assert!(!s.go_back());
    assert_eq!(s.cwd_string(), "/");
    assert!(s.go_back());
}

#[test]
fn autocomplete_prefers_the_shortest_candidate() {
    let items = vec!["abc".to_string(), "ab".to_string(), "abcd".to_string()];
    let r = autocomplete_input(&items, &"a".to_string());
    assert_eq!(r.unwrap(), "b");
}

#[test]
fn autocomplete_exact_match_gives_nothing() {
    let items = vec!["ab".to_string()];
    assert!(autocomplete_input(&items, &"ab".to_string()).is_none());
}

#[test]
fn autocomplete_empty_input_gives_nothing() {
    let items = vec!["ab".to_string()];
    assert!(autocomplete_input(&items, &String::new()).is_none());
}

#[test]
fn autocomplete_without_candidates_gives_nothing() {
    let items = vec!["ab".to_string(), "cd".to_string()];
    assert!(autocomplete_input(&items, &"x".to_string()).is_none());
}

#[test]
fn shell_keys_decide_the_loop() {
    assert_eq!(shell_key_outcome(ShellKey::Enter, false), ShellSignal::Submit);
    assert_eq!(shell_key_outcome(ShellKey::Escape, false), ShellSignal::Back);
    assert_eq!(shell_key_outcome(ShellKey::Character('x'), true), ShellSignal::Back);
    assert_eq!(shell_key_outcome(ShellKey::Character('x'), false), ShellSignal::Pass);
    assert_eq!(shell_key_outcome(ShellKey::Character('q'), true), ShellSignal::Pass);
    assert_eq!(shell_key_outcome(ShellKey::Other, true), ShellSignal::Pass);
}

#[test]
fn split_char_keeps_empty_parts() {
    let parts = split_char("a//b/", '/');
    assert_eq!(parts, vec!["a".to_string(), "".to_string(), "b".to_string(), "".to_string()]);
    assert_eq!(split_char("", '/'), vec!["".to_string()]);
}
