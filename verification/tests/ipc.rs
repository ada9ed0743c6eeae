use peter::ipc::{line_of_words, reply_of, request_line, unknown_command_message};
use peter::OtherError;

fn words(list: &[&str]) -> Vec<String> {
    list.iter().map(|s| s.to_string()).collect()
}

#[test]
fn request_line_of_plain_words() {
    assert_eq!(request_line(&words(&["quit"])), "quit\n");
    assert_eq!(request_line(&words(&["add-role", "86841168427495424", "gefolge"])),
        "add-role 86841168427495424 gefolge\n");
    assert_eq!(request_line(&Vec::new()), "\n");
}

#[test]
fn request_line_quotes_its_words() {
    assert_eq!(request_line(&words(&["say", "hello world"])), "say 'hello world'\n");
    assert_eq!(request_line(&words(&["a b"])), "'a b'\n");
    assert_eq!(request_line(&words(&[""])), "''\n");
    assert_eq!(request_line(&words(&["", ""])), "'' ''\n");
    assert_eq!(request_line(&words(&["it's"])), "\"it's\"\n");
}

#[test]
fn request_line_reads_back_as_its_words() {
    let command = words(&["msg", "two words", "", "quo\"te", "it's", "new\nline", "$HOME"]);
    let line = request_line(&command);
    assert!(line.ends_with('\n'));
    assert_eq!(shlex::split(&line[..line.len() - 1]), Some(command));
}

#[test]
fn reply_without_its_newline() {
    assert_eq!(reply_of("ok\n".to_string()), Ok("ok".to_string()));
    assert_eq!(reply_of("\n".to_string()), Ok(String::new()));
    assert_eq!(reply_of("a\nb\n".to_string()), Ok("a\nb".to_string()));
    assert_eq!(reply_of("gr\u{fc}n\n".to_string()), Ok("gr\u{fc}n".to_string()));
    assert_eq!(reply_of("ok\n\n".to_string()), Ok("ok\n".to_string()));
}

#[test]
fn reply_that_does_not_end_in_a_newline() {
    assert_eq!(reply_of(String::new()), Err(OtherError::MissingNewline));
    assert_eq!(reply_of("ok".to_string()), Err(OtherError::MissingNewline));
    assert_eq!(reply_of("ok\n ".to_string()), Err(OtherError::MissingNewline));
    assert_eq!(reply_of("ok\r".to_string()), Err(OtherError::MissingNewline));
}

#[test]
fn messages_of_the_errors() {
    assert_eq!(
        OtherError::MissingContext.message(),
        "Serenity context not available before ready event"
    );
    assert_eq!(OtherError::MissingJoinDate.message(), "encountered user without join date");
    assert_eq!(
        OtherError::MissingNewline.message(),
        "the reply to an IPC command did not end in a newline"
    );
    assert_eq!(OtherError::Shlex.message(), "failed to parse IPC command line");
    assert_eq!(
        OtherError::UnknownCommand(words(&["fly", "to the \"moon\""])).message(),
        "unknown command: [\"fly\", \"to the \\\"moon\\\"\"]"
    );
    assert_eq!(OtherError::UnknownCommand(Vec::new()).message(), "unknown command: []");
}

#[test]
fn line_of_words_joins_by_single_spaces() {
    assert_eq!(line_of_words(&Vec::new()), "\n");
    assert_eq!(line_of_words(&words(&["quit"])), "quit\n");
    assert_eq!(line_of_words(&words(&["a", "b c", "", "d"])), "a b c  d\n");
}

#[test]
fn message_for_an_unknown_command() {
    assert_eq!(unknown_command_message("[]"), "unknown command: []");
    assert_eq!(unknown_command_message(""), "unknown command: ");
}
