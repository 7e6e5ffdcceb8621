use audio_scripting::command::{lookup, read_input, read_request, Command, Input};
use audio_scripting::{cmd_match, Engine};
use std::collections::VecDeque;

#[test]
fn play_is_the_only_command() {
    assert_eq!(lookup("play"), Some(Command::Play));
    assert_eq!(lookup("stop"), None);
    assert_eq!(lookup("pla"), None);
    assert_eq!(lookup("PLAY"), None);
    assert_eq!(lookup(""), None);
}

#[test]
fn line_is_cut_at_its_first_space() {
    assert_eq!(cmd_match("play a.wav 1 2"), Some((Command::Play, "a.wav 1 2")));
    assert_eq!(cmd_match("play  a.wav"), Some((Command::Play, " a.wav")));
    assert_eq!(cmd_match("play"), Some((Command::Play, "")));
    assert_eq!(cmd_match("play "), Some((Command::Play, "")));
    assert_eq!(cmd_match("play\ta.wav"), None);
    assert_eq!(cmd_match(" play a.wav"), None);
    assert_eq!(cmd_match("stop a.wav"), None);
    assert_eq!(cmd_match(""), None);
}

fn args_of(line: &str) -> Vec<String> {
    let request = read_request(line).unwrap();
    request.args.iter().map(|word| word.to_string()).collect()
}

#[test]
fn request_names_track_and_arguments() {
    let request = read_request("play a.wav 10 20").unwrap();
    assert_eq!(request.command, Command::Play);
    assert_eq!(request.track, "a.wav");
    assert_eq!(request.buffer, "a.wav");
    assert_eq!(args_of("play a.wav 10 20"), vec!["10", "20"]);
}

#[test]
fn request_can_rename_its_buffer() {
    let request = read_request("play a.wav as lead 10").unwrap();
    assert_eq!(request.track, "a.wav");
    assert_eq!(request.buffer, "lead");
    assert_eq!(args_of("play a.wav as lead 10"), vec!["10"]);
}

#[test]
fn rename_without_a_name_is_dropped() {
    let request = read_request("play a.wav as").unwrap();
    assert_eq!(request.buffer, "a.wav");
    assert!(args_of("play a.wav as").is_empty());
}

#[test]
fn rename_counts_only_right_after_the_track() {
    let request = read_request("play a.wav 10 as lead").unwrap();
    assert_eq!(request.buffer, "a.wav");
    assert_eq!(args_of("play a.wav 10 as lead"), vec!["10", "as", "lead"]);
}

#[test]
fn request_without_a_track_asks_for_the_empty_name() {
    let request = read_request("play").unwrap();
    assert_eq!(request.track, "");
    assert_eq!(request.buffer, "");
    assert!(request.args.is_empty());
}

#[test]
fn words_are_cut_at_any_whitespace() {
    let line = "play \t a.wav\u{3000}10\u{a0}20\r\n";
    let request = read_request(line).unwrap();
    assert_eq!(request.track, "a.wav");
    assert_eq!(args_of(line), vec!["10", "20"]);
}

#[test]
fn words_written_in_a_row_are_read_back() {
    let words = ["t", "x1", "\u{e4}\u{f6}", "--"];
    let line = format!("play {}", words.join(" "));
    let request = read_request(&line).unwrap();
    assert_eq!(request.track, "t");
    assert_eq!(args_of(&line), vec!["x1", "\u{e4}\u{f6}", "--"]);
}

#[test]
fn unknown_command_is_no_request() {
    assert!(read_request("stop a.wav").is_none());
}

#[test]
fn prompt_input_is_trimmed() {
    assert!(matches!(read_input("quit\n"), Input::Quit));
    assert!(matches!(read_input("  quit \t\r\n"), Input::Quit));
    assert!(matches!(read_input("\u{2003}play a b\n"), Input::Run("play a b")));
    assert!(matches!(read_input("quit now\n"), Input::Run("quit now")));
    assert!(matches!(read_input(" \n"), Input::Run("")));
    assert!(matches!(read_input(""), Input::Run("")));
}

fn popped(word: &str) -> usize {
    let mut args = VecDeque::from(vec![word, "rest"]);
    let value = Engine::args_pop_front(&mut args, 77);
    assert_eq!(args, VecDeque::from(vec!["rest"]));
    value
}

#[test]
fn first_argument_is_read_as_a_number() {
    assert_eq!(popped("0"), 0);
    assert_eq!(popped("42"), 42);
    assert_eq!(popped("+42"), 42);
    assert_eq!(popped("007"), 7);
    assert_eq!(popped("18446744073709551615"), usize::MAX);
}

#[test]
fn argument_that_is_no_number_gives_the_default() {
    for word in ["", "+", "-", "-1", "1x", "x1", "++1", "1_000", "1.5", "18446744073709551616",
        "99999999999999999999999", "\u{661}"]
    {
        assert_eq!(popped(word), 77, "{}", word);
    }
}

#[test]
fn missing_argument_gives_the_default() {
    let mut args: VecDeque<&str> = VecDeque::new();
    assert_eq!(Engine::args_pop_front(&mut args, 5), 5);
    assert!(args.is_empty());
}

#[test]
fn whitespace_is_the_unicode_property() {
    let white: Vec<char> = ('\u{9}'..='\u{d}')
        .chain([' ', '\u{85}', '\u{a0}', '\u{1680}'])
        .chain('\u{2000}'..='\u{200a}')
        .chain(['\u{2028}', '\u{2029}', '\u{202f}', '\u{205f}', '\u{3000}'])
        .collect();
    assert_eq!(white.len(), 25);
    for c in '\u{0}'..=char::MAX {
        assert_eq!(c.is_whitespace(), white.contains(&c), "{:?}", c);
    }
    for c in white {
        let line = format!("play a{}1{}2{}", c, c, c);
        assert_eq!(args_of(&line), vec!["1", "2"]);
        let typed = format!("{}quit{}{}", c, c, c);
        assert!(matches!(read_input(&typed), Input::Quit));
    }
}

#[test]
fn characters_next_to_whitespace_are_not_cut_at() {
    for c in ['\u{8}', '\u{e}', '\u{180e}', '\u{200b}', '\u{2060}', '\u{feff}', 'a', '_'] {
        let line = format!("play a 1{}2", c);
        assert_eq!(args_of(&line), vec![format!("1{}2", c)]);
    }
}

#[test]
fn play_line_asks_for_what_it_was_written_from() {
    let request = read_request("play t as b 1 2").unwrap();
    assert_eq!((request.track, request.buffer), ("t", "b"));
    assert_eq!(args_of("play t as b 1 2"), vec!["1", "2"]);
    let request = read_request("play t 1 2").unwrap();
    assert_eq!((request.track, request.buffer), ("t", "t"));
    assert_eq!(args_of("play t 1 2"), vec!["1", "2"]);
}
