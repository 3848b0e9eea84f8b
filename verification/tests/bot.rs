use ircspell::dispatch::dispatch_lines;
use ircspell::parser::parse_command;
use ircspell::parser::Command;
use ircspell::parser::Message;
use ircspell::parser::Ping;
use ircspell::session::join_line;
use ircspell::session::Registration;
use ircspell::speller::SpellCheck;

#[test]
fn event_parse_pong() {
    let expected_cmd = Command::PING(Ping { server: "public-irc.w3.org".to_string() });
    let cmd_str = "PING :public-irc.w3.org\r\n".to_string();
    let cmd = parse_command(cmd_str).unwrap();
    assert_eq!(cmd, expected_cmd);
}

#[test]
fn message_parse_sentance_test() {
    let expected_cmd = Command::PRIVMSG(Message {
        sender: "anubis@public.cloak".to_string(),
        channel: "#didnt".to_string(),
        text: "well hello there".to_string(),
    });

    let message_str = "anubis@public.cloak PRIVMSG #didnt :well hello there\r\n".to_string();

    let message = parse_command(message_str).unwrap();
    assert_eq!(message, expected_cmd);
}

#[test]
fn spellcheck_sentance_with_a_mistake() {
    let mut spell_check = SpellCheck::new("tomato pizza".to_string());

    let expected_text = vec!["s/tomata/tomato"];
    let result = spell_check.correct(&"I like to eat tomata pizza".to_string());
    assert_eq!(result, expected_text);
}

#[test]
fn spellcheck_sentance_with_many_mistakes() {
    let mut spell_check = SpellCheck::new("tomato pizza".to_string());

    let expected_text = vec!["s/tomata/tomato", "s/pzza/pizza"];
    let result = spell_check.correct(&"I like to eat tomata pzza".to_string());
    assert_eq!(result, expected_text);
}

#[test]
fn spellcheck_with_no_mistakes() {
    let mut spell_check = SpellCheck::new("tomato pizza".to_string());

    let result = spell_check.correct(&"I like to eat tomato pizza".to_string());
    let empty_vec: Vec<String> = [].to_vec();
    assert_eq!(result, empty_vec);
}

#[test]
fn spellcheck_does_not_correct_nonscribes() {
    let msg = Message {
        sender: "anubis@public.cloak".to_string(),
        channel: "#didnt".to_string(),
        text: "I like to eat tomata pizza".to_string(),
    };

    let cmd = Command::PRIVMSG(msg);

    let spell_check = SpellCheck::new("tomato pizza".to_string());
    let watched = "yancy".to_string();
    let lines = dispatch_lines(&spell_check, &watched, false, Some(cmd));
    let empty: Vec<String> = Vec::new();
    assert_eq!(lines, empty);
}

#[test]
fn parse_rejects_missing_crlf() {
    assert!(parse_command("PING :public-irc.w3.org".to_string()).is_none());
    assert!(parse_command("PING :public-irc.w3.org\n".to_string()).is_none());
}

#[test]
fn parse_rejects_wrong_separator_count() {
    assert!(parse_command("PING public-irc.w3.org\r\n".to_string()).is_none());
    assert!(parse_command("a PRIVMSG #c :one :two\r\n".to_string()).is_none());
}

#[test]
fn parse_rejects_unknown_header() {
    assert!(parse_command("NOTICE :hello\r\n".to_string()).is_none());
    assert!(parse_command("a b PRIVMSG #c :hello\r\n".to_string()).is_none());
}

#[test]
fn parse_keeps_empty_body() {
    let cmd = parse_command("PING :\r\n".to_string()).unwrap();
    assert_eq!(cmd, Command::PING(Ping { server: "".to_string() }));
}

#[test]
fn correcting_correct_text_twice_is_empty_both_times() {
    let mut spell_check = SpellCheck::new("tomato pizza".to_string());

    let text = "I like to eat tomato pizza".to_string();
    let first = spell_check.correct(&text);
    let second = spell_check.correct(&text);
    let empty: Vec<String> = Vec::new();
    assert_eq!(first, empty);
    assert_eq!(second, empty);
}

#[test]
fn short_tokens_are_never_corrected() {
    let mut spell_check = SpellCheck::new("too pizza".to_string());

    // "to" and "t" are within one edit of the trained "too", but tokens of
    // length two or less are excluded from correction.
    let result = spell_check.correct(&"to t ooo pizza".to_string());
    let expected: Vec<String> = vec!["s/ooo/too".to_string()];
    assert_eq!(result, expected);
}

#[test]
fn correct_word_prefers_highest_frequency() {
    let spell_check = SpellCheck::new("spell spell spall".to_string());

    // Both trained words are one edit away; the more frequent one wins.
    assert_eq!(spell_check.correct_word(&"spoll".to_string()), "spell");
}

#[test]
fn correct_word_uses_distance_two_when_needed() {
    let spell_check = SpellCheck::new("pizza".to_string());

    assert_eq!(spell_check.correct_word(&"pzz".to_string()), "pizza");
}

#[test]
fn correct_word_keeps_unknown_without_candidates() {
    let spell_check = SpellCheck::new("pizza".to_string());

    assert_eq!(spell_check.correct_word(&"qqqqqqqq".to_string()), "qqqqqqqq");
}

#[test]
fn registration_line_exact() {
    let r = Registration::new();
    assert_eq!(
        r.create_registration_str(),
        "USER guest tolmoon tolsun :Ronnie Regan\nNICK raistlin\n"
    );
}

#[test]
fn registration_line_round_trip() {
    let r = Registration::new();
    let line = r.create_registration_str();

    let lines: Vec<&str> = line.split('\n').collect();
    assert_eq!(lines.len(), 3);
    assert_eq!(lines[2], "");

    let user_fields: Vec<&str> = lines[0].splitn(5, ' ').collect();
    assert_eq!(user_fields, vec!["USER", "guest", "tolmoon", "tolsun", ":Ronnie Regan"]);

    let nick_fields: Vec<&str> = lines[1].splitn(2, ' ').collect();
    assert_eq!(nick_fields, vec!["NICK", "raistlin"]);
}

#[test]
fn join_line_exact() {
    assert_eq!(join_line("#didnt"), "JOIN #didnt\n");
}

#[test]
fn ping_round_trip_one_pong() {
    let spell_check = SpellCheck::new("".to_string());
    let watched = "yancy".to_string();
    let cmd = Command::PING(Ping { server: "x".to_string() });
    let lines = dispatch_lines(&spell_check, &watched, false, Some(cmd));
    assert_eq!(lines, vec!["PONG x\n".to_string()]);
}

#[test]
fn no_command_no_output() {
    let spell_check = SpellCheck::new("".to_string());
    let watched = "yancy".to_string();
    let lines = dispatch_lines(&spell_check, &watched, false, None);
    let empty: Vec<String> = Vec::new();
    assert_eq!(lines, empty);
}

#[test]
fn dispatch_corrects_watched_author() {
    let spell_check = SpellCheck::new("tomato pizza".to_string());
    let watched = "yancy".to_string();
    let cmd = Command::PRIVMSG(Message {
        sender: "yancy@public.cloak".to_string(),
        channel: "#didnt".to_string(),
        text: "I like to eat tomata pizza".to_string(),
    });
    let lines = dispatch_lines(&spell_check, &watched, false, Some(cmd));
    assert_eq!(lines, vec!["PRIVMSG #didnt :s/tomata/tomato\n".to_string()]);
}

#[test]
fn dispatch_all_senders_flag_corrects_anyone() {
    let spell_check = SpellCheck::new("tomato pizza".to_string());
    let watched = "yancy".to_string();
    let cmd = Command::PRIVMSG(Message {
        sender: "anubis@public.cloak".to_string(),
        channel: "#didnt".to_string(),
        text: "I like to eat tomata pizza".to_string(),
    });
    let lines = dispatch_lines(&spell_check, &watched, true, Some(cmd));
    assert_eq!(lines, vec!["PRIVMSG #didnt :s/tomata/tomato\n".to_string()]);
}

#[test]
fn dispatch_replies_to_message_channel() {
    let spell_check = SpellCheck::new("tomato".to_string());
    let watched = "yancy".to_string();
    let cmd = Command::PRIVMSG(Message {
        sender: "yancy@public.cloak".to_string(),
        channel: "#other".to_string(),
        text: "tomata".to_string(),
    });
    let lines = dispatch_lines(&spell_check, &watched, false, Some(cmd));
    assert_eq!(lines, vec!["PRIVMSG #other :s/tomata/tomato\n".to_string()]);
}

#[test]
fn correct_word_fixes_transposition() {
    let spell_check = SpellCheck::new("pizza".to_string());

    assert_eq!(spell_check.correct_word(&"ipzza".to_string()), "pizza");
}

#[test]
fn correct_word_fixes_extra_letter() {
    let spell_check = SpellCheck::new("pizza".to_string());

    assert_eq!(spell_check.correct_word(&"pizzza".to_string()), "pizza");
}

#[test]
fn dispatch_matches_sender_without_host() {
    let spell_check = SpellCheck::new("tomato".to_string());
    let watched = "yancy".to_string();
    let cmd = Command::PRIVMSG(Message {
        sender: "yancy".to_string(),
        channel: "#didnt".to_string(),
        text: "tomata".to_string(),
    });
    let lines = dispatch_lines(&spell_check, &watched, false, Some(cmd));
    assert_eq!(lines, vec!["PRIVMSG #didnt :s/tomata/tomato\n".to_string()]);
}

#[test]
fn training_counts_repeated_words() {
    let spell_check = SpellCheck::new("alpha alpha beta".to_string());

    assert_eq!(spell_check.lookup(&"alpha".to_string()), Some(2));
    assert_eq!(spell_check.lookup(&"beta".to_string()), Some(1));
    assert_eq!(spell_check.lookup(&"gamma".to_string()), None);
}

#[test]
fn training_splits_on_all_whitespace() {
    let spell_check = SpellCheck::new("one\ttwo\nthree  four\r\n".to_string());

    assert_eq!(spell_check.lookup(&"one".to_string()), Some(1));
    assert_eq!(spell_check.lookup(&"two".to_string()), Some(1));
    assert_eq!(spell_check.lookup(&"three".to_string()), Some(1));
    assert_eq!(spell_check.lookup(&"four".to_string()), Some(1));
}
