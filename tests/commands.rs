use ctf_bot::access::Config;
use ctf_bot::conversation::{data_action, pack_replies, BotCommands, DataAction, Gate};

#[test]
fn command_words() {
    assert!(matches!(BotCommands::from_text("/start"), BotCommands::UserHelp));
    assert!(matches!(BotCommands::from_text("/help"), BotCommands::UserHelp));
    assert!(matches!(BotCommands::from_text("/create"), BotCommands::AdminCreate));
    assert!(matches!(BotCommands::from_text("/delete"), BotCommands::AdminDelete));
    assert!(matches!(BotCommands::from_text("/edit"), BotCommands::AdminEdit));
    assert!(matches!(BotCommands::from_text("/message"), BotCommands::AdminMessageAll));
    assert!(matches!(BotCommands::from_text("/board"), BotCommands::AdminScoreboard));
    assert!(matches!(BotCommands::from_text("/code"), BotCommands::UserCode));
    assert!(matches!(BotCommands::from_text("/tasks"), BotCommands::UserTasks));
    assert!(matches!(BotCommands::from_text("/rules"), BotCommands::UserRules));
    assert!(matches!(BotCommands::from_text("/score"), BotCommands::UserScore));
    assert!(matches!(BotCommands::from_text("/s3cr3t_comm4nd"), BotCommands::UserSecretFlag));
    assert!(matches!(BotCommands::from_text("/tasks "), BotCommands::Unknown));
    assert!(matches!(BotCommands::from_text("hello"), BotCommands::Unknown));
}

#[test]
fn contact_commands() {
    match BotCommands::from_text("/contact_ab12cd34 ") {
        BotCommands::UserContact(Some(t)) => assert_eq!(t, "ab12cd34"),
        _ => panic!("contact about a task expected"),
    }
    assert!(matches!(BotCommands::from_text("/contact"), BotCommands::UserContact(None)));
    assert!(matches!(BotCommands::from_text("/contact_a_b"), BotCommands::UserContact(None)));
}

#[test]
fn replies_packed_with_blank_lines() {
    let replies = vec![String::from("one"), String::from("two"), String::from("three")];
    assert_eq!(pack_replies(&replies), vec![String::from("one\n\ntwo\n\nthree")]);
    assert!(pack_replies(&Vec::new()).is_empty());
}

#[test]
fn reply_too_large_for_any_message_is_left_out() {
    let big = "я".repeat(2100);
    let replies = vec![String::from("a"), big.clone(), String::from("b")];
    assert_eq!(pack_replies(&replies), vec![String::from("a\n\nb")]);
    assert!(pack_replies(&vec![big]).is_empty());
    let edge = "x".repeat(4094);
    assert!(pack_replies(&vec![edge]).is_empty());
    let largest = "x".repeat(4093);
    assert_eq!(pack_replies(&vec![largest.clone()]), vec![largest]);
}

#[test]
fn reply_that_does_not_join_starts_next_message() {
    let small = "x".repeat(2000);
    let replies = vec![small.clone(), small.clone(), small.clone()];
    assert_eq!(
        pack_replies(&replies),
        vec![format!("{small}\n\n{small}"), small.clone()]
    );
    let long = "y".repeat(4092);
    let replies = vec![String::from("hello"), long.clone()];
    assert_eq!(pack_replies(&replies), vec![String::from("hello"), long]);
    for m in pack_replies(&vec![small.clone(), small.clone(), small]) {
        assert!(m.len() < 4096);
    }
}

fn config() -> Config {
    Config {
        telegram_token: String::new(),
        vas3k_token: String::new(),
        test_group: vec![100],
        admin_group: vec![200],
        notify_group: vec![-300],
        event_start: 1_000,
        event_end: 2_000,
    }
}

#[test]
fn commands_served_inside_window_or_for_staff() {
    let c = config();
    assert!(c.can_process_command(5, 1_500));
    assert!(!c.can_process_command(5, 1_000));
    assert!(!c.can_process_command(5, 2_000));
    assert!(c.can_process_command(100, 10));
    assert!(c.can_process_command(200, 3_000));
    assert!(c.is_admin(200));
    assert!(!c.is_admin(100));
    assert!(c.is_test_user(100));
    assert!(c.is_unranked(200));
    assert!(!c.is_unranked(5));
}

#[test]
fn commands_gated_by_role_and_window() {
    let admin = BotCommands::from_text("/create");
    assert!(matches!(admin.gate(true, false), Gate::Allowed));
    assert!(matches!(admin.gate(false, true), Gate::Denied));
    let game = BotCommands::from_text("/tasks");
    assert!(matches!(game.gate(false, true), Gate::Allowed));
    assert!(matches!(game.gate(true, false), Gate::NotYet));
    let help = BotCommands::from_text("/help");
    assert!(matches!(help.gate(false, false), Gate::Allowed));
    let contact = BotCommands::from_text("/contact");
    assert!(matches!(contact.gate(false, false), Gate::Allowed));
}

#[test]
fn texts_follow_session_state() {
    assert!(matches!(data_action(None, "flag", true), DataAction::SubmitAnswer));
    assert!(matches!(data_action(None, "flag", false), DataAction::NotYet));
    match data_action(Some("contact_ab12"), ".", false) {
        DataAction::SendContact(Some(id)) => assert_eq!(id, "ab12"),
        _ => panic!("contact about a task expected"),
    }
    assert!(matches!(data_action(Some("contact"), ".", true), DataAction::SendContact(None)));
    assert!(matches!(data_action(Some("contact"), "hi", true), DataAction::AppendToBuffer));
    assert!(matches!(data_action(Some("create"), "a\nb\nc", true), DataAction::CreateTask));
    assert!(matches!(data_action(Some("message"), ".", true), DataAction::Broadcast));
    assert!(matches!(data_action(Some("message"), "text", true), DataAction::AppendToBuffer));
    match data_action(Some("edit_1a2b3c4d"), "a\nb\nc", true) {
        DataAction::EditTask(id) => assert_eq!(id, "1a2b3c4d"),
        _ => panic!("edit expected"),
    }
    assert!(matches!(data_action(Some("delete"), "x", true), DataAction::Reset));
}
