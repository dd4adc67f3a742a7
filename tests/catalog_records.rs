use ctf_bot::catalog::{
    append_to_contact, contact_key, key_tail, new_task_id, task_id_of, retrieve_contact, session_state,
    solve_key, solve_key_of_user_key, state_key, string_to_task, task_key, user_id_of_key,
    user_key,
};
use ctf_bot::records::{FlagType, Task, Vas3kUser};

#[test]
fn task_text_with_single_flag() {
    let t = string_to_task("  Alpha \n CTF{One} \nfind it\nsomewhere  ").unwrap();
    assert_eq!(t.name, "Alpha");
    assert!(!t.hidden);
    assert_eq!(t.hint, "find it\nsomewhere");
    assert_eq!(t.id, "");
    match t.flag {
        FlagType::Single(s) => assert_eq!(s, "ctf{one}"),
        FlagType::Multi(_) => panic!("one answer expected"),
    }
}

#[test]
fn task_text_hidden_with_several_flags() {
    let t = string_to_task("hidden: Beta\nA , b,C\nhint\n").unwrap();
    assert_eq!(t.name, "Beta");
    assert!(t.hidden);
    assert_eq!(t.hint, "hint");
    match t.flag {
        FlagType::Multi(v) => assert_eq!(v, vec!["a", "b", "c"]),
        FlagType::Single(_) => panic!("several answers expected"),
    }
}

#[test]
fn task_text_with_crlf_lines() {
    let t = string_to_task("Gamma\r\nflag\r\nhint\r\n").unwrap();
    assert_eq!(t.name, "Gamma");
    assert_eq!(t.hint, "hint");
}

#[test]
fn task_text_too_short() {
    assert_eq!(
        string_to_task("name\nflag").err().unwrap(),
        "Должно быть 3 или больше строки: имя, флаг, описание."
    );
    assert!(string_to_task("").is_err());
    assert!(string_to_task("a\nb\n").is_err());
}

#[test]
fn storage_keys() {
    assert_eq!(state_key(12), "user_state:12");
    assert_eq!(solve_key(0), "solve:0");
    assert_eq!(user_key(345), "user:345");
    assert_eq!(contact_key(9), "contact:9");
    assert_eq!(task_key("1a2b3c4d"), "task:1a2b3c4d");
    assert_eq!(solve_key_of_user_key("user:77"), Some(String::from("solve:77")));
    assert_eq!(solve_key_of_user_key("task:77"), None);
}

#[test]
fn ids_from_keys() {
    assert_eq!(key_tail("task:abc"), "abc");
    assert_eq!(key_tail("plain"), "plain");
    assert_eq!(key_tail("a:b:c"), "c");
    assert_eq!(user_id_of_key("user:12345"), 12345);
    assert_eq!(user_id_of_key("user:abc"), 0);
    assert_eq!(user_id_of_key("user:"), 0);
}

#[test]
fn task_and_profile_ids_filled_from_key() {
    let mut t = Task {
        name: String::from("A"),
        flag: FlagType::default(),
        hint: String::new(),
        id: String::new(),
        hidden: false,
    };
    t.fill_id("task:deadbeef");
    assert_eq!(t.id, "deadbeef");
    let mut u = Vas3kUser {
        telegram_id: 5,
        id: String::new(),
        slug: String::new(),
        full_name: String::new(),
        avatar: String::new(),
        bio: String::new(),
        upvotes: 0,
        created_at: String::new(),
        membership_started_at: String::new(),
        membership_expires_at: String::new(),
        moderation_status: String::new(),
        payment_status: String::new(),
        company: None,
        position: None,
        city: None,
        country: None,
        is_active_member: false,
    };
    u.fill_id("user:-100200");
    assert_eq!(u.telegram_id, -100200);
    u.fill_id("user:oops");
    assert_eq!(u.telegram_id, -100200);
    assert_eq!(u.id, "");
    assert!(!u.is_active_member);
    assert_eq!(u.company, None);
}

#[test]
fn session_and_contact_buffers() {
    assert_eq!(session_state(None), None);
    assert_eq!(session_state(Some(String::new())), None);
    assert_eq!(session_state(Some(String::from("create"))), Some(String::from("create")));
    assert_eq!(append_to_contact(None, "hi"), "hi");
    assert_eq!(append_to_contact(Some(String::from("hi")), "there"), "hi\nthere");
    assert_eq!(retrieve_contact(None), "");
    assert_eq!(retrieve_contact(Some(String::from("msg"))), "msg");
}

#[test]
fn fresh_task_ids_are_short_hex() {
    let a = new_task_id();
    assert_eq!(a.len(), 8);
    assert!(a.chars().all(|c| c.is_ascii_digit() || ('a'..='f').contains(&c)));
    let b = new_task_id();
    assert_eq!(b.len(), 8);
}

#[test]
fn task_id_is_first_uuid_group() {
    assert_eq!(task_id_of("0f1e2d3c-4b5a-4697-8877-665544332211"), "0f1e2d3c");
}
