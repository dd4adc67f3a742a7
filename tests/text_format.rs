use ctf_bot::records::{FlagType, Task, Vas3kUser};
use ctf_bot::text::Format;

fn user(name: &str, slug: &str, telegram_id: i64) -> Vas3kUser {
    Vas3kUser {
        telegram_id,
        id: String::from("u1"),
        slug: String::from(slug),
        full_name: String::from(name),
        avatar: String::new(),
        bio: String::new(),
        upvotes: 0,
        created_at: String::new(),
        membership_started_at: String::new(),
        membership_expires_at: String::new(),
        moderation_status: String::new(),
        payment_status: String::new(),
        company: None,
        position: None,
        city: None,
        country: None,
        is_active_member: true,
    }
}

#[test]
fn score_word_agrees_with_number() {
    assert_eq!(Format::format_score(1, 0), "Ты на 1 месте со счётом 0 баллов!");
    assert_eq!(Format::format_score(2, 1), "Ты на 2 месте со счётом 1 балл!");
    assert_eq!(Format::format_score(3, 3), "Ты на 3 месте со счётом 3 балла!");
    assert_eq!(Format::format_score(4, 5), "Ты на 4 месте со счётом 5 баллов!");
    assert_eq!(Format::format_score(5, 11), "Ты на 5 месте со счётом 11 баллов!");
    assert_eq!(Format::format_score(6, 21), "Ты на 6 месте со счётом 21 баллов!");
    assert_eq!(Format::format_score(7, 22), "Ты на 7 месте со счётом 22 балла!");
    assert_eq!(Format::format_score(8, 31), "Ты на 8 месте со счётом 31 балл!");
    assert_eq!(Format::format_score(9, 100), "Ты на 9 месте со счётом 100 баллов!");
    assert_eq!(Format::format_score(10, 104), "Ты на 10 месте со счётом 104 балла!");
}

#[test]
fn test_group_has_no_rank() {
    assert_eq!(
        Format::format_score(u64::MAX, 2),
        "Ты в тестовой группе со счётом 2 балла!"
    );
}

#[test]
fn scoreboard_line() {
    let u = user("Ivan Petrov", "ivan", 7);
    assert_eq!(
        Format::format_score_board(1, &u, 12),
        "1. Ivan Petrov (ivan) - 12 баллов\n"
    );
    assert_eq!(u.display(), "Ivan Petrov (ivan)");
}

#[test]
fn task_for_participant() {
    let t = Task {
        name: String::from("Alpha"),
        flag: FlagType::Single(String::from("ctf{a}")),
        hint: String::from("look around"),
        id: String::from("1a2b3c4d"),
        hidden: false,
    };
    assert_eq!(
        Format::format_task_user(&t),
        "<b>Alpha</b>\n<i>look around</i>\n<tg-spoiler>/contact_1a2b3c4d - Сообщить о проблеме</tg-spoiler>\n---\n"
    );
}

#[test]
fn task_for_admin() {
    let t = Task {
        name: String::from("Beta"),
        flag: FlagType::Multi(vec![String::from("one"), String::from("two")]),
        hint: String::from("h"),
        id: String::new(),
        hidden: true,
    };
    assert_eq!(
        Format::format_task_admin(&t),
        "Старые поля задания:\n<code>\nhidden:Beta\none,two\nh\n</code>\n"
    );
    let s = Task {
        name: String::from("Gamma"),
        flag: FlagType::Single(String::from("x")),
        hint: String::from("y"),
        id: String::new(),
        hidden: false,
    };
    assert_eq!(
        Format::format_task_admin(&s),
        "Старые поля задания:\n<code>\nGamma\nx\ny\n</code>\n"
    );
}

#[test]
fn short_notices() {
    assert_eq!(Format::format_solved("A"), "Задание <b>A</b> успешно решено!");
    assert_eq!(Format::format_deleted("A"), "Задание <b>A</b> было удалено");
    assert_eq!(Format::format_modified("A"), "Задание <b>A</b> было изменено");
    assert_eq!(Format::format_created("A"), "Задание <b>A</b> было создано");
    assert_eq!(Format::format_message_broadcast("hi"), "<b>Вам сообщение</b>:\nhi");
    assert_eq!(Format::format_error("boom"), "Возникла ошибка: boom");
    assert_eq!(
        Format::format_solved_admin("Ann (@ann)", "Alpha"),
        "Пользователь Ann (@ann) решил задачу Alpha"
    );
}

#[test]
fn contact_message() {
    assert_eq!(
        Format::format_message("ann", "help", None),
        "<b>Сообщение от @ann</b>:\n\nhelp\n"
    );
    assert_eq!(
        Format::format_message("ann", "help", Some("Alpha")),
        "<b>Сообщение от @ann по поводу задания <i>Alpha</i></b>:\n\nhelp\n"
    );
}

#[test]
fn flag_rendering() {
    assert_eq!(FlagType::Single(String::from("a")).render(), "a");
    let m = FlagType::Multi(vec![String::from("a"), String::from("b"), String::from("c")]);
    assert_eq!(m.render(), "a,b,c");
    assert_eq!(FlagType::default().render(), "");
}
