use vstd::prelude::*;
use vstd::string::*;
use crate::records::{Task, Vas3kUser};
use crate::strings::{decimal, decimal_string, join_with};

verus! {

/// The Russian word for "points" that agrees with the number `n`.
pub open spec fn score_word(n: nat) -> Seq<char> {
    if n == 1 {
        "балл"@
    } else if 2 <= n <= 4 {
        "балла"@
    } else if n <= 21 {
        "баллов"@
    } else if n % 10 == 1 {
        "балл"@
    } else if 2 <= n % 10 <= 4 {
        "балла"@
    } else {
        "баллов"@
    }
}

/// A score in words: the number, a space, the agreeing noun.
pub open spec fn score_text(n: nat) -> Seq<char> {
    decimal(n) + " "@ + score_word(n)
}

/// The rank that marks a participant of the test group.
pub open spec fn no_rank() -> u64 {
    u64::MAX
}

/// Reply texts built from data.
pub struct Format(());

impl Format {
    fn score(score: u64) -> (r: String)
        ensures
            r@ == score_text(score as nat),
    {
        let end = if score == 1 {
            "балл"
        } else if 2 <= score && score <= 4 {
            "балла"
        } else if score <= 21 {
            "баллов"
        } else if score % 10 == 1 {
            "балл"
        } else if 2 <= score % 10 && score % 10 <= 4 {
            "балла"
        } else {
            "баллов"
        };
        let r = decimal_string(score).concat(" ");
        r.concat(end)
    }

    /// One line of the scoreboard.
    pub fn format_score_board(place: usize, user: &Vas3kUser, score: u64) -> (r: String)
        ensures
            r@ == decimal(place as nat) + ". "@ + user.shown() + " - "@ + score_text(score as nat)
                + "\n"@,
    {
        let r = decimal_string(place as u64).concat(". ");
        let r = r.concat(user.display().as_str());
        let r = r.concat(" - ");
        let r = r.concat(Self::score(score).as_str());
        r.concat("\n")
    }

    /// A participant's standing; the rank `u64::MAX` marks the test group.
    pub fn format_score(place: u64, score: u64) -> (r: String)
        ensures
            place == no_rank() ==> r@ == "Ты в тестовой группе со счётом "@ + score_text(
                score as nat,
            ) + "!"@,
            place != no_rank() ==> r@ == "Ты на "@ + decimal(place as nat) + " месте со счётом "@
                + score_text(score as nat) + "!"@,
    {
        if place == u64::MAX {
            let r = String::from_str("Ты в тестовой группе со счётом ");
            let r = r.concat(Self::score(score).as_str());
            r.concat("!")
        } else {
            let r = String::from_str("Ты на ").concat(decimal_string(place).as_str());
            let r = r.concat(" месте со счётом ");
            let r = r.concat(Self::score(score).as_str());
            r.concat("!")
        }
    }

    /// A task as a participant sees it.
    pub fn format_task_user(task: &Task) -> (r: String)
        ensures
            r@ == "<b>"@ + task.name@ + "</b>\n<i>"@ + task.hint@ + "</i>\n<tg-spoiler>/contact_"@
                + task.id@ + " - Сообщить о проблеме</tg-spoiler>\n---\n"@,
    {
        let r = String::from_str("<b>").concat(task.name.as_str());
        let r = r.concat("</b>\n<i>");
        let r = r.concat(task.hint.as_str());
        let r = r.concat("</i>\n<tg-spoiler>/contact_");
        let r = r.concat(task.id.as_str());
        r.concat(" - Сообщить о проблеме</tg-spoiler>\n---\n")
    }

    /// A task's fields as an administrator edits them.
    pub fn format_task_admin(task: &Task) -> (r: String)
        ensures
            r@ == "Старые поля задания:\n<code>\n"@ + (if task.hidden {
                "hidden:"@
            } else {
                ""@
            }) + task.name@ + "\n"@ + join_with(task.flag.answers(), ","@) + "\n"@ + task.hint@
                + "\n</code>\n"@,
    {
        let flag = task.flag.render();
        let prefix = if task.hidden {
            "hidden:"
        } else {
            ""
        };
        let r = String::from_str("Старые поля задания:\n<code>\n").concat(prefix);
        let r = r.concat(task.name.as_str());
        let r = r.concat("\n");
        let r = r.concat(flag.as_str());
        let r = r.concat("\n");
        let r = r.concat(task.hint.as_str());
        r.concat("\n</code>\n")
    }

    pub fn format_solved(name: &str) -> (r: String)
        ensures
            r@ == "Задание <b>"@ + name@ + "</b> успешно решено!"@,
    {
        String::from_str("Задание <b>").concat(name).concat("</b> успешно решено!")
    }

    pub fn format_deleted(name: &str) -> (r: String)
        ensures
            r@ == "Задание <b>"@ + name@ + "</b> было удалено"@,
    {
        String::from_str("Задание <b>").concat(name).concat("</b> было удалено")
    }

    pub fn format_modified(name: &str) -> (r: String)
        ensures
            r@ == "Задание <b>"@ + name@ + "</b> было изменено"@,
    {
        String::from_str("Задание <b>").concat(name).concat("</b> было изменено")
    }

    pub fn format_created(name: &str) -> (r: String)
        ensures
            r@ == "Задание <b>"@ + name@ + "</b> было создано"@,
    {
        String::from_str("Задание <b>").concat(name).concat("</b> было создано")
    }

    pub fn format_message_broadcast(text: &str) -> (r: String)
        ensures
            r@ == "<b>Вам сообщение</b>:\n"@ + text@,
    {
        String::from_str("<b>Вам сообщение</b>:\n").concat(text)
    }

    /// A participant's message to the organisers, about a task or not.
    pub fn format_message(from: &str, message: &str, task: Option<&str>) -> (r: String)
        ensures
            task.is_none() ==> r@ == "<b>Сообщение от @"@ + from@ + "</b>:\n\n"@ + message@
                + "\n"@,
            task.is_some() ==> r@ == "<b>Сообщение от @"@ + from@ + " по поводу задания <i>"@
                + task.unwrap()@ + "</i></b>:\n\n"@ + message@ + "\n"@,
    {
        match task {
            None => {
                let r = String::from_str("<b>Сообщение от @").concat(from);
                let r = r.concat("</b>:\n\n");
                r.concat(message).concat("\n")
            },
            Some(task) => {
                let r = String::from_str("<b>Сообщение от @").concat(from);
                let r = r.concat(" по поводу задания <i>");
                let r = r.concat(task).concat("</i></b>:\n\n");
                r.concat(message).concat("\n")
            },
        }
    }

    /// An error as a participant is told of it.
    pub fn format_error(error: &str) -> (r: String)
        ensures
            r@ == "Возникла ошибка: "@ + error@,
    {
        String::from_str("Возникла ошибка: ").concat(error)
    }

    pub fn format_solved_admin(user: &str, task: &str) -> (r: String)
        ensures
            r@ == "Пользователь "@ + user@ + " решил задачу "@ + task@,
    {
        String::from_str("Пользователь ").concat(user).concat(" решил задачу ").concat(task)
    }
}

} // verus!
