use vstd::prelude::*;
use vstd::string::*;
use crate::strings::{
    has_prefix, lemma_split_nonempty, same_text, split, split_on, starts_with, trim, trimmed, views,
};

verus! {

/// A command that a participant or an administrator sends.
pub enum BotCommands {
    AdminCreate,
    AdminDelete,
    AdminScoreboard,
    AdminMessageAll,
    AdminEdit,
    UserScore,
    UserContact(Option<String>),
    UserHelp,
    UserRules,
    UserTasks,
    UserCode,
    UserSecretFlag,
    Unknown,
}

/// The command named by a whole text, other than a contact request.
pub open spec fn keyword_command(s: Seq<char>) -> BotCommands {
    if s == "/start"@ || s == "/help"@ {
        BotCommands::UserHelp
    } else if s == "/create"@ {
        BotCommands::AdminCreate
    } else if s == "/delete"@ {
        BotCommands::AdminDelete
    } else if s == "/edit"@ {
        BotCommands::AdminEdit
    } else if s == "/message"@ {
        BotCommands::AdminMessageAll
    } else if s == "/board"@ {
        BotCommands::AdminScoreboard
    } else if s == "/code"@ {
        BotCommands::UserCode
    } else if s == "/tasks"@ {
        BotCommands::UserTasks
    } else if s == "/rules"@ {
        BotCommands::UserRules
    } else if s == "/score"@ {
        BotCommands::UserScore
    } else if s == "/s3cr3t_comm4nd"@ {
        BotCommands::UserSecretFlag
    } else {
        BotCommands::Unknown
    }
}

impl BotCommands {
    /// Reads a command. A text that starts with `/contact` asks to contact
    /// the organisers, about the task whose id follows the one `_` if there
    /// is exactly one; any other text must be a command word exactly.
    pub fn from_text(value: &str) -> (r: BotCommands)
        ensures
            has_prefix(value@, "/contact"@) ==> match r {
                BotCommands::UserContact(topic) => if split_on(value@, '_').len() == 2 {
                    topic is Some && topic->Some_0@ == trimmed(split_on(value@, '_')[1])
                } else {
                    topic is None
                },
                _ => false,
            },
            !has_prefix(value@, "/contact"@) ==> r == keyword_command(value@),
    {
        if starts_with(value, "/contact") {
            let parts = split(value, '_');
            if parts.len() == 2 {
                assert(views(parts@)[1] == parts@[1]@);
                BotCommands::UserContact(Some(trim(parts[1].as_str())))
            } else {
                BotCommands::UserContact(None)
            }
        } else if same_text(value, "/start") || same_text(value, "/help") {
            BotCommands::UserHelp
        } else if same_text(value, "/create") {
            BotCommands::AdminCreate
        } else if same_text(value, "/delete") {
            BotCommands::AdminDelete
        } else if same_text(value, "/edit") {
            BotCommands::AdminEdit
        } else if same_text(value, "/message") {
            BotCommands::AdminMessageAll
        } else if same_text(value, "/board") {
            BotCommands::AdminScoreboard
        } else if same_text(value, "/code") {
            BotCommands::UserCode
        } else if same_text(value, "/tasks") {
            BotCommands::UserTasks
        } else if same_text(value, "/rules") {
            BotCommands::UserRules
        } else if same_text(value, "/score") {
            BotCommands::UserScore
        } else if same_text(value, "/s3cr3t_comm4nd") {
            BotCommands::UserSecretFlag
        } else {
            BotCommands::Unknown
        }
    }
}

/// The largest message the chat service takes, in bytes.
pub const MESSAGE_LIMIT: usize = 4096;

/// How many bytes a character takes in UTF-8.
pub open spec fn char_bytes(c: char) -> nat {
    if (c as u32) < 0x80 {
        1
    } else if (c as u32) < 0x800 {
        2
    } else if (c as u32) < 0x10000 {
        3
    } else {
        4
    }
}

/// How many bytes a string takes in UTF-8.
pub open spec fn utf8_len(s: Seq<char>) -> nat
    decreases s.len(),
{
    if s.len() == 0 {
        0
    } else {
        utf8_len(s.drop_last()) + char_bytes(s.last())
    }
}

proof fn lemma_utf8_len_grows(s: Seq<char>, k: int)
    requires
        0 <= k <= s.len(),
    ensures
        utf8_len(s.subrange(0, k)) <= utf8_len(s),
    decreases s.len() - k,
{
    if k < s.len() {
        assert(s.subrange(0, k + 1).drop_last() =~= s.subrange(0, k));
        lemma_utf8_len_grows(s, k + 1);
    } else {
        assert(s.subrange(0, k) =~= s);
    }
}

/// The UTF-8 length of `s`, or `cap` where it is longer.
fn utf8_len_capped(s: &str, cap: usize) -> (r: usize)
    requires
        cap >= 4,
    ensures
        r == if utf8_len(s@) < cap {
            utf8_len(s@)
        } else {
            cap as nat
        },
{
    let n = s.unicode_len();
    let mut acc: usize = 0;
    let mut i: usize = 0;
    assert(s@.subrange(0, 0) =~= Seq::<char>::empty());
    while i < n
        invariant
            n == s@.len(),
            i <= n,
            acc == utf8_len(s@.subrange(0, i as int)),
            cap >= 4,
            acc < cap,
        decreases n - i,
    {
        let c = s.get_char(i) as u32;
        let b: usize = if c < 0x80 {
            1
        } else if c < 0x800 {
            2
        } else if c < 0x10000 {
            3
        } else {
            4
        };
        assert(s@.subrange(0, i + 1).drop_last() =~= s@.subrange(0, i as int));
        if acc >= cap - b {
            proof {
                lemma_utf8_len_grows(s@, i + 1);
            }
            return cap;
        }
        acc = acc + b;
        i = i + 1;
    }
    assert(s@.subrange(0, n as int) =~= s@);
    acc
}

/// Whether a reply of `next_len` bytes may join a pending message of
/// `message_len` bytes, with the blank line between them.
pub open spec fn fits(next_len: nat, message_len: nat) -> bool {
    next_len + message_len + 2 < MESSAGE_LIMIT
}

/// The messages sent so far and the one pending, after the replies are taken
/// in order: a reply that fits joins the pending message, separated by a blank
/// line where it is not empty; one that does not fit sends the pending message,
/// where there is one, and starts the next; one too large for any message is
/// left out.
pub open spec fn pack_state(replies: Seq<Seq<char>>) -> (Seq<Seq<char>>, Seq<char>)
    decreases replies.len(),
{
    if replies.len() == 0 {
        (Seq::<Seq<char>>::empty(), Seq::<char>::empty())
    } else {
        let (sent, message) = pack_state(replies.drop_last());
        let next = replies.last();
        if fits(utf8_len(next), utf8_len(message)) {
            (sent, if message.len() == 0 {
                next
            } else {
                message + "\n\n"@ + next
            })
        } else if fits(utf8_len(next), 0) {
            (if message.len() == 0 {
                sent
            } else {
                sent.push(message)
            }, next)
        } else {
            (sent, message)
        }
    }
}

/// The messages that carry a list of replies.
pub open spec fn packed(replies: Seq<Seq<char>>) -> Seq<Seq<char>> {
    let (sent, message) = pack_state(replies);
    if message.len() > 0 {
        sent.push(message)
    } else {
        sent
    }
}

proof fn lemma_utf8_len_concat(a: Seq<char>, b: Seq<char>)
    ensures
        utf8_len(a + b) == utf8_len(a) + utf8_len(b),
    decreases b.len(),
{
    if b.len() > 0 {
        assert((a + b).drop_last() =~= a + b.drop_last());
        lemma_utf8_len_concat(a, b.drop_last());
    } else {
        assert(a + b =~= a);
    }
}

/// Packs replies into as few messages as the size limit allows, in order;
/// every message is under the limit.
pub fn pack_replies(replies: &Vec<String>) -> (r: Vec<String>)
    ensures
        views(r@) == packed(views(replies@)),
        forall|k: int| 0 <= k < r@.len() ==> utf8_len(#[trigger] r@[k]@) < MESSAGE_LIMIT,
{
    let ghost rv = views(replies@);
    let mut sent: Vec<String> = Vec::new();
    let mut message = String::new();
    let mut i: usize = 0;
    assert(rv.subrange(0, 0) =~= Seq::<Seq<char>>::empty());
    while i < replies.len()
        invariant
            rv == views(replies@),
            i <= replies@.len(),
            pack_state(rv.subrange(0, i as int)) == (views(sent@), message@),
            utf8_len(message@) < MESSAGE_LIMIT,
            forall|k: int| 0 <= k < sent@.len() ==> utf8_len(#[trigger] sent@[k]@) < MESSAGE_LIMIT,
        decreases replies@.len() - i,
    {
        let next = replies[i].as_str();
        assert(rv.subrange(0, i + 1).drop_last() =~= rv.subrange(0, i as int));
        assert(rv.subrange(0, i + 1).last() == next@);
        let a = utf8_len_capped(next, MESSAGE_LIMIT);
        let b = utf8_len_capped(message.as_str(), MESSAGE_LIMIT);
        if a + b + 2 < MESSAGE_LIMIT {
            let ghost m0 = message@;
            if message.unicode_len() != 0 {
                message.append("\n\n");
                proof {
                    reveal_strlit("\n\n");
                    let nn = "\n\n"@;
                    assert(nn.drop_last().drop_last() =~= Seq::<char>::empty());
                    assert(utf8_len(nn.drop_last().drop_last()) == 0);
                    assert(utf8_len(nn.drop_last()) == 1);
                    assert(utf8_len(nn) == 2);
                    lemma_utf8_len_concat(m0, nn);
                }
            }
            let ghost m1 = message@;
            message.append(next);
            proof {
                lemma_utf8_len_concat(m1, next@);
            }
        } else if a + 2 < MESSAGE_LIMIT {
            if message.unicode_len() != 0 {
                let ghost prev = sent@;
                let ghost mv = message@;
                sent.push(message);
                assert(views(sent@) =~= views(prev).push(mv));
                assert(sent@[prev.len() as int]@ == mv);
            }
            message = String::from_str(next);
        }
        i = i + 1;
    }
    assert(rv.subrange(0, replies@.len() as int) =~= rv);
    if message.unicode_len() > 0 {
        let ghost prev = sent@;
        let ghost mv = message@;
        sent.push(message);
        assert(views(sent@) =~= views(prev).push(mv));
        assert(sent@[prev.len() as int]@ == mv);
    }
    sent
}

/// Whether a command is carried out for its sender.
pub enum Gate {
    Allowed,
    /// An administrator's command from someone else.
    Denied,
    /// A game command outside the event window.
    NotYet,
}

pub open spec fn is_admin_command(c: BotCommands) -> bool {
    c is AdminCreate || c is AdminDelete || c is AdminEdit || c is AdminScoreboard
        || c is AdminMessageAll
}

pub open spec fn is_game_command(c: BotCommands) -> bool {
    c is UserScore || c is UserTasks || c is UserCode || c is UserSecretFlag
}

impl BotCommands {
    /// Administrators' commands are for administrators; the game's commands
    /// (score, tasks, code, secret) wait for the event window; help, rules,
    /// contact and unknown words are always answered.
    pub fn gate(&self, is_admin: bool, can_process: bool) -> (r: Gate)
        ensures
            is_admin_command(*self) ==> (if is_admin {
                r is Allowed
            } else {
                r is Denied
            }),
            is_game_command(*self) ==> (if can_process {
                r is Allowed
            } else {
                r is NotYet
            }),
            !is_admin_command(*self) && !is_game_command(*self) ==> r is Allowed,
    {
        match self {
            BotCommands::AdminCreate | BotCommands::AdminDelete | BotCommands::AdminEdit
            | BotCommands::AdminScoreboard | BotCommands::AdminMessageAll => {
                if is_admin {
                    Gate::Allowed
                } else {
                    Gate::Denied
                }
            },
            BotCommands::UserScore | BotCommands::UserTasks | BotCommands::UserCode
            | BotCommands::UserSecretFlag => {
                if can_process {
                    Gate::Allowed
                } else {
                    Gate::NotYet
                }
            },
            _ => Gate::Allowed,
        }
    }
}

/// What a text that is not a command does, given the sender's session state.
pub enum DataAction {
    /// Idle, during the event: the text is an answer.
    SubmitAnswer,
    /// Idle, outside the event window.
    NotYet,
    /// Contact session ended by `.`: send the buffer, about the task with
    /// this id if the session names one.
    SendContact(Option<String>),
    /// Contact or broadcast session: the text joins the buffer.
    AppendToBuffer,
    /// Task creation session: the text describes the new task.
    CreateTask,
    /// Broadcast session ended by `.`: send the buffer to everyone.
    Broadcast,
    /// Edit session: the text describes the task with this id anew.
    EditTask(String),
    /// Any other state: reset the session.
    Reset,
}

/// Decides what a text does in the session state `state` (`None` when idle).
/// A state `contact` or `contact_<id>` collects a message to the organisers,
/// `create` a new task, `message` a broadcast, `edit_<id>` a task's new text.
pub fn data_action(state: Option<&str>, text: &str, can_process: bool) -> (r: DataAction)
    ensures
        state is None ==> (if can_process {
            r is SubmitAnswer
        } else {
            r is NotYet
        }),
        state is Some && has_prefix(state->Some_0@, "contact"@) ==> (if text@ == "."@ {
            match r {
                DataAction::SendContact(topic) => if split_on(state->Some_0@, '_').len() == 2 {
                    topic is Some && topic->Some_0@ == split_on(state->Some_0@, '_')[1]
                } else {
                    topic is None
                },
                _ => false,
            }
        } else {
            r is AppendToBuffer
        }),
        state is Some && !has_prefix(state->Some_0@, "contact"@) && state->Some_0@ == "create"@
            ==> r is CreateTask,
        state is Some && !has_prefix(state->Some_0@, "contact"@) && state->Some_0@ == "message"@
            ==> (if text@ == "."@ {
            r is Broadcast
        } else {
            r is AppendToBuffer
        }),
        state is Some && !has_prefix(state->Some_0@, "contact"@) && state->Some_0@ != "create"@
            && state->Some_0@ != "message"@ && has_prefix(state->Some_0@, "edit_"@) ==> (match r {
            DataAction::EditTask(id) => id@ == split_on(state->Some_0@, '_').last(),
            _ => false,
        }),
        state is Some && !has_prefix(state->Some_0@, "contact"@) && state->Some_0@ != "create"@
            && state->Some_0@ != "message"@ && !has_prefix(state->Some_0@, "edit_"@) ==> r is Reset,
{
    match state {
        None => {
            if can_process {
                DataAction::SubmitAnswer
            } else {
                DataAction::NotYet
            }
        },
        Some(state) => {
            proof {
                reveal_strlit("create");
                reveal_strlit("message");
            }
            if starts_with(state, "contact") {
                if same_text(text, ".") {
                    let parts = split(state, '_');
                    if parts.len() == 2 {
                        assert(views(parts@)[1] == parts@[1]@);
                        DataAction::SendContact(Some(parts[1].clone()))
                    } else {
                        DataAction::SendContact(None)
                    }
                } else {
                    DataAction::AppendToBuffer
                }
            } else if same_text(state, "create") {
                DataAction::CreateTask
            } else if same_text(state, "message") {
                if same_text(text, ".") {
                    DataAction::Broadcast
                } else {
                    DataAction::AppendToBuffer
                }
            } else if starts_with(state, "edit_") {
                let mut parts = split(state, '_');
                proof {
                    lemma_split_nonempty(state@, '_');
                }
                let ghost pv = views(parts@);
                match parts.pop() {
                    Some(id) => {
                        assert(pv.last() == id@);
                        DataAction::EditTask(id)
                    },
                    None => DataAction::Reset,
                }
            } else {
                DataAction::Reset
            }
        },
    }
}

} // verus!
