use vstd::prelude::*;
use crate::strings::{join, join_with, views};

verus! {

/// A participant's profile as the club's directory gives it.
pub struct Vas3kUser {
    pub telegram_id: i64,
    pub id: String,
    pub slug: String,
    pub full_name: String,
    pub avatar: String,
    pub bio: String,
    pub upvotes: i64,
    pub created_at: String,
    pub membership_started_at: String,
    pub membership_expires_at: String,
    pub moderation_status: String,
    pub payment_status: String,
    pub company: Option<String>,
    pub position: Option<String>,
    pub city: Option<String>,
    pub country: Option<String>,
    pub is_active_member: bool,
}

/// The accepted answers of a task: one, or several.
pub enum FlagType {
    Single(String),
    Multi(Vec<String>),
}

/// A challenge of the catalog.
pub struct Task {
    pub name: String,
    pub flag: FlagType,
    pub hint: String,
    pub id: String,
    pub hidden: bool,
}

/// What a submitted answer led to.
pub enum SubmissionResult {
    NotAFlag,
    AlreadySolved,
    Solved(String),
}

/// A participant's ledger: the keys of the tasks credited to them.
pub struct Solve {
    pub solves: Vec<String>,
}

impl FlagType {
    /// The accepted answers.
    pub open spec fn answers(&self) -> Seq<Seq<char>> {
        match self {
            FlagType::Single(s) => seq![s@],
            FlagType::Multi(vs) => views(vs@),
        }
    }

    /// The flag in one string, answers separated by commas.
    pub fn render(&self) -> (r: String)
        ensures
            r@ == join_with(self.answers(), ","@),
    {
        match self {
            FlagType::Single(s) => {
                let r = s.clone();
                assert(join_with(seq![s@], ","@) == s@);
                r
            },
            FlagType::Multi(vs) => join(vs, ","),
        }
    }
}

impl Default for FlagType {
    fn default() -> (r: Self)
        ensures
            r.answers() == seq![Seq::<char>::empty()],
    {
        FlagType::Single(String::new())
    }
}

impl Vas3kUser {
    /// How a profile is shown: full name, then the slug in parentheses.
    pub open spec fn shown(&self) -> Seq<char> {
        self.full_name@ + " ("@ + self.slug@ + ")"@
    }

    pub fn display(&self) -> (r: String)
        ensures
            r@ == self.shown(),
    {
        let r = self.full_name.clone().concat(" (");
        let r = r.concat(self.slug.as_str());
        r.concat(")")
    }
}

} // verus!
