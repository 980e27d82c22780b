//! Records shared by the store, the reconciler and the aggregators.

use vstd::prelude::*;

verus! {

/// Who wrote a line.
#[derive(Clone, Copy, Debug, PartialEq, Eq, Structural)]
pub enum AuthorType {
    Human,
    AiAgent,
    AiTab,
    Mixed,
}

/// The author type that a stored or exchanged token names. `ai_assist` is a
/// legacy name of `ai_tab`; an empty or unknown token means a human author.
pub open spec fn author_of_token(token: Seq<char>) -> AuthorType {
    if token == "ai_agent"@ {
        AuthorType::AiAgent
    } else if token == "ai_tab"@ || token == "ai_assist"@ {
        AuthorType::AiTab
    } else if token == "mixed"@ {
        AuthorType::Mixed
    } else {
        AuthorType::Human
    }
}

/// The token that names an author type.
pub open spec fn token_of_author(a: AuthorType) -> Seq<char> {
    match a {
        AuthorType::Human => "human"@,
        AuthorType::AiAgent => "ai_agent"@,
        AuthorType::AiTab => "ai_tab"@,
        AuthorType::Mixed => "mixed"@,
    }
}

/// Each author type's own token names it again.
pub proof fn lemma_author_token_round_trip(a: AuthorType)
    ensures
        author_of_token(token_of_author(a)) == a,
{
    reveal_strlit("human");
    reveal_strlit("ai_agent");
    reveal_strlit("ai_tab");
    reveal_strlit("ai_assist");
    reveal_strlit("mixed");
    assert("human"@.len() == 5 && "ai_agent"@.len() == 8 && "mixed"@.len() == 5);
    assert("ai_tab"@.len() == 6 && "ai_assist"@.len() == 9);
    assert("human"@[0] != "mixed"@[0]);
    assert("human"@ != "mixed"@);
}

impl AuthorType {
    /// Reads a token; legacy and unknown tokens map in without failing.
    pub fn from_token(token: &str) -> (r: AuthorType)
        ensures
            r == author_of_token(token@),
    {
        let t = token.to_owned();
        if t == "ai_agent".to_owned() {
            AuthorType::AiAgent
        } else if t == "ai_tab".to_owned() || t == "ai_assist".to_owned() {
            AuthorType::AiTab
        } else if t == "mixed".to_owned() {
            AuthorType::Mixed
        } else {
            AuthorType::Human
        }
    }

    /// The token of this author type.
    pub fn token(&self) -> (r: &'static str)
        ensures
            r@ == token_of_author(*self),
    {
        match self {
            AuthorType::Human => "human",
            AuthorType::AiAgent => "ai_agent",
            AuthorType::AiTab => "ai_tab",
            AuthorType::Mixed => "mixed",
        }
    }
}

/// One stored attribution row of a commit.
#[derive(Clone, Debug)]
pub struct LineAttributionCommitRow {
    pub file_path: String,
    pub start_line: i32,
    pub end_line: i32,
    pub session_id: Option<String>,
    pub author_type: AuthorType,
    pub ai_percentage: Option<i32>,
    pub tool: Option<String>,
    pub model: Option<String>,
}

/// One stored attribution row of a file, with whether its session has a trace.
#[derive(Clone, Debug)]
pub struct LineAttributionRow {
    pub start_line: i32,
    pub end_line: i32,
    pub session_id: Option<String>,
    pub author_type: AuthorType,
    pub ai_percentage: Option<i32>,
    pub tool: Option<String>,
    pub model: Option<String>,
    pub trace_available: i32,
}

/// What is known of a session.
#[derive(Clone, Debug)]
pub struct SessionMetaRow {
    pub tool: Option<String>,
    pub model: Option<String>,
    pub conversation_id: Option<String>,
    pub trace_available: Option<i32>,
}

/// Errors of the attribution operations.
#[derive(Clone, Debug)]
pub enum AttributionError {
    DatabaseError(String),
    SessionNotFound,
}

/// The message of an error.
pub open spec fn error_message(e: AttributionError) -> Seq<char> {
    match e {
        AttributionError::DatabaseError(m) => "Database error: "@ + m@,
        AttributionError::SessionNotFound => "Session not found"@,
    }
}

impl AttributionError {
    /// The message of this error.
    pub fn message(&self) -> (r: String)
        ensures
            r@ == error_message(*self),
    {
        match self {
            AttributionError::DatabaseError(m) => {
                let mut s = "Database error: ".to_owned();
                s.append(m.as_str());
                s
            },
            AttributionError::SessionNotFound => "Session not found".to_owned(),
        }
    }
}

} // verus!
