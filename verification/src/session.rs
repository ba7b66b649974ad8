//! Navigation store: the loaded question sequence with its cursor, and the
//! shared state handle that the protocol loop, the completion entry point
//! and the host-exposed navigation operations all go through.
//!
//! Cursor moves are bounds-checked: `advance_session` succeeds exactly when
//! the cursor is not on the last question, `previous_session` exactly when
//! it is not on the first; a failed move leaves the state unchanged.

use vstd::prelude::*;
use crate::table::PendingTable;

verus! {

/// One navigable item. Immutable once loaded: navigation never edits it.
#[derive(Debug, PartialEq)]
pub struct Question {
    pub id: String,
    pub title: String,
    pub description: String,
    pub requirements: Vec<String>,
    pub examples: String,
    pub starter_code: String,
    pub difficulty: String,
    pub topic: String,
}

/// Model of a `Question`.
pub struct QuestionV {
    pub id: Seq<char>,
    pub title: Seq<char>,
    pub description: Seq<char>,
    pub requirements: Seq<Seq<char>>,
    pub examples: Seq<char>,
    pub starter_code: Seq<char>,
    pub difficulty: Seq<char>,
    pub topic: Seq<char>,
}

impl View for Question {
    type V = QuestionV;

    open spec fn view(&self) -> QuestionV {
        QuestionV {
            id: self.id@,
            title: self.title@,
            description: self.description@,
            requirements: self.requirements.deep_view(),
            examples: self.examples@,
            starter_code: self.starter_code@,
            difficulty: self.difficulty@,
            topic: self.topic@,
        }
    }
}

impl Question {
    /// A copy equal to this question in every field.
    pub fn duplicate(&self) -> (r: Question)
        ensures
            r@ == self@,
    {
        let mut reqs: Vec<String> = Vec::new();
        let n = self.requirements.len();
        let mut i: usize = 0;
        while i < n
            invariant
                n == self.requirements@.len(),
                0 <= i <= n,
                reqs@.len() == i,
                forall|j: int| 0 <= j < i ==> reqs@[j]@ == self.requirements@[j]@,
            decreases n - i,
        {
            reqs.push(self.requirements[i].clone());
            i += 1;
        }
        assert(reqs.deep_view() =~~= self.requirements.deep_view());
        let r = Question {
            id: self.id.clone(),
            title: self.title.clone(),
            description: self.description.clone(),
            requirements: reqs,
            examples: self.examples.clone(),
            starter_code: self.starter_code.clone(),
            difficulty: self.difficulty.clone(),
            topic: self.topic.clone(),
        };
        assert(r@ == self@);
        r
    }
}

/// The navigable sequence: an ordered list of questions and a cursor.
/// A score is kept as the decimal text it was read with, unrevised.
#[derive(Debug, PartialEq)]
pub struct Session {
    pub session_id: String,
    pub topic: String,
    pub difficulty: String,
    pub questions_per_session: usize,
    pub current_question_index: usize,
    pub questions: Vec<Question>,
    pub start_time: String,
    pub scores: Vec<Vec<u8>>,
}

/// Model of a `Session`.
pub struct SessionV {
    pub session_id: Seq<char>,
    pub topic: Seq<char>,
    pub difficulty: Seq<char>,
    pub questions_per_session: int,
    pub current_question_index: int,
    pub questions: Seq<QuestionV>,
    pub start_time: Seq<char>,
    pub scores: Seq<Seq<u8>>,
}

pub open spec fn questions_view(qs: Seq<Question>) -> Seq<QuestionV> {
    qs.map_values(|q: Question| q@)
}

impl View for Session {
    type V = SessionV;

    open spec fn view(&self) -> SessionV {
        SessionV {
            session_id: self.session_id@,
            topic: self.topic@,
            difficulty: self.difficulty@,
            questions_per_session: self.questions_per_session as int,
            current_question_index: self.current_question_index as int,
            questions: questions_view(self.questions@),
            start_time: self.start_time@,
            scores: self.scores.deep_view(),
        }
    }
}

/// Navigation and loading failures, converted to plain strings only at the
/// process boundary.
#[derive(Clone, Copy, Debug, PartialEq, Eq, Structural)]
pub enum NavError {
    NoActiveSession,
    NoMoreItems,
    AlreadyAtFirst,
}

impl NavError {
    /// The boundary string handed across the process edge for this error.
    pub fn message(&self) -> (r: &'static str)
        ensures
            *self == NavError::NoActiveSession ==> r@ == "No active session"@,
            *self == NavError::NoMoreItems ==> r@ == "No more questions in session"@,
            *self == NavError::AlreadyAtFirst ==> r@ == "Already at first question"@,
    {
        match self {
            NavError::NoActiveSession => "No active session",
            NavError::NoMoreItems => "No more questions in session",
            NavError::AlreadyAtFirst => "Already at first question",
        }
    }
}

/// Shared context handle: the loaded session and the correlation table for
/// pending bridged requests, each guarded by one lock in the surrounding
/// process.
pub struct AppState<S> {
    pub session: Option<Session>,
    pub pending_requests: PendingTable<S>,
}

impl<S> AppState<S> {
    pub open spec fn wf(&self) -> bool {
        self.pending_requests.wf()
    }

    pub fn new() -> (r: Self)
        ensures
            r.session is None,
            r.pending_requests@ == Map::<Seq<u8>, S>::empty(),
            r.wf(),
    {
        AppState { session: None, pending_requests: PendingTable::new() }
    }

    /// Replaces the in-memory sequence wholesale.
    pub fn install_session(&mut self, s: Session)
        ensures
            final(self).session == Some(s),
            final(self).pending_requests == old(self).pending_requests,
    {
        self.session = Some(s);
    }

    /// The question under the cursor. When the sequence is non-empty but
    /// the cursor is out of range, the last question comes back and the
    /// stored cursor stays as it is; with no session or an empty sequence
    /// the call fails.
    pub fn get_current_question(&self) -> (r: Result<Question, NavError>)
        ensures
            match self.session {
                Some(s) => if s.questions@.len() == 0 {
                    r == Result::<Question, NavError>::Err(NavError::NoActiveSession)
                } else if s.current_question_index < s.questions@.len() {
                    r matches Ok(q) && q@ == s@.questions[s.current_question_index as int]
                } else {
                    r matches Ok(q) && q@ == s@.questions.last()
                },
                None => r == Result::<Question, NavError>::Err(NavError::NoActiveSession),
            },
    {
        match &self.session {
            Some(s) => {
                if s.questions.len() == 0 {
                    Err(NavError::NoActiveSession)
                } else if s.current_question_index < s.questions.len() {
                    Ok(s.questions[s.current_question_index].duplicate())
                } else {
                    Ok(s.questions[s.questions.len() - 1].duplicate())
                }
            },
            None => Err(NavError::NoActiveSession),
        }
    }

    /// Moves the cursor forward. Succeeds exactly when the cursor has a
    /// question after it; a failed move leaves everything unchanged.
    pub fn advance_session(&mut self) -> (r: Result<Question, NavError>)
        ensures
            final(self).pending_requests == old(self).pending_requests,
            match old(self).session {
                Some(s) => if s.current_question_index + 1 < s.questions@.len() {
                    &&& r matches Ok(q) && q@ == s@.questions[s.current_question_index + 1]
                    &&& final(self).session matches Some(s2)
                        && s2@ == SessionV {
                            current_question_index: s.current_question_index + 1,
                            ..s@
                        }
                } else {
                    r == Result::<Question, NavError>::Err(NavError::NoMoreItems)
                        && final(self).session == old(self).session
                },
                None => r == Result::<Question, NavError>::Err(NavError::NoActiveSession)
                    && final(self).session == old(self).session,
            },
    {
        match &mut self.session {
            Some(s) => {
                if s.questions.len() > 0 && s.current_question_index < s.questions.len() - 1 {
                    s.current_question_index = s.current_question_index + 1;
                    let q = s.questions[s.current_question_index].duplicate();
                    Ok(q)
                } else {
                    Err(NavError::NoMoreItems)
                }
            },
            None => Err(NavError::NoActiveSession),
        }
    }

    /// Moves the cursor back. Succeeds exactly when the cursor is past the
    /// first question; a failed move leaves everything unchanged.
    pub fn previous_session(&mut self) -> (r: Result<Question, NavError>)
        ensures
            final(self).pending_requests == old(self).pending_requests,
            match old(self).session {
                Some(s) => if s.current_question_index > 0 {
                    &&& final(self).session matches Some(s2)
                        && s2@ == SessionV {
                            current_question_index: s.current_question_index - 1,
                            ..s@
                        }
                    &&& if s.current_question_index - 1 < s.questions@.len() {
                        r matches Ok(q) && q@ == s@.questions[s.current_question_index - 1]
                    } else {
                        r == Result::<Question, NavError>::Err(NavError::NoActiveSession)
                    }
                } else {
                    r == Result::<Question, NavError>::Err(NavError::AlreadyAtFirst)
                        && final(self).session == old(self).session
                },
                None => r == Result::<Question, NavError>::Err(NavError::NoActiveSession)
                    && final(self).session == old(self).session,
            },
    {
        match &mut self.session {
            Some(s) => {
                if s.current_question_index > 0 {
                    s.current_question_index = s.current_question_index - 1;
                    if s.current_question_index < s.questions.len() {
                        let q = s.questions[s.current_question_index].duplicate();
                        Ok(q)
                    } else {
                        Err(NavError::NoActiveSession)
                    }
                } else {
                    Err(NavError::AlreadyAtFirst)
                }
            },
            None => Err(NavError::NoActiveSession),
        }
    }
}

} // verus!
