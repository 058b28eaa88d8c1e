//! The dialogue with the user: after each answer, whether to generate another
//! passphrase or to stop.
//!
//! The answers are not kept apart. Each one is appended to what was read
//! before, line ending included, and the whole is compared with `n`.

use vstd::prelude::*;
use vstd::string::StringExecFns;

verus! {

/// What follows an answer.
#[derive(Clone, Copy, Debug, PartialEq, Eq, Structural)]
pub enum Action {
    /// Leave the dialogue.
    Quit,
    /// Generate a passphrase and ask again.
    Generate,
}

/// What follows once `answers` is all that has been read: the dialogue ends
/// where that is the one character `n`, and goes on otherwise.
pub open spec fn action_after(answers: Seq<char>) -> Action {
    if answers == seq!['n'] {
        Action::Quit
    } else {
        Action::Generate
    }
}

/// A dialogue: all answers read so far, one after another.
pub struct Session {
    answers: String,
}

impl View for Session {
    type V = Seq<char>;

    closed spec fn view(&self) -> Seq<char> {
        self.answers@
    }
}

impl Session {
    /// A dialogue in which nothing has been read.
    pub fn new() -> (session: Session)
        ensures
            session@ == Seq::<char>::empty(),
    {
        Session { answers: String::new() }
    }

    /// Takes the next answer as it was read and says what follows.
    pub fn answer(&mut self, line: &str) -> (action: Action)
        ensures
            final(self)@ == old(self)@ + line@,
            action == action_after(final(self)@),
    {
        self.answers.append(line);
        let stop: String = String::from_str("n");
        proof {
            reveal_strlit("n");
            assert(stop@ =~= seq!['n']);
        }
        if self.answers == stop {
            Action::Quit
        } else {
            Action::Generate
        }
    }
}

/// Once something other than `n` has been read, no further answer ends the
/// dialogue.
pub proof fn lemma_never_quits_later(answers: Seq<char>, more: Seq<char>)
    requires
        answers.len() > 0,
        action_after(answers) == Action::Generate,
    ensures
        action_after(answers + more) == Action::Generate,
{
    if answers + more == seq!['n'] {
        assert((answers + more).len() == 1);
        assert(more.len() == 0);
        assert(answers + more == answers);
    }
}

} // verus!
