//! Programs to run, and what came of running them.
//!
//! The library decides which program runs with which arguments and reads what
//! came back. Starting the program is left to the caller.

use vstd::prelude::*;

use crate::text::texts;

verus! {

/// A program and its arguments.
#[derive(Debug)]
pub struct Invocation<S = String, L = Vec<String>> {
    pub program: S,
    pub args: L,
}

impl View for Invocation {
    type V = Invocation<Seq<char>, Seq<Seq<char>>>;

    open spec fn view(&self) -> Invocation<Seq<char>, Seq<Seq<char>>> {
        Invocation { program: self.program@, args: texts(self.args@) }
    }
}

/// What came of running a program.
#[derive(Debug)]
pub enum Outcome<S = String, B = Vec<u8>> {
    /// The program could not be started.
    NotStarted { cause: S },
    /// The program ran to its end. `status` is the exit status in words.
    Ended { success: bool, status: S, stdout: B, stderr: B },
}

impl View for Outcome {
    type V = Outcome<Seq<char>, Seq<u8>>;

    open spec fn view(&self) -> Outcome<Seq<char>, Seq<u8>> {
        match *self {
            Outcome::NotStarted { cause } => Outcome::NotStarted { cause: cause@ },
            Outcome::Ended { success, status, stdout, stderr } => Outcome::Ended {
                success,
                status: status@,
                stdout: stdout@,
                stderr: stderr@,
            },
        }
    }
}

/// A path on this machine: its text, where it is valid Unicode, and the form in
/// which it is shown to people.
#[derive(Debug)]
pub struct LocalPath<S = String> {
    pub text: Option<S>,
    pub shown: S,
}

impl View for LocalPath {
    type V = LocalPath<Seq<char>>;

    open spec fn view(&self) -> LocalPath<Seq<char>> {
        LocalPath {
            text: match self.text {
                Some(t) => Some(t@),
                None => None,
            },
            shown: self.shown@,
        }
    }
}

/// An invocation that may be absent, by its view.
pub open spec fn invocation_view(i: Option<Invocation>) -> Option<
    Invocation<Seq<char>, Seq<Seq<char>>>,
> {
    match i {
        Some(i) => Some(i@),
        None => None,
    }
}

/// What is reasoned about is what is there: a program and its arguments, what came of
/// running it, and a path are seen as they are, part for part.
pub proof fn lemma_seen_as_they_are(i: Invocation, o: Outcome, p: LocalPath, n: int)
    ensures
        i@.program == i.program@,
        i@.args.len() == i.args@.len(),
        0 <= n < i.args@.len() ==> i@.args[n] == i.args@[n]@,
        o matches Outcome::NotStarted { cause } ==> o@ == (Outcome::<Seq<char>, Seq<u8>>::NotStarted {
            cause: cause@,
        }),
        o matches Outcome::Ended { success, status, stdout, stderr } ==> o@ == (Outcome::<
            Seq<char>,
            Seq<u8>,
        >::Ended { success, status: status@, stdout: stdout@, stderr: stderr@ }),
        p@.shown == p.shown@,
        p.text is None ==> p@.text is None,
        p.text matches Some(t) ==> p@.text == Some(t@),
{
}

} // verus!
