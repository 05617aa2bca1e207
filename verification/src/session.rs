//! The calculator window's state and how each message changes it.
use vstd::prelude::*;
use crate::Msg;

verus! {

/// The text being edited and the status line of the window.
pub struct Calculator {
    pub out: String,
    pub status_str: String,
}

/// What the window has to do after a message.
#[derive(Debug)]
pub enum Action {
    /// Nothing more.
    Nothing,
    /// Compute the value of this text; its outcome comes back as a message.
    Compute(String),
}

impl Calculator {
    /// A window with empty text and an empty status line.
    pub fn new() -> (r: Calculator)
        ensures
            r.out@ == Seq::<char>::empty(),
            r.status_str@ == Seq::<char>::empty(),
    {
        Calculator { out: String::new(), status_str: String::new() }
    }

    /// Takes in `message`: pressing Enter asks for the value of the text and
    /// changes nothing; an edit or an output replaces the text; a status
    /// replaces the status line.
    pub fn update(&mut self, message: Msg) -> (r: Action)
        ensures
            match message {
                Msg::EnterPressed => {
                    &&& final(self).out@ == old(self).out@
                    &&& final(self).status_str@ == old(self).status_str@
                    &&& r matches Action::Compute(t) && t@ == old(self).out@
                },
                Msg::TextChange(s) => {
                    &&& final(self).out@ == s@
                    &&& final(self).status_str@ == old(self).status_str@
                    &&& r is Nothing
                },
                Msg::Output(s) => {
                    &&& final(self).out@ == s@
                    &&& final(self).status_str@ == old(self).status_str@
                    &&& r is Nothing
                },
                Msg::Status(s) => {
                    &&& final(self).out@ == old(self).out@
                    &&& final(self).status_str@ == s@
                    &&& r is Nothing
                },
            },
    {
        match message {
            Msg::EnterPressed => Action::Compute(self.out.clone()),
            Msg::TextChange(s) => {
                self.out = s;
                Action::Nothing
            },
            Msg::Output(s) => {
                self.out = s;
                Action::Nothing
            },
            Msg::Status(s) => {
                self.status_str = s;
                Action::Nothing
            },
        }
    }
}

} // verus!
