use vstd::prelude::*;

verus! {

/// Asks the user before the application closes.
///
/// The first request to close opens a dialog with the question; while it is
/// open, further requests open none.  The user's answer, once it arrives,
/// decides whether the application may close.  Once allowed, closing stays
/// allowed.
pub struct ConfirmExit {
    close_is_allowed: bool,
    dialog_open: bool,
    title: String,
    question: String,
    label_ok: String,
    label_cancel: String,
}

/// The dialog to show: a title, a question, and a button to cancel and one
/// to confirm, in this order; cancelling is also what leaving the dialog
/// does.
pub struct ConfirmDialog {
    pub title: String,
    pub question: String,
    pub label_cancel: String,
    pub label_ok: String,
}

/// What came back from the open dialog when it was last looked at.
#[derive(Clone, Copy, PartialEq, Eq, Structural, Debug)]
pub enum DialogReply {
    /// The user answered: `true` to close, `false` to stay.
    Answer(bool),
    /// The dialog went away without an answer.
    Disconnected,
    /// No answer yet.
    Pending,
}

impl Default for ConfirmExit {
    fn default() -> (r: Self)
        ensures
            r.is_english(),
    {
        ConfirmExit::english()
    }
}

impl ConfirmExit {
    pub closed spec fn close_allowed(&self) -> bool {
        self.close_is_allowed
    }

    pub closed spec fn is_dialog_open(&self) -> bool {
        self.dialog_open
    }

    pub closed spec fn texts(&self) -> (Seq<char>, Seq<char>, Seq<char>, Seq<char>) {
        (self.title@, self.question@, self.label_ok@, self.label_cancel@)
    }

    /// The state in which `english` starts.
    pub open spec fn is_english(&self) -> bool {
        &&& !self.close_allowed()
        &&& !self.is_dialog_open()
        &&& self.texts() == (
            "Close?"@,
            "Shall the app be closed?"@,
            "Ok"@,
            "Cancel"@,
        )
    }

    /// Starts with closing not allowed and no dialog open.
    pub fn new(title: String, question: String, label_ok: String, label_cancel: String) -> (r: Self)
        ensures
            !r.close_allowed(),
            !r.is_dialog_open(),
            r.texts() == (title@, question@, label_ok@, label_cancel@),
    {
        ConfirmExit {
            close_is_allowed: false,
            dialog_open: false,
            title,
            question,
            label_ok,
            label_cancel,
        }
    }

    /// The English texts.
    pub fn english() -> (r: Self)
        ensures
            r.is_english(),
    {
        ConfirmExit::new(
            "Close?".to_owned(),
            "Shall the app be closed?".to_owned(),
            "Ok".to_owned(),
            "Cancel".to_owned(),
        )
    }

    /// Whether a dialog is open, whose answer `shall_be_closed` waits for.
    pub fn dialog_open(&self) -> (r: bool)
        ensures
            r == self.is_dialog_open(),
    {
        self.dialog_open
    }

    /// The user asked to close: unless closing is already allowed or a
    /// dialog is already open, returns the dialog to open.
    pub fn close_event(&mut self) -> (r: Option<ConfirmDialog>)
        ensures
            final(self).close_allowed() == old(self).close_allowed(),
            final(self).texts() == old(self).texts(),
            match r {
                Some(d) => {
                    &&& !old(self).close_allowed()
                    &&& !old(self).is_dialog_open()
                    &&& final(self).is_dialog_open()
                    &&& (d.title@, d.question@, d.label_ok@, d.label_cancel@) == old(self).texts()
                },
                None => {
                    &&& (old(self).close_allowed() || old(self).is_dialog_open())
                    &&& final(self).is_dialog_open() == old(self).is_dialog_open()
                },
            },
    {
        if self.close_is_allowed || self.dialog_open {
            None
        } else {
            self.dialog_open = true;
            Some(
                ConfirmDialog {
                    title: self.title.clone(),
                    question: self.question.clone(),
                    label_cancel: self.label_cancel.clone(),
                    label_ok: self.label_ok.clone(),
                },
            )
        }
    }

    /// Takes what came back from the open dialog (nothing is read when none
    /// is open) and says whether the application may close.
    pub fn shall_be_closed(&mut self, reply: DialogReply) -> (r: bool)
        ensures
            final(self).texts() == old(self).texts(),
            r == final(self).close_allowed(),
            old(self).close_allowed() ==> r,
            old(self).is_dialog_open() ==> match reply {
                DialogReply::Answer(yes) => {
                    &&& final(self).close_allowed() == (old(self).close_allowed() || yes)
                    &&& !final(self).is_dialog_open()
                },
                DialogReply::Disconnected => {
                    &&& final(self).close_allowed() == old(self).close_allowed()
                    &&& !final(self).is_dialog_open()
                },
                DialogReply::Pending => {
                    &&& final(self).close_allowed() == old(self).close_allowed()
                    &&& final(self).is_dialog_open()
                },
            },
            !old(self).is_dialog_open() ==> {
                &&& final(self).close_allowed() == old(self).close_allowed()
                &&& !final(self).is_dialog_open()
            },
    {
        if self.dialog_open {
            match reply {
                DialogReply::Answer(close_is_allowed) => {
                    self.close_is_allowed = self.close_is_allowed || close_is_allowed;
                    self.dialog_open = false;
                },
                DialogReply::Disconnected => {
                    self.dialog_open = false;
                },
                DialogReply::Pending => {},
            }
        }
        self.close_is_allowed
    }
}

} // verus!
