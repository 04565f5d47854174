//! What a user works with between opening a document and saving the cleaned one: the candidates,
//! which of them are checked, further keywords, and a log.
//!
//! The window is drawn frame by frame. It tells the session what happens, and the session tells it
//! what to do: see [`Session::save`].

use crate::analysis::{candidate_values, Candidate, CandidateValue};
use crate::text::{listed_keywords, push_text, split_keywords, texts};
use vstd::prelude::*;

verus! {

/// How far the saving of a cleaned document has come in a frame.
#[derive(Debug, Clone, Copy, PartialEq, Eq, Structural)]
pub enum Saving {
    /// It has not been asked for.
    Idle,
    /// The user chooses where to save.
    Choosing,
    /// The watermarks are being removed.
    Removing,
    /// It is over.
    Done,
}

/// What happens to the saving of a cleaned document. Files are told by values of type `P`.
pub enum SaveEvent<P> {
    /// The button was clicked.
    Clicked,
    /// The user chose where to save, or chose nothing.
    Chosen(Option<P>),
    /// The watermarks were removed and the document was saved.
    Saved { status: String, line: String },
    /// The removal failed.
    Failed { line: String },
}

/// What is to be done for the saving of a cleaned document.
pub enum SaveAction<P> {
    /// Nothing.
    Nothing,
    /// Let the user choose where to save.
    Choose,
    /// Remove the watermarks from the document that is open, without a password, and save it.
    Remove { output: P, keywords: Vec<String> },
}

/// What a [`SaveEvent`] holds.
pub enum SaveEventValue<P> {
    Clicked,
    Chosen(Option<P>),
    Saved { status: Seq<char>, line: Seq<char> },
    Failed { line: Seq<char> },
}

/// What a [`SaveAction`] holds.
pub enum SaveActionValue<P> {
    Nothing,
    Choose,
    Remove { output: P, keywords: Seq<Seq<char>> },
}

impl<P> View for SaveEvent<P> {
    type V = SaveEventValue<P>;

    open spec fn view(&self) -> SaveEventValue<P> {
        match *self {
            SaveEvent::Clicked => SaveEventValue::Clicked,
            SaveEvent::Chosen(output) => SaveEventValue::Chosen(output),
            SaveEvent::Saved { status, line } => SaveEventValue::Saved { status: status@, line: line@ },
            SaveEvent::Failed { line } => SaveEventValue::Failed { line: line@ },
        }
    }
}

impl<P> View for SaveAction<P> {
    type V = SaveActionValue<P>;

    open spec fn view(&self) -> SaveActionValue<P> {
        match *self {
            SaveAction::Nothing => SaveActionValue::Nothing,
            SaveAction::Choose => SaveActionValue::Choose,
            SaveAction::Remove { output, keywords } => SaveActionValue::Remove { output, keywords: texts(keywords@) },
        }
    }
}

/// A session. At first no document is open. Files are told by values of type `P`.
pub struct Session<P> {
    input: Option<P>,
    saving: Saving,
    candidates: Vec<Candidate>,
    checked: Vec<bool>,
    manual_keywords: String,
    log: Vec<String>,
    status: String,
}

/// What a [`Session`] holds.
pub struct SessionValue<P> {
    /// The document that is open.
    pub input: Option<P>,
    /// How far the saving has come in this frame.
    pub saving: Saving,
    /// The candidates of the document.
    pub candidates: Seq<CandidateValue>,
    /// Which of the candidates are checked.
    pub checked: Seq<bool>,
    /// The list of further keywords.
    pub manual_keywords: Seq<char>,
    /// The lines of the log.
    pub log: Seq<Seq<char>>,
    /// The status line.
    pub status: Seq<char>,
}

impl<P> View for Session<P> {
    type V = SessionValue<P>;

    closed spec fn view(&self) -> SessionValue<P> {
        SessionValue {
            input: self.input,
            saving: self.saving,
            candidates: candidate_values(self.candidates@),
            checked: self.checked@,
            manual_keywords: self.manual_keywords@,
            log: texts(self.log@),
            status: self.status@,
        }
    }
}

/// The log once a line is added: of more than 200 lines the first 50 go.
pub open spec fn log_with(log: Seq<Seq<char>>, line: Seq<char>) -> Seq<Seq<char>> {
    let longer = log.push(line);
    if longer.len() > 200 {
        longer.subrange(50, longer.len() as int)
    } else {
        longer
    }
}

/// The texts of the checked ones of the first `n` candidates.
pub open spec fn checked_texts(candidates: Seq<CandidateValue>, checked: Seq<bool>, n: int) -> Seq<Seq<char>>
    decreases n,
{
    if n <= 0 {
        Seq::empty()
    } else if checked[n - 1] {
        checked_texts(candidates, checked, n - 1).push(candidates[n - 1].text)
    } else {
        checked_texts(candidates, checked, n - 1)
    }
}

/// The keywords that a session has chosen: the texts of the checked candidates, then those of the
/// list of further keywords.
pub open spec fn chosen_keywords<P>(session: SessionValue<P>) -> Seq<Seq<char>> {
    checked_texts(session.candidates, session.checked, session.candidates.len() as int) + listed_keywords(
        session.manual_keywords,
    )
}

/// A session that shows new candidates, none of them checked.
pub open spec fn showing<P>(
    session: SessionValue<P>,
    candidates: Seq<CandidateValue>,
    status: Seq<char>,
) -> SessionValue<P> {
    SessionValue { candidates, checked: Seq::new(candidates.len(), |i: int| false), status, ..session }
}

/// A session in which a candidate is checked or unchecked.
pub open spec fn checking<P>(session: SessionValue<P>, i: int, on: bool) -> SessionValue<P> {
    if 0 <= i < session.checked.len() {
        SessionValue { checked: session.checked.update(i, on), ..session }
    } else {
        session
    }
}

/// Whether a cleaned document can be saved: one is open, and there are keywords.
pub open spec fn is_ready<P>(session: SessionValue<P>) -> bool {
    session.input is Some && chosen_keywords(session).len() > 0
}

/// What an event does to the session, and what is to be done. A click counts once in a frame, and
/// only where a cleaned document can be saved. The removal comes once the user has chosen a file.
pub open spec fn save_step<P>(session: SessionValue<P>, event: SaveEventValue<P>) -> (
    SessionValue<P>,
    SaveActionValue<P>,
) {
    match (session.saving, event) {
        (Saving::Idle, SaveEventValue::Clicked) => if is_ready(session) {
            (SessionValue { saving: Saving::Choosing, ..session }, SaveActionValue::Choose)
        } else {
            (session, SaveActionValue::Nothing)
        },
        (Saving::Choosing, SaveEventValue::Chosen(output)) => if output is Some && is_ready(session) {
            (
                SessionValue { saving: Saving::Removing, ..session },
                SaveActionValue::Remove { output: output->Some_0, keywords: chosen_keywords(session) },
            )
        } else {
            (SessionValue { saving: Saving::Done, ..session }, SaveActionValue::Nothing)
        },
        (Saving::Removing, SaveEventValue::Saved { status, line }) => (
            SessionValue { saving: Saving::Done, status, log: log_with(session.log, line), ..session },
            SaveActionValue::Nothing,
        ),
        (Saving::Removing, SaveEventValue::Failed { line }) => (
            SessionValue { saving: Saving::Done, log: log_with(session.log, line), ..session },
            SaveActionValue::Nothing,
        ),
        _ => (session, SaveActionValue::Nothing),
    }
}

/// What can happen in a frame.
pub enum FrameEvent<P> {
    /// A document was opened and analyzed.
    Opened { input: P, candidates: Seq<CandidateValue>, status: Seq<char> },
    /// The document was analyzed again.
    Analyzed { candidates: Seq<CandidateValue>, status: Seq<char> },
    /// A candidate was checked or unchecked.
    Checked { i: int, on: bool },
    /// The list of further keywords was changed.
    Listed(Seq<char>),
    /// A line was added to the log.
    Logged(Seq<char>),
    /// Something happened to the saving.
    Save(SaveEventValue<P>),
}

/// What an event of a frame does to the session, and what is to be done.
pub open spec fn frame_step<P>(session: SessionValue<P>, event: FrameEvent<P>) -> (
    SessionValue<P>,
    SaveActionValue<P>,
) {
    match event {
        FrameEvent::Opened { input, candidates, status } => (
            SessionValue { input: Some(input), ..showing(session, candidates, status) },
            SaveActionValue::Nothing,
        ),
        FrameEvent::Analyzed { candidates, status } => (
            showing(session, candidates, status),
            SaveActionValue::Nothing,
        ),
        FrameEvent::Checked { i, on } => (checking(session, i, on), SaveActionValue::Nothing),
        FrameEvent::Listed(list) => (
            SessionValue { manual_keywords: list, ..session },
            SaveActionValue::Nothing,
        ),
        FrameEvent::Logged(line) => (
            SessionValue { log: log_with(session.log, line), ..session },
            SaveActionValue::Nothing,
        ),
        FrameEvent::Save(save) => save_step(session, save),
    }
}

/// The session once the first `n` events of a frame have happened.
pub open spec fn session_after<P>(session: SessionValue<P>, events: Seq<FrameEvent<P>>, n: int) -> SessionValue<P>
    decreases n,
{
    if n <= 0 {
        session
    } else {
        frame_step(session_after(session, events, n - 1), events[n - 1]).0
    }
}

/// What is to be done when event `i` of a frame happens.
pub open spec fn action_at<P>(session: SessionValue<P>, events: Seq<FrameEvent<P>>, i: int) -> SaveActionValue<P> {
    frame_step(session_after(session, events, i), events[i]).1
}

proof fn lemma_past_choosing<P>(session: SessionValue<P>, events: Seq<FrameEvent<P>>, i: int, j: int)
    requires
        0 <= i <= j,
        ({
            let saving = session_after(session, events, i).saving;
            saving == Saving::Removing || saving == Saving::Done
        }),
    ensures
        ({
            let saving = session_after(session, events, j).saving;
            saving == Saving::Removing || saving == Saving::Done
        }),
    decreases j - i,
{
    if i < j {
        lemma_past_choosing(session, events, i, j - 1);
    }
}

/// Watermarks are removed once in a frame at most, whatever happens in it.
pub proof fn law_one_removal_in_a_frame<P>(session: SessionValue<P>, events: Seq<FrameEvent<P>>, i: int, j: int)
    requires
        0 <= i < j < events.len(),
        action_at(session, events, i) is Remove,
    ensures
        !(action_at(session, events, j) is Remove),
{
    assert(session_after(session, events, i + 1) == frame_step(session_after(session, events, i), events[i]).0);
    lemma_past_choosing(session, events, i + 1, j);
}

proof fn lemma_choosing_was_clicked<P>(session: SessionValue<P>, events: Seq<FrameEvent<P>>, n: int)
    requires
        session.saving == Saving::Idle,
        0 <= n <= events.len(),
        session_after(session, events, n).saving == Saving::Choosing,
    ensures
        exists|c: int| 0 <= c < n && is_ready_click(session, events, c),
    decreases n,
{
    if n > 0 {
        let before = session_after(session, events, n - 1);
        if before.saving == Saving::Choosing {
            lemma_choosing_was_clicked(session, events, n - 1);
            let c = choose|c: int| 0 <= c < n - 1 && is_ready_click(session, events, c);
            assert(is_ready_click(session, events, c));
        } else {
            assert(is_ready_click(session, events, n - 1));
        }
    }
}

/// Whether event `c` of a frame is a click on the button where a cleaned document can be saved.
pub open spec fn is_ready_click<P>(session: SessionValue<P>, events: Seq<FrameEvent<P>>, c: int) -> bool {
    events[c] == FrameEvent::Save(SaveEventValue::<P>::Clicked) && is_ready(session_after(session, events, c))
}

/// Watermarks are removed only where the user asked for it in the same frame: the button was clicked
/// while a document was open and there were keywords, and then a file was chosen. The removal is from
/// the document that is open, to that file, with the keywords of the session.
pub proof fn law_removal_was_asked_for<P>(session: SessionValue<P>, events: Seq<FrameEvent<P>>, i: int)
    requires
        session.saving == Saving::Idle,
        0 <= i < events.len(),
        action_at(session, events, i) is Remove,
    ensures
        ({
            let now = session_after(session, events, i);
            let action = action_at(session, events, i);
            &&& now.input is Some
            &&& action->keywords == chosen_keywords(now)
            &&& action->keywords.len() > 0
            &&& events[i] == FrameEvent::Save(SaveEventValue::Chosen(Some(action->output)))
        }),
        exists|c: int| 0 <= c < i && is_ready_click(session, events, c),
{
    lemma_choosing_was_clicked(session, events, i);
}

/// Saving leaves the document, the candidates, the checked ones and the keywords as they are. Only a
/// document that was saved changes the status; a removal that failed is only logged.
pub proof fn law_saving_keeps_the_rest<P>(session: SessionValue<P>, event: SaveEventValue<P>)
    ensures
        ({
            let after = save_step(session, event).0;
            &&& after.input == session.input
            &&& after.candidates == session.candidates
            &&& after.checked == session.checked
            &&& after.manual_keywords == session.manual_keywords
            &&& !(event is Saved) ==> after.status == session.status
            &&& after.log == session.log || event is Saved || event is Failed
        }),
{
}

/// The name under which a cleaned document is saved by default.
pub open spec fn cleaned_name(name: Option<Seq<char>>) -> Seq<char> {
    match name {
        Some(name) => "cleaned_"@ + name,
        None => "cleaned_"@ + "output.pdf"@,
    }
}

impl<P> Default for Session<P> {
    /// A session without a document.
    fn default() -> (r: Session<P>)
        ensures
            r.wf(),
            r@.input is None,
            r@.saving == Saving::Idle,
            r@.candidates.len() == 0,
            r@.checked.len() == 0,
            r@.manual_keywords.len() == 0,
            r@.log == seq!["Ready — open a PDF to begin."@],
            r@.status == "Ready"@,
    {
        let log: Vec<String> = vec!["Ready — open a PDF to begin.".to_owned()];
        assert(texts(log@) =~= seq!["Ready — open a PDF to begin."@]);
        Session {
            input: None,
            saving: Saving::Idle,
            candidates: Vec::new(),
            checked: Vec::new(),
            manual_keywords: String::new(),
            log,
            status: "Ready".to_owned(),
        }
    }
}

impl<P> Session<P> {
    /// Each candidate is checked or not, and the log has 200 lines at most.
    pub open spec fn wf(&self) -> bool {
        self@.checked.len() == self@.candidates.len() && self@.log.len() <= 200
    }

    /// Adds a line to the log. A log that grows over 200 lines loses its first 50.
    pub fn log(&mut self, line: String)
        requires
            old(self).wf(),
        ensures
            final(self).wf(),
            final(self)@ == (SessionValue { log: log_with(old(self)@.log, line@), ..old(self)@ }),
            final(self)@.log.len() <= 200,
    {
        let ghost longer = texts(self.log@).push(line@);
        self.log.push(line);
        assert(texts(self.log@) =~= longer);
        if self.log.len() > 200 {
            let rest = self.log.split_off(50);
            assert(texts(rest@) =~= longer.subrange(50, longer.len() as int));
            self.log = rest;
        }
    }

    /// The keywords for the removal: the texts of the checked candidates, then those of the list
    /// of further keywords.
    pub fn keywords(&self) -> (r: Vec<String>)
        requires
            self.wf(),
        ensures
            texts(r@) == chosen_keywords(self@),
    {
        let ghost candidates = self@.candidates;
        let mut out: Vec<String> = Vec::new();
        assert(texts(out@) =~= Seq::<Seq<char>>::empty());
        for i in 0..self.candidates.len()
            invariant
                self.wf(),
                candidates == self@.candidates,
                texts(out@) == checked_texts(candidates, self@.checked, i as int),
        {
            assert(candidates[i as int] == self.candidates@[i as int]@);
            let ghost before = texts(out@);
            if self.checked[i] {
                out.push(self.candidates[i].text.clone());
                assert(texts(out@) =~= before.push(candidates[i as int].text));
            }
        }
        let ghost before = texts(out@);
        let mut listed = split_keywords(self.manual_keywords.as_str());
        let ghost behind = texts(listed@);
        out.append(&mut listed);
        assert(texts(out@) =~= before + behind);
        out
    }

    /// A document was opened and analyzed.
    pub fn opened(&mut self, input: P, candidates: Vec<Candidate>, status: String)
        requires
            old(self).wf(),
        ensures
            final(self).wf(),
            final(self)@ == (SessionValue {
                input: Some(input),
                ..showing(old(self)@, candidate_values(candidates@), status@)
            }),
    {
        self.analyzed(candidates, status);
        self.input = Some(input);
    }

    /// The document was analyzed again.
    pub fn analyzed(&mut self, candidates: Vec<Candidate>, status: String)
        requires
            old(self).wf(),
        ensures
            final(self).wf(),
            final(self)@ == showing(old(self)@, candidate_values(candidates@), status@),
    {
        let mut checked: Vec<bool> = Vec::new();
        for i in 0..candidates.len()
            invariant
                checked@.len() == i,
                forall|j: int| 0 <= j < i ==> checked@[j] == false,
        {
            checked.push(false);
        }
        assert(checked@ =~= Seq::new(candidate_values(candidates@).len(), |i: int| false));
        self.candidates = candidates;
        self.checked = checked;
        self.status = status;
    }

    /// Checks or unchecks a candidate.
    pub fn check(&mut self, i: usize, on: bool)
        requires
            old(self).wf(),
        ensures
            final(self).wf(),
            final(self)@ == checking(old(self)@, i as int, on),
    {
        if i < self.checked.len() {
            self.checked.set(i, on);
        }
    }

    /// Sets the list of further keywords, which is separated by commas.
    pub fn set_manual_keywords(&mut self, list: String)
        requires
            old(self).wf(),
        ensures
            final(self).wf(),
            final(self)@ == (SessionValue { manual_keywords: list@, ..old(self)@ }),
    {
        self.manual_keywords = list;
    }

    /// A frame begins.
    pub fn begin_frame(&mut self)
        requires
            old(self).wf(),
        ensures
            final(self).wf(),
            final(self)@ == (SessionValue { saving: Saving::Idle, ..old(self)@ }),
    {
        self.saving = Saving::Idle;
    }

    /// Something happened to the saving of a cleaned document: tells what is to be done.
    pub fn save(&mut self, event: SaveEvent<P>) -> (r: SaveAction<P>)
        requires
            old(self).wf(),
        ensures
            final(self).wf(),
            final(self)@ == save_step(old(self)@, event@).0,
            r@ == save_step(old(self)@, event@).1,
    {
        match (self.saving, event) {
            (Saving::Idle, SaveEvent::Clicked) => {
                if self.can_save() {
                    self.saving = Saving::Choosing;
                    return SaveAction::Choose;
                }
            },
            (Saving::Choosing, SaveEvent::Chosen(Some(output))) => {
                if self.can_save() {
                    let keywords = self.keywords();
                    self.saving = Saving::Removing;
                    return SaveAction::Remove { output, keywords };
                }
                self.saving = Saving::Done;
            },
            (Saving::Choosing, SaveEvent::Chosen(None)) => {
                self.saving = Saving::Done;
            },
            (Saving::Removing, SaveEvent::Saved { status, line }) => {
                self.saving = Saving::Done;
                self.status = status;
                self.log(line);
            },
            (Saving::Removing, SaveEvent::Failed { line }) => {
                self.saving = Saving::Done;
                self.log(line);
            },
            _ => {},
        }
        SaveAction::Nothing
    }

    /// The document that is open.
    pub fn input(&self) -> (r: Option<&P>)
        ensures
            match r {
                Some(input) => self@.input == Some(*input),
                None => self@.input is None,
            },
    {
        self.input.as_ref()
    }

    /// Whether there is something to analyze again.
    pub fn can_analyze(&self) -> (r: bool)
        ensures
            r == self@.input is Some,
    {
        self.input.is_some()
    }

    /// Whether a cleaned document can be saved: one is open, and there are keywords.
    pub fn can_save(&self) -> (r: bool)
        requires
            self.wf(),
        ensures
            r == is_ready(self@),
    {
        self.input.is_some() && self.keywords().len() > 0
    }

    /// The number of checked candidates.
    pub fn selected(&self) -> (r: usize)
        requires
            self.wf(),
        ensures
            r == checked_texts(self@.candidates, self@.checked, self@.candidates.len() as int).len(),
    {
        let mut n: usize = 0;
        for i in 0..self.checked.len()
            invariant
                self.wf(),
                n <= i,
                n == checked_texts(self@.candidates, self@.checked, i as int).len(),
        {
            if self.checked[i] {
                n += 1;
            }
        }
        n
    }

    /// Whether a candidate is checked.
    pub fn is_checked(&self, i: usize) -> (r: bool)
        requires
            self.wf(),
        ensures
            r == (i < self@.checked.len() && self@.checked[i as int]),
    {
        i < self.checked.len() && self.checked[i]
    }

    /// The candidates.
    pub fn candidates(&self) -> (r: &[Candidate])
        ensures
            candidate_values(r@) == self@.candidates,
    {
        self.candidates.as_slice()
    }

    /// The list of further keywords.
    pub fn manual_keywords(&self) -> (r: &str)
        ensures
            r@ == self@.manual_keywords,
    {
        self.manual_keywords.as_str()
    }

    /// The lines of the log.
    pub fn lines(&self) -> (r: &[String])
        ensures
            texts(r@) == self@.log,
    {
        self.log.as_slice()
    }

    /// The status line.
    pub fn status(&self) -> (r: &str)
        ensures
            r@ == self@.status,
    {
        self.status.as_str()
    }
}

/// The name under which a cleaned document is saved by default: that of the document behind
/// `cleaned_`, if it is known.
pub fn default_output_name(name: Option<&str>) -> (r: String)
    ensures
        r@ == cleaned_name(
            match name {
                Some(text) => Some(text@),
                None => None,
            },
        ),
{
    let mut out = "cleaned_".to_owned();
    push_text(
        &mut out,
        match name {
            Some(text) => text,
            None => "output.pdf",
        },
    );
    out
}

} // verus!
