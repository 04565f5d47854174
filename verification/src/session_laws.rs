//! What a session keeps, what it lets the user choose, and when it has watermarks removed.

use crate::analysis::CandidateValue;
use crate::session::{
    checked_texts, checking, chosen_keywords, cleaned_name, frame_step, log_with, save_step, session_after, showing,
    FrameEvent, SaveActionValue, SaveEventValue, Saving, SessionValue,
};
use crate::text::listed_keywords;
use crate::text_laws::law_listed_keyword_is_trimmed;
use vstd::prelude::*;

verus! {

/// A line that is logged comes last. The lines before it stay in order: all of them in a log that has
/// 200 lines then at most, and all but the first 50 in a longer one.
pub proof fn law_log_keeps_its_last_lines(log: Seq<Seq<char>>, line: Seq<char>)
    ensures
        log_with(log, line).last() == line,
        log.len() < 200 ==> log_with(log, line).len() == log.len() + 1,
        log.len() >= 200 ==> log_with(log, line).len() == log.len() - 49,
        forall|i: int|
            0 <= i < log_with(log, line).len() - 1 ==> #[trigger] log_with(log, line)[i] == log[i + log.len() + 1
                - log_with(log, line).len()],
{
}

/// The keywords of a session are none where nothing is checked and listed. One more candidate adds its
/// text behind those of the others if it is checked, and nothing if not.
pub proof fn law_checked_candidates_are_chosen<P>(
    session: SessionValue<P>,
    candidates: Seq<CandidateValue>,
    checked: Seq<bool>,
    candidate: CandidateValue,
    on: bool,
)
    requires
        checked.len() == candidates.len(),
        session.candidates == candidates.push(candidate),
        session.checked == checked.push(on),
    ensures
        ({
            let before = SessionValue { candidates, checked, manual_keywords: Seq::empty(), ..session };
            let listed = listed_keywords(session.manual_keywords);
            chosen_keywords(session) == (if on {
                chosen_keywords(before).push(candidate.text) + listed
            } else {
                chosen_keywords(before) + listed
            })
        }),
{
    let n = candidates.len() as int;
    lemma_same_checked(candidates, session.candidates, checked, session.checked, n);
    assert(session.candidates[n] == candidate && session.checked[n] == on);
    let none = Seq::<char>::empty();
    law_listed_keyword_is_trimmed(none, none, none);
    assert(none + none + none =~= none);
    let before = SessionValue { candidates, checked, manual_keywords: Seq::empty(), ..session };
    assert(listed_keywords(Seq::empty()) =~= Seq::<Seq<char>>::empty());
    assert(chosen_keywords(before) =~= checked_texts(candidates, checked, n));
}

proof fn lemma_same_checked(
    candidates: Seq<CandidateValue>,
    others: Seq<CandidateValue>,
    checked: Seq<bool>,
    also: Seq<bool>,
    n: int,
)
    requires
        forall|i: int| 0 <= i < n ==> #[trigger] candidates[i] == others[i],
        forall|i: int| 0 <= i < n ==> #[trigger] checked[i] == also[i],
    ensures
        checked_texts(candidates, checked, n) == checked_texts(others, also, n),
    decreases n,
{
    if n > 0 {
        assert(candidates[n - 1] == others[n - 1] && checked[n - 1] == also[n - 1]);
        lemma_same_checked(candidates, others, checked, also, n - 1);
    }
}

proof fn lemma_unchecked(candidates: Seq<CandidateValue>, checked: Seq<bool>, n: int)
    requires
        forall|i: int| 0 <= i < n ==> !#[trigger] checked[i],
    ensures
        checked_texts(candidates, checked, n).len() == 0,
    decreases n,
{
    if n > 0 {
        assert(!checked[n - 1]);
        lemma_unchecked(candidates, checked, n - 1);
    }
}

/// New candidates are all shown, and none of them is checked: the keywords are those of the list. The
/// document, the list, the log and the saving stay as they are.
pub proof fn law_new_candidates_are_unchecked<P>(
    session: SessionValue<P>,
    candidates: Seq<CandidateValue>,
    status: Seq<char>,
)
    ensures
        ({
            let after = showing(session, candidates, status);
            &&& after.candidates == candidates
            &&& after.checked.len() == candidates.len()
            &&& forall|i: int| 0 <= i < candidates.len() ==> !#[trigger] after.checked[i]
            &&& chosen_keywords(after) == listed_keywords(session.manual_keywords)
            &&& after.status == status
            &&& after.input == session.input
            &&& after.manual_keywords == session.manual_keywords
            &&& after.log == session.log
            &&& after.saving == session.saving
        }),
{
    let after = showing(session, candidates, status);
    lemma_unchecked(candidates, after.checked, candidates.len() as int);
    assert(chosen_keywords(after) =~= listed_keywords(session.manual_keywords));
}

/// To check a candidate or to uncheck it changes this one and nothing else.
pub proof fn law_one_candidate_is_checked<P>(session: SessionValue<P>, i: int, on: bool)
    ensures
        ({
            let after = checking(session, i, on);
            &&& after.checked.len() == session.checked.len()
            &&& 0 <= i < session.checked.len() ==> after.checked[i] == on
            &&& forall|j: int|
                0 <= j < session.checked.len() && j != i ==> #[trigger] after.checked[j] == session.checked[j]
            &&& after == SessionValue { checked: after.checked, ..session }
        }),
{
}

/// Who asks for a removal gets it: where a document is open and a candidate is checked or a keyword is
/// listed, a click on the button lets the user choose a file, and once one is chosen the watermarks
/// are removed and saved there, with the keywords of the session. What is chosen in between counts.
pub proof fn law_asked_for_removal_comes<P>(session: SessionValue<P>, output: P, i: int)
    requires
        session.saving == Saving::Idle,
        session.input is Some,
        session.checked.len() == session.candidates.len(),
        (0 <= i < session.candidates.len() && session.checked[i]) || listed_keywords(session.manual_keywords).len() > 0,
    ensures
        ({
            let (choosing, first) = save_step(session, SaveEventValue::<P>::Clicked);
            let (removing, second) = save_step(choosing, SaveEventValue::Chosen(Some(output)));
            &&& first == SaveActionValue::<P>::Choose
            &&& second == (SaveActionValue::Remove { output, keywords: chosen_keywords(session) })
            &&& chosen_keywords(session).len() > 0
            &&& choosing == SessionValue { saving: Saving::Choosing, ..session }
            &&& removing == SessionValue { saving: Saving::Removing, ..session }
        }),
{
    if 0 <= i < session.candidates.len() && session.checked[i] {
        lemma_checked(session.candidates, session.checked, session.candidates.len() as int, i);
    }
}

proof fn lemma_checked(candidates: Seq<CandidateValue>, checked: Seq<bool>, n: int, i: int)
    requires
        0 <= i < n,
        checked[i],
    ensures
        checked_texts(candidates, checked, n).len() > 0,
    decreases n,
{
    if i < n - 1 {
        lemma_checked(candidates, checked, n - 1, i);
    }
}

/// Without an open document or without keywords a click does nothing, and so does a choice of no
/// file: it ends the saving.
pub proof fn law_nothing_is_removed_unasked<P>(session: SessionValue<P>)
    ensures
        session.input is None || chosen_keywords(session).len() == 0 ==> save_step(
            session,
            SaveEventValue::<P>::Clicked,
        ) == (session, SaveActionValue::<P>::Nothing),
        session.saving != Saving::Idle ==> save_step(session, SaveEventValue::<P>::Clicked) == (
            session,
            SaveActionValue::<P>::Nothing,
        ),
        session.saving == Saving::Choosing ==> save_step(session, SaveEventValue::<P>::Chosen(None)) == (
            SessionValue { saving: Saving::Done, ..session },
            SaveActionValue::<P>::Nothing,
        ),
        session.saving != Saving::Choosing ==> forall|output: Option<P>|
            #[trigger] save_step(session, SaveEventValue::Chosen(output)) == (session, SaveActionValue::<P>::Nothing),
{
}

/// A document that was saved is told in the status line and in the log; a removal that failed is
/// logged. Both end the saving.
pub proof fn law_outcome_is_told<P>(session: SessionValue<P>, status: Seq<char>, line: Seq<char>)
    requires
        session.saving == Saving::Removing,
    ensures
        ({
            let (saved, first) = save_step(session, SaveEventValue::<P>::Saved { status, line });
            let (failed, second) = save_step(session, SaveEventValue::<P>::Failed { line });
            &&& first == SaveActionValue::<P>::Nothing
            &&& second == SaveActionValue::<P>::Nothing
            &&& saved.status == status
            &&& failed.status == session.status
            &&& saved.log.last() == line
            &&& failed.log.last() == line
            &&& saved.saving == Saving::Done
            &&& failed.saving == Saving::Done
        }),
{
    law_log_keeps_its_last_lines(session.log, line);
}

/// A document that is opened is the one that is open. Only this changes it.
pub proof fn law_opened_document_is_open<P>(session: SessionValue<P>, event: FrameEvent<P>)
    ensures
        match event {
            FrameEvent::Opened { input, candidates, status } => {
                let after = frame_step(session, event).0;
                &&& after.input == Some(input)
                &&& after == SessionValue { input: Some(input), ..showing(session, candidates, status) }
            },
            _ => frame_step(session, event).0.input == session.input,
        },
        match event {
            FrameEvent::Listed(list) => frame_step(session, event).0.manual_keywords == list,
            _ => frame_step(session, event).0.manual_keywords == session.manual_keywords,
        },
        !(event is Save) ==> frame_step(session, event).1 == SaveActionValue::<P>::Nothing && frame_step(
            session,
            event,
        ).0.saving == session.saving,
{
}

/// The events of a frame come one after the other.
pub proof fn law_events_come_in_turn<P>(
    session: SessionValue<P>,
    events: Seq<FrameEvent<P>>,
    event: FrameEvent<P>,
)
    ensures
        session_after(session, events.push(event), events.push(event).len() as int) == frame_step(
            session_after(session, events, events.len() as int),
            event,
        ).0,
        session_after(session, Seq::<FrameEvent<P>>::empty(), 0) == session,
{
    let more = events.push(event);
    lemma_same_events(session, events, more, events.len() as int);
    assert(more[events.len() as int] == event);
}

proof fn lemma_same_events<P>(
    session: SessionValue<P>,
    events: Seq<FrameEvent<P>>,
    others: Seq<FrameEvent<P>>,
    n: int,
)
    requires
        forall|i: int| 0 <= i < n ==> #[trigger] events[i] == others[i],
    ensures
        session_after(session, events, n) == session_after(session, others, n),
    decreases n,
{
    if n > 0 {
        assert(events[n - 1] == others[n - 1]);
        lemma_same_events(session, events, others, n - 1);
    }
}

/// The name that is offered is that of the document with `cleaned_` before it, or that of some output
/// where the document has none.
pub proof fn law_cleaned_name_tells_the_document(name: Seq<char>)
    ensures
        cleaned_name(Some(name)).len() == name.len() + 8,
        cleaned_name(Some(name)).take(8) == "cleaned_"@,
        cleaned_name(Some(name)).skip(8) == name,
        cleaned_name(None) == cleaned_name(Some("output.pdf"@)),
{
    reveal_strlit("cleaned_");
    assert(cleaned_name(Some(name)).take(8) =~= "cleaned_"@);
    assert(cleaned_name(Some(name)).skip(8) =~= name);
}

} // verus!
