use pdf_wm_remover::session::{default_output_name, SaveAction, SaveEvent, Session};
use pdf_wm_remover::Candidate;

fn candidate(text: &str) -> Candidate {
    Candidate { text: text.to_string(), size: 120, count: 3, sample_page: 0 }
}

fn opened() -> Session<String> {
    let mut session = Session::default();
    session.opened("in.pdf".to_string(), vec![candidate("one"), candidate("two"), candidate("three")], "3 candidates".to_string());
    session
}

#[test]
fn session_starts_without_a_document() {
    let session: Session<String> = Session::default();
    assert_eq!(session.lines(), ["Ready — open a PDF to begin.".to_string()]);
    assert_eq!(session.status(), "Ready");
    assert!(session.candidates().is_empty());
    assert!(session.keywords().is_empty());
    assert_eq!(session.manual_keywords(), "");
    assert_eq!(session.selected(), 0);
    assert!(!session.can_analyze());
    assert!(!session.can_save());
    assert!(session.input().is_none());
}

#[test]
fn keywords_are_checked_texts_and_listed_ones() {
    let mut session = opened();
    session.check(2, true);
    session.check(0, true);
    session.set_manual_keywords(" more , ,words".to_string());
    assert_eq!(session.keywords(), ["one", "three", "more", "words"]);
    assert_eq!(session.selected(), 2);
    assert!(session.is_checked(0) && !session.is_checked(1) && session.is_checked(2));
    session.check(0, false);
    assert_eq!(session.keywords(), ["three", "more", "words"]);
    assert_eq!(session.manual_keywords(), " more , ,words");
}

#[test]
fn candidates_that_do_not_exist_cannot_be_checked() {
    let mut session = opened();
    session.check(3, true);
    assert!(!session.is_checked(3));
    assert_eq!(session.selected(), 0);
    assert!(session.keywords().is_empty());
}

#[test]
fn saving_needs_a_document_and_keywords() {
    let mut session: Session<String> = Session::default();
    session.set_manual_keywords("word".to_string());
    assert!(!session.can_save());
    let mut session = opened();
    assert!(session.can_analyze());
    assert!(!session.can_save());
    session.check(1, true);
    assert!(session.can_save());
    session.check(1, false);
    session.set_manual_keywords(" , ".to_string());
    assert!(!session.can_save());
    session.set_manual_keywords("word".to_string());
    assert!(session.can_save());
}

#[test]
fn new_analysis_unchecks_everything() {
    let mut session = opened();
    session.check(1, true);
    session.set_manual_keywords("kept".to_string());
    session.analyzed(vec![candidate("four")], "1 candidates".to_string());
    assert_eq!(session.status(), "1 candidates");
    assert_eq!(session.candidates().len(), 1);
    assert_eq!(session.selected(), 0);
    assert_eq!(session.keywords(), ["kept"]);
    assert!(session.can_analyze());
    let mut closed: Session<String> = Session::default();
    closed.analyzed(vec![], "none".to_string());
    assert!(!closed.can_analyze());
}

#[test]
fn log_loses_its_first_lines() {
    let mut session: Session<String> = Session::default();
    for i in 1..200 {
        session.log(format!("line {i}"));
    }
    assert_eq!(session.lines().len(), 200);
    assert_eq!(session.lines()[0], "Ready — open a PDF to begin.");
    session.log("line 200".to_string());
    assert_eq!(session.lines().len(), 151);
    assert_eq!(session.lines()[0], "line 50");
    assert_eq!(session.lines()[150], "line 200");
}

#[test]
fn output_name_follows_the_input() {
    assert_eq!(default_output_name(Some("report.pdf")), "cleaned_report.pdf");
    assert_eq!(default_output_name(None), "cleaned_output.pdf");
}

fn clicked(session: &mut Session<String>) -> bool {
    matches!(session.save(SaveEvent::Clicked), SaveAction::Choose)
}

fn chosen(session: &mut Session<String>, output: Option<&str>) -> Option<(String, Vec<String>)> {
    match session.save(SaveEvent::Chosen(output.map(str::to_string))) {
        SaveAction::Remove { output, keywords } => Some((output, keywords)),
        _ => None,
    }
}

fn saved(session: &mut Session<String>) -> bool {
    let event = SaveEvent::Saved { status: "Saved".to_string(), line: "saved".to_string() };
    matches!(session.save(event), SaveAction::Nothing)
}

#[test]
fn saving_removes_once_in_a_frame() {
    let mut session = opened();
    session.check(1, true);
    session.begin_frame();
    assert!(clicked(&mut session));
    assert!(!clicked(&mut session));
    assert_eq!(chosen(&mut session, Some("out.pdf")), Some(("out.pdf".to_string(), vec!["two".to_string()])));
    assert_eq!(chosen(&mut session, Some("other.pdf")), None);
    assert!(saved(&mut session));
    assert_eq!(session.status(), "Saved");
    assert_eq!(session.lines().last().unwrap(), "saved");
    assert_eq!(session.input().unwrap(), "in.pdf");
    assert!(session.is_checked(1) && session.candidates().len() == 3);
    assert!(!clicked(&mut session));
    session.begin_frame();
    assert!(clicked(&mut session));
}

#[test]
fn failed_removal_is_only_logged() {
    let mut session = opened();
    session.set_manual_keywords("word".to_string());
    session.begin_frame();
    assert!(clicked(&mut session));
    assert!(chosen(&mut session, Some("out.pdf")).is_some());
    assert!(matches!(session.save(SaveEvent::Failed { line: "failed".to_string() }), SaveAction::Nothing));
    assert_eq!(session.status(), "3 candidates");
    assert_eq!(session.lines().last().unwrap(), "failed");
}

#[test]
fn nothing_is_removed_without_being_asked_for() {
    let mut session = opened();
    session.begin_frame();
    assert!(!clicked(&mut session));
    assert_eq!(chosen(&mut session, Some("out.pdf")), None);
    session.check(0, true);
    assert_eq!(chosen(&mut session, Some("out.pdf")), None);
    assert!(clicked(&mut session));
    assert_eq!(chosen(&mut session, None), None);
    assert_eq!(chosen(&mut session, Some("out.pdf")), None);
    assert!(saved(&mut session));
    assert_eq!(session.status(), "3 candidates");
    session.begin_frame();
    assert!(clicked(&mut session));
    session.check(0, false);
    assert_eq!(chosen(&mut session, Some("out.pdf")), None);
}
