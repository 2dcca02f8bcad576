use dialog_system_alpha::model::{Answer, DialogFile, DialogNode, Page};
use dialog_system_alpha::runner::{Outcome, Phase, Runner};

fn page(text: &str) -> Page {
    Page { text: text.to_string() }
}

fn answer(text: &str, value: i8, next: &str) -> Answer {
    Answer { text: text.to_string(), value, next: next.to_string() }
}

/// The model of the walkthrough scenario: a call node, a branch with two
/// answers, and two end nodes.
fn scenario_model() -> DialogFile {
    let mut df = DialogFile::empty();
    df.add_node(
        "start".to_string(),
        DialogNode::CallNode { npc_pages: vec![page("hello")], next: "response".to_string() },
    );
    df.add_node(
        "response".to_string(),
        DialogNode::ResponseNode {
            answers: vec![answer("A", 3, "res1"), answer("B", -1, "res2")],
        },
    );
    df.add_node("res1".to_string(), DialogNode::EndNode { npc_pages: vec![page("one")] });
    df.add_node("res2".to_string(), DialogNode::EndNode { npc_pages: vec![page("two")] });
    df.set_start_node("start".to_string());
    df.set_npc_name("Npc".to_string());
    df
}

#[test]
fn empty_model_has_no_nodes() {
    let df = DialogFile::empty();
    assert!(df.get_node(&"start".to_string()).is_none());
    assert_eq!(df.start_node(), "");
    assert_eq!(df.npc_name(), "");
}

#[test]
fn accessors_round_trip() {
    let mut df = DialogFile::empty();
    df.set_start_node("entry".to_string());
    df.set_npc_name("Guide".to_string());
    assert_eq!(df.start_node(), "entry");
    assert_eq!(df.npc_name(), "Guide");
}

#[test]
fn add_node_fresh_key_returns_none() {
    let mut df = DialogFile::empty();
    let prev = df.add_node(
        "start".to_string(),
        DialogNode::EndNode { npc_pages: vec![page("bye")] },
    );
    assert!(prev.is_none());
}

#[test]
fn add_node_existing_key_replaces_and_returns_previous() {
    let mut df = DialogFile::empty();
    df.add_node(
        "start".to_string(),
        DialogNode::EndNode { npc_pages: vec![page("old text")] },
    );
    let prev = df.add_node(
        "start".to_string(),
        DialogNode::CallNode { npc_pages: vec![], next: "elsewhere".to_string() },
    );
    match prev {
        Some(DialogNode::EndNode { npc_pages }) => {
            assert_eq!(npc_pages.len(), 1);
            assert_eq!(npc_pages[0].text, "old text");
        }
        _ => panic!("expected the previous end node back"),
    }
    match df.get_node(&"start".to_string()) {
        Some(DialogNode::CallNode { next, .. }) => assert_eq!(next, "elsewhere"),
        _ => panic!("expected the replacement node"),
    }
}

#[test]
fn get_node_absent_key_is_not_found() {
    let df = scenario_model();
    assert!(df.get_node(&"nowhere".to_string()).is_none());
    assert!(df.get_node(&"start".to_string()).is_some());
    // the lookup mutated nothing
    assert!(df.get_node(&"nowhere".to_string()).is_none());
    assert!(df.get_node(&"response".to_string()).is_some());
}

#[test]
fn select_applies_exactly_the_chosen_answer() {
    let df = scenario_model();
    let mut runner = Runner::start(&df);
    // acknowledge the single page of the start node, then its transition
    assert!(runner.current_page(&df).is_some());
    runner.advance(&df);
    runner.advance(&df);
    match &runner.phase {
        Phase::Choosing { node } => assert_eq!(node, "response"),
        _ => panic!("expected to be choosing"),
    }
    assert_eq!(runner.score, 0);
    let ok = runner.select(&df, 1);
    assert!(ok);
    assert_eq!(runner.score, 3);
    match &runner.phase {
        Phase::Paging { node, page_idx } => {
            assert_eq!(node, "res1");
            assert_eq!(*page_idx, 0);
        }
        _ => panic!("expected to stand at the chosen next node"),
    }
}

#[test]
fn select_out_of_range_changes_nothing() {
    let df = scenario_model();
    let mut runner = Runner::start(&df);
    runner.advance(&df);
    runner.advance(&df);
    assert!(matches!(&runner.phase, Phase::Choosing { .. }));
    let before_score = runner.score;
    assert!(!runner.select(&df, 0));
    assert_eq!(runner.score, before_score);
    assert!(matches!(&runner.phase, Phase::Choosing { .. }));
    assert!(!runner.select(&df, 3));
    assert_eq!(runner.score, before_score);
    match &runner.phase {
        Phase::Choosing { node } => assert_eq!(node, "response"),
        _ => panic!("expected to still be choosing"),
    }
    // a valid selection afterwards still works
    assert!(runner.select(&df, 2));
    assert_eq!(runner.score, -1);
}

#[test]
fn pages_come_in_order() {
    let mut df = DialogFile::empty();
    df.add_node(
        "start".to_string(),
        DialogNode::EndNode { npc_pages: vec![page("first"), page("second"), page("third")] },
    );
    df.set_start_node("start".to_string());
    let mut runner = Runner::start(&df);
    let mut seen: Vec<String> = Vec::new();
    while let Some(text) = runner.current_page(&df) {
        seen.push(text.clone());
        runner.advance(&df);
    }
    runner.advance(&df);
    assert_eq!(seen, vec!["first".to_string(), "second".to_string(), "third".to_string()]);
    assert!(matches!(&runner.phase, Phase::Finished { .. }));
}

#[test]
fn scenario_option_one_scores_three_and_ends_at_res1() {
    let df = scenario_model();
    let out = df_run(&df, &[1]);
    match out {
        Outcome::Finished { score, end_node } => {
            assert_eq!(score, 3);
            assert_eq!(end_node, "res1");
        }
        _ => panic!("expected a finished run"),
    }
}

#[test]
fn scenario_option_two_scores_minus_one_and_ends_at_res2() {
    let df = scenario_model();
    let out = df_run(&df, &[2]);
    match out {
        Outcome::Finished { score, end_node } => {
            assert_eq!(score, -1);
            assert_eq!(end_node, "res2");
        }
        _ => panic!("expected a finished run"),
    }
}

fn df_run(df: &DialogFile, sels: &[usize]) -> Outcome {
    let sels: Vec<usize> = sels.to_vec();
    dialog_system_alpha::runner::run_script(df, &sels, 1000).expect("the run should stop")
}

#[test]
fn scenario_missing_start_reports_and_does_not_traverse() {
    let mut df = scenario_model();
    df.set_start_node("absent".to_string());
    let runner = Runner::start(&df);
    assert!(matches!(runner.phase, Phase::FailedStart));
    assert_eq!(runner.score, 0);
    let out = df_run(&df, &[1]);
    assert!(matches!(out, Outcome::StartNotFound));
}

#[test]
fn invalid_script_entry_is_consumed_and_retried() {
    let df = scenario_model();
    // 9 is out of range: it is consumed without a state change, then 2 works
    let out = df_run(&df, &[9, 2]);
    match out {
        Outcome::Finished { score, end_node } => {
            assert_eq!(score, -1);
            assert_eq!(end_node, "res2");
        }
        _ => panic!("expected a finished run"),
    }
}

#[test]
fn script_exhausted_at_a_choice() {
    let df = scenario_model();
    let out = df_run(&df, &[]);
    match out {
        Outcome::OutOfInput { score } => assert_eq!(score, 0),
        _ => panic!("expected the script to run out"),
    }
}

#[test]
fn dangling_next_reference_is_reported() {
    let mut df = DialogFile::empty();
    df.add_node(
        "start".to_string(),
        DialogNode::CallNode { npc_pages: vec![], next: "ghost".to_string() },
    );
    df.set_start_node("start".to_string());
    let out = df_run(&df, &[]);
    match out {
        Outcome::MissingNode { name } => assert_eq!(name, "ghost"),
        _ => panic!("expected a missing-node report"),
    }
}

#[test]
fn cyclic_model_does_not_stop() {
    let mut df = DialogFile::empty();
    df.add_node(
        "start".to_string(),
        DialogNode::CallNode { npc_pages: vec![], next: "start".to_string() },
    );
    df.set_start_node("start".to_string());
    let sels: Vec<usize> = Vec::new();
    assert!(dialog_system_alpha::runner::run_script(&df, &sels, 50).is_none());
}

#[test]
fn validate_accepts_a_resolving_model() {
    let df = scenario_model();
    assert!(df.validate());
    assert!(DialogFile::empty().validate());
}

#[test]
fn validate_rejects_a_dangling_call_reference() {
    let mut df = scenario_model();
    df.add_node(
        "stray".to_string(),
        DialogNode::CallNode { npc_pages: vec![], next: "ghost".to_string() },
    );
    assert!(!df.validate());
}

#[test]
fn validate_rejects_a_dangling_answer_reference() {
    let mut df = scenario_model();
    df.add_node(
        "stray".to_string(),
        DialogNode::ResponseNode { answers: vec![answer("go", 1, "ghost")] },
    );
    assert!(!df.validate());
    // replacing the bad node under the same name mends the model
    df.add_node(
        "stray".to_string(),
        DialogNode::ResponseNode { answers: vec![answer("go", 1, "res1")] },
    );
    assert!(df.validate());
}

#[test]
fn page_line_holds_speaker_and_text() {
    let line = dialog_system_alpha::runner::render_page_line(
        &"NpcName".to_string(),
        &"goodbye!".to_string(),
    );
    assert_eq!(line, "NpcName: goodbye!");
}

#[test]
fn score_accumulates_over_several_choices() {
    let mut df = DialogFile::empty();
    df.add_node(
        "a".to_string(),
        DialogNode::ResponseNode { answers: vec![answer("go", 5, "b")] },
    );
    df.add_node(
        "b".to_string(),
        DialogNode::ResponseNode { answers: vec![answer("go", -2, "c"), answer("stay", 100, "a")] },
    );
    df.add_node("c".to_string(), DialogNode::EndNode { npc_pages: vec![] });
    df.set_start_node("a".to_string());
    let out = df_run(&df, &[1, 1]);
    match out {
        Outcome::Finished { score, end_node } => {
            assert_eq!(score, 3);
            assert_eq!(end_node, "c");
        }
        _ => panic!("expected a finished run"),
    }
}
