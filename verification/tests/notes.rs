use capabilities::notes::{find_due, leading_name, process, summary};

#[test]
fn extracts_an_action_item_with_owner_and_due() {
    let out = process("Bob will send the report by Friday.");
    assert_eq!(out.action_items.len(), 1);
    assert_eq!(out.action_items[0].owner.as_deref(), Some("Bob"));
    assert_eq!(out.action_items[0].due.as_deref(), Some("Friday"));
}

#[test]
fn extracts_a_decision() {
    let out = process("Alice decided we should ship next week.");
    assert_eq!(out.decisions.len(), 1);
    assert_eq!(out.decisions[0].made_by.as_deref(), Some("Alice"));
}

#[test]
fn extracts_a_follow_up() {
    let out = process("Follow up with legal about the contract terms.");
    assert_eq!(out.follow_ups.len(), 1);
}

#[test]
fn plain_transcript_with_no_signals_yields_empty_arrays() {
    let out = process("We had a nice chat about the weather today");
    assert!(out.action_items.is_empty());
    assert!(out.decisions.is_empty());
    assert!(out.follow_ups.is_empty());
}

#[test]
fn notes_output_genuinely_differs_across_distinct_inputs() {
    let out_a = process("Bob will send the report by Friday. Alice decided we should ship next week.");
    let out_b = process("We had a nice chat about the weather today");
    assert_ne!(out_a.action_items.len(), out_b.action_items.len(), "output must depend on input, not be fixed");
}

#[test]
fn notes_lines_and_summary_are_exact() {
    let out = process("Bob will send the report by Friday.\n  Alice decided to ship. TODO: tests\n\nnext step: demo. chatter");
    assert_eq!(out.action_items.len(), 2);
    assert_eq!(out.action_items[0].task, "Bob will send the report by Friday");
    assert_eq!(out.action_items[1].task, "TODO: tests");
    assert_eq!(out.action_items[1].owner, None);
    assert_eq!(out.decisions[0].text, "Alice decided to ship");
    assert_eq!(out.follow_ups, vec!["next step: demo".to_string()]);
    assert_eq!(
        out.summary,
        "2 action items, 1 decision, and 1 follow-up identified from 5 lines of transcript."
    );
}

#[test]
fn notes_owner_and_due_helpers() {
    assert_eq!(leading_name("\"Carol,\" said hi"), Some("Carol".to_string()));
    assert_eq!(leading_name("we will"), None);
    assert_eq!(leading_name("   "), None);
    assert_eq!(find_due("done BY 2026-08-09!"), Some("2026-08-09".to_string()));
    assert_eq!(find_due("by ... by Monday"), Some("Monday".to_string()));
    assert_eq!(find_due("stand by"), None);
    assert_eq!(summary(1, 0, 2, 1), "1 action item, 0 decisions, and 2 follow-ups identified from 1 line of transcript.");
}
