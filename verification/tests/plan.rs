use portrait::plan::{Covenant, LineageEdge, LineagePlan, PlanError};

/// The DigitalReit app: parent `DigitalReitToken` → child `DigitalReitSplitter`.
fn reit_plan() -> LineagePlan {
    LineagePlan::new(
        "DigitalReit",
        vec![
            // The child is listed first: the order must still put the parent first.
            Covenant::new("DigitalReitSplitter", "splitter"),
            Covenant::new("DigitalReitToken", "token"),
        ],
        vec![LineageEdge::new("DigitalReitToken", "DigitalReitSplitter", "parent_kov_id")],
    )
}

#[test]
fn deploy_order_puts_parent_before_child() {
    let plan = reit_plan();
    let order = plan.deploy_order().expect("valid plan");
    assert_eq!(order, vec!["DigitalReitToken", "DigitalReitSplitter"]);
    let parent_idx = order.iter().position(|n| n == "DigitalReitToken").unwrap();
    let child_idx = order.iter().position(|n| n == "DigitalReitSplitter").unwrap();
    assert!(parent_idx < child_idx, "parent must deploy before child");
}

#[test]
fn unknown_covenant_in_edge_is_rejected() {
    let plan = LineagePlan::new(
        "Broken",
        vec![Covenant::new("A", "a")],
        vec![LineageEdge::new("A", "Ghost", "f")],
    );
    assert_eq!(plan.deploy_order(), Err(PlanError::UnknownCovenant("Ghost".to_string())));
}

#[test]
fn cycle_is_rejected() {
    let plan = LineagePlan::new(
        "Loop",
        vec![Covenant::new("A", "a"), Covenant::new("B", "b")],
        vec![LineageEdge::new("A", "B", "f"), LineageEdge::new("B", "A", "g")],
    );
    assert_eq!(plan.deploy_order(), Err(PlanError::Cycle));
}

#[test]
fn manifest_json_records_lineage_and_order() {
    let plan = reit_plan();
    let manifest = plan.manifest().expect("valid plan");
    let json = manifest.to_json();
    let order_line = json.lines().find(|l| l.contains("deploy_order")).expect("deploy_order present");
    let token_pos = order_line.find("DigitalReitToken").unwrap();
    let splitter_pos = order_line.find("DigitalReitSplitter").unwrap();
    assert!(token_pos < splitter_pos, "manifest order parent-first");
    assert!(json.contains("\"binding_field\": \"parent_kov_id\""));
    assert!(json.contains("\"parent\": \"DigitalReitToken\""));
    assert!(json.contains("\"child\": \"DigitalReitSplitter\""));
    assert!(json.contains("\"kov_id\": null"));
}

#[test]
fn with_kov_id_threads_into_manifest() {
    let plan = LineagePlan::new(
        "DigitalReit",
        vec![Covenant::new("DigitalReitToken", "token").with_kov_id("ab".repeat(32))],
        vec![],
    );
    let json = plan.manifest().unwrap().to_json();
    assert!(json.contains(&"ab".repeat(32)));
    assert!(!json.contains("\"kov_id\": null"));
}

#[test]
fn empty_plan_is_rejected() {
    let plan = LineagePlan::new("Nothing", vec![], vec![]);
    assert_eq!(plan.deploy_order(), Err(PlanError::Empty));
    assert_eq!(plan.manifest().err(), Some(PlanError::Empty));
}

#[test]
fn unknown_parent_is_named_before_unknown_child() {
    let plan = LineagePlan::new(
        "Broken",
        vec![Covenant::new("A", "a")],
        vec![LineageEdge::new("P", "Q", "f")],
    );
    assert_eq!(plan.deploy_order(), Err(PlanError::UnknownCovenant("P".to_string())));
}

#[test]
fn ready_roots_are_placed_smallest_name_first() {
    // Three independent roots and one child of `c`: the smallest ready name is
    // placed first each round, and `b2` waits for its parent `c`.
    let plan = LineagePlan::new(
        "Fan",
        vec![Covenant::new("c", "x"), Covenant::new("b2", "x"), Covenant::new("a", "x"), Covenant::new("b", "x")],
        vec![LineageEdge::new("c", "b2", "f")],
    );
    assert_eq!(plan.deploy_order().unwrap(), vec!["a", "b", "c", "b2"]);
}

#[test]
fn independent_covenants_deploy_in_name_order() {
    let plan = LineagePlan::new("P", vec![Covenant::new("B", "b"), Covenant::new("A", "a")], vec![]);
    assert_eq!(plan.deploy_order(), Ok(vec!["A".to_string(), "B".to_string()]));
}

#[test]
fn duplicate_covenant_names_have_no_order() {
    let plan = LineagePlan::new(
        "Dup",
        vec![Covenant::new("A", "a"), Covenant::new("A", "b")],
        vec![],
    );
    assert_eq!(plan.deploy_order(), Err(PlanError::Cycle));
}

#[test]
fn manifest_json_is_exact_and_escaped() {
    let plan = LineagePlan::new(
        "Q\"uote",
        vec![Covenant::new("P", "p"), Covenant::new("C\\h", "c").with_kov_id("ff".to_string())],
        vec![LineageEdge::new("P", "C\\h", "parent\tid")],
    );
    let json = plan.manifest().unwrap().to_json();
    let expected = "{\n  \"app\": \"Q\\\"uote\",\n  \"deploy_order\": [\"P\", \"C\\\\h\"],\n  \"covenants\": [\n    { \"name\": \"P\", \"role\": \"p\", \"kov_id\": null },\n    { \"name\": \"C\\\\h\", \"role\": \"c\", \"kov_id\": \"ff\" }\n  ],\n  \"lineage\": [\n    { \"parent\": \"P\", \"child\": \"C\\\\h\", \"binding_field\": \"parent\\tid\" }\n  ]\n}\n";
    assert_eq!(json, expected);
}
