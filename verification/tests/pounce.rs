use portrait::ast::Type;
use portrait::pounce::{allocate, project, Cartoon, Layer, Mode, RoleGraph, StateNode, Transition};

fn make_transition(entry: &str, mode: Mode, to: Option<&str>) -> Transition {
    Transition {
        entry: entry.into(),
        from: "S0".into(),
        to: to.map(|s| s.into()),
        mode,
    }
}

fn make_cartoon(transitions: Vec<Transition>) -> Cartoon {
    Cartoon {
        app: "Test".into(),
        roles: vec![RoleGraph {
            role: "R".into(),
            params: vec![],
            states: vec![StateNode {
                label: "S0".into(),
                fields: vec![],
            }],
            transitions,
        }],
    }
}

#[test]
fn pure_covenant_transition_with_to() {
    let cartoon = make_cartoon(vec![make_transition("step", Mode::Transition, Some("S1"))]);
    let result = allocate(&cartoon);
    assert_eq!(result.allocations.len(), 1);
    assert_eq!(result.allocations[0].layer, Layer::Covenant);
}

#[test]
fn pure_vprog_non_covenant() {
    let cartoon = make_cartoon(vec![make_transition(
        "offchain_verify",
        Mode::NonCovenant,
        None,
    )]);
    let result = allocate(&cartoon);
    assert_eq!(result.allocations.len(), 1);
    assert_eq!(result.allocations[0].layer, Layer::VProg);
}

#[test]
fn mixed_allocations() {
    let cartoon = make_cartoon(vec![
        make_transition("step", Mode::Transition, Some("S1")),
        make_transition("offchain", Mode::NonCovenant, None),
        make_transition("burn", Mode::Transition, None),
    ]);
    let result = allocate(&cartoon);
    assert_eq!(result.allocations.len(), 3);
    assert_eq!(result.allocations[0].layer, Layer::Covenant); // step
    assert_eq!(result.allocations[1].layer, Layer::VProg); // offchain
    assert_eq!(result.allocations[2].layer, Layer::VProg); // burn (no `to`)
}

#[test]
fn verification_is_covenant_and_order_is_kept() {
    let cartoon = make_cartoon(vec![
        make_transition("check", Mode::Verification, None),
        make_transition("step", Mode::Transition, Some("S1")),
    ]);
    let result = allocate(&cartoon);
    assert_eq!(result.allocations[0].transition.entry, "check");
    assert_eq!(result.allocations[0].layer, Layer::Covenant);
    assert_eq!(result.allocations[1].transition.entry, "step");
}

#[test]
fn single_role_model_takes_the_app_name_and_unions_fields() {
    let mut cartoon = make_cartoon(vec![make_transition("offchain", Mode::NonCovenant, None)]);
    cartoon.roles[0].states = vec![
        StateNode { label: "S0".into(), fields: vec![("a".into(), Type::Int), ("b".into(), Type::Bool)] },
        StateNode { label: "S1".into(), fields: vec![("b".into(), Type::Int), ("c".into(), Type::PubKey)] },
    ];
    let models = project(&cartoon);
    assert_eq!(models.len(), 1);
    assert_eq!(models[0].name, "Test");
    let names: Vec<&str> = models[0].state.iter().map(|(n, _)| n.as_str()).collect();
    assert_eq!(names, vec!["a", "b", "c"]);
    assert!(matches!(models[0].state[1].1, Type::Bool));
    assert!(models[0].has_vprog);
    assert_eq!(models[0].transitions.len(), 1);
}

#[test]
fn multi_role_models_append_the_pascal_cased_role() {
    let mut cartoon = make_cartoon(vec![make_transition("step", Mode::Transition, Some("S1"))]);
    cartoon.roles.push(RoleGraph {
        role: "escrow_agent".into(),
        params: vec![],
        states: vec![],
        transitions: vec![],
    });
    let models = project(&cartoon);
    assert_eq!(models.len(), 2);
    assert_eq!(models[0].name, "TestR");
    assert_eq!(models[1].name, "TestEscrowAgent");
    assert!(!models[0].has_vprog);
}
