use atlas_engine::facts::DataFlowKind;
use atlas_engine::trace::slicer::{compute_confidence, kind_description, should_trace_backward};

#[test]
fn should_trace_backward_assign() {
    assert!(should_trace_backward(&DataFlowKind::Assign));
}

#[test]
fn should_trace_phi_inputs() {
    assert!(should_trace_backward(&DataFlowKind::Phi));
}

#[test]
fn kind_description_is_non_empty() {
    for kind in &[
        DataFlowKind::Assign,
        DataFlowKind::Read,
        DataFlowKind::FieldLoad,
        DataFlowKind::ArgToCall,
        DataFlowKind::ArgToParam,
        DataFlowKind::ReturnValue,
        DataFlowKind::StateFlow,
        DataFlowKind::Phi,
    ] {
        assert!(!kind_description(kind).is_empty());
    }
}

/// Confidence is counted in thousandths.
fn confidence(depth: usize, truncated: bool) -> f64 {
    f64::from(compute_confidence(depth, truncated)) / 1000.0
}

#[test]
fn compute_confidence_decays_with_depth() {
    assert!((confidence(0, false) - 1.0).abs() < 0.01);
    assert!(confidence(5, false) < 1.0);
    assert!(confidence(5, false) > confidence(15, false));
    assert!((confidence(30, false) - 0.3).abs() < 0.01);
}

#[test]
fn compute_confidence_truncated_penalty() {
    assert!(
        confidence(10, false) > confidence(10, true),
        "truncated paths should have lower confidence"
    );
    assert!(confidence(30, true) >= 0.1, "confidence floor is 0.1");
}

#[test]
fn confidence_has_exact_steps() {
    assert_eq!(compute_confidence(1, false), 967);
    assert_eq!(compute_confidence(10, false), 670);
    assert_eq!(compute_confidence(10, true), 470);
    assert_eq!(compute_confidence(21, false), 307);
    assert_eq!(compute_confidence(22, false), 300);
    assert_eq!(compute_confidence(usize::MAX, true), 100);
    assert_eq!(compute_confidence(0, false), 1000);
    assert_eq!(compute_confidence(0, true), 800);
}
