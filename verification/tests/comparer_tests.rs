use mediaorganizer::comparer::{CompareMode, ComparerEvent, ComparerState, ZOOM_FIT};

#[test]
fn mode_labels() {
    assert_eq!(CompareMode::SideBySide.label(), "Side by side");
    assert_eq!(CompareMode::Diff.label(), "Pixel diff");
    assert_eq!(CompareMode::default(), CompareMode::SideBySide);
}

#[test]
fn zoom_is_bounded() {
    let mut s = ComparerState::new();
    assert_eq!(s.zoom, ZOOM_FIT);
    for _ in 0..30 {
        s.apply(ComparerEvent::ZoomIn, 0);
    }
    assert_eq!(s.zoom, 300);
    for _ in 0..40 {
        s.apply(ComparerEvent::ZoomOut, 0);
    }
    assert_eq!(s.zoom, 20);
    s.apply(ComparerEvent::ZoomIn, 0);
    assert_eq!(s.zoom, 30);
    s.apply(ComparerEvent::Fit, 0);
    assert_eq!(s.zoom, 100);
}

#[test]
fn positions_and_steps() {
    let mut s = ComparerState::new();
    s.apply(ComparerEvent::StepA(true), 4);
    s.apply(ComparerEvent::StepA(true), 4);
    s.apply(ComparerEvent::StepB(false), 4);
    assert_eq!((s.step_a, s.step_b), (2, -1));
    s.apply(ComparerEvent::NextPosition, 4);
    assert_eq!((s.base_idx, s.step_a, s.step_b), (1, 0, 0));
    for _ in 0..10 {
        s.apply(ComparerEvent::NextPosition, 4);
    }
    assert_eq!(s.base_idx, 4);
    s.apply(ComparerEvent::PreviousPosition, 4);
    assert_eq!(s.base_idx, 3);
    s.apply(ComparerEvent::StepB(true), 4);
    s.apply(ComparerEvent::ResetSteps, 4);
    assert_eq!((s.step_a, s.step_b), (0, 0));
    s.apply(ComparerEvent::SetMode(CompareMode::Swipe), 4);
    s.apply(ComparerEvent::Swipe(75), 4);
    assert_eq!(s.mode, CompareMode::Swipe);
    assert_eq!(s.swipe_pct, 75);
}
