use apeiron_cipher::observation::{
    describe_weight_observation, weight_phrase, ConfidenceLevel, ConfidenceTracker, PropertyName,
};

#[test]
fn fresh_tracker_has_zero_count() {
    let tracker = ConfidenceTracker::default();
    assert_eq!(tracker.count(42, PropertyName::ThermalResistance), 0);
}

#[test]
fn record_increments_count() {
    let mut tracker = ConfidenceTracker::default();
    assert_eq!(tracker.record(42, PropertyName::ThermalResistance), 1);
    assert_eq!(tracker.record(42, PropertyName::ThermalResistance), 2);
    assert_eq!(tracker.count(42, PropertyName::ThermalResistance), 2);
}

#[test]
fn different_seeds_tracked_independently() {
    let mut tracker = ConfidenceTracker::default();
    tracker.record(42, PropertyName::ThermalResistance);
    tracker.record(99, PropertyName::ThermalResistance);
    assert_eq!(tracker.count(42, PropertyName::ThermalResistance), 1);
    assert_eq!(tracker.count(99, PropertyName::ThermalResistance), 1);
}

#[test]
fn different_properties_tracked_independently() {
    let mut tracker = ConfidenceTracker::default();
    tracker.record(42, PropertyName::ThermalResistance);
    tracker.record(42, PropertyName::Density);
    assert_eq!(tracker.count(42, PropertyName::ThermalResistance), 1);
    assert_eq!(tracker.count(42, PropertyName::Density), 1);
    assert_eq!(tracker.count(42, PropertyName::Toxicity), 0);
}

#[test]
fn confidence_level_from_count() {
    assert_eq!(ConfidenceLevel::from_count(0), ConfidenceLevel::Tentative);
    assert_eq!(ConfidenceLevel::from_count(1), ConfidenceLevel::Tentative);
    assert_eq!(ConfidenceLevel::from_count(2), ConfidenceLevel::Observed);
    assert_eq!(ConfidenceLevel::from_count(3), ConfidenceLevel::Observed);
    assert_eq!(ConfidenceLevel::from_count(4), ConfidenceLevel::Confident);
    assert_eq!(ConfidenceLevel::from_count(100), ConfidenceLevel::Confident);
}

#[test]
fn level_method_uses_internal_count() {
    let mut tracker = ConfidenceTracker::default();
    let p = PropertyName::ThermalResistance;
    assert_eq!(tracker.level(42, p), ConfidenceLevel::Tentative);
    tracker.record(42, p);
    assert_eq!(tracker.level(42, p), ConfidenceLevel::Tentative);
    tracker.record(42, p);
    assert_eq!(tracker.level(42, p), ConfidenceLevel::Observed);
    tracker.record(42, p);
    assert_eq!(tracker.level(42, p), ConfidenceLevel::Observed);
    tracker.record(42, p);
    assert_eq!(tracker.level(42, p), ConfidenceLevel::Confident);
}

#[test]
fn confidence_levels_are_ordered_and_labelled() {
    assert!(ConfidenceLevel::Tentative < ConfidenceLevel::Observed);
    assert!(ConfidenceLevel::Observed < ConfidenceLevel::Confident);
    assert_eq!(ConfidenceLevel::Tentative.display_label(), "Uncertain");
    assert_eq!(ConfidenceLevel::Observed.display_label(), "Noted");
    assert_eq!(ConfidenceLevel::Confident.display_label(), "Confirmed");
}

#[test]
fn tentative_weight_is_hedged_and_lowercased() {
    assert_eq!(
        describe_weight_observation("Heavy but manageable", ConfidenceLevel::Tentative),
        "Seemed heavy but manageable"
    );
    assert_eq!(
        describe_weight_observation("Heavy but manageable", ConfidenceLevel::Observed),
        "Heavy but manageable"
    );
    assert_eq!(
        describe_weight_observation("Light as a feather", ConfidenceLevel::Confident),
        "Light as a feather"
    );
}

#[test]
fn weight_phrase_uses_the_given_lowercase_form() {
    assert_eq!(
        weight_phrase("Barely able to lift", "barely able to lift", ConfidenceLevel::Tentative),
        "Seemed barely able to lift"
    );
    assert_eq!(
        weight_phrase("Barely able to lift", "x", ConfidenceLevel::Confident),
        "Barely able to lift"
    );
}
