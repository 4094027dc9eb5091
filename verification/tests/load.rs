use linkerd_tcp::lb::load::Load;

#[test]
fn unmeasured_is_above_every_measured_load() {
    let inf = Load::unmeasured();
    assert!(inf.is_unmeasured());
    assert!(!Load::measured(0).is_unmeasured());
    assert!(Load::measured(0).at_most(&inf));
    assert!(Load::measured(u64::MAX).at_most(&inf));
    assert!(!inf.at_most(&Load::measured(u64::MAX)));
    assert!(inf.at_most(&inf));
}

#[test]
fn measured_loads_compare_as_numbers() {
    assert!(Load::measured(1).at_most(&Load::measured(2)));
    assert!(Load::measured(2).at_most(&Load::measured(2)));
    assert!(!Load::measured(3).at_most(&Load::measured(2)));
}

#[test]
fn unmeasured_absorbs_use_and_release() {
    assert_eq!(Load::Unmeasured.incremented(), Load::Unmeasured);
    assert_eq!(Load::Unmeasured.decremented(), Load::Unmeasured);
}

#[test]
fn measured_load_counts_by_one() {
    assert_eq!(Load::measured(0).incremented(), Load::Measured(1));
    assert_eq!(Load::measured(41).incremented(), Load::Measured(42));
    assert_eq!(Load::measured(42).decremented(), Load::Measured(41));
    assert_eq!(Load::measured(7).incremented().decremented(), Load::Measured(7));
}

#[test]
fn measured_load_stays_within_its_range() {
    assert_eq!(Load::measured(0).decremented(), Load::Measured(0));
    assert_eq!(Load::measured(u64::MAX).incremented(), Load::Measured(u64::MAX));
}
