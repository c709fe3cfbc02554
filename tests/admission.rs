use audioserve::admission::{admission_step, AdmissionState};

#[test]
fn third_request_is_refused() {
    let mut a = AdmissionState::new(2);
    assert!(a.try_acquire());
    assert!(a.try_acquire());
    assert!(!a.try_acquire());
    assert_eq!(a.running(), 2);
    assert!(a.release());
    assert!(a.try_acquire());
    assert_eq!(a.running(), 2);
}

#[test]
fn release_without_slot() {
    let mut a = AdmissionState::new(1);
    assert!(!a.release());
    assert_eq!(a.running(), 0);
}

#[test]
fn step_of_cas_loop() {
    assert_eq!(admission_step(0, 2), Some(1));
    assert_eq!(admission_step(1, 2), Some(2));
    assert_eq!(admission_step(2, 2), None);
    assert_eq!(admission_step(3, 2), None);
    assert_eq!(admission_step(0, 0), None);
}
