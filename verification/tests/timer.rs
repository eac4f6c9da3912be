use demystify::timer::QuickTimer;

#[test]
fn cpu_timer_instantiates() {
    let timer = QuickTimer::new("Test Timer");
    assert_eq!(timer.description, "Test Timer");
}

#[test]
fn timer_description_grows() {
    let mut timer = QuickTimer::new("sat");
    timer.add_info(" solve");
    assert_eq!(timer.description, "sat solve");
    let _ = timer.elapsed_millis();
}
