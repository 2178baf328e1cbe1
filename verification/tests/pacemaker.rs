use driver::{DefaultPacemaker, DriverPacemaker};
use std::time::Duration;

#[test]
fn default_pacemaker_never_fires_again() {
    let mut pacemaker = DefaultPacemaker;
    assert!(!pacemaker.send());
    assert!(!pacemaker.send());
    assert_eq!(DefaultPacemaker::period(), Duration::MAX);
}

#[test]
fn unit_pacemaker_never_fires_again() {
    let mut pacemaker = ();
    assert!(!pacemaker.send());
    assert_eq!(<() as DriverPacemaker>::period(), Duration::MAX);
}
