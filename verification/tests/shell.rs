//! What the shell shares with its guest.

use kuula::shell::{compose, Settings, SysRequest, SysState};

#[test]
fn compose_keys_on_colour_zero() {
    let mut out = Vec::new();
    compose(&[5, 6, 7], &[0, 9, 0], &mut out);
    assert_eq!(out, [5, 9, 7]);
}

#[test]
fn requests_are_capped() {
    let mut s = SysState::new(Vec::new(), Settings::default());
    for _ in 0..100 {
        s.request(SysRequest::Quit);
    }
    assert_eq!(s.requests.len(), 64);
}
