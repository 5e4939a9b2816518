//! Faults.

use kuula::fault::Fault;

#[test]
fn display_is_code_location_message() {
    let f = Fault::new(Fault::RUNTIME_ERROR, "main.lua", Some(12), "boom");
    assert_eq!(f.text(), "runtime_error main.lua:12: boom");
    let f = Fault::new(Fault::CART_READ_ERROR, "main.lua", None, "missing");
    assert_eq!(f.text(), "cart_read_error main.lua: missing");
}
