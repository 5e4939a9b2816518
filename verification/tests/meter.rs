//! The meter and the prices.

use kuula::fault::Fault;
use kuula::meter::{price, Category, Meter, FRAME_BUDGET, INIT_BUDGET};

#[test]
fn charge_adds_and_trips_once() {
    let mut m = Meter::new();
    m.begin_frame(100);
    m.set_callback("_update");
    assert!(m.charge(Category::Draw, 0).is_ok(), "minimum of one");
    assert_eq!(m.total(), 1);
    assert!(
        m.charge(Category::Lua, 99).is_ok(),
        "exactly the budget is fine"
    );
    let err = m.charge(Category::Api, 1).unwrap_err();
    assert_eq!(err.callback, "_update");
    assert_eq!((err.used, err.budget), (101, 100));
    assert_eq!(err.message(), "_update used 101 of 100 cycles");
    assert!(!m.is_dead(), "the caller records the fault");
    m.kill(Fault::new(
        Fault::BUDGET_EXCEEDED,
        "main.lua",
        None,
        &err.message(),
    ));
    assert!(
        m.charge(Category::Api, 1).is_ok(),
        "dead meters count silently"
    );
    assert!(m.is_dead());
    m.kill(Fault::new("later", "x", None, ""));
    assert_eq!(m.fault().unwrap().code, "budget_exceeded", "first wins");
    let p = m.profile(7);
    assert_eq!(p.get(Category::Lua), 99);
    assert_eq!(p.total(), 102);
    assert_eq!(p.lua_mem, 7);
    assert_eq!(p.budget, 100);
}

#[test]
fn begin_frame_resets_the_counters_but_not_death() {
    let mut m = Meter::new();
    m.charge(Category::Lua, 5).unwrap();
    m.kill(Fault::new("x", "f", None, ""));
    m.begin_frame(FRAME_BUDGET);
    assert_eq!(m.total(), 0);
    assert!(m.is_dead());
    assert_eq!(m.budget(), FRAME_BUDGET);
}

#[test]
fn prices_are_monotonic_and_never_free() {
    assert_eq!(price::cls(0), 1);
    assert_eq!(price::cls(640 * 480), 1 + 4800);
    assert_eq!(price::pixels(0), 1);
    assert_eq!(price::pixels(300), 101);
    assert_eq!(price::map(10, 30), 20 + 11);
    assert_eq!(price::text(0, 0), 1);
    assert_eq!(price::text(5, 60), 25);
    assert_eq!(price::bytes128(u64::MAX), 1 + u64::MAX / 128);
    // Plain search on a short string is a few cycles; a backtracking
    // bomb on a long one is more than any budget.
    assert_eq!(price::pattern(10, 3, 0, false), 1);
    assert_eq!(price::pattern(100, 3, 1, false), 1 + 3 * 100 * 100 / 256);
    assert_eq!(price::pattern(100, 3, 1, true), 1 + 300 / 256);
    assert!(price::pattern(100_000, 9, 4, false) > INIT_BUDGET);
    assert_eq!(price::pattern(u64::MAX, u64::MAX, 8, false), u64::MAX);
    assert_eq!(price::pattern_shape(b".-.-.-.-b"), (4, false));
    assert_eq!(price::pattern_shape(b"^%d+%.%d+$"), (2, true));
    assert_eq!(price::pattern_shape(b"a%+b%%-c"), (1, false));
    assert_eq!(price::pattern_shape(b""), (0, false));
    // A range dash inside a set is not a quantifier.
    assert_eq!(price::pattern_shape(b"[a-z]+"), (1, false));
    assert_eq!(price::pattern_shape(b"^[^-]*[]-]?$"), (2, true));
    assert_eq!(price::pattern_shape(b"[%]-]+"), (1, false));
    assert_eq!(price::pattern_shape(b"[a-"), (0, false));
    assert_eq!(price::sort(0), 1);
    assert_eq!(price::sort(1), 1);
    assert_eq!(price::sort(1024), 1 + 1024 * 11);
    assert_eq!(price::coroutine(), 2000);
    assert!(
        price::pattern(u64::MAX, u64::MAX, 0, false) > 0,
        "no overflow panic"
    );
}

#[test]
fn category_names_follow_the_order() {
    let names: Vec<_> = Category::all().iter().map(|c| c.name()).collect();
    assert_eq!(
        names,
        ["lua", "draw", "text", "buf", "asset", "string", "api"]
    );
    for (i, c) in Category::all().iter().enumerate() {
        assert_eq!(c.index(), i);
    }
}

#[test]
fn only_the_charge_that_crosses_the_budget_fails() {
    let mut m = Meter::new();
    m.begin_frame(10);
    assert!(m.charge(Category::Lua, 10).is_ok());
    assert!(m.charge(Category::Lua, 1).is_err());
    assert!(m.charge(Category::Lua, 1).is_ok(), "it was crossed already");
    assert!(m.charge(Category::Draw, 100).is_ok());
    assert_eq!(m.total(), 112);
    m.begin_frame(10);
    assert!(m.charge(Category::Lua, 11).is_err(), "a new frame");
}

#[test]
fn the_first_fault_stays() {
    let mut m = Meter::new();
    m.begin_frame(10);
    m.set_callback("_draw");
    let _ = m.charge(Category::Draw, 4);
    m.kill(Fault::new("a", "", None, "first"));
    m.kill(Fault::new("b", "", None, "second"));
    assert_eq!((m.total(), m.budget(), m.callback()), (4, 10, "_draw"));
    m.begin_frame(1);
    assert!(m.charge(Category::Draw, 9).is_ok(), "the dead are not charged");
    assert!(m.is_dead());
    assert_eq!(m.fault().unwrap().message, "first");
}
