//! The list of carts.

use kuula::carts::{
    eq_ignore_case, find_cart, initial_settings, is_archive, list_carts, Found, MAX_CARTS,
};
use kuula::shell::Settings;

fn dir(name: &str, title: Option<&str>) -> Found {
    Found {
        name: Some(name.to_string()),
        is_dir: true,
        is_file: false,
        extension: None,
        has_main: true,
        title: title.map(|t| t.to_string()),
    }
}

fn file(name: &str, extension: &str) -> Found {
    Found {
        name: Some(name.to_string()),
        is_dir: false,
        is_file: true,
        extension: Some(extension.to_string()),
        has_main: false,
        title: None,
    }
}

#[test]
fn directories_with_a_main_file_and_packed_carts_are_listed() {
    let mut found = vec![
        dir("a", Some("Tiles")),
        dir("b", Some("")),
        file("c.ZIP", "ZIP"),
        file("d.txt", "txt"),
        file("e.cart", "cart"),
    ];
    found.push(Found {
        has_main: false,
        ..dir("empty", None)
    });
    found.push(Found {
        name: None,
        ..dir("unnamed", None)
    });
    let listed = list_carts(&mut found);
    let shown: Vec<(&str, &str, usize)> = listed
        .iter()
        .map(|l| (l.entry.name.as_str(), l.entry.title.as_str(), l.place))
        .collect();
    assert_eq!(
        shown,
        [
            ("a", "Tiles", 0),
            ("b", "b", 1),
            ("c.ZIP", "c.ZIP", 2),
            ("e.cart", "e.cart", 4),
        ]
    );
    assert_eq!(find_cart(&listed, "c.ZIP").unwrap(), 2);
    let f = find_cart(&listed, "nope").unwrap_err();
    assert_eq!(f.text(), "cart_read_error nope: no such cart");
}

#[test]
fn the_list_is_cut_at_its_bound() {
    let mut found: Vec<Found> = (0..MAX_CARTS + 10)
        .map(|i| dir(&format!("c{i}"), None))
        .collect();
    assert_eq!(list_carts(&mut found).len(), MAX_CARTS);
}

#[test]
fn archives_are_files_of_two_extensions() {
    assert!(is_archive(true, Some("zip")));
    assert!(is_archive(true, Some("Cart")));
    assert!(!is_archive(false, Some("zip")), "a directory");
    assert!(!is_archive(true, Some("zipx")));
    assert!(!is_archive(true, None));
    assert!(eq_ignore_case("aZ1", "Az1"));
    assert!(!eq_ignore_case("[", "{"), "only letters fold");
}

#[test]
fn the_command_lines_scale_wins() {
    let stored = Settings {
        scale: 3,
        volume: 50,
        net: true,
    };
    assert_eq!(initial_settings(stored, None), stored);
    let s = initial_settings(stored, Some(1));
    assert_eq!((s.scale, s.volume, s.net), (1, 50, true));
}

#[test]
fn the_list_is_in_the_order_of_the_names() {
    let mut found = vec![
        dir("b", None),
        Found {
            name: None,
            ..dir("unnamed", None)
        },
        dir("B", None),
        file("a.zip", "zip"),
        dir("ab", None),
        dir("a", None),
    ];
    let names: Vec<String> = list_carts(&mut found)
        .into_iter()
        .map(|l| l.entry.name)
        .collect();
    assert_eq!(names, ["B", "a", "a.zip", "ab", "b"]);
    assert!(found[5].name.is_none());
}
