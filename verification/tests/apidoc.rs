//! The generated reference: tables, splicing and the check.

use kuula::apidoc::diffing::{check, diff, render};
use kuula::apidoc::splicing::splice;
use kuula::apidoc::{section, sections, wrap, Binding, Group, GroupKind, Sig, BEGIN, END, WIDTH};

fn body(key: &str, text: &str) -> Vec<(String, String)> {
    vec![(key.to_string(), text.to_string())]
}

#[test]
fn splice_replaces_bodies_and_reports_marker_problems() {
    let sections = body("a", "body a\n");
    let doc = "intro\n<!-- generated: a -->\nold\n<!-- /generated -->\noutro\n";
    assert_eq!(
        splice(doc, &sections).unwrap(),
        "intro\n<!-- generated: a -->\nbody a\n<!-- /generated -->\noutro\n"
    );
    let err = splice("intro\n", &sections).unwrap_err();
    assert!(err.contains("no `<!-- generated: a -->`"), "{err}");
    let err = splice("<!-- generated: b -->\n<!-- /generated -->\n", &sections).unwrap_err();
    assert!(err.contains("unknown"), "{err}");
    let err = splice("<!-- generated: a -->\nx\n", &sections).unwrap_err();
    assert!(err.contains("not closed"), "{err}");
}

#[test]
fn diff_marks_changed_lines() {
    let d = diff("a\nb\nc\n", "a\nx\nc\n");
    assert_eq!(d, "-b\n+x\n");
}

#[test]
fn wrap_keeps_lines_under_the_width() {
    let text = format!("- `x`: {}", "word ".repeat(40));
    for line in wrap(text.trim()).lines() {
        assert!(line.len() <= WIDTH, "{line}");
    }
}

#[test]
fn equal_texts_have_an_empty_diff() {
    assert_eq!(diff("a\nb\n", "a\nb\n"), "");
    assert_eq!(diff("", "a\n"), "+a\n");
    assert_eq!(diff("a\nb\n", "b\n"), "-a\n");
}

fn inventory() -> (Vec<Group>, Vec<Binding>) {
    let groups = vec![
        Group {
            key: "draw".to_string(),
            kind: GroupKind::Calls,
        },
        Group {
            key: "lib".to_string(),
            kind: GroupKind::Library,
        },
    ];
    let bindings = vec![Binding {
        name: "cls".to_string(),
        qualified: "cls".to_string(),
        sigs: vec![Sig {
            call: "cls(c)".to_string(),
            returns: String::new(),
            group: None,
            price: None,
        }],
        group: 0,
        price: "1".to_string(),
        doc: "Clear the target.".to_string(),
        defaults: Vec::new(),
        errors: Vec::new(),
    }];
    (groups, bindings)
}

#[test]
fn a_stale_document_fails_the_check_with_a_diff() {
    let (groups, bindings) = inventory();
    let none: Vec<String> = Vec::new();
    let doc = format!("intro\n{BEGIN}draw -->\n{END}\n{BEGIN}lib -->\n{END}\n");
    let fresh = render(&doc, &groups, &bindings, &none, "internal").unwrap();
    assert!(fresh.contains("`cls(c)`"), "{fresh}");
    assert!(check(&fresh, &groups, &bindings, &none, "internal").is_ok());
    let err = check(&doc, &groups, &bindings, &none, "internal").unwrap_err();
    assert!(err.contains("+| `cls(c)`"), "{err}");
    assert!(err.contains("--write"), "{err}");
    // Rendering what was rendered changes nothing.
    assert_eq!(render(&fresh, &groups, &bindings, &none, "internal").unwrap(), fresh);
}

#[test]
fn every_group_has_a_section_in_order() {
    let (groups, bindings) = inventory();
    let all = sections(&groups, &bindings);
    assert_eq!(all.len(), 2);
    assert_eq!(all[0].0, "draw");
    assert_eq!(all[0].1, section(0, GroupKind::Calls, &bindings));
    assert_eq!(all[1].0, "lib");
}

#[test]
fn the_least_missing_section_is_named() {
    let mut sections = body("b", "b\n");
    sections.extend(body("a", "a\n"));
    sections.extend(body("c", "c\n"));
    let err = splice("<!-- generated: c -->\n<!-- /generated -->\n", &sections).unwrap_err();
    assert_eq!(err, "the document has no `<!-- generated: a -->` section");
}

#[test]
fn splicing_twice_is_splicing_once() {
    let sections = body("a", "body a\r\nmore\n");
    for doc in [
        "intro\r\n<!-- generated: a -->\r\nold\r\n<!-- /generated -->\r\noutro\r\n",
        "in\rtro\n<!-- generated: a -->\nold\n<!-- /generated -->\nout\r",
        "<!-- generated: a -->\n<!-- /generated -->",
        "<!-- generated: a -->\nold\r\r\n<!-- /generated -->\r",
    ] {
        let once = splice(doc, &sections).unwrap();
        assert_eq!(splice(&once, &sections).unwrap(), once);
    }
    // A second carriage return is part of the line, and the next splice
    // takes it for that of the line feed.
    let doc = "x\r\r\n<!-- generated: a -->\n<!-- /generated -->\n";
    let once = splice(doc, &sections).unwrap();
    assert!(once.starts_with("x\r\n"));
    assert!(splice(&once, &sections).unwrap().starts_with("x\n"));
}
