use sorted_check::check::check_match;
use sorted_check::check::classify;
use sorted_check::check::ItemModel;
use sorted_check::check::MatchModel;
use sorted_check::check::MatchOutcome;
use sorted_check::check::Pattern;
use sorted_check::check::StructuralError;
use sorted_check::check_sorting::check_sorting;
use sorted_check::check_sorting::violation_message;
use sorted_check::check_sorting::ClassifyError;
use sorted_check::check_sorting::PathModel;
use sorted_check::check_sorting::PathSegment;
use sorted_check::check_sorting::SimplifiedPath;
use sorted_check::check_sorting::Sortable;
use sorted_check::lex::str_lt;

fn ident(name: &str) -> Sortable {
    Sortable::Ident(String::from(name))
}

fn seg(name: &str, has_arguments: bool) -> PathSegment {
    PathSegment {
        name: String::from(name),
        has_arguments,
    }
}

fn path_model(leading_root: bool, names: &[&str]) -> PathModel {
    PathModel {
        leading_root,
        segments: names.iter().map(|n| seg(n, false)).collect(),
    }
}

fn path_key(names: &[&str]) -> Sortable {
    match SimplifiedPath::try_from_model(&path_model(false, names)) {
        Ok(sp) => Sortable::Path(sp),
        Err(e) => panic!("path should classify, got {:?}", e),
    }
}

#[test]
fn sorted_idents_yield_nothing() {
    let keys = vec![ident("Add"), ident("Mul"), ident("Sub")];
    let r = check_sorting(&keys);
    assert!(r.is_empty());
}

#[test]
fn single_adjacent_pair() {
    let keys = vec![ident("Sub"), ident("Add")];
    let r = check_sorting(&keys);
    assert_eq!(r.len(), 1);
    assert_eq!(r[0].offender, 1);
    assert_eq!(r[0].reference, 0);
    assert_eq!(r[0].message, "Add should sort before Sub");
}

#[test]
fn minimality_reports_smallest_violator() {
    let keys = vec![ident("Zebra"), ident("Mango"), ident("Apple")];
    let r = check_sorting(&keys);
    assert_eq!(r.len(), 2);
    assert_eq!(r[0].offender, 1);
    assert_eq!(r[0].reference, 0);
    assert_eq!(r[0].message, "Mango should sort before Zebra");
    // "Apple" violates against both earlier keys; the reference must be
    // "Mango" (index 1), the smaller of the two, never "Zebra".
    assert_eq!(r[1].offender, 2);
    assert_eq!(r[1].reference, 1);
    assert_eq!(r[1].message, "Apple should sort before Mango");
}

#[test]
fn wildcard_must_come_last() {
    let keys = vec![ident("Apple"), Sortable::Wildcard, ident("Banana")];
    let r = check_sorting(&keys);
    assert_eq!(r.len(), 1);
    assert_eq!(r[0].offender, 2);
    assert_eq!(r[0].reference, 1);
    assert_eq!(r[0].message, "Banana should sort before wildcard");
}

#[test]
fn two_wildcards_are_fine() {
    let keys = vec![Sortable::Wildcard, Sortable::Wildcard];
    let r = check_sorting(&keys);
    assert!(r.is_empty());
}

#[test]
fn mixed_ident_and_path_compare_as_strings() {
    let keys = vec![path_key(&["a", "B"]), path_key(&["a", "A"])];
    let r = check_sorting(&keys);
    assert_eq!(r.len(), 1);
    assert_eq!(r[0].offender, 1);
    assert_eq!(r[0].reference, 0);
    assert_eq!(r[0].message, "a::A should sort before a::B");
}

#[test]
fn ident_against_path_compares_as_strings() {
    // "under" > "std::env" as plain strings, so the path must move up.
    let keys = vec![ident("under"), path_key(&["std", "env"])];
    let r = check_sorting(&keys);
    assert_eq!(r.len(), 1);
    assert_eq!(r[0].offender, 1);
    assert_eq!(r[0].message, "std::env should sort before under");
}

#[test]
fn path_stringified_joins_segments() {
    let sp = SimplifiedPath::try_from_model(&path_model(false, &["a", "B"])).unwrap();
    assert_eq!(sp.stringified, "a::B");
    assert_eq!(sp.segments, vec!["a".to_string(), "B".to_string()]);
    let single = SimplifiedPath::try_from_model(&path_model(false, &["Foo"])).unwrap();
    assert_eq!(single.stringified, "Foo");
}

#[test]
fn leading_root_is_rejected() {
    let r = SimplifiedPath::try_from_model(&path_model(true, &["std", "env"]));
    assert_eq!(r.err(), Some(ClassifyError::LeadingRoot));
}

#[test]
fn first_segment_with_arguments_is_rejected() {
    let pm = PathModel {
        leading_root: false,
        segments: vec![seg("std", false), seg("collections", true), seg("x", true)],
    };
    let r = SimplifiedPath::try_from_model(&pm);
    assert_eq!(r.err(), Some(ClassifyError::SegmentArguments { segment: 1 }));
}

#[test]
fn classify_maps_each_shape() {
    match classify(&Pattern::Binding(String::from("name"))) {
        Ok(Sortable::Ident(n)) => assert_eq!(n, "name"),
        other => panic!("expected identifier key, got {:?}", other.is_ok()),
    }
    match classify(&Pattern::Wildcard) {
        Ok(Sortable::Wildcard) => {}
        _ => panic!("expected wildcard key"),
    }
    match classify(&Pattern::Path(path_model(false, &["a", "B"]))) {
        Ok(Sortable::Path(sp)) => assert_eq!(sp.stringified, "a::B"),
        _ => panic!("expected path key"),
    }
    assert_eq!(
        classify(&Pattern::Other).err(),
        Some(ClassifyError::Unsupported)
    );
}

#[test]
fn unsupported_arm_disables_order_check() {
    // The remaining arms are genuinely out of order, yet only the
    // classification error for the middle arm may be reported.
    let m = MatchModel {
        marked: true,
        arms: vec![
            Pattern::Binding(String::from("Sub")),
            Pattern::Other,
            Pattern::Binding(String::from("Add")),
        ],
    };
    let (stripped, outcome) = check_match(m);
    assert!(!stripped.marked);
    match outcome {
        MatchOutcome::Unsupported { arm, error } => {
            assert_eq!(arm, 1);
            assert_eq!(error, ClassifyError::Unsupported);
        }
        MatchOutcome::Skipped => panic!("marked match must be checked"),
        MatchOutcome::Checked { .. } => panic!("order check must be disabled"),
    }
}

#[test]
fn unmarked_match_is_skipped() {
    let m = MatchModel {
        marked: false,
        arms: vec![
            Pattern::Binding(String::from("Sub")),
            Pattern::Binding(String::from("Add")),
        ],
    };
    let (stripped, outcome) = check_match(m);
    assert!(!stripped.marked);
    assert_eq!(stripped.arms.len(), 2);
    assert!(matches!(outcome, MatchOutcome::Skipped));
}

#[test]
fn checker_is_idempotent_on_sorted_input() {
    let m = MatchModel {
        marked: true,
        arms: vec![
            Pattern::Binding(String::from("Add")),
            Pattern::Binding(String::from("Sub")),
            Pattern::Wildcard,
        ],
    };
    let (stripped, outcome) = check_match(m);
    match outcome {
        MatchOutcome::Checked { violations } => assert!(violations.is_empty()),
        _ => panic!("marked, classifiable match must reach the detector"),
    }
    // Second run on the re-emitted construct: the marker is gone, so the
    // match passes through untouched, again with no diagnostics.
    assert!(!stripped.marked);
    let (again, second) = check_match(stripped);
    assert!(!again.marked);
    assert!(matches!(second, MatchOutcome::Skipped));
}

#[test]
fn marker_is_always_stripped() {
    let out_of_order = MatchModel {
        marked: true,
        arms: vec![
            Pattern::Binding(String::from("Sub")),
            Pattern::Binding(String::from("Add")),
        ],
    };
    let (stripped, _) = check_match(out_of_order);
    assert!(!stripped.marked);
    assert_eq!(stripped.arms.len(), 2);

    let unsupported = MatchModel {
        marked: true,
        arms: vec![Pattern::Other],
    };
    let (stripped, _) = check_match(unsupported);
    assert!(!stripped.marked);
}

#[test]
fn violation_message_renders_both_keys() {
    let m = violation_message(&ident("Add"), &Sortable::Wildcard);
    assert_eq!(m, "Add should sort before wildcard");
}

#[test]
fn renderings() {
    assert_eq!(ident("Foo").render(), "Foo");
    assert_eq!(path_key(&["a", "A"]).render(), "a::A");
    assert_eq!(Sortable::Wildcard.render(), "wildcard");
}

#[test]
fn string_order_is_lexicographic() {
    assert!(str_lt("Add", "Sub"));
    assert!(!str_lt("Sub", "Add"));
    assert!(str_lt("a", "ab"));
    assert!(str_lt("", "a"));
    assert!(!str_lt("a", ""));
    assert!(!str_lt("same", "same"));
}

#[test]
fn wrong_item_kind_is_a_structural_error() {
    match sorted_check::sorted::execute(ItemModel::Other) {
        Err(e) => {
            assert_eq!(e, StructuralError::ExpectedEnum);
            assert_eq!(e.message(), "expected enum or match expression");
        }
        Ok(_) => panic!("non-enum item must be rejected"),
    }
    match sorted_check::check::execute(ItemModel::Other) {
        Err(e) => {
            assert_eq!(e, StructuralError::ExpectedFunction);
            assert_eq!(e.message(), "expected function");
        }
        Ok(_) => panic!("non-function item must be rejected"),
    }
}

#[test]
fn enum_entry_checks_variants() {
    let item = ItemModel::Enum {
        variants: vec![String::from("Sub"), String::from("Add")],
    };
    match sorted_check::sorted::execute(item) {
        Ok((returned, violations)) => {
            match returned {
                ItemModel::Enum { variants } => {
                    assert_eq!(variants, vec!["Sub".to_string(), "Add".to_string()])
                }
                _ => panic!("the construct must be returned unchanged"),
            }
            assert_eq!(violations.len(), 1);
            assert_eq!(violations[0].offender, 1);
            assert_eq!(violations[0].reference, 0);
            assert_eq!(violations[0].message, "Add should sort before Sub");
        }
        Err(_) => panic!("an enum item must be accepted"),
    }
}

#[test]
fn enum_entry_is_idempotent_on_sorted_variants() {
    let item = ItemModel::Enum {
        variants: vec![String::from("Add"), String::from("Mul"), String::from("Sub")],
    };
    let (returned, violations) = sorted_check::sorted::execute(item).unwrap();
    assert!(violations.is_empty());
    let (_, second) = sorted_check::sorted::execute(returned).unwrap();
    assert!(second.is_empty());
}

#[test]
fn function_entry_checks_each_match_independently() {
    let item = ItemModel::Function {
        matches: vec![
            MatchModel {
                marked: true,
                arms: vec![
                    Pattern::Binding(String::from("Add")),
                    Pattern::Binding(String::from("Sub")),
                ],
            },
            MatchModel {
                marked: false,
                arms: vec![
                    Pattern::Binding(String::from("Sub")),
                    Pattern::Binding(String::from("Add")),
                ],
            },
            MatchModel {
                marked: true,
                arms: vec![
                    Pattern::Binding(String::from("Sub")),
                    Pattern::Binding(String::from("Add")),
                ],
            },
        ],
    };
    let rep = sorted_check::check::execute(item).unwrap();
    assert_eq!(rep.matches.len(), 3);
    assert_eq!(rep.outcomes.len(), 3);
    assert!(rep.matches.iter().all(|m| !m.marked));
    match &rep.outcomes[0] {
        MatchOutcome::Checked { violations } => assert!(violations.is_empty()),
        _ => panic!("first match is marked and sorted"),
    }
    assert!(matches!(rep.outcomes[1], MatchOutcome::Skipped));
    match &rep.outcomes[2] {
        MatchOutcome::Checked { violations } => {
            assert_eq!(violations.len(), 1);
            assert_eq!(violations[0].message, "Add should sort before Sub");
        }
        _ => panic!("third match is marked and out of order"),
    }
}

#[test]
fn classification_failure_spares_sibling_matches() {
    let item = ItemModel::Function {
        matches: vec![
            MatchModel {
                marked: true,
                arms: vec![Pattern::Binding(String::from("Sub")), Pattern::Other],
            },
            MatchModel {
                marked: true,
                arms: vec![
                    Pattern::Binding(String::from("Sub")),
                    Pattern::Binding(String::from("Add")),
                ],
            },
        ],
    };
    let rep = sorted_check::check::execute(item).unwrap();
    match &rep.outcomes[0] {
        MatchOutcome::Unsupported { arm, error } => {
            assert_eq!(*arm, 1);
            assert_eq!(*error, ClassifyError::Unsupported);
        }
        _ => panic!("first match has an unclassifiable arm"),
    }
    match &rep.outcomes[1] {
        MatchOutcome::Checked { violations } => assert_eq!(violations.len(), 1),
        _ => panic!("second match must still be checked"),
    }
}

#[test]
fn empty_and_singleton_sequences_are_fine() {
    assert!(check_sorting(&vec![]).is_empty());
    assert!(check_sorting(&vec![ident("Only")]).is_empty());
}

#[test]
fn equal_keys_are_not_violations() {
    let keys = vec![ident("Same"), ident("Same")];
    assert!(check_sorting(&keys).is_empty());
}
