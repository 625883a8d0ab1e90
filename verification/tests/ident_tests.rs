use program_lifecycle::ident::sanitize_identifier;
use program_lifecycle::ident::u64_to_dec;
use program_lifecycle::ident::uniquify;
use program_lifecycle::ident::uniquify_all;

#[test]
fn sanitize_replaces_spaces() {
    assert_eq!(sanitize_identifier("a b c"), "a_b_c");
    assert_eq!(sanitize_identifier("My Game"), "My_Game");
    assert_eq!(sanitize_identifier("nospace"), "nospace");
}

#[test]
fn sanitize_is_total_on_empty() {
    assert_eq!(sanitize_identifier(""), "");
}

#[test]
fn sanitize_replaces_all_whitespace() {
    assert_eq!(sanitize_identifier("a\tb"), "a_b");
    assert_eq!(sanitize_identifier("a\nb\rc"), "a_b_c");
}

#[test]
fn sanitize_idempotent_concrete() {
    let once = sanitize_identifier("my old game");
    let twice = sanitize_identifier(&once);
    assert_eq!(once, twice);
    assert_eq!(once, "my_old_game");
}

#[test]
fn dec_rendering_exact() {
    assert_eq!(u64_to_dec(0), "0");
    assert_eq!(u64_to_dec(7), "7");
    assert_eq!(u64_to_dec(10), "10");
    assert_eq!(u64_to_dec(12345), "12345");
}

#[test]
fn uniquify_free_base_is_kept() {
    let existing: Vec<String> = vec!["Other".to_string()];
    assert_eq!(uniquify("Foo", &existing), "Foo");
}

#[test]
fn uniquify_appends_first_free_suffix() {
    let existing: Vec<String> = vec!["Foo".to_string(), "Foo_2".to_string()];
    assert_eq!(uniquify("Foo", &existing), "Foo_3");
}

#[test]
fn uniquify_skips_holes_in_order() {
    let existing: Vec<String> = vec!["Foo".to_string(), "Foo_3".to_string()];
    assert_eq!(uniquify("Foo", &existing), "Foo_2");
}

#[test]
fn uniquify_all_shared_base_yields_distinct() {
    let bases: Vec<String> =
        vec!["Foo".to_string(), "Foo".to_string(), "Foo".to_string(), "Foo".to_string()];
    let out = uniquify_all(&bases);
    assert_eq!(out, vec!["Foo", "Foo_2", "Foo_3", "Foo_4"]);
    for i in 0..out.len() {
        for j in 0..out.len() {
            if i != j {
                assert_ne!(out[i], out[j]);
            }
        }
    }
}

#[test]
fn uniquify_all_rerun_is_no_op() {
    let bases: Vec<String> = vec!["A".to_string(), "A".to_string(), "B".to_string()];
    let once = uniquify_all(&bases);
    let twice = uniquify_all(&once);
    assert_eq!(once, twice);
}

#[test]
fn uniquify_all_distinct_input_unchanged() {
    let bases: Vec<String> = vec!["A".to_string(), "B".to_string(), "C".to_string()];
    assert_eq!(uniquify_all(&bases), bases);
}
