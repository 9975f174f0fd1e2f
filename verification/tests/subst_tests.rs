use builder::subst::{substitute, VarMap};

fn map_of(pairs: &[(&str, &str)]) -> VarMap {
    let mut vm = VarMap::new();
    for (k, v) in pairs {
        vm.insert(k.to_string(), v.to_string());
    }
    vm
}

#[test]
fn substitutes_two_variables() {
    let vars = map_of(&[("a", "x"), ("b", "y")]);
    assert_eq!(substitute("${a}-${b}", &vars), "x-y");
}

#[test]
fn unknown_variable_expands_to_nothing() {
    let vars = map_of(&[]);
    assert_eq!(substitute("${missing}", &vars), "");
}

#[test]
fn literal_dollar_is_kept() {
    let vars = map_of(&[("a", "1")]);
    assert_eq!(substitute("$5 and ${a}", &vars), "$5 and 1");
}

#[test]
fn unterminated_placeholder_consumes_the_rest() {
    let vars = map_of(&[]);
    assert_eq!(substitute("${open", &vars), "");
}

#[test]
fn unterminated_placeholder_contributes_nothing_even_when_bound() {
    let vars = map_of(&[("open", "v")]);
    assert_eq!(substitute("x${open", &vars), "x");
}

#[test]
fn no_placeholders_means_identity() {
    let vars = map_of(&[("a", "x"), ("b", "y")]);
    let template = "plain text, a $dollar, braces {}, and the end$";
    assert_eq!(substitute(template, &vars), template);
}

#[test]
fn value_is_inserted_verbatim_without_rescanning() {
    let vars = map_of(&[("a", "${b}"), ("b", "nope")]);
    assert_eq!(substitute("${a}", &vars), "${b}");
}

#[test]
fn trailing_dollar_is_literal() {
    let vars = map_of(&[]);
    assert_eq!(substitute("end$", &vars), "end$");
}

#[test]
fn dollar_pairs_only_with_an_immediate_brace() {
    let vars = map_of(&[("a", "1")]);
    assert_eq!(substitute("$${a}", &vars), "$${a}");
}

#[test]
fn adjacent_placeholders_expand_in_order() {
    let vars = map_of(&[("a", "x"), ("b", "y")]);
    assert_eq!(substitute("${a}${b}${a}", &vars), "xyx");
}

#[test]
fn empty_name_looks_up_the_empty_string() {
    let vars = map_of(&[("", "e")]);
    assert_eq!(substitute("${}", &vars), "e");
}
