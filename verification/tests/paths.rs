use tera_introspect::add_mapping;
use tera_introspect::split_ident;
use tera_introspect::expand_names;
use tera_introspect::AliasTable;
use tera_introspect::Expr;

fn s(v: &str) -> String {
    v.to_string()
}

fn strs(vs: &[&str]) -> Vec<String> {
    vs.iter().map(|v| v.to_string()).collect()
}

#[test]
fn split_handles_dotted_and_bracketed_forms() {
    assert_eq!(split_ident("a.b.c"), strs(&["a", "b", "c"]));
    assert_eq!(split_ident("a.b[c]"), strs(&["a", "b", "c"]));
    assert_eq!(split_ident("a[b][c]"), strs(&["a", "b", "c"]));
    assert_eq!(split_ident("plain"), strs(&["plain"]));
}

#[test]
fn chained_aliases_expand_through_each_other() {
    let mut mapping = AliasTable::new();
    add_mapping(&mut mapping, "x", &Expr::Ident(s("a.b")), false);
    add_mapping(&mut mapping, "y", &Expr::Ident(s("x.c")), false);
    let expanded = expand_names(&strs(&["y", "d"]), &mapping);
    assert_eq!(expanded, strs(&["a", "b", "c", "d"]));
}

#[test]
fn loop_binding_suffixes_last_segment() {
    let mut mapping = AliasTable::new();
    add_mapping(&mut mapping, "item", &Expr::Ident(s("list.data")), true);
    let expanded = expand_names(&strs(&["item", "field"]), &mapping);
    assert_eq!(expanded, strs(&["list", "data()", "field"]));
}

#[test]
fn expansion_is_idempotent() {
    let mut mapping = AliasTable::new();
    add_mapping(&mut mapping, "x", &Expr::Ident(s("a.b")), false);
    let once = expand_names(&strs(&["x", "d"]), &mapping);
    assert_eq!(once, strs(&["a", "b", "d"]));
    let twice = expand_names(&once, &mapping);
    assert_eq!(twice, once);
}

#[test]
fn unbound_leading_name_expands_to_itself() {
    let mapping = AliasTable::new();
    let expanded = expand_names(&strs(&["solo"]), &mapping);
    assert_eq!(expanded, strs(&["solo"]));
    let mut bound = AliasTable::new();
    add_mapping(&mut bound, "x", &Expr::Ident(s("a.b")), false);
    let kept = expand_names(&strs(&["other", "leaf"]), &bound);
    assert_eq!(kept, strs(&["other", "leaf"]));
}

#[test]
fn rebinding_a_name_overwrites_it() {
    let mut mapping = AliasTable::new();
    add_mapping(&mut mapping, "x", &Expr::Ident(s("a.b")), false);
    add_mapping(&mut mapping, "x", &Expr::Ident(s("q")), false);
    let expanded = expand_names(&strs(&["x", "z"]), &mapping);
    assert_eq!(expanded, strs(&["q", "z"]));
}

#[test]
fn non_identifier_expression_binds_nothing() {
    let mut mapping = AliasTable::new();
    add_mapping(&mut mapping, "x", &Expr::Other, true);
    let expanded = expand_names(&strs(&["x", "z"]), &mapping);
    assert_eq!(expanded, strs(&["x", "z"]));
}
