use tera_introspect::AliasTable;
use tera_introspect::Expr;
use tera_introspect::Node;
use tera_introspect::TeraIntrospection;

fn s(v: &str) -> String {
    v.to_string()
}

fn ident(v: &str) -> Expr {
    Expr::Ident(s(v))
}

#[test]
fn tera_introspection_should_work() {
    let nodes = vec![
        Node::Extends(s("crn:cws:cella:us-west2::view:todo/main")),
        Node::Include(vec![s("crn:cws:cella:us-west2::view:todo/table")]),
        Node::If(
            vec![(
                ident("config.edit_get"),
                vec![Node::VariableBlock(ident("config.edit_title"))],
            )],
            None,
        ),
        Node::Forloop(
            s("item"),
            ident("data.items"),
            vec![
                Node::If(vec![(ident("loop.first"), vec![])], None),
                Node::VariableBlock(ident("item.col")),
                Node::Forloop(
                    s("v"),
                    ident("item.values"),
                    vec![Node::VariableBlock(ident("v.abc"))],
                ),
            ],
        ),
        Node::Forloop(s("name"), ident("data.names"), vec![]),
    ];
    let mut mapping = AliasTable::new();
    let ins = TeraIntrospection::new(&nodes, &mut mapping);
    assert!(ins.extends.contains(&s("crn:cws:cella:us-west2::view:todo/main")));
    assert!(ins.includes.contains(&s("crn:cws:cella:us-west2::view:todo/table")));
    assert!(ins.macros.is_empty());
    let expected = [
        "data.items().col",
        "data.items",
        "data.names",
        "config.edit_get",
        "loop.first",
        "data.items().values",
        "data.items().values().abc",
        "config.edit_title",
    ];
    for e in expected {
        assert!(ins.idents.contains(&s(e)), "missing ident {}", e);
    }
    assert_eq!(ins.idents.len(), expected.len());
}

#[test]
fn collecting_same_ident_twice_yields_one() {
    let nodes = vec![
        Node::VariableBlock(ident("user.name")),
        Node::VariableBlock(ident("user.name")),
    ];
    let mut mapping = AliasTable::new();
    let ins = TeraIntrospection::new(&nodes, &mut mapping);
    assert_eq!(ins.idents.len(), 1);
    assert!(ins.idents.contains(&s("user.name")));
}

#[test]
fn nested_dependencies_reach_the_root() {
    let nodes = vec![Node::Block(vec![
        Node::Extends(s("outer")),
        Node::Forloop(
            s("i"),
            ident("c.d"),
            vec![
                Node::ImportMacro(s("m1")),
                Node::If(
                    vec![(Expr::Other, vec![Node::Include(vec![s("p")])])],
                    Some(vec![Node::VariableBlock(ident("z"))]),
                ),
            ],
        ),
    ])];
    let mut mapping = AliasTable::new();
    let ins = TeraIntrospection::new(&nodes, &mut mapping);
    assert!(ins.extends.contains(&s("outer")));
    assert!(ins.macros.contains(&s("m1")));
    assert!(ins.includes.contains(&s("p")));
    assert!(ins.idents.contains(&s("z")));
    assert!(ins.idents.contains(&s("c.d")));
}

#[test]
fn forloop_records_container_and_expanded_item() {
    let nodes = vec![
        Node::Extends(s("base")),
        Node::Forloop(
            s("row"),
            ident("data.rows"),
            vec![Node::VariableBlock(ident("row.name"))],
        ),
        Node::Include(vec![s("partial")]),
    ];
    let mut mapping = AliasTable::new();
    let ins = TeraIntrospection::new(&nodes, &mut mapping);
    assert!(ins.extends.contains(&s("base")));
    assert_eq!(ins.extends.len(), 1);
    assert!(ins.includes.contains(&s("partial")));
    assert_eq!(ins.includes.len(), 1);
    assert!(ins.macros.is_empty());
    assert!(ins.idents.contains(&s("data.rows")));
    assert!(ins.idents.contains(&s("data.rows().name")));
    assert_eq!(ins.idents.len(), 2);
}

#[test]
fn if_branches_and_else_all_collected() {
    let nodes = vec![Node::If(
        vec![
            (ident("first.flag"), vec![]),
            (ident("second.flag"), vec![]),
        ],
        Some(vec![Node::VariableBlock(ident("third.value"))]),
    )];
    let mut mapping = AliasTable::new();
    let ins = TeraIntrospection::new(&nodes, &mut mapping);
    assert!(ins.idents.contains(&s("first.flag")));
    assert!(ins.idents.contains(&s("second.flag")));
    assert!(ins.idents.contains(&s("third.value")));
    assert_eq!(ins.idents.len(), 3);
    assert!(ins.extends.is_empty());
    assert!(ins.includes.is_empty());
    assert!(ins.macros.is_empty());
}

#[test]
fn include_name_parts_are_concatenated() {
    let nodes = vec![Node::Include(vec![s("left"), s("right")])];
    let mut mapping = AliasTable::new();
    let ins = TeraIntrospection::new(&nodes, &mut mapping);
    assert!(ins.includes.contains(&s("leftright")));
    assert_eq!(ins.includes.len(), 1);
}

#[test]
fn unknown_alias_is_kept_verbatim() {
    let nodes = vec![Node::VariableBlock(ident("nope.q"))];
    let mut mapping = AliasTable::new();
    let ins = TeraIntrospection::new(&nodes, &mut mapping);
    assert!(ins.idents.contains(&s("nope.q")));
    assert_eq!(ins.idents.len(), 1);
}

#[test]
fn earlier_sibling_binding_stays_visible() {
    let nodes = vec![
        Node::Forloop(s("item"), ident("data.items"), vec![]),
        Node::VariableBlock(ident("item.later")),
    ];
    let mut mapping = AliasTable::new();
    let ins = TeraIntrospection::new(&nodes, &mut mapping);
    assert!(ins.idents.contains(&s("data.items")));
    assert!(ins.idents.contains(&s("data.items().later")));
    assert_eq!(ins.idents.len(), 2);
}

#[test]
fn other_nodes_contribute_nothing() {
    let nodes = vec![Node::Other, Node::VariableBlock(Expr::Other)];
    let mut mapping = AliasTable::new();
    let ins = TeraIntrospection::new(&nodes, &mut mapping);
    assert!(ins.extends.is_empty());
    assert!(ins.includes.is_empty());
    assert!(ins.macros.is_empty());
    assert!(ins.idents.is_empty());
}
