//! The tree walk: one pass over a node sequence that collects the template's
//! structural dependencies and its de-aliased identifier paths.
//!
//! Each scope (a block body, a loop body, a conditional branch) is walked
//! into a fresh accumulator that is merged into its parent's; the alias
//! table, by contrast, is shared by the whole walk, so a binding made in one
//! scope stays visible to every node visited later.

use crate::ast::Expr;
use crate::ast::Node;
use crate::paths::expand_fuel;
use crate::paths::expand_path;
use crate::paths::join_segs;
use crate::paths::split_path;
use crate::paths::split_ident;
use crate::strset::StrSet;
use crate::table::add_mapping;
use crate::table::bind_alias;
use crate::table::expand_names;
use crate::table::AliasTable;
use vstd::prelude::*;

verus! {

/// The canonical form of a written identifier path under a table: split into
/// segments, leading aliases expanded, segments joined with dots.
pub open spec fn canon_path(s: Seq<char>, m: Map<Seq<char>, Seq<Seq<char>>>) -> Seq<char> {
    join_segs(expand_path(split_path(s), m, expand_fuel(m)), seq!['.'])
}

/// The identifier set after reading one expression: an identifier path adds
/// its canonical form, any other expression adds nothing.
pub open spec fn collect_ident(
    ids: Set<Seq<char>>,
    expr: Expr,
    m: Map<Seq<char>, Seq<Seq<char>>>,
) -> Set<Seq<char>> {
    match expr {
        Expr::Ident(s) => ids.insert(canon_path(s@, m)),
        Expr::Other => ids,
    }
}

/// What one walk scope has found: the templates extended and included, the
/// macros imported, and the canonical identifier paths read.
#[verifier::ext_equal]
pub struct IntroView {
    pub extends: Set<Seq<char>>,
    pub includes: Set<Seq<char>>,
    pub macros: Set<Seq<char>>,
    pub idents: Set<Seq<char>>,
}

/// A scope that has found nothing yet.
pub open spec fn empty_intro() -> IntroView {
    IntroView {
        extends: Set::empty(),
        includes: Set::empty(),
        macros: Set::empty(),
        idents: Set::empty(),
    }
}

/// A scope holding a single identifier set and nothing else.
pub open spec fn idents_only(ids: Set<Seq<char>>) -> IntroView {
    IntroView { extends: Set::empty(), includes: Set::empty(), macros: Set::empty(), idents: ids }
}

/// Two scopes' findings merged: set union in every field.
pub open spec fn union_intro(a: IntroView, b: IntroView) -> IntroView {
    IntroView {
        extends: a.extends.union(b.extends),
        includes: a.includes.union(b.includes),
        macros: a.macros.union(b.macros),
        idents: a.idents.union(b.idents),
    }
}

/// The walk of a node sequence: each node's findings merged in order, the
/// table threaded left to right.
pub open spec fn walk_nodes(nodes: Seq<Node>, m: Map<Seq<char>, Seq<Seq<char>>>) -> (
    IntroView,
    Map<Seq<char>, Seq<Seq<char>>>,
)
    decreases nodes,
{
    if nodes.len() == 0 {
        (empty_intro(), m)
    } else {
        let (iv0, m0) = walk_node(nodes[0], m);
        let (iv1, m1) = walk_nodes(nodes.drop_first(), m0);
        (union_intro(iv0, iv1), m1)
    }
}

/// The walk of a single node.
///
/// A loop first binds its value name as a loop alias for the container, then
/// records the container's own identifier (under the table that already
/// holds the new binding), then walks its body. A conditional records each
/// branch condition's identifier before walking that branch, and walks the
/// `else` body last. Nodes irrelevant to introspection contribute nothing.
pub open spec fn walk_node(node: Node, m: Map<Seq<char>, Seq<Seq<char>>>) -> (
    IntroView,
    Map<Seq<char>, Seq<Seq<char>>>,
)
    decreases node,
{
    match node {
        Node::Extends(name) => (
            IntroView {
                extends: Set::empty().insert(name@),
                includes: Set::empty(),
                macros: Set::empty(),
                idents: Set::empty(),
            },
            m,
        ),
        Node::Include(parts) => (
            IntroView {
                extends: Set::empty(),
                includes: Set::empty().insert(join_segs(parts.deep_view(), Seq::empty())),
                macros: Set::empty(),
                idents: Set::empty(),
            },
            m,
        ),
        Node::ImportMacro(name) => (
            IntroView {
                extends: Set::empty(),
                includes: Set::empty(),
                macros: Set::empty().insert(name@),
                idents: Set::empty(),
            },
            m,
        ),
        Node::Block(body) => walk_nodes(body@, m),
        Node::Forloop(value, container, body) => {
            let m1 = bind_alias(m, value@, container, true);
            let ids = collect_ident(Set::empty(), container, m1);
            let (iv, m2) = walk_nodes(body@, m1);
            (union_intro(idents_only(ids), iv), m2)
        },
        Node::If(branches, otherwise) => {
            let (iv, m1) = walk_branches(branches@, m);
            match otherwise {
                Option::Some(body) => {
                    let (iv2, m2) = walk_nodes(body@, m1);
                    (union_intro(iv, iv2), m2)
                },
                Option::None => (iv, m1),
            }
        },
        Node::VariableBlock(expr) => (idents_only(collect_ident(Set::empty(), expr, m)), m),
        Node::Other => (empty_intro(), m),
    }
}

/// The walk of a conditional's branches, in order: each condition's
/// identifier, then that branch's body.
pub open spec fn walk_branches(branches: Seq<(Expr, Vec<Node>)>, m: Map<Seq<char>, Seq<Seq<char>>>)
    -> (IntroView, Map<Seq<char>, Seq<Seq<char>>>)
    decreases branches,
{
    if branches.len() == 0 {
        (empty_intro(), m)
    } else {
        let ids = collect_ident(Set::empty(), branches[0].0, m);
        let (iv1, m1) = walk_nodes(branches[0].1@, m);
        let (iv2, m2) = walk_branches(branches.drop_first(), m1);
        (union_intro(idents_only(ids), union_intro(iv1, iv2)), m2)
    }
}

/// The summary of one template: which templates it extends and includes,
/// which macros it imports, and the canonical identifier paths it reads.
pub struct TeraIntrospection {
    pub extends: StrSet,
    pub includes: StrSet,
    pub macros: StrSet,
    pub idents: StrSet,
}

impl View for TeraIntrospection {
    type V = IntroView;

    open spec fn view(&self) -> IntroView {
        IntroView {
            extends: self.extends@,
            includes: self.includes@,
            macros: self.macros@,
            idents: self.idents@,
        }
    }
}

impl TeraIntrospection {
    /// All four sets store each value once.
    pub open spec fn wf(&self) -> bool {
        &&& self.extends.wf()
        &&& self.includes.wf()
        &&& self.macros.wf()
        &&& self.idents.wf()
    }

    /// Walks a node sequence under the given alias table and returns its
    /// summary, exactly the walk that `walk_nodes` states, with the table
    /// left as the walk's bindings leave it.
    pub fn new(nodes: &[Node], mapping: &mut AliasTable) -> (ins: TeraIntrospection)
        requires
            old(mapping).wf(),
        ensures
            ins.wf(),
            final(mapping).wf(),
            ins@ == walk_nodes(nodes@, old(mapping)@).0,
            final(mapping)@ == walk_nodes(nodes@, old(mapping)@).1,
        decreases nodes@,
    {
        let ghost m0 = mapping@;
        let mut ins = TeraIntrospection {
            extends: StrSet::new(),
            includes: StrSet::new(),
            macros: StrSet::new(),
            idents: StrSet::new(),
        };
        proof {
            assert(nodes@.take(0) =~= Seq::<Node>::empty());
            assert(ins@ =~= walk_nodes(nodes@.take(0), m0).0);
        }
        let mut i: usize = 0;
        while i < nodes.len()
            invariant
                i <= nodes@.len(),
                mapping.wf(),
                ins.wf(),
                ins@ == walk_nodes(nodes@.take(i as int), m0).0,
                mapping@ == walk_nodes(nodes@.take(i as int), m0).1,
            decreases nodes@.len() - i,
        {
            let ghost prev_iv = ins@;
            let ghost prev_m = mapping@;
            proof {
                lemma_walk_nodes_take_step(nodes@, i as int, m0);
            }
            match &nodes[i] {
                Node::Extends(name) => {
                    ins.extends.insert(name.clone());
                    proof {
                        assert(ins@ =~= walk_nodes(nodes@.take(i as int + 1), m0).0);
                    }
                },
                Node::Include(parts) => {
                    let joined = crate::paths::join_strings(parts, "");
                    proof {
                        reveal_strlit("");
                        assert(""@ =~= Seq::<char>::empty());
                    }
                    ins.includes.insert(joined);
                    proof {
                        assert(ins@ =~= walk_nodes(nodes@.take(i as int + 1), m0).0);
                    }
                },
                Node::ImportMacro(name) => {
                    ins.macros.insert(name.clone());
                    proof {
                        assert(ins@ =~= walk_nodes(nodes@.take(i as int + 1), m0).0);
                    }
                },
                Node::Block(body) => {
                    proof {
                        assert(decreases_to!(nodes@ => nodes@[i as int]));
                    }
                    let child = Self::new(body.as_slice(), mapping);
                    ins.merge(child);
                    proof {
                        assert(ins@ =~= walk_nodes(nodes@.take(i as int + 1), m0).0);
                    }
                },
                Node::Forloop(value, container, body) => {
                    add_mapping(mapping, value.as_str(), container, true);
                    add_ident(&mut ins.idents, container, mapping);
                    proof {
                        assert(decreases_to!(nodes@ => nodes@[i as int]));
                    }
                    let child = Self::new(body.as_slice(), mapping);
                    ins.merge(child);
                    proof {
                        assert(ins@ =~= walk_nodes(nodes@.take(i as int + 1), m0).0);
                    }
                },
                Node::If(branches, otherwise) => {
                    let ghost if_iv = ins@;
                    let ghost if_m = mapping@;
                    proof {
                        assert(decreases_to!(nodes@ => nodes@[i as int]));
                        assert(decreases_to!(nodes@[i as int] => *branches));
                        assert(decreases_to!(*branches => branches@));
                        assert(branches@.take(0) =~= Seq::<(Expr, Vec<Node>)>::empty());
                        assert(ins@ =~= union_intro(
                            if_iv,
                            walk_branches(branches@.take(0), if_m).0,
                        ));
                    }
                    let mut j: usize = 0;
                    while j < branches.len()
                        invariant
                            j <= branches@.len(),
                            mapping.wf(),
                            ins.wf(),
                            decreases_to!(nodes@ => branches@),
                            ins@ == union_intro(if_iv, walk_branches(branches@.take(j as int), if_m).0),
                            mapping@ == walk_branches(branches@.take(j as int), if_m).1,
                        decreases branches@.len() - j,
                    {
                        proof {
                            lemma_walk_branches_take_step(branches@, j as int, if_m);
                        }
                        add_ident(&mut ins.idents, &branches[j].0, mapping);
                        proof {
                            assert(decreases_to!(branches@ => branches@[j as int]));
                            assert(decreases_to!(branches@[j as int] => branches@[j as int].1));
                            assert(decreases_to!(branches@[j as int].1 => branches@[j as int].1@));
                        }
                        let child = Self::new(branches[j].1.as_slice(), mapping);
                        ins.merge(child);
                        proof {
                            assert(ins@ =~= union_intro(
                                if_iv,
                                walk_branches(branches@.take(j as int + 1), if_m).0,
                            ));
                        }
                        j += 1;
                    }
                    proof {
                        assert(branches@.take(branches@.len() as int) =~= branches@);
                    }
                    match otherwise {
                        Option::Some(body) => {
                            proof {
                                assert(decreases_to!(nodes@ => nodes@[i as int]));
                            }
                            let child = Self::new(body.as_slice(), mapping);
                            ins.merge(child);
                        },
                        Option::None => {},
                    }
                    proof {
                        assert(ins@ =~= walk_nodes(nodes@.take(i as int + 1), m0).0);
                    }
                },
                Node::VariableBlock(expr) => {
                    add_ident(&mut ins.idents, expr, mapping);
                    proof {
                        assert(ins@ =~= walk_nodes(nodes@.take(i as int + 1), m0).0);
                    }
                },
                Node::Other => {
                    proof {
                        assert(ins@ =~= walk_nodes(nodes@.take(i as int + 1), m0).0);
                    }
                },
            }
            i += 1;
        }
        proof {
            assert(nodes@.take(nodes@.len() as int) =~= nodes@);
        }
        ins
    }

    /// Folds another scope's findings into this summary: set union in every
    /// field.
    pub fn merge(&mut self, other: TeraIntrospection)
        requires
            old(self).wf(),
        ensures
            final(self).wf(),
            final(self)@ == union_intro(old(self)@, other@),
    {
        let TeraIntrospection { extends, includes, macros, idents } = other;
        self.extends.extend_with(extends);
        self.includes.extend_with(includes);
        self.macros.extend_with(macros);
        self.idents.extend_with(idents);
    }
}

/// Records the canonical identifier of an identifier expression in the set;
/// any other expression leaves the set unchanged.
pub fn add_ident(idents: &mut StrSet, expr: &Expr, mapping: &AliasTable)
    requires
        old(idents).wf(),
        mapping.wf(),
    ensures
        final(idents).wf(),
        final(idents)@ == collect_ident(old(idents)@, *expr, mapping@),
{
    match expr {
        Expr::Ident(s) => {
            let parts = split_ident(s.as_str());
            let sl = parts.as_slice();
            proof {
                assert(sl.deep_view() =~= parts.deep_view());
            }
            let expanded = expand_names(sl, mapping);
            let joined = crate::paths::join_strings(&expanded, ".");
            proof {
                reveal_strlit(".");
                assert("."@ =~= seq!['.']);
                assert(joined@ == canon_path(s@, mapping@));
            }
            idents.insert(joined);
        },
        Expr::Other => {},
    }
}

/// All of one scope's findings are among another's.
pub open spec fn intro_le(a: IntroView, b: IntroView) -> bool {
    &&& a.extends.subset_of(b.extends)
    &&& a.includes.subset_of(b.includes)
    &&& a.macros.subset_of(b.macros)
    &&& a.idents.subset_of(b.idents)
}

/// Merging loses nothing: each side's findings are among the union's.
pub proof fn lemma_union_intro_le(a: IntroView, b: IntroView)
    ensures
        intro_le(a, union_intro(a, b)),
        intro_le(b, union_intro(a, b)),
{
}

/// Collecting the same identifier expression twice yields the very set that
/// collecting it once does; from an empty set, an identifier expression
/// collected twice yields a set of exactly one element.
pub proof fn lemma_collect_same_twice(
    ids: Set<Seq<char>>,
    expr: Expr,
    m: Map<Seq<char>, Seq<Seq<char>>>,
)
    ensures
        collect_ident(collect_ident(ids, expr, m), expr, m) == collect_ident(ids, expr, m),
        expr is Ident ==> collect_ident(
            collect_ident(Set::empty(), expr, m),
            expr,
            m,
        ).len() == 1,
{
    match expr {
        Expr::Ident(s) => {
            assert(collect_ident(collect_ident(ids, expr, m), expr, m) =~= collect_ident(
                ids,
                expr,
                m,
            ));
            assert(collect_ident(collect_ident(Set::empty(), expr, m), expr, m)
                =~= Set::empty().insert(canon_path(s@, m)));
        },
        Expr::Other => {},
    }
}

/// No finding is lost on the way to the root: whatever the walk of the node
/// at position `i` finds, under the table state the earlier nodes leave, is
/// among the whole sequence's findings.
pub proof fn lemma_walk_subsumes_node(nodes: Seq<Node>, i: int, m: Map<Seq<char>, Seq<Seq<char>>>)
    requires
        0 <= i < nodes.len(),
    ensures
        intro_le(
            walk_node(nodes[i], walk_nodes(nodes.take(i), m).1).0,
            walk_nodes(nodes, m).0,
        ),
{
    lemma_walk_nodes_take_step(nodes, i, m);
    assert(nodes =~= nodes.take(i + 1) + nodes.skip(i + 1));
    lemma_walk_nodes_concat(nodes.take(i + 1), nodes.skip(i + 1), m);
}

/// A block's body keeps all its findings: the block contributes exactly what
/// its body's walk finds.
pub proof fn lemma_nested_block_preserved(body: Vec<Node>, m: Map<Seq<char>, Seq<Seq<char>>>)
    ensures
        walk_node(Node::Block(body), m).0 == walk_nodes(body@, m).0,
{
}

/// A loop body's findings, walked under the table that holds the loop's own
/// binding, are all among the loop node's findings.
pub proof fn lemma_nested_forloop_preserved(
    value: String,
    container: Expr,
    body: Vec<Node>,
    m: Map<Seq<char>, Seq<Seq<char>>>,
)
    ensures
        intro_le(
            walk_nodes(body@, bind_alias(m, value@, container, true)).0,
            walk_node(Node::Forloop(value, container, body), m).0,
        ),
{
}

/// A conditional's findings keep every branch body's findings, each walked
/// under the table state the earlier branches leave, and the `else` body's
/// findings, walked under the table state all branches leave.
pub proof fn lemma_nested_if_preserved(
    branches: Vec<(Expr, Vec<Node>)>,
    otherwise: Option<Vec<Node>>,
    k: int,
    m: Map<Seq<char>, Seq<Seq<char>>>,
)
    requires
        0 <= k < branches@.len(),
    ensures
        intro_le(
            walk_nodes(branches@[k].1@, walk_branches(branches@.take(k), m).1).0,
            walk_node(Node::If(branches, otherwise), m).0,
        ),
        otherwise matches Some(body) ==> intro_le(
            walk_nodes(body@, walk_branches(branches@, m).1).0,
            walk_node(Node::If(branches, otherwise), m).0,
        ),
{
    lemma_walk_branches_take_step(branches@, k, m);
    assert(branches@ =~= branches@.take(k + 1) + branches@.skip(k + 1));
    lemma_walk_branches_concat(branches@.take(k + 1), branches@.skip(k + 1), m);
}

/// One step of the walk from the left: walking one node more extends the
/// findings by that node's own, under the table the earlier nodes left.
proof fn lemma_walk_nodes_take_step(s: Seq<Node>, i: int, m: Map<Seq<char>, Seq<Seq<char>>>)
    requires
        0 <= i < s.len(),
    ensures
        walk_nodes(s.take(i + 1), m).0 == union_intro(
            walk_nodes(s.take(i), m).0,
            walk_node(s[i], walk_nodes(s.take(i), m).1).0,
        ),
        walk_nodes(s.take(i + 1), m).1 == walk_node(s[i], walk_nodes(s.take(i), m).1).1,
{
    reveal_with_fuel(walk_nodes, 3);
    assert(s.take(i + 1) =~= s.take(i) + seq![s[i]]);
    lemma_walk_nodes_concat(s.take(i), seq![s[i]], m);
    let mi = walk_nodes(s.take(i), m).1;
    let single = seq![s[i]];
    assert(single.drop_first() =~= Seq::<Node>::empty());
    assert(walk_nodes(single, mi).0 =~= union_intro(walk_node(s[i], mi).0, empty_intro()));
    assert(walk_nodes(single, mi).0 =~= walk_node(s[i], mi).0);
    assert(walk_nodes(single, mi).1 == walk_node(s[i], mi).1);
}

/// Walking two sequences one after the other finds the union of their
/// findings, the second walked under the table the first leaves.
proof fn lemma_walk_nodes_concat(s1: Seq<Node>, s2: Seq<Node>, m: Map<Seq<char>, Seq<Seq<char>>>)
    ensures
        walk_nodes(s1 + s2, m).0 == union_intro(
            walk_nodes(s1, m).0,
            walk_nodes(s2, walk_nodes(s1, m).1).0,
        ),
        walk_nodes(s1 + s2, m).1 == walk_nodes(s2, walk_nodes(s1, m).1).1,
    decreases s1,
{
    if s1.len() == 0 {
        assert(s1 + s2 =~= s2);
        assert(union_intro(empty_intro(), walk_nodes(s2, m).0) =~= walk_nodes(s2, m).0);
    } else {
        let (iv0, ma) = walk_node(s1[0], m);
        assert((s1 + s2)[0] == s1[0]);
        assert((s1 + s2).drop_first() =~= s1.drop_first() + s2);
        lemma_walk_nodes_concat(s1.drop_first(), s2, ma);
        let a = walk_nodes(s1.drop_first(), ma).0;
        let b = walk_nodes(s2, walk_nodes(s1.drop_first(), ma).1).0;
        assert(union_intro(iv0, union_intro(a, b)) =~= union_intro(union_intro(iv0, a), b));
    }
}

/// One step of the branch walk from the left.
proof fn lemma_walk_branches_take_step(
    s: Seq<(Expr, Vec<Node>)>,
    j: int,
    m: Map<Seq<char>, Seq<Seq<char>>>,
)
    requires
        0 <= j < s.len(),
    ensures
        walk_branches(s.take(j + 1), m).0 == union_intro(
            walk_branches(s.take(j), m).0,
            union_intro(
                idents_only(collect_ident(Set::empty(), s[j].0, walk_branches(s.take(j), m).1)),
                walk_nodes(s[j].1@, walk_branches(s.take(j), m).1).0,
            ),
        ),
        walk_branches(s.take(j + 1), m).1 == walk_nodes(s[j].1@, walk_branches(s.take(j), m).1).1,
{
    reveal_with_fuel(walk_branches, 3);
    assert(s.take(j + 1) =~= s.take(j) + seq![s[j]]);
    lemma_walk_branches_concat(s.take(j), seq![s[j]], m);
    let mj = walk_branches(s.take(j), m).1;
    let single = seq![s[j]];
    assert(single.drop_first() =~= Seq::<(Expr, Vec<Node>)>::empty());
    let ids = collect_ident(Set::empty(), s[j].0, mj);
    let (iv1, m1) = walk_nodes(s[j].1@, mj);
    assert(walk_branches(single, mj).0 =~= union_intro(
        idents_only(ids),
        union_intro(iv1, empty_intro()),
    ));
    assert(walk_branches(single, mj).0 =~= union_intro(idents_only(ids), iv1));
    assert(walk_branches(single, mj).1 == m1);
}

/// Walking two branch lists one after the other finds the union of their
/// findings.
proof fn lemma_walk_branches_concat(
    s1: Seq<(Expr, Vec<Node>)>,
    s2: Seq<(Expr, Vec<Node>)>,
    m: Map<Seq<char>, Seq<Seq<char>>>,
)
    ensures
        walk_branches(s1 + s2, m).0 == union_intro(
            walk_branches(s1, m).0,
            walk_branches(s2, walk_branches(s1, m).1).0,
        ),
        walk_branches(s1 + s2, m).1 == walk_branches(s2, walk_branches(s1, m).1).1,
    decreases s1,
{
    if s1.len() == 0 {
        assert(s1 + s2 =~= s2);
        assert(union_intro(empty_intro(), walk_branches(s2, m).0) =~= walk_branches(s2, m).0);
    } else {
        let ids = collect_ident(Set::empty(), s1[0].0, m);
        let (iv1, m1) = walk_nodes(s1[0].1@, m);
        assert((s1 + s2)[0] == s1[0]);
        assert((s1 + s2).drop_first() =~= s1.drop_first() + s2);
        lemma_walk_branches_concat(s1.drop_first(), s2, m1);
        let a = walk_branches(s1.drop_first(), m1).0;
        let b = walk_branches(s2, walk_branches(s1.drop_first(), m1).1).0;
        let head = union_intro(idents_only(ids), iv1);
        assert(union_intro(head, union_intro(a, b)) =~= union_intro(union_intro(head, a), b));
    }
}

} // verus!
