//! The alias table: a mapping from a template-local name to the path
//! segments it stands for, together with the binder that records a loop
//! alias and the expander that resolves a path's leading aliases.
//!
//! One table is threaded through a whole tree walk: a binding made while
//! visiting one node stays visible to every node visited after it, and
//! binding a name again replaces its earlier entry.

use crate::ast::Expr;
use crate::paths::expand_fuel;
use crate::paths::expand_path;
use crate::paths::expand_step;
use crate::paths::split_ident;
use crate::paths::split_path;
use vstd::prelude::*;
use vstd::string::StringExecFns;

verus! {

/// The suffix appended to a loop container's last segment, marking that the
/// bound name denotes the container's items rather than the container field
/// itself.
pub open spec fn call_marker() -> Seq<char> {
    seq!['(', ')']
}

/// The segments a loop binding stores: for a loop alias the last segment
/// carries the call marker, for any other binding the segments unchanged.
pub open spec fn loop_suffixed(names: Seq<Seq<char>>, is_loop: bool) -> Seq<Seq<char>> {
    if is_loop && names.len() > 0 {
        names.update(names.len() - 1, names.last() + call_marker())
    } else {
        names
    }
}

/// What binding `value` to `expr` does to a table: an identifier expression
/// binds the name to the expression's split segments (suffixed for a loop);
/// any other expression binds nothing.
pub open spec fn bind_alias(
    m: Map<Seq<char>, Seq<Seq<char>>>,
    value: Seq<char>,
    expr: Expr,
    is_loop: bool,
) -> Map<Seq<char>, Seq<Seq<char>>> {
    match expr {
        Expr::Ident(s) => m.insert(value, loop_suffixed(split_path(s@), is_loop)),
        Expr::Other => m,
    }
}

/// The map that a sequence of key/segments entries denotes, a later entry
/// overriding an earlier one with the same key.
pub open spec fn map_of_entries(s: Seq<(String, Vec<String>)>) -> Map<Seq<char>, Seq<Seq<char>>>
    decreases s.len(),
{
    if s.len() == 0 {
        Map::empty()
    } else {
        map_of_entries(s.drop_last()).insert(s.last().0@, s.last().1.deep_view())
    }
}

/// No two entries share a key.
pub open spec fn distinct_keys(s: Seq<(String, Vec<String>)>) -> bool {
    forall|i: int, j: int| 0 <= i < j < s.len() ==> (#[trigger] s[i]).0@ != (#[trigger] s[j]).0@
}

/// An entry's key denotes its segments in the map of the whole entry list,
/// provided no other entry shares the key.
proof fn lemma_map_of_entries_at(s: Seq<(String, Vec<String>)>, i: int)
    requires
        distinct_keys(s),
        0 <= i < s.len(),
    ensures
        map_of_entries(s).contains_key(s[i].0@),
        map_of_entries(s)[s[i].0@] == s[i].1.deep_view(),
    decreases s.len(),
{
    if i < s.len() - 1 {
        lemma_map_of_entries_at(s.drop_last(), i);
    }
}

/// A key that no entry carries is absent from the map.
proof fn lemma_map_of_entries_absent(s: Seq<(String, Vec<String>)>, k: Seq<char>)
    requires
        forall|i: int| 0 <= i < s.len() ==> (#[trigger] s[i]).0@ != k,
    ensures
        !map_of_entries(s).contains_key(k),
    decreases s.len(),
{
    if s.len() > 0 {
        lemma_map_of_entries_absent(s.drop_last(), k);
    }
}

/// With distinct keys, the map has exactly one key per entry.
proof fn lemma_map_of_entries_dom(s: Seq<(String, Vec<String>)>)
    requires
        distinct_keys(s),
    ensures
        map_of_entries(s).dom().finite(),
        map_of_entries(s).dom().len() == s.len(),
    decreases s.len(),
{
    if s.len() > 0 {
        lemma_map_of_entries_dom(s.drop_last());
        lemma_map_of_entries_absent(s.drop_last(), s.last().0@);
    }
}

/// Replacing the entry that carries a key denotes the same map as inserting
/// the key's new segments.
proof fn lemma_map_of_entries_update(s: Seq<(String, Vec<String>)>, i: int, e: (String, Vec<String>))
    requires
        distinct_keys(s),
        0 <= i < s.len(),
        e.0@ == s[i].0@,
    ensures
        distinct_keys(s.update(i, e)),
        map_of_entries(s.update(i, e)) == map_of_entries(s).insert(e.0@, e.1.deep_view()),
    decreases s.len(),
{
    let t = s.update(i, e);
    if i == s.len() - 1 {
        assert(t.drop_last() =~= s.drop_last());
        assert(map_of_entries(t) =~= map_of_entries(s).insert(e.0@, e.1.deep_view()));
    } else {
        assert(s.drop_last()[i] == s[i]);
        lemma_map_of_entries_update(s.drop_last(), i, e);
        assert(t.drop_last() =~= s.drop_last().update(i, e));
        assert(t.last() == s.last());
        assert(map_of_entries(t) == map_of_entries(s.drop_last()).insert(
            e.0@,
            e.1.deep_view(),
        ).insert(s.last().0@, s.last().1.deep_view()));
        assert(map_of_entries(t) =~= map_of_entries(s).insert(e.0@, e.1.deep_view()));
    }
}

/// The alias table.
pub struct AliasTable {
    entries: Vec<(String, Vec<String>)>,
}

impl View for AliasTable {
    type V = Map<Seq<char>, Seq<Seq<char>>>;

    closed spec fn view(&self) -> Map<Seq<char>, Seq<Seq<char>>> {
        map_of_entries(self.entries@)
    }
}

impl AliasTable {
    /// Every binding has its own key and stands for at least one segment,
    /// as every binding made through `add_mapping` does.
    pub closed spec fn wf(&self) -> bool {
        &&& distinct_keys(self.entries@)
        &&& forall|i: int|
            0 <= i < self.entries@.len() ==> (#[trigger] self.entries@[i]).1@.len() >= 1
    }

    /// An empty table.
    pub fn new() -> (r: AliasTable)
        ensures
            r@ == Map::<Seq<char>, Seq<Seq<char>>>::empty(),
            r.wf(),
    {
        let r = AliasTable { entries: Vec::new() };
        proof {
            assert(r.entries@ =~= Seq::<(String, Vec<String>)>::empty());
        }
        r
    }

    /// How many names the table binds.
    pub fn len(&self) -> (r: usize)
        requires
            self.wf(),
        ensures
            r == self@.dom().len(),
    {
        proof {
            lemma_map_of_entries_dom(self.entries@);
        }
        self.entries.len()
    }

    /// The segments a name is bound to, or nothing when the name is unbound.
    pub fn get(&self, key: &String) -> (r: Option<&Vec<String>>)
        requires
            self.wf(),
        ensures
            match r {
                Some(v) => self@.contains_key(key@) && v.deep_view() == self@[key@] && v@.len()
                    >= 1,
                None => !self@.contains_key(key@),
            },
    {
        let mut i: usize = 0;
        while i < self.entries.len()
            invariant
                i <= self.entries@.len(),
                forall|j: int| 0 <= j < i ==> (#[trigger] self.entries@[j]).0@ != key@,
                self.wf(),
            decreases self.entries@.len() - i,
        {
            if self.entries[i].0.eq(key) {
                proof {
                    lemma_map_of_entries_at(self.entries@, i as int);
                }
                return Some(&self.entries[i].1);
            }
            i += 1;
        }
        proof {
            lemma_map_of_entries_absent(self.entries@, key@);
        }
        None
    }

    /// Binds a key to segments, replacing any binding the key had.
    fn insert_binding(&mut self, key: String, segs: Vec<String>)
        requires
            old(self).wf(),
            segs@.len() >= 1,
        ensures
            final(self).wf(),
            final(self)@ == old(self)@.insert(key@, segs.deep_view()),
    {
        let mut i: usize = 0;
        while i < self.entries.len()
            invariant
                i <= self.entries@.len(),
                forall|j: int| 0 <= j < i ==> (#[trigger] self.entries@[j]).0@ != key@,
                self.wf(),
                self.entries@ == old(self).entries@,
                segs@.len() >= 1,
            decreases self.entries@.len() - i,
        {
            if self.entries[i].0.eq(&key) {
                proof {
                    lemma_map_of_entries_update(self.entries@, i as int, (key, segs));
                }
                self.entries[i] = (key, segs);
                proof {
                    assert forall|j: int| 0 <= j < self.entries@.len() implies (
                    #[trigger] self.entries@[j]).1@.len() >= 1 by {
                        if j != i as int {
                            assert(self.entries@[j] == old(self).entries@[j]);
                        }
                    }
                }
                return ;
            }
            i += 1;
        }
        proof {
            let pushed = self.entries@.push((key, segs));
            assert(pushed.drop_last() =~= self.entries@);
            assert(forall|a: int, b: int|
                0 <= a < b < pushed.len() ==> (#[trigger] pushed[a]).0@ != (
                #[trigger] pushed[b]).0@);
        }
        self.entries.push((key, segs));
    }

}

/// Records that `value` is an alias for the path that `expr` writes,
/// marking the path as a loop container when `is_loop` is set. A
/// non-identifier expression binds nothing.
pub fn add_mapping(mapping: &mut AliasTable, value: &str, expr: &Expr, is_loop: bool)
    requires
        old(mapping).wf(),
    ensures
        final(mapping).wf(),
        final(mapping)@ == bind_alias(old(mapping)@, value@, *expr, is_loop),
{
    match expr {
        Expr::Ident(s) => {
            let mut names = split_ident(s.as_str());
            if is_loop {
                let ghost before = names.deep_view();
                let last = names.pop().unwrap();
                let suffixed = last.concat("()");
                proof {
                    reveal_strlit("()");
                    assert("()"@ =~= call_marker());
                }
                names.push(suffixed);
                proof {
                    assert(names.deep_view() =~= loop_suffixed(before, true));
                }
            }
            mapping.insert_binding(value.to_owned(), names);
        },
        Expr::Other => {},
    }
}

/// Resolves a path's leading aliases against the table: while the first
/// segment is bound, it is replaced by the segments it stands for, up to
/// one substitution more than the table has bindings. Over a table whose
/// bindings form no cycle that budget never runs out, and the result is
/// the path's full expansion.
pub fn expand_names(names: &[String], mapping: &AliasTable) -> (r: Vec<String>)
    requires
        mapping.wf(),
        names@.len() >= 1,
    ensures
        r.deep_view() == expand_path(names.deep_view(), mapping@, expand_fuel(mapping@)),
{
    let total = mapping.len();
    let ghost m = mapping@;
        let ghost fuel = expand_fuel(m);
        let mut cur: Vec<String> = Vec::new();
        let mut j: usize = 0;
        while j < names.len()
            invariant
                j <= names@.len(),
                cur@ == names@.subrange(0, j as int),
            decreases names@.len() - j,
        {
            cur.push(names[j].clone());
            proof {
                assert(cur@ =~= names@.subrange(0, j as int + 1));
            }
            j += 1;
        }
        proof {
            assert(names@.subrange(0, names@.len() as int) =~= names@);
            assert(cur.deep_view() =~= names.deep_view());
        }
        let mut remaining: usize = total;
        loop
            invariant_except_break
                expand_path(names.deep_view(), m, fuel) == expand_path(
                    cur.deep_view(),
                    m,
                    (remaining + 1) as nat,
                ),
            invariant
                mapping.wf(),
                m == mapping@,
                fuel == expand_fuel(m),
                remaining <= total == m.dom().len(),
                cur@.len() >= 1,
            ensures
                expand_path(names.deep_view(), m, fuel) == cur.deep_view(),
            decreases remaining,
        {
            let r = mapping.get(&cur[0]);
            match r {
                None => {
                    proof {
                        assert(cur.deep_view()[0] == cur@[0]@);
                        assert(expand_path(cur.deep_view(), m, (remaining + 1) as nat)
                            == cur.deep_view());
                    }
                    break ;
                },
                Some(v) => {
                    let mut next: Vec<String> = Vec::new();
                    let mut a: usize = 0;
                    while a < v.len()
                        invariant
                            a <= v@.len(),
                            next@ == v@.subrange(0, a as int),
                        decreases v@.len() - a,
                    {
                        next.push(v[a].clone());
                        proof {
                            assert(next@ =~= v@.subrange(0, a as int + 1));
                        }
                        a += 1;
                    }
                    let mut b: usize = 1;
                    while b < cur.len()
                        invariant
                            1 <= b <= cur@.len(),
                            next@ == v@ + cur@.subrange(1, b as int),
                        decreases cur@.len() - b,
                    {
                        next.push(cur[b].clone());
                        proof {
                            assert(next@ =~= v@ + cur@.subrange(1, b as int + 1));
                        }
                        b += 1;
                    }
                    proof {
                        assert(v@.subrange(0, v@.len() as int) =~= v@);
                        assert(v@ + cur@.subrange(1, 1) =~= v@);
                        assert(cur@.subrange(1, cur@.len() as int) =~= cur@.drop_first());
                        assert(cur.deep_view()[0] == cur@[0]@);
                        assert(next.deep_view() =~= expand_step(cur.deep_view(), m));
                        assert(expand_path(cur.deep_view(), m, (remaining + 1) as nat)
                            == expand_path(next.deep_view(), m, remaining as nat));
                    }
                    cur = next;
                    if remaining == 0 {
                        proof {
                            assert(expand_path(cur.deep_view(), m, 0) == cur.deep_view());
                        }
                        break ;
                    }
                    remaining = remaining - 1;
                },
            }
        }
        cur
}

} // verus!
