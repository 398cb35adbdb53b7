//! Identifier paths: splitting the written form into segments, resolving
//! leading aliases against a table, and joining segments back into the
//! canonical dotted form.
//!
//! A path is written `a.b.c` or `a[b][c]` (the two are equivalent); its
//! segment form is `["a", "b", "c"]`. Splitting is best-effort: no segment is
//! validated, and malformed input degrades to a literal split, never to an
//! error.

use itertools::Itertools;
use vstd::prelude::*;
use vstd::string::StrSliceExecFns;

verus! {

/// A character that separates two path segments in the written form.
pub open spec fn is_sep(c: char) -> bool {
    c == '.' || c == '['
}

/// The written form split at every separator, with nothing trimmed yet.
/// A string with `k` separators yields exactly `k + 1` segments.
pub open spec fn raw_split(s: Seq<char>) -> Seq<Seq<char>>
    decreases s.len(),
{
    if s.len() == 0 {
        seq![Seq::<char>::empty()]
    } else if is_sep(s[0]) {
        seq![Seq::<char>::empty()] + raw_split(s.drop_first())
    } else {
        let rest = raw_split(s.drop_first());
        seq![seq![s[0]] + rest[0]] + rest.drop_first()
    }
}

/// A segment with every trailing `]` removed, which turns the bracketed
/// notation's `b]` into the plain segment `b`.
pub open spec fn trim_brackets(s: Seq<char>) -> Seq<char>
    decreases s.len(),
{
    if s.len() > 0 && s[s.len() - 1] == ']' {
        trim_brackets(s.drop_last())
    } else {
        s
    }
}

/// The segment form of a written identifier path: split at `.` and `[`,
/// each segment stripped of trailing `]`.
pub open spec fn split_path(s: Seq<char>) -> Seq<Seq<char>> {
    raw_split(s).map_values(|seg: Seq<char>| trim_brackets(seg))
}

/// One alias substitution: the leading segment, which must be a key of the
/// table, replaced by the segments it is bound to.
pub open spec fn expand_step(
    names: Seq<Seq<char>>,
    m: Map<Seq<char>, Seq<Seq<char>>>,
) -> Seq<Seq<char>> {
    m[names[0]] + names.drop_first()
}

/// Alias expansion with a substitution budget: while the leading segment is
/// bound in the table and budget remains, substitute and continue. A path
/// whose leading segment is unbound is returned unchanged, whatever the
/// budget.
pub open spec fn expand_path(
    names: Seq<Seq<char>>,
    m: Map<Seq<char>, Seq<Seq<char>>>,
    fuel: nat,
) -> Seq<Seq<char>>
    decreases fuel,
{
    if names.len() == 0 || fuel == 0 {
        names
    } else if m.contains_key(names[0]) {
        expand_path(expand_step(names, m), m, (fuel - 1) as nat)
    } else {
        names
    }
}

/// The substitution budget used by the expander: one more than the number
/// of bindings. Over a table whose bindings never lead back to themselves,
/// a chain of substitutions visits each key at most once, so this budget
/// always suffices to expand a path completely.
pub open spec fn expand_fuel(m: Map<Seq<char>, Seq<Seq<char>>>) -> nat {
    m.dom().len() + 1
}

/// A path whose leading segment no table lookup would change any further.
pub open spec fn fully_expanded(names: Seq<Seq<char>>, m: Map<Seq<char>, Seq<Seq<char>>>) -> bool {
    names.len() == 0 || !m.contains_key(names[0])
}

/// The segments joined with the separator between consecutive segments.
pub open spec fn join_segs(segs: Seq<Seq<char>>, sep: Seq<char>) -> Seq<char>
    decreases segs.len(),
{
    if segs.len() == 0 {
        Seq::<char>::empty()
    } else if segs.len() == 1 {
        segs[0]
    } else {
        segs[0] + sep + join_segs(segs.drop_first(), sep)
    }
}

/// A fully expanded path expands to itself: expansion is idempotent, and an
/// alias name with no entry in the table is returned verbatim.
pub proof fn lemma_expand_fully_expanded(
    names: Seq<Seq<char>>,
    m: Map<Seq<char>, Seq<Seq<char>>>,
    fuel: nat,
)
    requires
        fully_expanded(names, m),
    ensures
        expand_path(names, m, fuel) == names,
{
}

/// Expansion is idempotent: re-running the expander on a path it has fully
/// expanded, under any budget, changes nothing.
pub proof fn lemma_expand_idempotent(
    names: Seq<Seq<char>>,
    m: Map<Seq<char>, Seq<Seq<char>>>,
    fuel: nat,
    fuel2: nat,
)
    requires
        fully_expanded(expand_path(names, m, fuel), m),
    ensures
        expand_path(expand_path(names, m, fuel), m, fuel2) == expand_path(names, m, fuel),
{
    lemma_expand_fully_expanded(expand_path(names, m, fuel), m, fuel2);
}

/// `raw_split` never yields an empty segment list.
pub proof fn lemma_raw_split_len(s: Seq<char>)
    ensures
        raw_split(s).len() >= 1,
    decreases s.len(),
{
    if s.len() > 0 {
        lemma_raw_split_len(s.drop_first());
    }
}

/// The first segment of `raw_split` runs up to the first separator: if no
/// separator occurs before position `k`, the split is the prefix before `k`
/// followed by the split of what comes after the separator at `k`; if the
/// whole string has no separator, it is the single segment `s`.
pub proof fn lemma_raw_split_at_sep(s: Seq<char>, k: int)
    requires
        0 <= k <= s.len(),
        forall|j: int| 0 <= j < k ==> !is_sep(#[trigger] s[j]),
        k == s.len() || is_sep(s[k]),
    ensures
        k < s.len() ==> raw_split(s) == seq![s.take(k)] + raw_split(s.skip(k + 1)),
        k == s.len() ==> raw_split(s) == seq![s],
    decreases k,
{
    if k == 0 {
        if s.len() == 0 {
            assert(s =~= Seq::<char>::empty());
        } else {
            assert(s.take(0) =~= Seq::<char>::empty());
            assert(s.skip(1) =~= s.drop_first());
            assert(raw_split(s) =~= seq![s.take(0)] + raw_split(s.skip(1)));
        }
    } else {
        let s1 = s.drop_first();
        lemma_raw_split_len(s1);
        assert(forall|j: int| 0 <= j < k - 1 ==> !is_sep(#[trigger] s1[j]));
        lemma_raw_split_at_sep(s1, k - 1);
        let rest = raw_split(s1);
        if k < s.len() {
            assert(rest == seq![s1.take(k - 1)] + raw_split(s1.skip(k)));
            assert(rest[0] == s1.take(k - 1));
            assert(seq![s[0]] + s1.take(k - 1) =~= s.take(k));
            assert(rest.drop_first() =~= raw_split(s1.skip(k)));
            assert(s1.skip(k) =~= s.skip(k + 1));
            assert(raw_split(s) =~= seq![s.take(k)] + raw_split(s.skip(k + 1)));
        } else {
            assert(rest == seq![s1]);
            assert(seq![s[0]] + s1 =~= s);
            assert(rest.drop_first() =~= Seq::<Seq<char>>::empty());
            assert(raw_split(s) =~= seq![s]);
        }
    }
}

/// The trimmed copy of one segment of the written form.
fn trim_segment(s: &str, from: usize, to: usize) -> (r: String)
    requires
        from <= to <= s@.len(),
    ensures
        r@ == trim_brackets(s@.subrange(from as int, to as int)),
{
    let mut end = to;
    while end > from && s.get_char(end - 1) == ']'
        invariant
            from <= end <= to <= s@.len(),
            trim_brackets(s@.subrange(from as int, to as int)) == trim_brackets(
                s@.subrange(from as int, end as int),
            ),
        decreases end,
    {
        proof {
            assert(s@.subrange(from as int, end as int).drop_last() =~= s@.subrange(
                from as int,
                end as int - 1,
            ));
        }
        end = end - 1;
    }
    let seg = s.substring_char(from, end);
    proof {
        assert(trim_brackets(s@.subrange(from as int, end as int)) == s@.subrange(
            from as int,
            end as int,
        ));
    }
    seg.to_owned()
}

/// The segment form of a written identifier path, as `split_path` states it.
pub fn split_ident(ident: &str) -> (r: Vec<String>)
    ensures
        r.deep_view() == split_path(ident@),
        r.deep_view().len() >= 1,
{
    let n = ident.unicode_len();
    let mut out: Vec<String> = Vec::new();
    let mut start: usize = 0;
    let ghost mut raw_done: Seq<Seq<char>> = Seq::empty();
    proof {
        assert(ident@.subrange(0, n as int) =~= ident@);
        assert(raw_done + raw_split(ident@) =~= raw_split(ident@));
        assert(out@.map_values(|x: String| x@) =~= raw_done.map_values(
            |t: Seq<char>| trim_brackets(t),
        ));
    }
    let mut i: usize = 0;
    while i < n
        invariant
            start <= i <= n == ident@.len(),
            raw_split(ident@) == raw_done + raw_split(ident@.subrange(start as int, n as int)),
            out@.map_values(|x: String| x@) == raw_done.map_values(
                |t: Seq<char>| trim_brackets(t),
            ),
            forall|j: int| start <= j < i ==> !is_sep(#[trigger] ident@[j]),
        decreases n - i,
    {
        let c = ident.get_char(i);
        if c == '.' || c == '[' {
            let seg = trim_segment(ident, start, i);
            proof {
                let piece = ident@.subrange(start as int, i as int);
                let sub = ident@.subrange(start as int, n as int);
                lemma_raw_split_at_sep(sub, i - start);
                assert(sub.take(i - start) =~= piece);
                assert(sub.skip(i - start + 1) =~= ident@.subrange(i as int + 1, n as int));
                assert(raw_done + raw_split(sub) =~= raw_done.push(piece) + raw_split(
                    ident@.subrange(i as int + 1, n as int),
                ));
                assert(out@.push(seg).map_values(|x: String| x@) =~= out@.map_values(
                    |x: String| x@,
                ).push(seg@));
                assert(raw_done.push(piece).map_values(|t: Seq<char>| trim_brackets(t))
                    =~= raw_done.map_values(|t: Seq<char>| trim_brackets(t)).push(
                    trim_brackets(piece),
                ));
            }
            out.push(seg);
            proof {
                raw_done = raw_done.push(ident@.subrange(start as int, i as int));
            }
            start = i + 1;
        }
        i += 1;
    }
    let seg = trim_segment(ident, start, n);
    proof {
        let sub = ident@.subrange(start as int, n as int);
        lemma_raw_split_at_sep(sub, n - start);
        assert(raw_split(ident@) == raw_done.push(sub));
        assert(out@.push(seg).map_values(|x: String| x@) =~= out@.map_values(
            |x: String| x@,
        ).push(seg@));
        assert(raw_done.push(sub).map_values(|t: Seq<char>| trim_brackets(t)) =~= raw_done
            .map_values(|t: Seq<char>| trim_brackets(t)).push(trim_brackets(sub)));
    }
    out.push(seg);
    proof {
        raw_done = raw_done.push(ident@.subrange(start as int, n as int));
        assert(out.deep_view() =~= out@.map_values(|x: String| x@));
        assert(raw_split(ident@).map_values(|t: Seq<char>| trim_brackets(t)) == split_path(
            ident@,
        ));
        lemma_raw_split_len(ident@);
        assert(split_path(ident@).len() == raw_split(ident@).len());
    }
    out
}

/// Relies on `itertools::Itertools::join`: the items written out in order
/// with the separator between consecutive items, which for strings is their
/// concatenation as `join_segs` states it.
#[verifier::external_body]
pub fn join_strings(parts: &Vec<String>, sep: &str) -> (r: String)
    ensures
        r@ == join_segs(parts.deep_view(), sep@),
{
    parts.iter().join(sep)
}

} // verus!
