//! Properties of expansion and of runs, proved over the models that the
//! executable functions' contracts use.
use vstd::prelude::*;
use crate::expand::{
    combine, expand_from, expand_spec, is_name_char, is_sentinel, lemma_lit_end, lemma_name_end,
    lit_end, name_end, product, ExpandFault,
};
use crate::script::{
    flatten_args, install, report_spec, step_spec, ActionModel, CmdModel, Outcome, RunFault,
    RunnerModel,
};

verus! {

/// Whether `t` holds no sentinel.
pub open spec fn plain(t: Seq<char>) -> bool {
    forall|k: int| 0 <= k < t.len() ==> !is_sentinel(#[trigger] t[k])
}

/// Whether `b` is a binding name: non-empty, letters and digits only.
pub open spec fn is_name(b: Seq<char>) -> bool {
    b.len() > 0 && forall|k: int| 0 <= k < b.len() ==> is_name_char(#[trigger] b[k])
}

/// Whether `s` may follow a name without extending it.
pub open spec fn ends_name(s: Seq<char>) -> bool {
    s.len() == 0 || !is_name_char(s[0])
}

proof fn lemma_lit_end_at(t: Seq<char>, i: nat, j: nat)
    requires
        i <= j <= t.len(),
        forall|k: int| i <= k < j ==> !is_sentinel(#[trigger] t[k]),
        j == t.len() || is_sentinel(t[j as int]),
    ensures
        lit_end(t, i) == j,
    decreases j - i,
{
    if i < j {
        lemma_lit_end_at(t, i + 1, j);
    }
}

proof fn lemma_name_end_at(t: Seq<char>, i: nat, j: nat)
    requires
        i <= j <= t.len(),
        forall|k: int| i <= k < j ==> is_name_char(#[trigger] t[k]),
        j == t.len() || !is_name_char(t[j as int]),
    ensures
        name_end(t, i) == j,
    decreases j - i,
{
    if i < j {
        lemma_name_end_at(t, i + 1, j);
    }
}

proof fn lemma_product_single_left(p: Seq<char>, v: Seq<Seq<char>>)
    ensures
        product(seq![p], v) == v.map_values(|x: Seq<char>| p + x),
{
    assert(seq![p].drop_last() =~= Seq::<Seq<char>>::empty());
    assert(product(Seq::<Seq<char>>::empty(), v) =~= Seq::<Seq<char>>::empty());
    assert(product(seq![p], v) =~= v.map_values(|x: Seq<char>| p + x));
}

proof fn lemma_product_single_right(a: Seq<Seq<char>>, s: Seq<char>)
    ensures
        product(a, seq![s]) == a.map_values(|x: Seq<char>| x + s),
    decreases a.len(),
{
    if a.len() > 0 {
        lemma_product_single_right(a.drop_last(), s);
        assert(product(a, seq![s]) =~= a.map_values(|x: Seq<char>| x + s));
    } else {
        assert(product(a, seq![s]) =~= a.map_values(|x: Seq<char>| x + s));
    }
}

/// A text without a sentinel expands to itself alone, whatever the bindings.
pub proof fn lemma_plain_text(t: Seq<char>, m: Map<Seq<char>, Seq<Seq<char>>>)
    requires
        t.len() > 0,
        plain(t),
    ensures
        expand_spec(t, m) == Ok::<Seq<Seq<char>>, ExpandFault>(seq![t]),
{
    lemma_lit_end_at(t, 0, t.len());
    assert(!is_sentinel(t[0]));
    assert(t.subrange(0, t.len() as int) =~= t);
    assert(combine(None, seq![t.subrange(0, t.len() as int)]) == Some(seq![t]));
    assert(expand_from(t, t.len(), Some(seq![t]), m) == Ok::<Seq<Seq<char>>, ExpandFault>(seq![t]));
}

/// `$$` expands to a single `$`, whatever the bindings.
pub proof fn lemma_escape(m: Map<Seq<char>, Seq<Seq<char>>>)
    ensures
        expand_spec(seq!['$', '$'], m) == Ok::<Seq<Seq<char>>, ExpandFault>(seq![seq!['$']]),
{
    let t = seq!['$', '$'];
    assert(expand_from(t, 2, Some(seq![seq!['$']]), m) == Ok::<Seq<Seq<char>>, ExpandFault>(
        seq![seq!['$']],
    ));
}

/// Scanning `p + "$" + b + s` reaches the end of the name `b` with the
/// variants of `p` alone, whatever comes after.
proof fn lemma_prefix_marker(
    p: Seq<char>,
    b: Seq<char>,
    s: Seq<char>,
    m: Map<Seq<char>, Seq<Seq<char>>>,
)
    requires
        plain(p),
        is_name(b),
        ends_name(s),
    ensures
        ({
            let t = p + seq!['$'] + b + s;
            let acc = if p.len() == 0 { None } else { Some(seq![p]) };
            let e = p.len() + 1 + b.len();
            &&& expand_spec(t, m) == expand_from(t, p.len(), acc, m)
            &&& name_end(t, p.len() + 1) == e
            &&& t.subrange(p.len() + 1 as int, e as int) == b
            &&& is_sentinel(t[p.len() as int])
            &&& !is_sentinel(t[p.len() + 1 as int])
        }),
{
    let t = p + seq!['$'] + b + s;
    let e = p.len() + 1 + b.len();
    assert(t[p.len() as int] == '$');
    assert(t[p.len() + 1 as int] == b[0]);
    assert forall|k: int| p.len() + 1 <= k < e implies is_name_char(#[trigger] t[k]) by {
        assert(t[k] == b[k - p.len() - 1]);
    }
    if e < t.len() {
        assert(t[e as int] == s[0]);
    }
    lemma_name_end_at(t, p.len() + 1, e);
    assert(t.subrange(p.len() + 1 as int, e as int) =~= b);
    if p.len() > 0 {
        assert forall|k: int| 0 <= k < p.len() implies !is_sentinel(#[trigger] t[k]) by {
            assert(t[k] == p[k]);
        }
        lemma_lit_end_at(t, 0, p.len());
        assert(t.subrange(0, p.len() as int) =~= p);
    }
}

/// A marker between plain texts gives one variant per value of its binding,
/// in the binding's order: `prefix + value + suffix`. With an empty binding
/// the result is empty, not an error.
pub proof fn lemma_marker_between(
    p: Seq<char>,
    b: Seq<char>,
    s: Seq<char>,
    m: Map<Seq<char>, Seq<Seq<char>>>,
)
    requires
        plain(p),
        is_name(b),
        plain(s),
        ends_name(s),
        m.contains_key(b),
    ensures
        expand_spec(p + seq!['$'] + b + s, m) == Ok::<Seq<Seq<char>>, ExpandFault>(
            m[b].map_values(|v: Seq<char>| p + v + s),
        ),
{
    let t = p + seq!['$'] + b + s;
    let e = p.len() + 1 + b.len();
    lemma_prefix_marker(p, b, s, m);
    let acc = if p.len() == 0 { None } else { Some(seq![p]) };
    let after = combine(acc, m[b]);
    let mid = m[b].map_values(|v: Seq<char>| p + v);
    if p.len() == 0 {
        assert(mid =~= m[b]);
    } else {
        lemma_product_single_left(p, m[b]);
    }
    assert(after == Some(mid));
    assert(expand_spec(t, m) == expand_from(t, e, after, m));
    let want = m[b].map_values(|v: Seq<char>| p + v + s);
    if s.len() == 0 {
        assert(mid =~= want);
    } else {
        assert forall|k: int| e <= k < t.len() implies !is_sentinel(#[trigger] t[k]) by {
            assert(t[k] == s[k - e]);
        }
        lemma_lit_end_at(t, e, t.len());
        assert(t.subrange(e as int, t.len() as int) =~= s);
        lemma_product_single_right(mid, s);
        assert(mid.map_values(|x: Seq<char>| x + s) =~= want);
        assert(expand_from(t, t.len(), Some(want), m) == Ok::<Seq<Seq<char>>, ExpandFault>(want));
    }
}

/// A reference to a binding with no values makes the expansion empty.
pub proof fn lemma_empty_binding(
    p: Seq<char>,
    b: Seq<char>,
    s: Seq<char>,
    m: Map<Seq<char>, Seq<Seq<char>>>,
)
    requires
        plain(p),
        is_name(b),
        plain(s),
        ends_name(s),
        m.contains_key(b),
        m[b].len() == 0,
    ensures
        expand_spec(p + seq!['$'] + b + s, m) == Ok::<Seq<Seq<char>>, ExpandFault>(seq![]),
{
    lemma_marker_between(p, b, s, m);
    assert(m[b].map_values(|v: Seq<char>| p + v + s) =~= Seq::<Seq<char>>::empty());
}

/// A reference to a name that is not bound fails with that name, whatever
/// follows it.
pub proof fn lemma_unresolved(
    p: Seq<char>,
    b: Seq<char>,
    s: Seq<char>,
    m: Map<Seq<char>, Seq<Seq<char>>>,
)
    requires
        plain(p),
        is_name(b),
        ends_name(s),
        !m.contains_key(b),
    ensures
        expand_spec(p + seq!['$'] + b + s, m) == Err::<Seq<Seq<char>>, ExpandFault>(
            ExpandFault::Unresolved(b),
        ),
{
    lemma_prefix_marker(p, b, s, m);
}

/// Two adjacent markers `$a$b` give every value of `a` (outer loop)
/// followed by every value of `b` (inner loop).
pub proof fn lemma_two_markers(a: Seq<char>, b: Seq<char>, m: Map<Seq<char>, Seq<Seq<char>>>)
    requires
        is_name(a),
        is_name(b),
        m.contains_key(a),
        m.contains_key(b),
    ensures
        expand_spec(seq!['$'] + a + seq!['$'] + b, m) == Ok::<Seq<Seq<char>>, ExpandFault>(
            product(m[a], m[b]),
        ),
{
    let rest = seq!['$'] + b;
    let t = seq!['$'] + a + rest;
    assert(t =~= Seq::<char>::empty() + seq!['$'] + a + rest);
    assert(t =~= seq!['$'] + a + seq!['$'] + b);
    lemma_prefix_marker(Seq::<char>::empty(), a, rest, m);
    let e1 = 1 + a.len();
    assert(expand_spec(t, m) == expand_from(t, e1, Some(m[a]), m));
    assert(t[e1 as int] == '$');
    assert(t[e1 + 1 as int] == b[0]);
    assert forall|k: int| e1 + 1 <= k < t.len() implies is_name_char(#[trigger] t[k]) by {
        assert(t[k] == b[k - e1 - 1]);
    }
    lemma_name_end_at(t, e1 + 1, t.len());
    assert(t.subrange(e1 + 1 as int, t.len() as int) =~= b);
    assert(is_name_char(b[0]));
    assert(!is_sentinel(t[e1 + 1 as int]));
    assert(combine(Some(m[a]), m[b]) == Some(product(m[a], m[b])));
    assert(expand_from(t, e1, Some(m[a]), m) == expand_from(
        t,
        t.len(),
        Some(product(m[a], m[b])),
        m,
    ));
    assert(expand_from(t, t.len(), Some(product(m[a], m[b])), m) == Ok::<
        Seq<Seq<char>>,
        ExpandFault,
    >(product(m[a], m[b])));
}

/// The cartesian concatenation has one entry per pair, the pair `(i, j)` at
/// position `i * v.len() + j`.
pub proof fn lemma_product_index(a: Seq<Seq<char>>, v: Seq<Seq<char>>, i: int, j: int)
    requires
        0 <= i < a.len(),
        0 <= j < v.len(),
    ensures
        product(a, v).len() == a.len() * v.len(),
        product(a, v)[i * v.len() + j] == a[i] + v[j],
    decreases a.len(),
{
    lemma_product_len(a, v);
    let a2 = a.drop_last();
    lemma_product_len(a2, v);
    if i < a.len() - 1 {
        lemma_product_index(a2, v, i, j);
        assert(i * v.len() + j < a2.len() * v.len()) by (nonlinear_arith)
            requires
                i < a2.len(),
                j < v.len(),
        ;
    } else {
        assert(i * v.len() == a2.len() * v.len());
    }
}

proof fn lemma_product_len(a: Seq<Seq<char>>, v: Seq<Seq<char>>)
    ensures
        product(a, v).len() == a.len() * v.len(),
    decreases a.len(),
{
    if a.len() > 0 {
        lemma_product_len(a.drop_last(), v);
        assert(a.len() * v.len() == (a.len() - 1) * v.len() + v.len()) by (nonlinear_arith);
    }
}

proof fn lemma_flatten_all_empty(args: Seq<Seq<char>>, m: Map<Seq<char>, Seq<Seq<char>>>)
    requires
        forall|k: int|
            0 <= k < args.len() ==> #[trigger] expand_spec(args[k], m) == Ok::<
                Seq<Seq<char>>,
                ExpandFault,
            >(seq![]),
    ensures
        flatten_args(args, m) == Ok::<Seq<Seq<char>>, ExpandFault>(seq![]),
    decreases args.len(),
{
    if args.len() > 0 {
        let d = args.drop_last();
        assert forall|k: int| 0 <= k < d.len() implies #[trigger] expand_spec(d[k], m) == Ok::<
            Seq<Seq<char>>,
            ExpandFault,
        >(seq![]) by {
            assert(d[k] == args[k]);
        }
        lemma_flatten_all_empty(d, m);
        assert(expand_spec(args[args.len() - 1], m) == Ok::<Seq<Seq<char>>, ExpandFault>(seq![]));
        assert(Seq::<Seq<char>>::empty() + Seq::<Seq<char>>::empty() =~= Seq::<Seq<char>>::empty());
    }
}

/// A command whose every argument expands to no variants fails the run
/// with the empty-command error.
pub proof fn lemma_all_empty_fails(s: RunnerModel, cmds: Seq<CmdModel>)
    requires
        !s.halted,
        s.next < cmds.len(),
        cmds[s.next as int].args.len() > 0,
        forall|k: int|
            0 <= k < cmds[s.next as int].args.len() ==> #[trigger] expand_spec(
                cmds[s.next as int].args[k],
                install(s.table, cmds[s.next as int]),
            ) == Ok::<Seq<Seq<char>>, ExpandFault>(seq![]),
    ensures
        step_spec(s, cmds).1 == ActionModel::Failed(RunFault::EmptyCommand),
        step_spec(s, cmds).0.halted,
{
    lemma_flatten_all_empty(cmds[s.next as int].args, install(s.table, cmds[s.next as int]));
}

/// A command's binding is in the table that its own arguments expand
/// against, stays for later commands, and is replaced whole by a later
/// command of the same name.
pub proof fn lemma_binding_visible(
    m: Map<Seq<char>, Seq<Seq<char>>>,
    c: CmdModel,
    later: CmdModel,
)
    requires
        c.name.len() > 0,
    ensures
        install(m, c).contains_key(c.name),
        install(m, c)[c.name] == c.bind,
        install(install(m, c), later)[c.name] == if later.name == c.name {
            later.bind
        } else {
            c.bind
        },
{
}

/// A step that reaches a command with arguments expands them against the
/// table that holds that command's own binding.
pub proof fn lemma_step_uses_own_binding(s: RunnerModel, cmds: Seq<CmdModel>)
    requires
        !s.halted,
        s.next < cmds.len(),
        cmds[s.next as int].args.len() > 0,
    ensures
        step_spec(s, cmds).0.table == install(s.table, cmds[s.next as int]),
        ({
            let r = flatten_args(cmds[s.next as int].args, install(s.table, cmds[s.next as int]));
            r is Ok && r->Ok_0.len() > 0 ==> step_spec(s, cmds).1 == ActionModel::Run(r->Ok_0)
        }),
{
}

/// The command lines handed out by a run that starts in state `s`, when the
/// processes end as `outcomes` say, in order.
pub open spec fn dispatched(s: RunnerModel, cmds: Seq<CmdModel>, outcomes: Seq<Outcome>) -> Seq<
    Seq<Seq<char>>,
>
    decreases outcomes.len(),
{
    let (s1, a) = step_spec(s, cmds);
    match a {
        ActionModel::Run(argv) => if outcomes.len() == 0 {
            seq![argv]
        } else {
            seq![argv] + dispatched(report_spec(s1, outcomes[0]).0, cmds, outcomes.drop_first())
        },
        _ => seq![],
    }
}

/// A failed run hands out nothing more.
pub proof fn lemma_halted_dispatches_nothing(
    s: RunnerModel,
    cmds: Seq<CmdModel>,
    outcomes: Seq<Outcome>,
)
    requires
        s.halted,
    ensures
        dispatched(s, cmds, outcomes) == Seq::<Seq<Seq<char>>>::empty(),
{
}

/// If the first command fails (its arguments do not expand to a command
/// line, or its process does not start or exits with failure), no later
/// command is ever handed out.
pub proof fn lemma_first_failure_stops(cmds: Seq<CmdModel>, outcomes: Seq<Outcome>)
    requires
        cmds.len() > 0,
        cmds[0].args.len() > 0,
        ({
            let s0 = RunnerModel { table: Map::empty(), next: 0, halted: false };
            step_spec(s0, cmds).1 is Run ==> outcomes.len() > 0 && !(outcomes[0] is Succeeded)
        }),
    ensures
        ({
            let s0 = RunnerModel { table: Map::empty(), next: 0, halted: false };
            let a = step_spec(s0, cmds).1;
            dispatched(s0, cmds, outcomes) == if a is Run {
                seq![a->Run_0]
            } else {
                Seq::<Seq<Seq<char>>>::empty()
            }
        }),
{
    let s0 = RunnerModel { table: Map::empty(), next: 0, halted: false };
    let (s1, a) = step_spec(s0, cmds);
    if a is Run {
        let s2 = report_spec(s1, outcomes[0]).0;
        assert(s2.halted);
        lemma_halted_dispatches_nothing(s2, cmds, outcomes.drop_first());
        assert(seq![a->Run_0] + Seq::<Seq<Seq<char>>>::empty() =~= seq![a->Run_0]);
    }
}

} // verus!
