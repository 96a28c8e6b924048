//! The mathematical model of the elaboration pass: well-formedness of books
//! and definitions, coverage of the live-rule sets along the decision tree,
//! the discipline that generated names obey, and how a book may evolve while
//! sub-functions are installed.

use vstd::prelude::*;
use crate::ast::{pv_name, AdtV, BookV, CtrV, DefV, PatV, RuleV, TermV, Type};
use crate::names::{branch_name_spec, dec_digits, lemma_dec_digits_injective, pass_name_spec,
    rule_name_spec, var_name_spec};

verus! {

// ---------------------------------------------------------------------------
// Pattern helpers
// ---------------------------------------------------------------------------

/// The variable names a pattern binds, in left-to-right order.
pub open spec fn pat_binders(p: PatV) -> Seq<Seq<char>> {
    match p {
        PatV::Var { nam } => seq![nam],
        PatV::Ctr { args, .. } => args.map_values(|q: PatV| pv_name(q)),
    }
}

/// The variable names a whole pattern row binds, in left-to-right order.
pub open spec fn rule_binders(pats: Seq<PatV>) -> Seq<Seq<char>>
    decreases pats.len(),
{
    if pats.len() == 0 {
        Seq::empty()
    } else {
        pat_binders(pats[0]) + rule_binders(pats.drop_first())
    }
}

/// Wraps a term in one lambda per name; the first name becomes the
/// outermost lambda.
pub open spec fn wrap_lams(names: Seq<Seq<char>>, b: TermV) -> TermV
    decreases names.len(),
{
    if names.len() == 0 {
        b
    } else {
        TermV::Lam { nam: Option::Some(names[0]), bod: Box::new(wrap_lams(names.drop_first(), b)) }
    }
}

/// The closed form of a rule body: the body wrapped in one lambda per
/// pattern-bound variable, outermost lambda first.
pub open spec fn rule_body_spec(pats: Seq<PatV>, body: TermV) -> TermV {
    wrap_lams(rule_binders(pats), body)
}

// ---------------------------------------------------------------------------
// Well-formedness
// ---------------------------------------------------------------------------

/// A definition whose rule list is a single rule with no patterns: the only
/// shape the pass leaves behind.
pub open spec fn single_empty(d: DefV) -> bool {
    d.rules.len() == 1 && d.rules[0].pats.len() == 0
}

/// Whether some definition in the book carries this name.
pub open spec fn book_has_name(b: BookV, n: Seq<char>) -> bool {
    exists|i: int| 0 <= i < b.defs.len() && b.defs[i].name == n
}

/// The index of the definition carrying this name (meaningful when the name
/// is present and names are unique).
pub open spec fn name_index(b: BookV, n: Seq<char>) -> int {
    choose|i: int| 0 <= i < b.defs.len() && b.defs[i].name == n
}

/// Definition names are pairwise distinct.
pub open spec fn names_unique(b: BookV) -> bool {
    forall|i: int, j: int|
        0 <= i < j < b.defs.len() ==> b.defs[i].name != b.defs[j].name
}

/// Every constructor of every ADT is addressable as a definition (its
/// Scott-encoding wrapper) in the book.
pub open spec fn adt_ctrs_resolve(b: BookV) -> bool {
    forall|t: int, c: int|
        0 <= t < b.adts.len() && 0 <= c < b.adts[t].ctrs.len()
            ==> book_has_name(b, b.adts[t].ctrs[c].nam)
}

/// The book invariant the pass relies on and preserves.
pub open spec fn book_wf(b: BookV) -> bool {
    names_unique(b) && adt_ctrs_resolve(b)
}

/// A pattern standing at a parameter of declared type `ty` is well formed:
/// a variable, or a constructor of that very ADT with one plain variable
/// sub-pattern per field.
pub open spec fn pat_wf_at(adts: Seq<AdtV>, ty: Type, p: PatV) -> bool {
    match p {
        PatV::Var { .. } => true,
        PatV::Ctr { nam, args } => match ty {
            Type::Any => false,
            Type::Adt(t) => {
                &&& (t as int) < adts.len()
                &&& exists|c: int|
                    0 <= c < adts[t as int].ctrs.len()
                        && adts[t as int].ctrs[c].nam == nam
                        && adts[t as int].ctrs[c].arity == args.len()
                &&& forall|i: int| 0 <= i < args.len() ==> args[i] is Var
            },
        },
    }
}

/// The input contract on one definition: one pattern per parameter in every
/// rule, each consistent with the parameter's declared type.
pub open spec fn def_wf(b: BookV, def_id: int, tys: Seq<Type>) -> bool {
    &&& 0 <= def_id < b.defs.len()
    &&& b.defs[def_id].rules.len() > 0
    &&& forall|r: int|
        0 <= r < b.defs[def_id].rules.len() ==> b.defs[def_id].rules[r].pats.len() == tys.len()
    &&& forall|r: int, k: int|
        0 <= r < b.defs[def_id].rules.len() && 0 <= k < tys.len()
            ==> pat_wf_at(b.adts, tys[k], b.defs[def_id].rules[r].pats[k])
}

// ---------------------------------------------------------------------------
// The decision at one parameter position
// ---------------------------------------------------------------------------

/// All patterns of the row from position `k` on are variables: the rule can
/// no longer fail.
pub open spec fn suffix_all_var(pats: Seq<PatV>, k: int) -> bool {
    forall|j: int| k <= j < pats.len() ==> pats[j] is Var
}

/// Whether rule `r` stays live when position `k` is committed to `ctr`.
pub open spec fn rule_keeps(rules: Seq<RuleV>, r: int, k: int, ctr: Seq<char>) -> bool {
    rules[r].pats[k] is Var || pv_name(rules[r].pats[k]) == ctr
}

/// The live rules that survive committing position `k` to constructor `ctr`,
/// in their original order.
pub open spec fn filter_live(rules: Seq<RuleV>, crnt: Seq<usize>, k: int, ctr: Seq<char>) -> Seq<usize>
    decreases crnt.len(),
{
    if crnt.len() == 0 {
        Seq::empty()
    } else {
        let rest = filter_live(rules, crnt.drop_last(), k, ctr);
        if rule_keeps(rules, crnt.last() as int, k, ctr) {
            rest.push(crnt.last())
        } else {
            rest
        }
    }
}

/// Whether some live rule demands a constructor at position `k`.
pub open spec fn some_rule_matches(rules: Seq<RuleV>, crnt: Seq<usize>, k: int) -> bool {
    exists|i: int| 0 <= i < crnt.len() && rules[crnt[i] as int].pats[k] is Ctr
}

/// Exhaustiveness as the decision tree needs it: along every branch the
/// construction can take, the live-rule set stays nonempty.
pub open spec fn covered(rules: Seq<RuleV>, adts: Seq<AdtV>, tys: Seq<Type>, crnt: Seq<usize>, k: int) -> bool
    decreases tys.len() - k,
{
    if crnt.len() == 0 {
        false
    } else if k >= tys.len() {
        true
    } else if suffix_all_var(rules[crnt[0] as int].pats, k) {
        true
    } else if some_rule_matches(rules, crnt, k) {
        match tys[k] {
            Type::Any => false,
            Type::Adt(t) => (t as int) < adts.len() && forall|c: int|
                0 <= c < adts[t as int].ctrs.len()
                    ==> covered(rules, adts, tys, filter_live(rules, crnt, k, adts[t as int].ctrs[c].nam), k + 1),
        }
    } else {
        covered(rules, adts, tys, crnt, k + 1)
    }
}

/// Everything that filtering keeps was already live, and kept for a reason.
pub proof fn lemma_filter_live_subset(rules: Seq<RuleV>, crnt: Seq<usize>, k: int, ctr: Seq<char>)
    ensures
        forall|j: int|
            0 <= j < filter_live(rules, crnt, k, ctr).len()
                ==> crnt.contains(#[trigger] filter_live(rules, crnt, k, ctr)[j])
                    && rule_keeps(rules, filter_live(rules, crnt, k, ctr)[j] as int, k, ctr),
    decreases crnt.len(),
{
    if crnt.len() > 0 {
        lemma_filter_live_subset(rules, crnt.drop_last(), k, ctr);
        let fl = filter_live(rules, crnt, k, ctr);
        let rest = filter_live(rules, crnt.drop_last(), k, ctr);
        assert forall|x: usize| crnt.drop_last().contains(x) implies crnt.contains(x) by {
            let j = choose|j: int| 0 <= j < crnt.drop_last().len() && crnt.drop_last()[j] == x;
            assert(crnt[j] == x);
        }
        assert forall|j: int| 0 <= j < fl.len() implies crnt.contains(fl[j])
            && rule_keeps(rules, fl[j] as int, k, ctr) by {
            if j < rest.len() {
                assert(fl[j] == rest[j]);
            } else {
                assert(fl[j] == crnt.last());
                assert(crnt[crnt.len() - 1] == crnt.last());
            }
        }
    }
}

// ---------------------------------------------------------------------------
// The terms the builders emit
// ---------------------------------------------------------------------------

/// `t` applied to the fresh variables `x<i> .. x<m-1>`, left to right.
pub open spec fn apply_vars(t: TermV, i: int, m: int) -> TermV
    decreases m - i,
{
    if i >= m {
        t
    } else {
        apply_vars(
            TermV::App {
                fun: Box::new(t),
                arg: Box::new(TermV::Var { nam: var_name_spec(i as nat) }),
            },
            i + 1,
            m,
        )
    }
}

pub proof fn lemma_apply_vars_snoc(t: TermV, i: int, m: int)
    requires
        0 <= i <= m,
    ensures
        apply_vars(t, i, m + 1) == (TermV::App {
            fun: Box::new(apply_vars(t, i, m)),
            arg: Box::new(TermV::Var { nam: var_name_spec(m as nat) }),
        }),
    decreases m - i,
{
    reveal_with_fuel(apply_vars, 3);
    if i < m {
        lemma_apply_vars_snoc(
            TermV::App {
                fun: Box::new(t),
                arg: Box::new(TermV::Var { nam: var_name_spec(i as nat) }),
            },
            i + 1,
            m,
        );
    }
}

/// `t` wrapped in the lambdas for `x<i> .. x<m-1>`, the lowest index
/// outermost.
pub open spec fn wrap_var_lams(t: TermV, i: int, m: int) -> TermV
    decreases m - i,
{
    if i >= m {
        t
    } else {
        TermV::Lam {
            nam: Option::Some(var_name_spec(i as nat)),
            bod: Box::new(wrap_var_lams(t, i + 1, m)),
        }
    }
}

/// `t` applied to one `Reference` per id, left to right.
pub open spec fn apply_refs(t: TermV, ids: Seq<int>) -> TermV
    decreases ids.len(),
{
    if ids.len() == 0 {
        t
    } else {
        apply_refs(
            TermV::App { fun: Box::new(t), arg: Box::new(TermV::Ref { def_id: ids[0] }) },
            ids.drop_first(),
        )
    }
}

pub proof fn lemma_apply_refs_snoc(t: TermV, ids: Seq<int>, x: int)
    ensures
        apply_refs(t, ids.push(x)) == (TermV::App {
            fun: Box::new(apply_refs(t, ids)),
            arg: Box::new(TermV::Ref { def_id: x }),
        }),
    decreases ids.len(),
{
    reveal_with_fuel(apply_refs, 3);
    if ids.len() == 0 {
        assert(ids.push(x)[0] == x);
        assert(ids.push(x).drop_first() =~= Seq::<int>::empty());
    } else {
        assert(ids.push(x)[0] == ids[0]);
        assert(ids.push(x).drop_first() =~= ids.drop_first().push(x));
        lemma_apply_refs_snoc(
            TermV::App { fun: Box::new(t), arg: Box::new(TermV::Ref { def_id: ids[0] }) },
            ids.drop_first(),
            x,
        );
    }
}

/// One argument of a leaf call: a fresh variable for a `Var`/`Var` pair, the
/// matched fields for a `Ctr`/`Ctr` pair, and the rebuilt constructor value
/// where the dispatch was forced by a sibling rule (`Ctr` committed, `Var`
/// in the rule).  Returns the extended term and the new variable counter.
pub open spec fn leaf_arg_step(b: BookV, t: TermV, c: int, pp: PatV, rp: PatV) -> (TermV, int) {
    match pp {
        PatV::Var { .. } => (
            TermV::App {
                fun: Box::new(t),
                arg: Box::new(TermV::Var { nam: var_name_spec(c as nat) }),
            },
            c + 1,
        ),
        PatV::Ctr { nam, args } => match rp {
            PatV::Ctr { .. } => (apply_vars(t, c, c + args.len()), c + args.len()),
            PatV::Var { .. } => (
                TermV::App {
                    fun: Box::new(t),
                    arg: Box::new(apply_vars(
                        TermV::Ref { def_id: name_index(b, nam) },
                        c,
                        c + args.len(),
                    )),
                },
                c + args.len(),
            ),
        },
    }
}

/// The application chain of a leaf over the first `j` committed positions.
pub open spec fn leaf_args(b: BookV, base: TermV, path: Seq<PatV>, pats: Seq<PatV>, j: int) -> (TermV, int)
    decreases j,
{
    if j <= 0 {
        (base, 0)
    } else {
        let prev = leaf_args(b, base, path, pats, j - 1);
        leaf_arg_step(b, prev.0, prev.1, path[j - 1], pats[j - 1])
    }
}

/// The whole body a leaf installs: the call of the rule body's reference,
/// wrapped in one lambda per fresh variable.
pub open spec fn leaf_body_spec(b: BookV, rule_ref: int, path: Seq<PatV>, pats: Seq<PatV>) -> TermV {
    let ap = leaf_args(b, TermV::Ref { def_id: rule_ref }, path, pats, path.len() as int);
    wrap_var_lams(ap.0, 0, ap.1)
}

/// When the committed path itself supplies both pattern columns, no
/// constructor is ever rebuilt, so the argument chain does not depend on
/// the book.
pub proof fn lemma_disp_args_book_irrelevant(b1: BookV, b2: BookV, base: TermV, path: Seq<PatV>, j: int)
    ensures
        leaf_args(b1, base, path, path, j) == leaf_args(b2, base, path, path, j),
    decreases j,
{
    if j > 0 {
        lemma_disp_args_book_irrelevant(b1, b2, base, path, j - 1);
        match path[j - 1] {
            PatV::Var { .. } => {},
            PatV::Ctr { .. } => {},
        }
    }
}

/// The whole body a branch installs: the scrutinee applied to a reference
/// per constructor sub-function in declaration order, then to the committed
/// path's variables, under the path lambdas and the outer scrutinee lambda.
pub open spec fn dispatcher_body_spec(b: BookV, crnt: Seq<char>, ctrs: Seq<CtrV>, path: Seq<PatV>) -> TermV {
    let ids = Seq::new(ctrs.len(), |c: int| name_index(b, branch_name_spec(crnt, ctrs[c].nam)));
    let applied = apply_refs(TermV::Var { nam: seq!['x'] }, ids);
    let ap = leaf_args(b, applied, path, path, path.len() as int);
    TermV::Lam { nam: Option::Some(seq!['x']), bod: Box::new(wrap_var_lams(ap.0, 0, ap.1)) }
}

// ---------------------------------------------------------------------------
// Committed paths
// ---------------------------------------------------------------------------

/// The committed path is one pattern per leading parameter, each well formed
/// at its position.
pub open spec fn path_wf(adts: Seq<AdtV>, tys: Seq<Type>, path: Seq<PatV>) -> bool {
    &&& path.len() <= tys.len()
    &&& forall|k: int| 0 <= k < path.len() ==> pat_wf_at(adts, tys[k], path[k])
}

/// The committed path holds `Var` only at positions where every live rule
/// also has `Var`: a dispatch is only ever committed when some rule asked
/// for it.
pub open spec fn live_var_discipline(rules: Seq<RuleV>, crnt: Seq<usize>, path: Seq<PatV>) -> bool {
    forall|i: int, k: int|
        0 <= i < crnt.len() && 0 <= k < path.len() && path[k] is Var
            ==> rules[crnt[i] as int].pats[k] is Var
}

/// How many fresh variables the committed path accounts for: one per `Var`,
/// one per field of each `Ctr`.
pub open spec fn path_var_count(path: Seq<PatV>) -> nat
    decreases path.len(),
{
    if path.len() == 0 {
        0
    } else {
        path_var_count(path.drop_last()) + match path.last() {
            PatV::Var { .. } => 1 as nat,
            PatV::Ctr { args, .. } => args.len(),
        }
    }
}

/// The largest field count among an ADT's constructors.
pub open spec fn ctrs_max_arity(ctrs: Seq<CtrV>) -> nat
    decreases ctrs.len(),
{
    if ctrs.len() == 0 {
        0
    } else {
        let rest = ctrs_max_arity(ctrs.drop_last());
        if rest < ctrs.last().arity {
            ctrs.last().arity
        } else {
            rest
        }
    }
}

pub proof fn lemma_ctrs_max_arity(ctrs: Seq<CtrV>, c: int)
    requires
        0 <= c < ctrs.len(),
    ensures
        ctrs[c].arity <= ctrs_max_arity(ctrs),
    decreases ctrs.len(),
{
    if c < ctrs.len() - 1 {
        lemma_ctrs_max_arity(ctrs.drop_last(), c);
    }
}

/// An upper bound on how many more fresh variables the remaining parameter
/// positions can add to a committed path.
pub open spec fn future_budget(tys: Seq<Type>, adts: Seq<AdtV>, k: int) -> nat
    decreases tys.len() - k,
{
    if k < 0 || k >= tys.len() {
        0
    } else {
        let step: nat = match tys[k] {
            Type::Any => 1,
            Type::Adt(t) => if (t as int) < adts.len() {
                1 + ctrs_max_arity(adts[t as int].ctrs)
            } else {
                1
            },
        };
        step + future_budget(tys, adts, k + 1)
    }
}

// ---------------------------------------------------------------------------
// Generated names and book evolution
// ---------------------------------------------------------------------------

/// `n` is `root` itself, or `root` extended — with `'$'` as the first
/// appended character, the mark of every name this pass generates.
pub open spec fn gen_name_from(root: Seq<char>, n: Seq<char>) -> bool {
    &&& n.len() >= root.len()
    &&& n.take(root.len() as int) == root
    &&& n.len() > root.len() ==> n[root.len() as int] == '$'
}

/// No `'$'` occurs in the name: the shape of every name the source program
/// itself may use, which keeps generated names from colliding with it.
pub open spec fn dollar_free(n: Seq<char>) -> bool {
    forall|i: int| 0 <= i < n.len() ==> n[i] != '$'
}

/// How a book may change while the pass works below `root`: ADTs stay, old
/// definitions keep their names and are touched only if they carry a name
/// generated below `root` (and then hold a single zero-pattern rule), and
/// every appended definition carries such a name and such a rule list.
pub open spec fn book_evolves(b0: BookV, b1: BookV, root: Seq<char>) -> bool {
    &&& b1.adts == b0.adts
    &&& b1.defs.len() >= b0.defs.len()
    &&& forall|i: int| 0 <= i < b0.defs.len() ==> b1.defs[i].name == b0.defs[i].name
    &&& forall|i: int|
        0 <= i < b0.defs.len()
            ==> b1.defs[i] == b0.defs[i]
                || (gen_name_from(root, #[trigger] b1.defs[i].name) && single_empty(b1.defs[i]))
    &&& forall|i: int|
        b0.defs.len() <= i < b1.defs.len()
            ==> gen_name_from(root, #[trigger] b1.defs[i].name) && single_empty(b1.defs[i])
}

pub proof fn lemma_gen_name_trans(root: Seq<char>, mid: Seq<char>, n: Seq<char>)
    requires
        gen_name_from(root, mid),
        gen_name_from(mid, n),
    ensures
        gen_name_from(root, n),
{
    assert(n.take(root.len() as int) =~= n.take(mid.len() as int).take(root.len() as int));
    if n.len() > root.len() {
        if mid.len() == root.len() {
            assert(mid =~= root);
        } else {
            assert(n[root.len() as int] == mid[root.len() as int]);
        }
    }
}

pub proof fn lemma_evolve_weaken(b0: BookV, b1: BookV, sub: Seq<char>, root: Seq<char>)
    requires
        book_evolves(b0, b1, sub),
        gen_name_from(root, sub),
    ensures
        book_evolves(b0, b1, root),
{
    assert forall|n: Seq<char>| gen_name_from(sub, n) implies gen_name_from(root, n) by {
        lemma_gen_name_trans(root, sub, n);
    }
}

pub proof fn lemma_evolve_trans(b0: BookV, b1: BookV, b2: BookV, root: Seq<char>)
    requires
        book_evolves(b0, b1, root),
        book_evolves(b1, b2, root),
    ensures
        book_evolves(b0, b2, root),
{
}

pub proof fn lemma_evolve_has_name(b0: BookV, b1: BookV, root: Seq<char>, n: Seq<char>)
    requires
        book_evolves(b0, b1, root),
        book_has_name(b0, n),
    ensures
        book_has_name(b1, n),
{
    let i = choose|i: int| 0 <= i < b0.defs.len() && b0.defs[i].name == n;
    assert(b1.defs[i].name == n);
}

/// A definition whose name is shorter than `root` survives an evolution
/// below `root` untouched.
pub proof fn lemma_evolve_short_name_unchanged(b0: BookV, b1: BookV, root: Seq<char>, i: int)
    requires
        book_evolves(b0, b1, root),
        0 <= i < b0.defs.len(),
        b0.defs[i].name.len() < root.len(),
    ensures
        b1.defs[i] == b0.defs[i],
{
}

/// The ADT index a parameter type names (`-1` for a non-ADT parameter).
pub open spec fn adt_of(ty: Type) -> int {
    match ty {
        Type::Any => -1,
        Type::Adt(t) => t as int,
    }
}

/// Some definition in the book is exactly this name with exactly these rules.
pub open spec fn book_def_named(b: BookV, n: Seq<char>, rules: Seq<RuleV>) -> bool {
    exists|i: int| 0 <= i < b.defs.len() && b.defs[i] == (DefV { name: n, rules })
}

/// Some definition in the book carries this name and a single zero-pattern
/// rule.
pub open spec fn book_has_single(b: BookV, n: Seq<char>) -> bool {
    exists|i: int| 0 <= i < b.defs.len() && b.defs[i].name == n && single_empty(#[trigger] b.defs[i])
}

/// The rule indices `0 .. n`, in order.
pub open spec fn all_indices(n: nat) -> Seq<usize> {
    Seq::new(n, |i: int| i as usize)
}

/// The body of a pass-through sub-function: forward the deferred argument,
/// applying the continuation before it.
pub open spec fn pass_body_spec(nxt_id: int) -> TermV {
    TermV::Lam {
        nam: Option::Some(seq!['x']),
        bod: Box::new(TermV::Lam {
            nam: Option::Some(seq!['n', 'x', 't']),
            bod: Box::new(TermV::App {
                fun: Box::new(TermV::App {
                    fun: Box::new(TermV::Ref { def_id: nxt_id }),
                    arg: Box::new(TermV::Var { nam: seq!['n', 'x', 't'] }),
                }),
                arg: Box::new(TermV::Var { nam: seq!['x'] }),
            }),
        }),
    }
}

pub proof fn lemma_gen_rule(base: Seq<char>, idx: nat)
    ensures
        gen_name_from(base, rule_name_spec(base, idx)),
        rule_name_spec(base, idx).len() > base.len(),
{
    assert(rule_name_spec(base, idx).take(base.len() as int) =~= base);
    assert(rule_name_spec(base, idx)[base.len() as int] == '$');
}

pub proof fn lemma_gen_branch(base: Seq<char>, ctr: Seq<char>)
    ensures
        gen_name_from(base, branch_name_spec(base, ctr)),
        branch_name_spec(base, ctr).len() > base.len(),
{
    assert(branch_name_spec(base, ctr).take(base.len() as int) =~= base);
    assert(branch_name_spec(base, ctr)[base.len() as int] == '$');
}

pub proof fn lemma_gen_pass(base: Seq<char>)
    ensures
        gen_name_from(base, pass_name_spec(base)),
        pass_name_spec(base).len() > base.len(),
{
    assert(pass_name_spec(base).take(base.len() as int) =~= base);
    assert(pass_name_spec(base)[base.len() as int] == '$');
}

pub proof fn lemma_gen_refl(base: Seq<char>)
    ensures
        gen_name_from(base, base),
{
    assert(base.take(base.len() as int) =~= base);
}

/// A name generated strictly below two `'$'`-free roots pins the roots to be
/// the same name.
pub proof fn lemma_dollar_free_gen_eq(a: Seq<char>, b: Seq<char>, n: Seq<char>)
    requires
        dollar_free(a),
        dollar_free(b),
        gen_name_from(a, n),
        gen_name_from(b, n),
        n.len() > a.len(),
        n.len() > b.len(),
    ensures
        a == b,
{
    if a.len() < b.len() {
        assert(b[a.len() as int] == n.take(b.len() as int)[a.len() as int]);
        assert(b[a.len() as int] == '$');
    } else if b.len() < a.len() {
        assert(a[b.len() as int] == n.take(a.len() as int)[b.len() as int]);
        assert(a[b.len() as int] == '$');
    } else {
        assert(a =~= b);
    }
}

/// A strictly generated name carries a `'$'`, so it is never `'$'`-free.
pub proof fn lemma_gen_has_dollar(root: Seq<char>, n: Seq<char>)
    requires
        gen_name_from(root, n),
        n.len() > root.len(),
    ensures
        !dollar_free(n),
{
    assert(n[root.len() as int] == '$');
}

/// Two rule-body names below one base agree only on the same rule index.
pub proof fn lemma_rule_name_injective(base: Seq<char>, i: nat, j: nat)
    requires
        rule_name_spec(base, i) == rule_name_spec(base, j),
    ensures
        i == j,
{
    let ni = rule_name_spec(base, i);
    let nj = rule_name_spec(base, j);
    assert(ni.skip(base.len() as int + 2) =~= dec_digits(i));
    assert(nj.skip(base.len() as int + 2) =~= dec_digits(j));
    lemma_dec_digits_injective(i, j);
}

/// Book evolution keeps the ADT table resolvable, hence well-formedness is
/// kept as long as names stay unique.
pub proof fn lemma_evolve_preserves_resolve(b0: BookV, b1: BookV, root: Seq<char>)
    requires
        book_evolves(b0, b1, root),
        adt_ctrs_resolve(b0),
    ensures
        adt_ctrs_resolve(b1),
{
    assert forall|t: int, c: int|
        0 <= t < b1.adts.len() && 0 <= c < b1.adts[t].ctrs.len()
            implies book_has_name(b1, b1.adts[t].ctrs[c].nam) by {
        assert(b1.adts[t] == b0.adts[t]);
        lemma_evolve_has_name(b0, b1, root, b0.adts[t].ctrs[c].nam);
    }
}

/// A prefix of a committed path never accounts for more fresh variables than
/// the whole path.
pub proof fn lemma_pvc_take_le(path: Seq<PatV>, j: int)
    requires
        0 <= j <= path.len(),
    ensures
        path_var_count(path.take(j)) <= path_var_count(path),
    decreases path.len() - j,
{
    if j == path.len() {
        assert(path.take(j) =~= path);
    } else {
        lemma_pvc_take_le(path, j + 1);
        assert(path.take(j + 1).drop_last() =~= path.take(j));
        assert(path_var_count(path.take(j)) <= path_var_count(path.take(j + 1)));
    }
}


/// `n` is `root` itself, or extends it with a `"$P"` segment: the only
/// names the decision-tree driver ever installs below `root`.  Rule-body
/// names (`"$R"`) are not of this shape, so the driver never touches them.
pub open spec fn gen_below(root: Seq<char>, n: Seq<char>) -> bool {
    n == root || {
        &&& n.len() > root.len() + 1
        &&& n.take(root.len() as int) == root
        &&& n[root.len() as int] == '$'
        &&& n[root.len() as int + 1] == 'P'
    }
}

pub proof fn lemma_gen_below_to_gen(root: Seq<char>, n: Seq<char>)
    requires
        gen_below(root, n),
    ensures
        gen_name_from(root, n),
{
    if n == root {
        lemma_gen_refl(root);
    }
}

pub proof fn lemma_gen_below_branch(base: Seq<char>, ctr: Seq<char>)
    ensures
        gen_below(base, branch_name_spec(base, ctr)),
{
    assert(branch_name_spec(base, ctr).take(base.len() as int) =~= base);
    assert(branch_name_spec(base, ctr)[base.len() as int] == '$');
    assert(branch_name_spec(base, ctr)[base.len() as int + 1] == 'P');
}

pub proof fn lemma_gen_below_pass(base: Seq<char>)
    ensures
        gen_below(base, pass_name_spec(base)),
{
    assert(pass_name_spec(base).take(base.len() as int) =~= base);
    assert(pass_name_spec(base)[base.len() as int] == '$');
    assert(pass_name_spec(base)[base.len() as int + 1] == 'P');
}

pub proof fn lemma_gen_below_trans(root: Seq<char>, mid: Seq<char>, n: Seq<char>)
    requires
        gen_below(root, mid),
        gen_below(mid, n),
    ensures
        gen_below(root, n),
{
    if mid == root || n == mid {
    } else {
        assert(n.take(root.len() as int) =~= n.take(mid.len() as int).take(root.len() as int));
        assert(n[root.len() as int] == mid[root.len() as int]);
        assert(n[root.len() as int + 1] == mid[root.len() as int + 1]);
    }
}

/// A rule-body name carries `'R'` after its `'$'`, so it never lies below
/// its own base in the driver's naming discipline.
pub proof fn lemma_rule_name_not_below(base: Seq<char>, idx: nat)
    ensures
        !gen_below(base, rule_name_spec(base, idx)),
{
    let n = rule_name_spec(base, idx);
    crate::names::lemma_dec_digits_len(idx);
    assert(n.len() > base.len() + 1);
    assert(n[base.len() as int] == '$');
    assert(n[base.len() as int + 1] == 'R');
}

/// How the decision-tree driver may change a book below `root`: like
/// `book_evolves`, but every touched name is `root` itself or extends it
/// with a `"$P"` segment.
pub open spec fn book_evolves_below(b0: BookV, b1: BookV, root: Seq<char>) -> bool {
    &&& b1.adts == b0.adts
    &&& b1.defs.len() >= b0.defs.len()
    &&& forall|i: int| 0 <= i < b0.defs.len() ==> b1.defs[i].name == b0.defs[i].name
    &&& forall|i: int|
        0 <= i < b0.defs.len()
            ==> b1.defs[i] == b0.defs[i]
                || (gen_below(root, #[trigger] b1.defs[i].name) && single_empty(b1.defs[i]))
    &&& forall|i: int|
        b0.defs.len() <= i < b1.defs.len()
            ==> gen_below(root, #[trigger] b1.defs[i].name) && single_empty(b1.defs[i])
}

pub proof fn lemma_below_to_evolves(b0: BookV, b1: BookV, root: Seq<char>)
    requires
        book_evolves_below(b0, b1, root),
    ensures
        book_evolves(b0, b1, root),
{
    assert forall|n: Seq<char>| gen_below(root, n) implies gen_name_from(root, n) by {
        lemma_gen_below_to_gen(root, n);
    }
}

pub proof fn lemma_evolves_below_weaken(b0: BookV, b1: BookV, sub: Seq<char>, root: Seq<char>)
    requires
        book_evolves_below(b0, b1, sub),
        gen_below(root, sub),
    ensures
        book_evolves_below(b0, b1, root),
{
    assert forall|n: Seq<char>| gen_below(sub, n) implies gen_below(root, n) by {
        lemma_gen_below_trans(root, sub, n);
    }
}

pub proof fn lemma_evolves_below_trans(b0: BookV, b1: BookV, b2: BookV, root: Seq<char>)
    requires
        book_evolves_below(b0, b1, root),
        book_evolves_below(b1, b2, root),
    ensures
        book_evolves_below(b0, b2, root),
{
}

pub proof fn lemma_evolve_has_single(b0: BookV, b1: BookV, root: Seq<char>, n: Seq<char>)
    requires
        book_evolves(b0, b1, root),
        book_has_single(b0, n),
    ensures
        book_has_single(b1, n),
{
    let i = choose|i: int|
        0 <= i < b0.defs.len() && b0.defs[i].name == n && single_empty(#[trigger] b0.defs[i]);
    assert(b1.defs[i].name == n);
    assert(single_empty(b1.defs[i]));
}

/// The index of a name moves nowhere while a book only grows and keeps its
/// old names, as long as names stay unique.
pub proof fn lemma_name_index_stable(b0: BookV, b1: BookV, n: Seq<char>)
    requires
        names_unique(b1),
        b1.defs.len() >= b0.defs.len(),
        forall|i: int| 0 <= i < b0.defs.len() ==> b1.defs[i].name == b0.defs[i].name,
        book_has_name(b0, n),
    ensures
        book_has_name(b1, n),
        name_index(b1, n) == name_index(b0, n),
{
    let w0 = name_index(b0, n);
    assert(0 <= w0 < b0.defs.len() && b0.defs[w0].name == n);
    assert(b1.defs[w0].name == n);
    let w1 = name_index(b1, n);
    assert(0 <= w1 < b1.defs.len() && b1.defs[w1].name == n);
    if w1 < w0 {
        assert(b1.defs[w1].name != b1.defs[w0].name);
    } else if w1 > w0 {
        assert(b1.defs[w0].name != b1.defs[w1].name);
    }
}

/// The body installed at the root of one definition's decision tree, as a
/// function of the final book: a bare reference to the first rule's body
/// when that rule is irrefutable from the start, else a dispatcher when
/// some rule matches on the first parameter, else a pass-through.
pub open spec fn root_body_spec(
    bf: BookV,
    dname: Seq<char>,
    rules: Seq<RuleV>,
    adts: Seq<AdtV>,
    tys: Seq<Type>,
) -> TermV {
    if suffix_all_var(rules[0].pats, 0) {
        TermV::Ref { def_id: name_index(bf, rule_name_spec(dname, 0)) }
    } else if some_rule_matches(rules, all_indices(rules.len()), 0) {
        dispatcher_body_spec(bf, dname, adts[adt_of(tys[0])].ctrs, Seq::empty())
    } else {
        pass_body_spec(name_index(bf, pass_name_spec(dname)))
    }
}


/// The root body of a compiled definition does not change as the book
/// grows, as long as the names it references are already present and names
/// stay unique.
pub proof fn lemma_root_body_stable(
    b: BookV,
    b2: BookV,
    dname: Seq<char>,
    rules: Seq<RuleV>,
    adts: Seq<AdtV>,
    tys: Seq<Type>,
)
    requires
        names_unique(b2),
        b2.defs.len() >= b.defs.len(),
        forall|i: int| 0 <= i < b.defs.len() ==> b2.defs[i].name == b.defs[i].name,
        rules.len() > 0,
        suffix_all_var(rules[0].pats, 0) ==> book_has_name(b, rule_name_spec(dname, 0)),
        !suffix_all_var(rules[0].pats, 0) && some_rule_matches(rules, all_indices(rules.len()), 0)
            ==> 0 <= adt_of(tys[0]) < adts.len() && forall|c: int|
                0 <= c < adts[adt_of(tys[0])].ctrs.len() ==> book_has_name(
                    b,
                    branch_name_spec(dname, #[trigger] adts[adt_of(tys[0])].ctrs[c].nam),
                ),
        !suffix_all_var(rules[0].pats, 0) && !some_rule_matches(rules, all_indices(rules.len()), 0)
            ==> book_has_name(b, pass_name_spec(dname)),
    ensures
        root_body_spec(b2, dname, rules, adts, tys) == root_body_spec(b, dname, rules, adts, tys),
{
    if suffix_all_var(rules[0].pats, 0) {
        lemma_name_index_stable(b, b2, rule_name_spec(dname, 0));
    } else if some_rule_matches(rules, all_indices(rules.len()), 0) {
        let ctrs = adts[adt_of(tys[0])].ctrs;
        let ids = Seq::new(ctrs.len(), |c: int| name_index(b, branch_name_spec(dname, ctrs[c].nam)));
        let ids2 = Seq::new(ctrs.len(), |c: int| name_index(b2, branch_name_spec(dname, ctrs[c].nam)));
        assert forall|c: int| 0 <= c < ctrs.len() implies ids2[c] == ids[c] by {
            lemma_name_index_stable(b, b2, branch_name_spec(dname, ctrs[c].nam));
        }
        assert(ids2 =~= ids);
        lemma_disp_args_book_irrelevant(b2, b, apply_refs(TermV::Var { nam: seq!['x'] }, ids), Seq::empty(), 0);
    } else {
        lemma_name_index_stable(b, b2, pass_name_spec(dname));
    }
}

// ---------------------------------------------------------------------------
// The driver's precondition
// ---------------------------------------------------------------------------

/// The names of the extracted rule bodies of every live rule resolve in the
/// book.
pub open spec fn rule_names_present(b: BookV, def_name: Seq<char>, crnt: Seq<usize>) -> bool {
    forall|i: int|
        0 <= i < crnt.len() ==> book_has_name(b, rule_name_spec(def_name, crnt[i] as nat))
}


/// A term is built from the five primitives alone.  `TermV` has no other
/// constructor, so this holds of every term: no pattern node can occur in
/// any body the pass writes.
pub open spec fn term_primitive(t: TermV) -> bool
    decreases t,
{
    match t {
        TermV::Era => true,
        TermV::Lam { bod, .. } => term_primitive(*bod),
        TermV::App { fun, arg } => term_primitive(*fun) && term_primitive(*arg),
        TermV::Var { .. } => true,
        TermV::Ref { .. } => true,
    }
}

/// Primitive closure: every term of the model is made of the five
/// primitives, by structural induction.
pub proof fn lemma_term_primitive(t: TermV)
    ensures
        term_primitive(t),
    decreases t,
{
    match t {
        TermV::Era => {},
        TermV::Lam { bod, .. } => {
            lemma_term_primitive(*bod);
        },
        TermV::App { fun, arg } => {
            lemma_term_primitive(*fun);
            lemma_term_primitive(*arg);
        },
        TermV::Var { .. } => {},
        TermV::Ref { .. } => {},
    }
}

/// No pattern value exists anywhere in the program: every rule of every
/// definition has an empty pattern list.
pub open spec fn program_pattern_free(b: BookV) -> bool {
    forall|d: int, r: int|
        0 <= d < b.defs.len() && 0 <= r < b.defs[d].rules.len()
            ==> b.defs[d].rules[r].pats.len() == 0
}

/// The view of a per-definition type table.
pub open spec fn tyss_view(ts: Seq<Vec<Type>>) -> Seq<Seq<Type>> {
    ts.map_values(|v: Vec<Type>| v@)
}

/// A definition pattern matches if some parameter's declared type is an ADT.
pub open spec fn is_matching(tys: Seq<Type>) -> bool {
    exists|k: int| 0 <= k < tys.len() && tys[k] is Adt
}

/// Everything the whole pass demands of its input: a well-formed book whose
/// definition names are `'$'`-free, a complete type table, well-formed rules
/// of equal arity, coverage for every matching definition, a single all-Var
/// rule for every non-matching one, and room for the fresh-variable counter.
pub open spec fn input_wf(b: BookV, tyss: Seq<Seq<Type>>) -> bool {
    &&& book_wf(b)
    &&& tyss.len() == b.defs.len()
    &&& forall|d: int| 0 <= d < b.defs.len() ==> dollar_free(#[trigger] b.defs[d].name)
    &&& forall|d: int| 0 <= d < b.defs.len() ==> def_wf(b, d, tyss[d])
    &&& forall|d: int|
        0 <= d < b.defs.len() && is_matching(#[trigger] tyss[d])
            ==> covered(b.defs[d].rules, b.adts, tyss[d], all_indices(b.defs[d].rules.len()), 0)
    &&& forall|d: int|
        0 <= d < b.defs.len() && is_matching(#[trigger] tyss[d])
            ==> future_budget(tyss[d], b.adts, 0) <= usize::MAX
    &&& forall|d: int|
        0 <= d < b.defs.len() && !is_matching(#[trigger] tyss[d]) ==> b.defs[d].rules.len() == 1
}

/// Everything the decision-tree driver demands of its inputs.
pub open spec fn driver_pre(
    b: BookV,
    tys: Seq<Type>,
    def_id: int,
    crnt_name: Seq<char>,
    crnt: Seq<usize>,
    path: Seq<PatV>,
) -> bool {
    &&& book_wf(b)
    &&& def_wf(b, def_id, tys)
    &&& crnt.len() > 0
    &&& forall|i: int| 0 <= i < crnt.len() ==> (crnt[i] as int) < b.defs[def_id].rules.len()
    &&& path_wf(b.adts, tys, path)
    &&& live_var_discipline(b.defs[def_id].rules, crnt, path)
    &&& covered(b.defs[def_id].rules, b.adts, tys, crnt, path.len() as int)
    &&& rule_names_present(b, b.defs[def_id].name, crnt)
    &&& gen_name_from(b.defs[def_id].name, crnt_name)
    &&& path_var_count(path) + future_budget(tys, b.adts, path.len() as int) <= usize::MAX
}

} // verus!
