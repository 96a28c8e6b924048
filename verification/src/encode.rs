//! The elaboration pass itself: rewrites every definition of a book into a
//! zero-parameter definition whose body is built from the five term
//! primitives alone, compiling pattern matching into Scott-encoded dispatch
//! trees.

use vstd::prelude::*;
use crate::ast::{adt_view, clone_name, clone_pats, clone_term, name_eq, pat_args_var, pats_view, pv_args, pv_name,
    rule_view, term_view, Book, DefV, Name, PatV, Rule, RulePat, RuleV, Term, TermV, Type};
use crate::model::{adt_of, book_def_named, book_evolves, book_evolves_below, book_has_name,
    book_has_single, book_wf, covered, ctrs_max_arity, def_wf, dollar_free, driver_pre,
    apply_vars, filter_live, future_budget, gen_name_from, input_wf, is_matching,
    apply_refs, dispatcher_body_spec, leaf_arg_step, leaf_args, leaf_body_spec,
    lemma_apply_refs_snoc, lemma_apply_vars_snoc, lemma_disp_args_book_irrelevant,
    gen_below, lemma_below_to_evolves, lemma_evolve_has_single, lemma_evolves_below_trans,
    lemma_evolves_below_weaken, lemma_gen_below_branch, lemma_gen_below_pass,
    lemma_name_index_stable, lemma_root_body_stable, lemma_rule_name_not_below, pass_body_spec,
    root_body_spec,
    wrap_var_lams,
    lemma_ctrs_max_arity, lemma_dollar_free_gen_eq, lemma_evolve_has_name, lemma_gen_has_dollar,
    tyss_view,
    lemma_evolve_preserves_resolve, lemma_evolve_short_name_unchanged,
    lemma_evolve_trans, lemma_evolve_weaken, lemma_filter_live_subset, lemma_gen_branch,
    lemma_gen_name_trans, lemma_gen_pass, lemma_gen_refl, lemma_gen_rule, lemma_pvc_take_le,
    lemma_rule_name_injective, live_var_discipline, name_index, names_unique,
    pat_binders, pat_wf_at, path_var_count, rule_binders, rule_body_spec, rule_keeps,
    rule_names_present, single_empty, some_rule_matches, suffix_all_var, wrap_lams};
use crate::names::{branch_name_spec, make_branch_name, make_pass_name, make_var_name,
    pass_name_spec, push_decimal, rule_name_spec, var_name_spec};

verus! {

/// The name of the definition holding the extracted body of rule `rule_idx`
/// of the definition called `def_name`.
pub fn make_rule_name(def_name: &Name, rule_idx: usize) -> (r: Name)
    ensures
        r@ == rule_name_spec(def_name@, rule_idx as nat),
{
    let mut r = clone_name(def_name);
    r.push('$');
    r.push('R');
    push_decimal(&mut r, rule_idx);
    proof {
        assert(r@ =~= rule_name_spec(def_name@, rule_idx as nat));
    }
    r
}

/// Rebuilds a rule's body as a closed term: one lambda per pattern-bound
/// variable, wrapped right to left, so the first parameter's binder becomes
/// the outermost lambda.
pub fn make_rule_body(body: Term, pats: &Vec<RulePat>) -> (r: Term)
    requires
        forall|k: int| 0 <= k < pats@.len() ==> pat_args_var((#[trigger] pats@[k])@),
    ensures
        r@ == rule_body_spec(pats_view(pats@), body@),
{
    let ghost pv = pats_view(pats@);
    let ghost body0 = term_view(body);
    let mut r = body;
    let mut k = pats.len();
    proof {
        assert(pv.skip(k as int) =~= Seq::<PatV>::empty());
        assert(rule_binders(pv.skip(k as int)) =~= Seq::<Seq<char>>::empty());
    }
    while k > 0
        invariant
            k <= pats.len(),
            pv == pats_view(pats@),
            forall|k2: int| 0 <= k2 < pats@.len() ==> pat_args_var((#[trigger] pats@[k2])@),
            r@ == wrap_lams(rule_binders(pv.skip(k as int)), body0),
        decreases k,
    {
        k -= 1;
        let ghost rest = rule_binders(pv.skip(k as int + 1));
        proof {
            assert(pv.skip(k as int).drop_first() =~= pv.skip(k as int + 1));
            assert(pv.skip(k as int)[0] == pv[k as int]);
            assert(pv[k as int] == pats@[k as int]@);
        }
        match &pats[k] {
            RulePat::Var { nam } => {
                let n2 = clone_name(nam);
                proof {
                    assert(pat_binders(pv[k as int]) == seq![nam@]);
                    assert(rule_binders(pv.skip(k as int)) =~= seq![nam@] + rest);
                    assert((seq![nam@] + rest)[0] == nam@);
                    assert((seq![nam@] + rest).drop_first() =~= rest);
                }
                r = Term::Lam { nam: Option::Some(n2), bod: Box::new(r) };
            },
            RulePat::Ctr { nam, args } => {
                let ghost pb = pat_binders(pv[k as int]);
                proof {
                    assert(pv_args(pv[k as int]).len() == args@.len());
                    assert(pb.len() == args@.len());
                    assert(pb.skip(args@.len() as int) =~= Seq::<Seq<char>>::empty());
                    assert(pb.skip(args@.len() as int) + rest =~= rest);
                }
                let mut i = args.len();
                while i > 0
                    invariant
                        i <= args.len(),
                        pv == pats_view(pats@),
                        0 <= k < pats@.len(),
                        pv[k as int] == pats@[k as int]@,
                        pats@[k as int] == (RulePat::Ctr { nam: *nam, args: *args }),
                        pat_args_var(pv[k as int]),
                        pb == pat_binders(pv[k as int]),
                        pb.len() == args@.len(),
                        rest == rule_binders(pv.skip(k as int + 1)),
                        r@ == wrap_lams(pb.skip(i as int) + rest, body0),
                    decreases i,
                {
                    i -= 1;
                    proof {
                        assert(pv_args(pv[k as int])[i as int]
                            == crate::ast::pat_view(args@[i as int]));
                        assert(pb[i as int] == pv_name(pv_args(pv[k as int])[i as int]));
                        assert((pb.skip(i as int) + rest)[0] == pb[i as int]);
                        assert((pb.skip(i as int) + rest).drop_first() =~= pb.skip(i as int + 1) + rest);
                    }
                    match &args[i] {
                        RulePat::Var { nam: vn } => {
                            let n2 = clone_name(vn);
                            r = Term::Lam { nam: Option::Some(n2), bod: Box::new(r) };
                        },
                        RulePat::Ctr { .. } => {
                            proof {
                                assert(pv_args(pv[k as int])[i as int] is Ctr);
                            }
                            vstd::pervasive::unreached()
                        },
                    }
                }
                proof {
                    assert(pb.skip(0) =~= pb);
                    assert(rule_binders(pv.skip(k as int)) =~= pb + rest);
                }
            },
        }
    }
    proof {
        assert(pv.skip(0) =~= pv);
    }
    r
}


/// Installs a closed term under a generated name: overwrites the rule list
/// of an existing definition of that name, or appends a brand-new
/// zero-pattern definition.
pub fn add_case_to_book(book: &mut Book, nam: Name, body: Term)
    ensures
        book_evolves(old(book)@, final(book)@, nam@),
        book_evolves_below(old(book)@, final(book)@, nam@),
        book_def_named(final(book)@, nam@, seq![RuleV { pats: Seq::empty(), body: body@ }]),
        book_has_single(final(book)@, nam@),
        names_unique(old(book)@) ==> names_unique(final(book)@),
        !book_has_name(old(book)@, nam@) ==> final(book)@.defs =~= old(book)@.defs.push(
            DefV { name: nam@, rules: seq![RuleV { pats: Seq::empty(), body: body@ }] },
        ),
        book_has_name(old(book)@, nam@) && names_unique(old(book)@) ==> final(book)@.defs
            =~= old(book)@.defs.update(
            name_index(old(book)@, nam@),
            DefV { name: nam@, rules: seq![RuleV { pats: Seq::empty(), body: body@ }] },
        ),
{
    let ghost b0 = book@;
    let ghost rv = seq![RuleV { pats: Seq::<PatV>::empty(), body: term_view(body) }];
    proof {
        lemma_gen_refl(nam@);
    }
    match book.def_id_of(&nam) {
        Option::Some(i) => {
            let mut d = book.defs.remove(i);
            let mut rules: Vec<Rule> = Vec::new();
            rules.push(Rule { pats: Vec::new(), body });
            d.rules = rules;
            book.defs.insert(i, d);
            proof {
                assert(book.defs@ =~= old(book).defs@.update(i as int, d));
                assert(pats_view(Seq::<RulePat>::empty()) =~= Seq::<PatV>::empty());
                assert(rules@.map_values(|r: Rule| rule_view(r)) =~= rv);
                assert(d@ == (DefV { name: nam@, rules: rv }));
                assert(book@.defs =~= b0.defs.update(i as int, d@));
                assert(book@.adts =~= b0.adts);
                assert(d@.rules == rv);
                assert(d@.name == nam@);
                assert(book@.defs[i as int] == (DefV { name: nam@, rules: rv }));
                assert(book_def_named(book@, nam@, rv));
                assert(book_has_name(b0, nam@));
                if names_unique(b0) {
                    let w = name_index(b0, nam@);
                    assert(0 <= w < b0.defs.len() && b0.defs[w].name == nam@);
                    if w < i as int {
                        assert(b0.defs[w].name != b0.defs[i as int].name);
                    } else if w > i as int {
                        assert(b0.defs[i as int].name != b0.defs[w].name);
                    }
                    assert(w == i as int);
                }
            }
        },
        Option::None => {
            let mut rules: Vec<Rule> = Vec::new();
            rules.push(Rule { pats: Vec::new(), body });
            book.insert_def(nam, rules);
            proof {
                assert(pats_view(Seq::<RulePat>::empty()) =~= Seq::<PatV>::empty());
                assert(rules@.map_values(|r: Rule| rule_view(r)) =~= rv);
                assert(book@.defs.last() == (DefV { name: nam@, rules: rv }));
                assert(book_def_named(book@, nam@, rv));
            }
        },
    }
}

/// A definition that does not pattern match keeps its single rule: the
/// parameter variables move into the body as lambdas, left to right, and the
/// pattern list is cleared.  No sub-definitions are created.
pub fn make_non_pattern_matching_def(book: &mut Book, def_id: usize)
    requires
        (def_id as int) < old(book)@.defs.len(),
        old(book)@.defs[def_id as int].rules.len() == 1,
        forall|k: int|
            0 <= k < old(book)@.defs[def_id as int].rules[0].pats.len()
                ==> old(book)@.defs[def_id as int].rules[0].pats[k] is Var,
    ensures
        final(book)@.defs =~= old(book)@.defs.update(
            def_id as int,
            DefV {
                name: old(book)@.defs[def_id as int].name,
                rules: seq![
                    RuleV {
                        pats: Seq::empty(),
                        body: rule_body_spec(
                            old(book)@.defs[def_id as int].rules[0].pats,
                            old(book)@.defs[def_id as int].rules[0].body,
                        ),
                    },
                ],
            },
        ),
        final(book)@.adts == old(book)@.adts,
{
    let ghost b0 = book@;
    let ghost dv0 = book@.defs[def_id as int];
    let mut d = book.defs.remove(def_id);
    let r0 = d.rules.remove(0);
    let Rule { pats, body } = r0;
    proof {
        assert(dv0.rules[0] == rule_view(Rule { pats, body }));
        assert(dv0.rules[0].pats == pats_view(pats@));
        assert forall|k: int| 0 <= k < pats@.len() implies pat_args_var((#[trigger] pats@[k])@) by {
            assert(pats_view(pats@)[k] == pats@[k]@);
            assert(dv0.rules[0].pats[k] is Var);
        }
    }
    let body = make_rule_body(body, &pats);
    let mut rules: Vec<Rule> = Vec::new();
    rules.push(Rule { pats: Vec::new(), body });
    d.rules = rules;
    book.defs.insert(def_id, d);
    proof {
        assert(book.defs@ =~= old(book).defs@.update(def_id as int, d));
        assert(pats_view(Seq::<RulePat>::empty()) =~= Seq::<PatV>::empty());
        assert(d@.rules =~= seq![
            RuleV { pats: Seq::empty(), body: rule_body_spec(dv0.rules[0].pats, dv0.rules[0].body) },
        ]);
        assert(d@ == (DefV {
            name: dv0.name,
            rules: seq![
                RuleV {
                    pats: Seq::empty(),
                    body: rule_body_spec(dv0.rules[0].pats, dv0.rules[0].body),
                },
            ],
        }));
        assert(book@.defs =~= b0.defs.update(def_id as int, d@));
        assert(book@.adts =~= b0.adts);
    }
}

/// One step of the decision tree: decides, for the parameter position
/// `match_path.len()`, whether the highest-precedence live rule is already
/// irrefutable (leaf), whether some live rule demands a constructor here
/// (branch), or whether the decision is deferred (pass-through), and builds
/// the sub-function of the given name accordingly.
pub fn make_pattern_matching_case(
    book: &mut Book,
    def_type: &Vec<Type>,
    def_id: usize,
    crnt_name: &Name,
    crnt_rules: Vec<usize>,
    match_path: Vec<RulePat>,
)
    requires
        driver_pre(old(book)@, def_type@, def_id as int, crnt_name@, crnt_rules@, pats_view(match_path@)),
    ensures
        book_evolves(old(book)@, final(book)@, crnt_name@),
        book_evolves_below(old(book)@, final(book)@, crnt_name@),
        book_wf(final(book)@),
        book_has_single(final(book)@, crnt_name@),
        suffix_all_var(
            old(book)@.defs[def_id as int].rules[crnt_rules@[0] as int].pats,
            pats_view(match_path@).len() as int,
        ) ==> book_def_named(
            final(book)@,
            crnt_name@,
            seq![
                RuleV {
                    pats: Seq::empty(),
                    body: leaf_body_spec(
                        old(book)@,
                        name_index(
                            old(book)@,
                            rule_name_spec(
                                old(book)@.defs[def_id as int].name,
                                crnt_rules@[0] as nat,
                            ),
                        ),
                        pats_view(match_path@),
                        old(book)@.defs[def_id as int].rules[crnt_rules@[0] as int].pats,
                    ),
                },
            ],
        ),
        !suffix_all_var(
            old(book)@.defs[def_id as int].rules[crnt_rules@[0] as int].pats,
            pats_view(match_path@).len() as int,
        ) && some_rule_matches(
            old(book)@.defs[def_id as int].rules,
            crnt_rules@,
            pats_view(match_path@).len() as int,
        ) ==> book_def_named(
            final(book)@,
            crnt_name@,
            seq![
                RuleV {
                    pats: Seq::empty(),
                    body: dispatcher_body_spec(
                        final(book)@,
                        crnt_name@,
                        old(book)@.adts[adt_of(def_type@[pats_view(match_path@).len() as int])].ctrs,
                        pats_view(match_path@),
                    ),
                },
            ],
        ),
        !suffix_all_var(
            old(book)@.defs[def_id as int].rules[crnt_rules@[0] as int].pats,
            pats_view(match_path@).len() as int,
        ) && some_rule_matches(
            old(book)@.defs[def_id as int].rules,
            crnt_rules@,
            pats_view(match_path@).len() as int,
        ) && def_type@[pats_view(match_path@).len() as int] is Adt ==> forall|c: int|
            0 <= c < old(book)@.adts[adt_of(def_type@[pats_view(match_path@).len() as int])].ctrs.len()
                ==> book_has_name(
                    final(book)@,
                    branch_name_spec(
                        crnt_name@,
                        #[trigger] old(book)@.adts[adt_of(def_type@[pats_view(match_path@).len() as int])]
                            .ctrs[c].nam,
                    ),
                ),
        !suffix_all_var(
            old(book)@.defs[def_id as int].rules[crnt_rules@[0] as int].pats,
            pats_view(match_path@).len() as int,
        ) && !some_rule_matches(
            old(book)@.defs[def_id as int].rules,
            crnt_rules@,
            pats_view(match_path@).len() as int,
        ) ==> book_def_named(
            final(book)@,
            crnt_name@,
            seq![
                RuleV {
                    pats: Seq::empty(),
                    body: pass_body_spec(name_index(final(book)@, pass_name_spec(crnt_name@))),
                },
            ],
        ) && book_has_single(final(book)@, pass_name_spec(crnt_name@)),
    decreases def_type@.len() - match_path@.len(), 1int,
{
    let ghost b0 = book@;
    let ghost pathv = pats_view(match_path@);
    let ghost rules = b0.defs[def_id as int].rules;
    let k = match_path.len();
    let fst_idx = crnt_rules[0];
    proof {
        assert(rules[fst_idx as int].pats.len() == def_type@.len());
        crate::ast::lemma_book_def_index(*book, def_id as int);
        assert(book@.defs[def_id as int].rules[fst_idx as int]
            == rule_view(book.defs@[def_id as int].rules@[fst_idx as int]));
        assert(rules[fst_idx as int] == book.defs@[def_id as int].rules@[fst_idx as int]@);
    }
    let arity = book.defs[def_id].rules[fst_idx].pats.len();
    let mut irrefutable = true;
    let mut j = k;
    loop
        invariant_except_break
            k <= j <= arity,
            irrefutable,
            forall|j2: int| k <= j2 < j ==> rules[fst_idx as int].pats[j2] is Var,
        invariant
            book@ == b0,
            0 <= (def_id as int) < b0.defs.len(),
            rules == b0.defs[def_id as int].rules,
            (fst_idx as int) < rules.len(),
            arity == rules[fst_idx as int].pats.len(),
            k == match_path@.len(),
        ensures
            irrefutable == suffix_all_var(rules[fst_idx as int].pats, k as int),
        decreases arity - j,
    {
        if j >= arity {
            proof {
                assert(suffix_all_var(rules[fst_idx as int].pats, k as int));
            }
            break;
        }
        proof {
            crate::ast::lemma_book_pat_index(*book, def_id as int, fst_idx as int, j as int);
        }
        match &book.defs[def_id].rules[fst_idx].pats[j] {
            RulePat::Var { .. } => {
                j += 1;
            },
            RulePat::Ctr { .. } => {
                irrefutable = false;
                proof {
                    assert(rules[fst_idx as int].pats[j as int] is Ctr);
                    assert(!suffix_all_var(rules[fst_idx as int].pats, k as int));
                }
                break;
            },
        }
    }
    if irrefutable {
        proof {
            assert(pathv.len() <= def_type@.len());
            assert forall|k2: int|
                0 <= k2 < pathv.len() && pathv[k2] is Var
                    implies rules[fst_idx as int].pats[k2] is Var by {
                assert(live_var_discipline(rules, crnt_rules@, pathv));
                assert(crnt_rules@[0] == fst_idx);
            }
            assert forall|k2: int|
                0 <= k2 < pathv.len() && pathv[k2] is Ctr
                    implies book_has_name(b0, pv_name(#[trigger] pathv[k2])) by {
                assert(pat_wf_at(b0.adts, def_type@[k2], pathv[k2]));
                match def_type@[k2] {
                    Type::Any => {
                        assert(false);
                    },
                    Type::Adt(t) => {
                        let c = choose|c: int|
                            0 <= c < b0.adts[t as int].ctrs.len()
                                && b0.adts[t as int].ctrs[c].nam == pv_name(pathv[k2])
                                && b0.adts[t as int].ctrs[c].arity == pv_args(pathv[k2]).len();
                        assert(book_has_name(b0, b0.adts[t as int].ctrs[c].nam));
                    },
                }
            }
            assert(rule_names_present(b0, b0.defs[def_id as int].name, crnt_rules@));
            assert(crnt_rules@[0] == fst_idx);
        }
        make_leaf_pattern_matching_case(book, def_id, crnt_name, fst_idx, match_path);
    } else {
        let mut matching = false;
        let mut i: usize = 0;
        loop
            invariant_except_break
                i <= crnt_rules.len(),
                !matching,
                forall|i2: int| 0 <= i2 < i ==> !(rules[crnt_rules@[i2] as int].pats[k as int] is Ctr),
            invariant
                book@ == b0,
                0 <= (def_id as int) < b0.defs.len(),
                k == match_path@.len(),
                k < def_type@.len(),
                forall|i2: int| 0 <= i2 < crnt_rules@.len() ==> (crnt_rules@[i2] as int) < rules.len(),
                forall|r: int| 0 <= r < rules.len() ==> rules[r].pats.len() == def_type@.len(),
                rules == b0.defs[def_id as int].rules,
            ensures
                matching == some_rule_matches(rules, crnt_rules@, k as int),
            decreases crnt_rules.len() - i,
        {
            if i >= crnt_rules.len() {
                proof {
                    assert(!some_rule_matches(rules, crnt_rules@, k as int));
                }
                break;
            }
            let r = crnt_rules[i];
            proof {
                crate::ast::lemma_book_pat_index(*book, def_id as int, r as int, k as int);
            }
            match &book.defs[def_id].rules[r].pats[k] {
                RulePat::Ctr { .. } => {
                    matching = true;
                    proof {
                        assert(rules[crnt_rules@[i as int] as int].pats[k as int] is Ctr);
                    }
                    break;
                },
                RulePat::Var { .. } => {
                    i += 1;
                },
            }
        }
        if matching {
            make_branch_pattern_matching_case(book, def_type, def_id, crnt_name, crnt_rules, match_path);
        } else {
            make_non_pattern_matching_case(book, def_type, def_id, crnt_name, crnt_rules, match_path);
        }
    }
}

/// Builds the micro-function that forwards to the winning rule's extracted
/// body, re-synthesizing one fresh variable per discriminated field and
/// reconstructing constructor values the rule itself did not match on.
pub fn make_leaf_pattern_matching_case(
    book: &mut Book,
    def_id: usize,
    crnt_name: &Name,
    rule_idx: usize,
    match_path: Vec<RulePat>,
)
    requires
        book_wf(old(book)@),
        (def_id as int) < old(book)@.defs.len(),
        (rule_idx as int) < old(book)@.defs[def_id as int].rules.len(),
        pats_view(match_path@).len() <= old(book)@.defs[def_id as int].rules[rule_idx as int].pats.len(),
        forall|k: int|
            0 <= k < pats_view(match_path@).len() && (#[trigger] pats_view(match_path@)[k]) is Var
                ==> old(book)@.defs[def_id as int].rules[rule_idx as int].pats[k] is Var,
        forall|k: int|
            0 <= k < pats_view(match_path@).len() && (#[trigger] pats_view(match_path@)[k]) is Ctr
                ==> book_has_name(old(book)@, pv_name(pats_view(match_path@)[k])),
        book_has_name(
            old(book)@,
            rule_name_spec(old(book)@.defs[def_id as int].name, rule_idx as nat),
        ),
        path_var_count(pats_view(match_path@)) <= usize::MAX,
    ensures
        book_evolves(old(book)@, final(book)@, crnt_name@),
        book_evolves_below(old(book)@, final(book)@, crnt_name@),
        book_wf(final(book)@),
        book_has_single(final(book)@, crnt_name@),
        book_def_named(
            final(book)@,
            crnt_name@,
            seq![
                RuleV {
                    pats: Seq::empty(),
                    body: leaf_body_spec(
                        old(book)@,
                        name_index(
                            old(book)@,
                            rule_name_spec(old(book)@.defs[def_id as int].name, rule_idx as nat),
                        ),
                        pats_view(match_path@),
                        old(book)@.defs[def_id as int].rules[rule_idx as int].pats,
                    ),
                },
            ],
        ),
        !book_has_name(old(book)@, crnt_name@) ==> final(book)@.defs =~= old(book)@.defs.push(
            DefV {
                name: crnt_name@,
                rules: seq![
                    RuleV {
                        pats: Seq::empty(),
                        body: leaf_body_spec(
                            old(book)@,
                            name_index(
                                old(book)@,
                                rule_name_spec(old(book)@.defs[def_id as int].name, rule_idx as nat),
                            ),
                            pats_view(match_path@),
                            old(book)@.defs[def_id as int].rules[rule_idx as int].pats,
                        ),
                    },
                ],
            },
        ),
        book_has_name(old(book)@, crnt_name@) ==> final(book)@.defs =~= old(book)@.defs.update(
            name_index(old(book)@, crnt_name@),
            DefV {
                name: crnt_name@,
                rules: seq![
                    RuleV {
                        pats: Seq::empty(),
                        body: leaf_body_spec(
                            old(book)@,
                            name_index(
                                old(book)@,
                                rule_name_spec(old(book)@.defs[def_id as int].name, rule_idx as nat),
                            ),
                            pats_view(match_path@),
                            old(book)@.defs[def_id as int].rules[rule_idx as int].pats,
                        ),
                    },
                ],
            },
        ),
{
    let ghost b0 = book@;
    let ghost pathv = pats_view(match_path@);
    let ghost rpats = b0.defs[def_id as int].rules[rule_idx as int].pats;
    let rule_def_name = make_rule_name(&book.defs[def_id].name, rule_idx);
    proof {
        crate::ast::lemma_book_def_index(*book, def_id as int);
        assert(b0.defs[def_id as int].name == book.defs@[def_id as int].name@);
    }
    let rule_def_id = match book.def_id_of(&rule_def_name) {
        Option::Some(i) => i,
        Option::None => {
            proof {
                let w = choose|w: int|
                    0 <= w < b0.defs.len()
                        && b0.defs[w].name == rule_name_spec(b0.defs[def_id as int].name, rule_idx as nat);
                assert(b0.defs[w].name == rule_def_name@);
            }
            vstd::pervasive::unreached()
        },
    };
    proof {
        let w = name_index(b0, rule_name_spec(b0.defs[def_id as int].name, rule_idx as nat));
        assert(0 <= w < b0.defs.len()
            && b0.defs[w].name == rule_name_spec(b0.defs[def_id as int].name, rule_idx as nat));
        if w < rule_def_id as int {
            assert(b0.defs[w].name != b0.defs[rule_def_id as int].name);
        } else if w > rule_def_id as int {
            assert(b0.defs[rule_def_id as int].name != b0.defs[w].name);
        }
        assert(w == rule_def_id as int);
    }
    let ghost base = TermV::Ref { def_id: rule_def_id as int };
    let mut term = Term::Ref { def_id: rule_def_id };
    let mut c: usize = 0;
    let mut j: usize = 0;
    proof {
        assert(pathv.take(0) =~= Seq::<PatV>::empty());
    }
    while j < match_path.len()
        invariant
            book@ == b0,
            book_wf(b0),
            pathv == pats_view(match_path@),
            rpats == b0.defs[def_id as int].rules[rule_idx as int].pats,
            (def_id as int) < b0.defs.len(),
            (rule_idx as int) < b0.defs[def_id as int].rules.len(),
            pathv.len() <= rpats.len(),
            forall|k: int|
                0 <= k < pathv.len() && (#[trigger] pathv[k]) is Var ==> rpats[k] is Var,
            forall|k: int|
                0 <= k < pathv.len() && (#[trigger] pathv[k]) is Ctr
                    ==> book_has_name(b0, pv_name(pathv[k])),
            path_var_count(pathv) <= usize::MAX,
            j <= match_path@.len(),
            c as nat == path_var_count(pathv.take(j as int)),
            base == (TermV::Ref { def_id: rule_def_id as int }),
            (term@, c as int) == leaf_args(b0, base, pathv, rpats, j as int),
        decreases match_path@.len() - j,
    {
        let ghost t_pre = term@;
        let ghost c_pre = c as int;
        proof {
            lemma_pvc_take_le(pathv, j as int + 1);
            assert(pathv.take(j as int + 1).drop_last() =~= pathv.take(j as int));
            assert(pathv.take(j as int + 1).last() == pathv[j as int]);
            assert(pathv[j as int] == match_path@[j as int]@);
            if (j as int) < rpats.len() {
                crate::ast::lemma_book_pat_index(*book, def_id as int, rule_idx as int, j as int);
            }
        }
        match (&match_path[j], &book.defs[def_id].rules[rule_idx].pats[j]) {
            (RulePat::Var { .. }, RulePat::Var { .. }) => {
                let vn = crate::names::make_var_name(c);
                term = Term::App { fun: Box::new(term), arg: Box::new(Term::Var { nam: vn }) };
                proof {
                    reveal_with_fuel(crate::ast::term_view, 3);
                    assert(term@ == (TermV::App {
                        fun: Box::new(t_pre),
                        arg: Box::new(TermV::Var { nam: var_name_spec(c as nat) }),
                    }));
                }
                c += 1;
            },
            (RulePat::Ctr { args, .. }, RulePat::Ctr { .. }) => {
                let n = args.len();
                proof {
                    assert(pv_args(pathv[j as int]).len() == args@.len());
                }
                let mut i2: usize = 0;
                while i2 < n
                    invariant
                        i2 <= n,
                        c as nat == path_var_count(pathv.take(j as int)) + i2,
                        path_var_count(pathv.take(j as int + 1))
                            == path_var_count(pathv.take(j as int)) + n,
                        path_var_count(pathv.take(j as int + 1)) <= path_var_count(pathv),
                        path_var_count(pathv) <= usize::MAX,
                        0 <= c_pre,
                        c as int == c_pre + i2,
                        term@ == apply_vars(t_pre, c_pre, c as int),
                    decreases n - i2,
                {
                    proof {
                        lemma_apply_vars_snoc(t_pre, c_pre, c as int);
                    }
                    let vn = crate::names::make_var_name(c);
                    term = Term::App { fun: Box::new(term), arg: Box::new(Term::Var { nam: vn }) };
                    proof {
                        reveal_with_fuel(crate::ast::term_view, 3);
                        assert(term@ == apply_vars(t_pre, c_pre, c as int + 1));
                    }
                    c += 1;
                    i2 += 1;
                }
                proof {
                    assert(term@ == apply_vars(t_pre, c_pre, c_pre + pv_args(pathv[j as int]).len()));
                }
            },
            (RulePat::Ctr { nam: cnam, args }, RulePat::Var { .. }) => {
                proof {
                    assert(pathv[j as int] is Ctr);
                    assert(pv_name(pathv[j as int]) == cnam@);
                    assert(pv_args(pathv[j as int]).len() == args@.len());
                }
                let ctr_id = match book.def_id_of(cnam) {
                    Option::Some(i) => i,
                    Option::None => {
                        proof {
                            let w = choose|w: int|
                                0 <= w < b0.defs.len() && b0.defs[w].name == pv_name(pathv[j as int]);
                            assert(b0.defs[w].name == cnam@);
                        }
                        vstd::pervasive::unreached()
                    },
                };
                proof {
                    let w = name_index(b0, pv_name(pathv[j as int]));
                    assert(0 <= w < b0.defs.len() && b0.defs[w].name == pv_name(pathv[j as int]));
                    if w < ctr_id as int {
                        assert(b0.defs[w].name != b0.defs[ctr_id as int].name);
                    } else if w > ctr_id as int {
                        assert(b0.defs[ctr_id as int].name != b0.defs[w].name);
                    }
                    assert(w == ctr_id as int);
                }
                let mut ctr_term = Term::Ref { def_id: ctr_id };
                let n = args.len();
                let mut i2: usize = 0;
                while i2 < n
                    invariant
                        i2 <= n,
                        c as nat == path_var_count(pathv.take(j as int)) + i2,
                        path_var_count(pathv.take(j as int + 1))
                            == path_var_count(pathv.take(j as int)) + n,
                        path_var_count(pathv.take(j as int + 1)) <= path_var_count(pathv),
                        path_var_count(pathv) <= usize::MAX,
                        0 <= c_pre,
                        c as int == c_pre + i2,
                        ctr_term@ == apply_vars(
                            TermV::Ref { def_id: ctr_id as int },
                            c_pre,
                            c as int,
                        ),
                    decreases n - i2,
                {
                    proof {
                        lemma_apply_vars_snoc(
                            TermV::Ref { def_id: ctr_id as int },
                            c_pre,
                            c as int,
                        );
                    }
                    let vn = crate::names::make_var_name(c);
                    ctr_term = Term::App {
                        fun: Box::new(ctr_term),
                        arg: Box::new(Term::Var { nam: vn }),
                    };
                    proof {
                        reveal_with_fuel(crate::ast::term_view, 3);
                        assert(ctr_term@ == apply_vars(
                            TermV::Ref { def_id: ctr_id as int },
                            c_pre,
                            c as int + 1,
                        ));
                    }
                    c += 1;
                    i2 += 1;
                }
                proof {
                    assert(ctr_id as int == name_index(b0, pv_name(pathv[j as int])));
                }
                term = Term::App { fun: Box::new(term), arg: Box::new(ctr_term) };
            },
            (RulePat::Var { .. }, RulePat::Ctr { .. }) => {
                proof {
                    assert(pathv[j as int] is Var);
                    assert(rpats[j as int] is Ctr);
                }
                vstd::pervasive::unreached()
            },
        }
        proof {
            assert(leaf_args(b0, base, pathv, rpats, j as int + 1)
                == leaf_arg_step(b0, t_pre, c_pre, pathv[j as int], rpats[j as int]));
        }
        j += 1;
    }
    let ghost apv = leaf_args(b0, base, pathv, rpats, pathv.len() as int);
    proof {
        assert(pathv.take(pathv.len() as int) =~= pathv);
        assert((term@, c as int) == apv);
    }
    while c > 0
        invariant
            book@ == b0,
            c as int <= apv.1,
            term@ == wrap_var_lams(apv.0, c as int, apv.1),
        decreases c,
    {
        c -= 1;
        let vn = crate::names::make_var_name(c);
        term = Term::Lam { nam: Option::Some(vn), bod: Box::new(term) };
    }
    let ghost tv0 = term@;
    let nam2 = clone_name(crnt_name);
    add_case_to_book(book, nam2, term);
    proof {
        lemma_evolve_preserves_resolve(b0, book@, crnt_name@);
        assert(tv0 == wrap_var_lams(apv.0, 0, apv.1));
        assert(tv0 == leaf_body_spec(b0, rule_def_id as int, pathv, rpats));
        assert(seq![RuleV { pats: Seq::<PatV>::empty(), body: tv0 }]
            =~= seq![
                RuleV {
                    pats: Seq::empty(),
                    body: leaf_body_spec(
                        b0,
                        name_index(b0, rule_name_spec(b0.defs[def_id as int].name, rule_idx as nat)),
                        pathv,
                        rpats,
                    ),
                },
            ]);
        assert((DefV { name: crnt_name@, rules: seq![RuleV { pats: Seq::<PatV>::empty(), body: tv0 }] })
            == (DefV {
                name: crnt_name@,
                rules: seq![
                    RuleV {
                        pats: Seq::empty(),
                        body: leaf_body_spec(
                            b0,
                            name_index(
                                b0,
                                rule_name_spec(b0.defs[def_id as int].name, rule_idx as nat),
                            ),
                            pathv,
                            rpats,
                        ),
                    },
                ],
            }));
    }
}

/// Breaks one pattern-matching definition into a tree of small dispatch
/// functions: first a zero-parameter definition per rule body, then the
/// Scott-encoded decision tree, whose root overwrites the definition itself.
pub fn make_pattern_matching_def(book: &mut Book, def_id: usize, def_type: &Vec<Type>)
    requires
        book_wf(old(book)@),
        def_wf(old(book)@, def_id as int, def_type@),
        covered(
            old(book)@.defs[def_id as int].rules,
            old(book)@.adts,
            def_type@,
            crate::model::all_indices(old(book)@.defs[def_id as int].rules.len()),
            0,
        ),
        future_budget(def_type@, old(book)@.adts, 0) <= usize::MAX,
        forall|i: int|
            0 <= i < old(book)@.defs[def_id as int].rules.len()
                ==> !book_has_name(
                    old(book)@,
                    #[trigger] rule_name_spec(old(book)@.defs[def_id as int].name, i as nat),
                ),
    ensures
        book_evolves(old(book)@, final(book)@, old(book)@.defs[def_id as int].name),
        book_wf(final(book)@),
        single_empty(final(book)@.defs[def_id as int]),
        forall|i: int|
            0 <= i < old(book)@.defs[def_id as int].rules.len() ==> book_def_named(
                final(book)@,
                #[trigger] rule_name_spec(old(book)@.defs[def_id as int].name, i as nat),
                seq![
                    RuleV {
                        pats: Seq::empty(),
                        body: rule_body_spec(
                            old(book)@.defs[def_id as int].rules[i].pats,
                            old(book)@.defs[def_id as int].rules[i].body,
                        ),
                    },
                ],
            ),
        book_def_named(
            final(book)@,
            old(book)@.defs[def_id as int].name,
            seq![
                RuleV {
                    pats: Seq::empty(),
                    body: root_body_spec(
                        final(book)@,
                        old(book)@.defs[def_id as int].name,
                        old(book)@.defs[def_id as int].rules,
                        old(book)@.adts,
                        def_type@,
                    ),
                },
            ],
        ),
        !suffix_all_var(old(book)@.defs[def_id as int].rules[0].pats, 0) && some_rule_matches(
            old(book)@.defs[def_id as int].rules,
            crate::model::all_indices(old(book)@.defs[def_id as int].rules.len()),
            0,
        ) ==> forall|c: int|
            0 <= c < old(book)@.adts[adt_of(def_type@[0])].ctrs.len() ==> book_has_name(
                final(book)@,
                branch_name_spec(
                    old(book)@.defs[def_id as int].name,
                    #[trigger] old(book)@.adts[adt_of(def_type@[0])].ctrs[c].nam,
                ),
            ),
        !suffix_all_var(old(book)@.defs[def_id as int].rules[0].pats, 0) && !some_rule_matches(
            old(book)@.defs[def_id as int].rules,
            crate::model::all_indices(old(book)@.defs[def_id as int].rules.len()),
            0,
        ) ==> book_has_single(final(book)@, pass_name_spec(old(book)@.defs[def_id as int].name)),
{
    let ghost b0 = book@;
    let ghost def_name_v = b0.defs[def_id as int].name;
    proof {
        crate::ast::lemma_book_def_index(*book, def_id as int);
    }
    let def_name = clone_name(&book.defs[def_id].name);
    let n_rules = book.defs[def_id].rules.len();
    let mut rule_idx: usize = 0;
    while rule_idx < n_rules
        invariant
            rule_idx <= n_rules,
            def_name@ == def_name_v,
            0 <= (def_id as int) < b0.defs.len(),
            n_rules == b0.defs[def_id as int].rules.len(),
            def_name_v == b0.defs[def_id as int].name,
            book_wf(b0),
            def_wf(b0, def_id as int, def_type@),
            forall|i: int|
                0 <= i < n_rules
                    ==> !book_has_name(b0, #[trigger] rule_name_spec(def_name_v, i as nat)),
            book@.adts == b0.adts,
            book@.defs.len() == b0.defs.len() + rule_idx,
            forall|j: int| 0 <= j < b0.defs.len() ==> book@.defs[j] == b0.defs[j],
            forall|j: int|
                b0.defs.len() <= j < book@.defs.len() ==> #[trigger] book@.defs[j] == (DefV {
                    name: rule_name_spec(def_name_v, (j - b0.defs.len()) as nat),
                    rules: seq![
                        RuleV {
                            pats: Seq::empty(),
                            body: rule_body_spec(
                                b0.defs[def_id as int].rules[j - b0.defs.len()].pats,
                                b0.defs[def_id as int].rules[j - b0.defs.len()].body,
                            ),
                        },
                    ],
                }),
        decreases n_rules - rule_idx,
    {
        proof {
            crate::ast::lemma_book_rule_index(*book, def_id as int, rule_idx as int);
        }
        let body = clone_term(&book.defs[def_id].rules[rule_idx].body);
        proof {
            let ru = b0.defs[def_id as int].rules[rule_idx as int];
            assert forall|k2: int|
                0 <= k2 < book.defs@[def_id as int].rules@[rule_idx as int].pats@.len()
                    implies pat_args_var(
                        (#[trigger] book.defs@[def_id as int].rules@[rule_idx as int].pats@[k2])@,
                    ) by {
                assert(ru.pats[k2]
                    == book.defs@[def_id as int].rules@[rule_idx as int].pats@[k2]@);
                assert(pat_wf_at(b0.adts, def_type@[k2], ru.pats[k2]));
                match ru.pats[k2] {
                    PatV::Var { .. } => {},
                    PatV::Ctr { .. } => {},
                }
            }
        }
        let body = make_rule_body(body, &book.defs[def_id].rules[rule_idx].pats);
        let rname = make_rule_name(&def_name, rule_idx);
        let mut rv: Vec<Rule> = Vec::new();
        rv.push(Rule { pats: Vec::new(), body });
        let ghost bpre = book@;
        book.insert_def(rname, rv);
        proof {
            assert(pats_view(Seq::<RulePat>::empty()) =~= Seq::<PatV>::empty());
            assert(rv@.map_values(|r: Rule| rule_view(r)) =~= seq![
                RuleV {
                    pats: Seq::empty(),
                    body: rule_body_spec(
                        b0.defs[def_id as int].rules[rule_idx as int].pats,
                        b0.defs[def_id as int].rules[rule_idx as int].body,
                    ),
                },
            ]);
            assert forall|j: int| 0 <= j < b0.defs.len() implies book@.defs[j] == b0.defs[j] by {
                assert(book@.defs[j] == bpre.defs[j]);
            }
        }
        rule_idx += 1;
    }
    let ghost bmid = book@;
    let mut crnt: Vec<usize> = Vec::new();
    let mut i: usize = 0;
    proof {
        assert(crnt@ =~= crate::model::all_indices(0));
    }
    while i < n_rules
        invariant
            i <= n_rules,
            crnt@ == crate::model::all_indices(i as nat),
        decreases n_rules - i,
    {
        crnt.push(i);
        proof {
            assert(crnt@ =~= crate::model::all_indices(i as nat + 1));
        }
        i += 1;
    }
    let path: Vec<RulePat> = Vec::new();
    proof {
        // the book with the rule bodies installed is still well formed
        assert forall|i1: int, j1: int|
            0 <= i1 < j1 < bmid.defs.len()
                implies bmid.defs[i1].name != bmid.defs[j1].name by {
            if j1 < b0.defs.len() {
                assert(bmid.defs[i1] == b0.defs[i1]);
                assert(bmid.defs[j1] == b0.defs[j1]);
                assert(b0.defs[i1].name != b0.defs[j1].name);
            } else if i1 < b0.defs.len() {
                assert(bmid.defs[i1] == b0.defs[i1]);
                assert(bmid.defs[j1].name == rule_name_spec(def_name_v, (j1 - b0.defs.len()) as nat));
                if bmid.defs[i1].name == bmid.defs[j1].name {
                    assert(b0.defs[i1].name == rule_name_spec(def_name_v, (j1 - b0.defs.len()) as nat));
                    assert(book_has_name(b0, rule_name_spec(def_name_v, (j1 - b0.defs.len()) as nat)));
                }
            } else {
                assert(bmid.defs[i1].name == rule_name_spec(def_name_v, (i1 - b0.defs.len()) as nat));
                assert(bmid.defs[j1].name == rule_name_spec(def_name_v, (j1 - b0.defs.len()) as nat));
                if bmid.defs[i1].name == bmid.defs[j1].name {
                    lemma_rule_name_injective(
                        def_name_v,
                        (i1 - b0.defs.len()) as nat,
                        (j1 - b0.defs.len()) as nat,
                    );
                }
            }
        }
        assert forall|t: int, c: int|
            0 <= t < bmid.adts.len() && 0 <= c < bmid.adts[t].ctrs.len()
                implies book_has_name(bmid, bmid.adts[t].ctrs[c].nam) by {
            assert(book_has_name(b0, b0.adts[t].ctrs[c].nam));
            let w = choose|w: int|
                0 <= w < b0.defs.len() && b0.defs[w].name == b0.adts[t].ctrs[c].nam;
            assert(bmid.defs[w].name == b0.adts[t].ctrs[c].nam);
        }
        assert(book_wf(bmid));
        // the driver's precondition at the root of the decision tree
        assert(def_wf(bmid, def_id as int, def_type@));
        assert(pats_view(path@) =~= Seq::<PatV>::empty());
        assert(path_var_count(pats_view(path@)) == 0);
        assert forall|i2: int| 0 <= i2 < crnt@.len()
            implies book_has_name(bmid, rule_name_spec(def_name_v, crnt@[i2] as nat)) by {
            assert(crnt@[i2] == i2 as usize);
            assert(bmid.defs[b0.defs.len() + i2].name == rule_name_spec(def_name_v, i2 as nat));
        }
        lemma_gen_refl(def_name_v);
        assert(covered(
            bmid.defs[def_id as int].rules,
            bmid.adts,
            def_type@,
            crnt@,
            pats_view(path@).len() as int,
        ));
        assert(driver_pre(bmid, def_type@, def_id as int, def_name@, crnt@, pats_view(path@)));
    }
    let ghost crnt_v = crnt@;
    let ghost pathv0 = pats_view(path@);
    make_pattern_matching_case(book, def_type, def_id, &def_name, crnt, path);
    proof {
        // the rule-body installs were an evolution below the definition name
        assert forall|j: int| b0.defs.len() <= j < bmid.defs.len()
            implies gen_name_from(def_name_v, #[trigger] bmid.defs[j].name)
                && single_empty(bmid.defs[j]) by {
            assert(bmid.defs[j].name == rule_name_spec(def_name_v, (j - b0.defs.len()) as nat));
            lemma_gen_rule(def_name_v, (j - b0.defs.len()) as nat);
        }
        assert(book_evolves(b0, bmid, def_name_v));
        lemma_evolve_trans(b0, bmid, book@, def_name_v);
        // the definition itself now holds a single zero-pattern rule
        let w = choose|w: int|
            0 <= w < book@.defs.len() && book@.defs[w].name == def_name_v
                && single_empty(#[trigger] book@.defs[w]);
        assert(book@.defs[def_id as int].name == def_name_v);
        assert(w == def_id as int);
        // the driver touched only names below the definition's own name,
        // so the rule-body definitions stand exactly as extracted
        let bfin = book@;
        let rules0 = b0.defs[def_id as int].rules;
        assert forall|i: int| 0 <= i < n_rules
            implies book_def_named(
                bfin,
                #[trigger] rule_name_spec(def_name_v, i as nat),
                seq![
                    RuleV {
                        pats: Seq::empty(),
                        body: rule_body_spec(rules0[i].pats, rules0[i].body),
                    },
                ],
            ) by {
            lemma_rule_name_not_below(def_name_v, i as nat);
            let idx = b0.defs.len() + i;
            assert(bmid.defs[idx].name == rule_name_spec(def_name_v, i as nat));
            if bfin.defs[idx] != bmid.defs[idx] {
                assert(gen_below(def_name_v, bfin.defs[idx].name));
            }
            assert(bfin.defs[idx] == bmid.defs[idx]);
        }
        // the root body is the case the driver decided, over the final book
        assert(crnt_v[0] == 0usize);
        assert(bmid.defs[def_id as int].rules == rules0);
        assert(pathv0 =~= Seq::<PatV>::empty());
        let rn0 = rule_name_spec(def_name_v, 0);
        let rootb = root_body_spec(bfin, def_name_v, rules0, b0.adts, def_type@);
        if suffix_all_var(rules0[0].pats, 0) {
            let rr = name_index(bmid, rn0);
            assert(leaf_args(bmid, TermV::Ref { def_id: rr }, pathv0, rules0[0].pats, 0)
                == (TermV::Ref { def_id: rr }, 0int));
            assert(leaf_body_spec(bmid, rr, pathv0, rules0[0].pats) == (TermV::Ref { def_id: rr }));
            assert(bmid.defs[b0.defs.len() as int].name == rn0);
            assert(book_has_name(bmid, rn0));
            lemma_name_index_stable(bmid, bfin, rn0);
            let w0 = name_index(bmid, rn0);
            assert(0 <= w0 < bmid.defs.len() && bmid.defs[w0].name == rn0);
            assert(rootb == (TermV::Ref { def_id: name_index(bfin, rn0) }));
            assert(seq![
                RuleV {
                    pats: Seq::<PatV>::empty(),
                    body: leaf_body_spec(bmid, name_index(bmid, rn0), pathv0, rules0[0].pats),
                },
            ] =~= seq![RuleV { pats: Seq::empty(), body: rootb }]);
        } else if some_rule_matches(rules0, crnt_v, 0) {
            let i0 = choose|i0: int|
                0 <= i0 < crnt_v.len() && rules0[crnt_v[i0] as int].pats[0] is Ctr;
            assert(pat_wf_at(b0.adts, def_type@[0], rules0[crnt_v[i0] as int].pats[0]));
            assert(def_type@[0] is Adt);
            assert(some_rule_matches(rules0, crate::model::all_indices(rules0.len()), 0));
            assert(rootb == dispatcher_body_spec(
                bfin,
                def_name_v,
                b0.adts[adt_of(def_type@[0])].ctrs,
                Seq::empty(),
            ));
            assert(seq![
                RuleV {
                    pats: Seq::<PatV>::empty(),
                    body: dispatcher_body_spec(
                        bfin,
                        def_name_v,
                        bmid.adts[adt_of(def_type@[0])].ctrs,
                        pathv0,
                    ),
                },
            ] =~= seq![RuleV { pats: Seq::empty(), body: rootb }]);
        } else {
            assert(!some_rule_matches(rules0, crate::model::all_indices(rules0.len()), 0));
            assert(rootb == pass_body_spec(name_index(bfin, pass_name_spec(def_name_v))));
        }
    }
}


impl Book {
    /// Rewrites every definition of the book into a zero-parameter
    /// definition whose body uses only the five term primitives: definitions
    /// with an ADT-typed parameter become Scott-encoded dispatch trees, the
    /// rest have their parameter variables moved into the body as lambdas.
    /// Afterwards every definition holds exactly one rule with an empty
    /// pattern list, so no pattern remains anywhere in the program.
    #[verifier::rlimit(100)]
    pub fn encode_pattern_matching_functions(&mut self, def_types: &Vec<Vec<Type>>)
        requires
            input_wf(old(self)@, tyss_view(def_types@)),
        ensures
            forall|j: int|
                0 <= j < final(self)@.defs.len() ==> single_empty(#[trigger] final(self)@.defs[j]),
            crate::model::program_pattern_free(final(self)@),
            final(self)@.adts == old(self)@.adts,
            final(self)@.defs.len() >= old(self)@.defs.len(),
            forall|j: int|
                0 <= j < old(self)@.defs.len()
                    ==> (#[trigger] final(self)@.defs[j]).name == old(self)@.defs[j].name,
            book_wf(final(self)@),
            forall|j: int|
                0 <= j < old(self)@.defs.len() && !is_matching(#[trigger] tyss_view(def_types@)[j])
                    ==> final(self)@.defs[j] == (DefV {
                    name: old(self)@.defs[j].name,
                    rules: seq![
                        RuleV {
                            pats: Seq::empty(),
                            body: rule_body_spec(
                                old(self)@.defs[j].rules[0].pats,
                                old(self)@.defs[j].rules[0].body,
                            ),
                        },
                    ],
                }),
            forall|j: int, i: int|
                0 <= j < old(self)@.defs.len() && is_matching(tyss_view(def_types@)[j])
                    && 0 <= i < old(self)@.defs[j].rules.len() ==> book_def_named(
                    final(self)@,
                    #[trigger] rule_name_spec(old(self)@.defs[j].name, i as nat),
                    seq![
                        RuleV {
                            pats: Seq::empty(),
                            body: rule_body_spec(
                                old(self)@.defs[j].rules[i].pats,
                                old(self)@.defs[j].rules[i].body,
                            ),
                        },
                    ],
                ),
            forall|j: int|
                0 <= j < old(self)@.defs.len() && is_matching(#[trigger] tyss_view(def_types@)[j])
                    ==> book_def_named(
                    final(self)@,
                    old(self)@.defs[j].name,
                    seq![
                        RuleV {
                            pats: Seq::empty(),
                            body: root_body_spec(
                                final(self)@,
                                old(self)@.defs[j].name,
                                old(self)@.defs[j].rules,
                                old(self)@.adts,
                                tyss_view(def_types@)[j],
                            ),
                        },
                    ],
                ),
    {
        let ghost b0 = self@;
        let ghost tyss = tyss_view(def_types@);
        let n0 = self.defs.len();
        proof {
            assert(b0.defs.len() == n0);
            assert(tyss.len() == def_types@.len());
        }
        let mut d: usize = 0;
        while d < n0
            invariant
                d <= n0,
                input_wf(b0, tyss),
                tyss == tyss_view(def_types@),
                n0 == b0.defs.len(),
                def_types@.len() == n0,
                book_wf(self@),
                self@.adts == b0.adts,
                self@.defs.len() >= n0,
                forall|j: int|
                    0 <= j < n0 ==> (#[trigger] self@.defs[j]).name == b0.defs[j].name,
                forall|j: int| 0 <= j < d ==> single_empty(#[trigger] self@.defs[j]),
                forall|j: int| d <= j < n0 ==> #[trigger] self@.defs[j] == b0.defs[j],
                forall|j: int|
                    n0 <= j < self@.defs.len() ==> single_empty(#[trigger] self@.defs[j]),
                forall|j: int|
                    n0 <= j < self@.defs.len() ==> exists|e: int|
                        0 <= e < d && gen_name_from(b0.defs[e].name, (#[trigger] self@.defs[j]).name)
                            && self@.defs[j].name.len() > b0.defs[e].name.len(),
                forall|j: int|
                    0 <= j < d && !is_matching(#[trigger] tyss[j]) ==> self@.defs[j] == (DefV {
                        name: b0.defs[j].name,
                        rules: seq![
                            RuleV {
                                pats: Seq::empty(),
                                body: rule_body_spec(
                                    b0.defs[j].rules[0].pats,
                                    b0.defs[j].rules[0].body,
                                ),
                            },
                        ],
                    }),
                forall|j: int, i: int|
                    0 <= j < d && is_matching(tyss[j]) && 0 <= i < b0.defs[j].rules.len()
                        ==> book_def_named(
                        self@,
                        #[trigger] rule_name_spec(b0.defs[j].name, i as nat),
                        seq![
                            RuleV {
                                pats: Seq::empty(),
                                body: rule_body_spec(
                                    b0.defs[j].rules[i].pats,
                                    b0.defs[j].rules[i].body,
                                ),
                            },
                        ],
                    ),
                forall|j: int|
                    0 <= j < d && is_matching(#[trigger] tyss[j]) ==> book_def_named(
                        self@,
                        b0.defs[j].name,
                        seq![
                            RuleV {
                                pats: Seq::empty(),
                                body: root_body_spec(
                                    self@,
                                    b0.defs[j].name,
                                    b0.defs[j].rules,
                                    b0.adts,
                                    tyss[j],
                                ),
                            },
                        ],
                    ),
                forall|j: int, c: int|
                    0 <= j < d && is_matching(tyss[j])
                        && !suffix_all_var(b0.defs[j].rules[0].pats, 0)
                        && some_rule_matches(
                        b0.defs[j].rules,
                        crate::model::all_indices(b0.defs[j].rules.len()),
                        0,
                    ) && 0 <= c < b0.adts[adt_of(tyss[j][0])].ctrs.len() ==> book_has_name(
                        self@,
                        #[trigger] branch_name_spec(
                            b0.defs[j].name,
                            b0.adts[adt_of(tyss[j][0])].ctrs[c].nam,
                        ),
                    ),
                forall|j: int|
                    0 <= j < d && is_matching(#[trigger] tyss[j])
                        && !suffix_all_var(b0.defs[j].rules[0].pats, 0)
                        && !some_rule_matches(
                        b0.defs[j].rules,
                        crate::model::all_indices(b0.defs[j].rules.len()),
                        0,
                    ) ==> book_has_single(self@, pass_name_spec(b0.defs[j].name)),
            decreases n0 - d,
        {
            let ghost bpre = self@;
            let ghost name_d = b0.defs[d as int].name;
            let tys: &Vec<Type> = &def_types[d];
            proof {
                assert(tyss[d as int] == tys@);
            }
            let mut matching = false;
            let mut k: usize = 0;
            loop
                invariant_except_break
                    k <= tys@.len(),
                    !matching,
                    forall|k2: int| 0 <= k2 < k ==> !((#[trigger] tys@[k2]) is Adt),
                invariant
                    0 <= (d as int) < def_types@.len(),
                    tys@ == def_types@[d as int]@,
                    tyss == tyss_view(def_types@),
                    tyss[d as int] == tys@,
                ensures
                    matching == is_matching(tyss[d as int]),
                decreases tys@.len() - k,
            {
                if k >= tys.len() {
                    proof {
                        assert(!is_matching(tys@));
                    }
                    break;
                }
                match tys[k] {
                    Type::Adt(_) => {
                        matching = true;
                        proof {
                            assert(tys@[k as int] is Adt);
                        }
                        break;
                    },
                    Type::Any => {
                        k += 1;
                    },
                }
            }
            if matching {
                proof {
                    assert(def_wf(b0, d as int, tyss[d as int]));
                    assert(bpre.defs[d as int] == b0.defs[d as int]);
                    assert(def_wf(bpre, d as int, tys@));
                    assert(covered(
                        bpre.defs[d as int].rules,
                        bpre.adts,
                        tys@,
                        crate::model::all_indices(bpre.defs[d as int].rules.len()),
                        0,
                    ));
                    // no rule-body name is taken yet: originals are '$'-free,
                    // and generated names decode their root definition
                    assert forall|i: int|
                        0 <= i < bpre.defs[d as int].rules.len()
                            implies !book_has_name(
                                bpre,
                                #[trigger] rule_name_spec(bpre.defs[d as int].name, i as nat),
                            ) by {
                        let rn = rule_name_spec(name_d, i as nat);
                        lemma_gen_rule(name_d, i as nat);
                        if book_has_name(bpre, rn) {
                            let w = choose|w: int|
                                0 <= w < bpre.defs.len() && bpre.defs[w].name == rn;
                            if w < n0 {
                                lemma_gen_has_dollar(name_d, rn);
                                assert(dollar_free(b0.defs[w].name));
                            } else {
                                let e = choose|e: int|
                                    0 <= e < d && gen_name_from(
                                        b0.defs[e].name,
                                        bpre.defs[w].name,
                                    ) && bpre.defs[w].name.len() > b0.defs[e].name.len();
                                lemma_dollar_free_gen_eq(b0.defs[e].name, name_d, rn);
                                assert(b0.defs[e].name == name_d);
                            }
                        }
                    }
                }
                make_pattern_matching_def(self, d, tys);
                proof {
                    let bnow = self@;
                    assert(book_evolves(bpre, bnow, name_d));
                    assert forall|j: int| d as int + 1 <= j < n0
                        implies #[trigger] bnow.defs[j] == b0.defs[j] by {
                        if bnow.defs[j] != bpre.defs[j] {
                            assert(gen_name_from(name_d, bnow.defs[j].name));
                            assert(bnow.defs[j].name == b0.defs[j].name);
                            assert(dollar_free(b0.defs[j].name));
                            if b0.defs[j].name.len() > name_d.len() {
                                lemma_gen_has_dollar(name_d, b0.defs[j].name);
                            } else {
                                assert(b0.defs[j].name =~= name_d);
                            }
                        }
                    }
                    assert forall|j: int|
                        n0 <= j < bnow.defs.len() implies exists|e: int|
                            0 <= e < d as int + 1 && gen_name_from(
                                b0.defs[e].name,
                                (#[trigger] bnow.defs[j]).name,
                            ) && bnow.defs[j].name.len() > b0.defs[e].name.len() by {
                        if j < bpre.defs.len() {
                            let e = choose|e: int|
                                0 <= e < d && gen_name_from(b0.defs[e].name, bpre.defs[j].name)
                                    && bpre.defs[j].name.len() > b0.defs[e].name.len();
                            assert(bnow.defs[j].name == bpre.defs[j].name);
                            assert(0 <= e < (d as int) + 1 && gen_name_from(
                                b0.defs[e].name,
                                bnow.defs[j].name,
                            ) && bnow.defs[j].name.len() > b0.defs[e].name.len());
                        } else {
                            assert(gen_name_from(name_d, bnow.defs[j].name));
                            assert(bnow.defs[d as int].name == name_d);
                            if bnow.defs[j].name.len() == name_d.len() {
                                assert(bnow.defs[j].name =~= name_d);
                                assert(names_unique(bnow));
                                assert(false);
                            }
                            assert(gen_name_from(b0.defs[d as int].name, bnow.defs[j].name));
                            assert(bnow.defs[j].name.len() > b0.defs[d as int].name.len());
                        }
                    }
                    // definitions compiled in earlier iterations survive this
                    // one untouched: their names cannot be generated below
                    // this definition's name
                    let dd = d as int;
                    assert(bpre.defs[dd] == b0.defs[dd]);
                    assert(tyss[dd] == tys@);
                    assert forall|j: int| 0 <= j < dd
                        implies bnow.defs[j] == bpre.defs[j] by {
                        if bnow.defs[j] != bpre.defs[j] {
                            assert(gen_name_from(name_d, bnow.defs[j].name));
                            assert(bnow.defs[j].name == b0.defs[j].name);
                            assert(dollar_free(b0.defs[j].name));
                            if b0.defs[j].name.len() > name_d.len() {
                                lemma_gen_has_dollar(name_d, b0.defs[j].name);
                            } else {
                                assert(b0.defs[j].name =~= name_d);
                                assert(b0.defs[j].name != b0.defs[dd].name);
                            }
                        }
                    }
                    assert forall|j: int, i: int|
                        0 <= j < dd && is_matching(tyss[j]) && 0 <= i < b0.defs[j].rules.len()
                            implies book_def_named(
                            bnow,
                            #[trigger] rule_name_spec(b0.defs[j].name, i as nat),
                            seq![
                                RuleV {
                                    pats: Seq::empty(),
                                    body: rule_body_spec(
                                        b0.defs[j].rules[i].pats,
                                        b0.defs[j].rules[i].body,
                                    ),
                                },
                            ],
                        ) by {
                        let rn = rule_name_spec(b0.defs[j].name, i as nat);
                        let rl = seq![
                            RuleV {
                                pats: Seq::<PatV>::empty(),
                                body: rule_body_spec(
                                    b0.defs[j].rules[i].pats,
                                    b0.defs[j].rules[i].body,
                                ),
                            },
                        ];
                        let w = choose|w: int|
                            0 <= w < bpre.defs.len() && bpre.defs[w] == (DefV { name: rn, rules: rl });
                        lemma_gen_rule(b0.defs[j].name, i as nat);
                        if bnow.defs[w] != bpre.defs[w] {
                            assert(gen_name_from(name_d, bnow.defs[w].name));
                            assert(bnow.defs[w].name == rn);
                            if rn.len() == name_d.len() {
                                assert(rn =~= name_d);
                                lemma_gen_has_dollar(b0.defs[j].name, rn);
                            } else {
                                lemma_dollar_free_gen_eq(name_d, b0.defs[j].name, rn);
                                assert(b0.defs[j].name != b0.defs[dd].name);
                            }
                        }
                        assert(bnow.defs[w] == (DefV { name: rn, rules: rl }));
                    }
                    assert forall|j: int| 0 <= j < dd && is_matching(#[trigger] tyss[j])
                        implies book_def_named(
                            bnow,
                            b0.defs[j].name,
                            seq![
                                RuleV {
                                    pats: Seq::empty(),
                                    body: root_body_spec(
                                        bnow,
                                        b0.defs[j].name,
                                        b0.defs[j].rules,
                                        b0.adts,
                                        tyss[j],
                                    ),
                                },
                            ],
                        ) by {
                        let nj = b0.defs[j].name;
                        let rlp = seq![
                            RuleV {
                                pats: Seq::<PatV>::empty(),
                                body: root_body_spec(bpre, nj, b0.defs[j].rules, b0.adts, tyss[j]),
                            },
                        ];
                        let w = choose|w: int|
                            0 <= w < bpre.defs.len() && bpre.defs[w] == (DefV { name: nj, rules: rlp });
                        if bnow.defs[w] != bpre.defs[w] {
                            assert(gen_name_from(name_d, bnow.defs[w].name));
                            assert(bnow.defs[w].name == nj);
                            assert(dollar_free(nj));
                            if nj.len() > name_d.len() {
                                lemma_gen_has_dollar(name_d, nj);
                            } else {
                                assert(nj =~= name_d);
                                assert(b0.defs[j].name != b0.defs[dd].name);
                            }
                        }
                        if !suffix_all_var(b0.defs[j].rules[0].pats, 0) && some_rule_matches(
                            b0.defs[j].rules,
                            crate::model::all_indices(b0.defs[j].rules.len()),
                            0,
                        ) {
                            let ai = crate::model::all_indices(b0.defs[j].rules.len());
                            let i0 = choose|i0: int|
                                0 <= i0 < ai.len() && b0.defs[j].rules[ai[i0] as int].pats[0] is Ctr;
                            assert(def_wf(b0, j, tyss[j]));
                            assert(pat_wf_at(b0.adts, tyss[j][0], b0.defs[j].rules[ai[i0] as int].pats[0]));
                            assert(tyss[j][0] is Adt);
                        }
                        if suffix_all_var(b0.defs[j].rules[0].pats, 0) {
                            let zi: int = 0;
                            let rl0 = seq![
                                RuleV {
                                    pats: Seq::<PatV>::empty(),
                                    body: rule_body_spec(
                                        b0.defs[j].rules[0].pats,
                                        b0.defs[j].rules[0].body,
                                    ),
                                },
                            ];
                            assert(book_def_named(bpre, rule_name_spec(b0.defs[j].name, zi as nat), rl0));
                            let w2 = choose|w2: int|
                                0 <= w2 < bpre.defs.len() && bpre.defs[w2] == (DefV {
                                    name: rule_name_spec(b0.defs[j].name, zi as nat),
                                    rules: rl0,
                                });
                            assert(bpre.defs[w2].name == rule_name_spec(nj, 0));
                            assert(book_has_name(bpre, rule_name_spec(nj, 0)));
                        }
                        if !suffix_all_var(b0.defs[j].rules[0].pats, 0) && !some_rule_matches(
                            b0.defs[j].rules,
                            crate::model::all_indices(b0.defs[j].rules.len()),
                            0,
                        ) {
                            let w3 = choose|w3: int|
                                0 <= w3 < bpre.defs.len()
                                    && bpre.defs[w3].name == pass_name_spec(nj)
                                    && single_empty(#[trigger] bpre.defs[w3]);
                            assert(book_has_name(bpre, pass_name_spec(nj)));
                        }
                        lemma_root_body_stable(bpre, bnow, nj, b0.defs[j].rules, b0.adts, tyss[j]);
                        assert(rlp =~= seq![
                            RuleV {
                                pats: Seq::empty(),
                                body: root_body_spec(bnow, nj, b0.defs[j].rules, b0.adts, tyss[j]),
                            },
                        ]);
                        assert(bnow.defs[w] == (DefV { name: nj, rules: rlp }));
                    }
                    assert forall|j: int, c: int|
                        0 <= j < dd && is_matching(tyss[j])
                            && !suffix_all_var(b0.defs[j].rules[0].pats, 0)
                            && some_rule_matches(
                            b0.defs[j].rules,
                            crate::model::all_indices(b0.defs[j].rules.len()),
                            0,
                        ) && 0 <= c < b0.adts[adt_of(tyss[j][0])].ctrs.len() implies book_has_name(
                            bnow,
                            #[trigger] branch_name_spec(
                                b0.defs[j].name,
                                b0.adts[adt_of(tyss[j][0])].ctrs[c].nam,
                            ),
                        ) by {
                        lemma_evolve_has_name(
                            bpre,
                            bnow,
                            name_d,
                            branch_name_spec(b0.defs[j].name, b0.adts[adt_of(tyss[j][0])].ctrs[c].nam),
                        );
                    }
                    assert forall|j: int|
                        0 <= j < dd && is_matching(#[trigger] tyss[j])
                            && !suffix_all_var(b0.defs[j].rules[0].pats, 0)
                            && !some_rule_matches(
                            b0.defs[j].rules,
                            crate::model::all_indices(b0.defs[j].rules.len()),
                            0,
                        ) implies book_has_single(bnow, pass_name_spec(b0.defs[j].name)) by {
                        lemma_evolve_has_single(bpre, bnow, name_d, pass_name_spec(b0.defs[j].name));
                    }
                }
            } else {
                proof {
                    assert(bpre.defs[d as int] == b0.defs[d as int]);
                    assert(bpre.defs[d as int].rules.len() == 1);
                    assert(def_wf(b0, d as int, tyss[d as int]));
                    assert forall|k2: int|
                        0 <= k2 < bpre.defs[d as int].rules[0].pats.len()
                            implies (#[trigger] bpre.defs[d as int].rules[0].pats[k2]) is Var by {
                        assert(pat_wf_at(b0.adts, tyss[d as int][k2], b0.defs[d as int].rules[0].pats[k2]));
                        match b0.defs[d as int].rules[0].pats[k2] {
                            PatV::Var { .. } => {},
                            PatV::Ctr { .. } => {
                                match tyss[d as int][k2] {
                                    Type::Any => {},
                                    Type::Adt(t) => {
                                        assert(tyss[d as int][k2] is Adt);
                                        assert(is_matching(tyss[d as int]));
                                    },
                                }
                            },
                        }
                    }
                }
                make_non_pattern_matching_def(self, d);
                proof {
                    let bnow = self@;
                    assert(bnow.defs =~= bpre.defs.update(
                        d as int,
                        DefV {
                            name: bpre.defs[d as int].name,
                            rules: seq![
                                RuleV {
                                    pats: Seq::empty(),
                                    body: rule_body_spec(
                                        bpre.defs[d as int].rules[0].pats,
                                        bpre.defs[d as int].rules[0].body,
                                    ),
                                },
                            ],
                        },
                    ));
                    assert(single_empty(bnow.defs[d as int]));
                    assert forall|i1: int, j1: int|
                        0 <= i1 < j1 < bnow.defs.len()
                            implies bnow.defs[i1].name != bnow.defs[j1].name by {
                        assert(bnow.defs[i1].name == bpre.defs[i1].name);
                        assert(bnow.defs[j1].name == bpre.defs[j1].name);
                    }
                    assert forall|t: int, c: int|
                        0 <= t < bnow.adts.len() && 0 <= c < bnow.adts[t].ctrs.len()
                            implies book_has_name(bnow, bnow.adts[t].ctrs[c].nam) by {
                        assert(book_has_name(bpre, bpre.adts[t].ctrs[c].nam));
                        let w = choose|w: int|
                            0 <= w < bpre.defs.len()
                                && bpre.defs[w].name == bpre.adts[t].ctrs[c].nam;
                        assert(bnow.defs[w].name == bpre.adts[t].ctrs[c].nam);
                    }
                    // only the one definition changed, so everything already
                    // compiled stands as it was
                    let dd = d as int;
                    assert(bpre.defs[dd] == b0.defs[dd]);
                    assert(bnow.defs[dd] == (DefV {
                        name: b0.defs[dd].name,
                        rules: seq![
                            RuleV {
                                pats: Seq::empty(),
                                body: rule_body_spec(
                                    b0.defs[dd].rules[0].pats,
                                    b0.defs[dd].rules[0].body,
                                ),
                            },
                        ],
                    }));
                    assert forall|j: int| 0 <= j < bpre.defs.len() && j != dd
                        implies bnow.defs[j] == bpre.defs[j] by {}
                    assert forall|j: int, i: int|
                        0 <= j < dd && is_matching(tyss[j]) && 0 <= i < b0.defs[j].rules.len()
                            implies book_def_named(
                            bnow,
                            #[trigger] rule_name_spec(b0.defs[j].name, i as nat),
                            seq![
                                RuleV {
                                    pats: Seq::empty(),
                                    body: rule_body_spec(
                                        b0.defs[j].rules[i].pats,
                                        b0.defs[j].rules[i].body,
                                    ),
                                },
                            ],
                        ) by {
                        let rn = rule_name_spec(b0.defs[j].name, i as nat);
                        let rl = seq![
                            RuleV {
                                pats: Seq::<PatV>::empty(),
                                body: rule_body_spec(
                                    b0.defs[j].rules[i].pats,
                                    b0.defs[j].rules[i].body,
                                ),
                            },
                        ];
                        let w = choose|w: int|
                            0 <= w < bpre.defs.len() && bpre.defs[w] == (DefV { name: rn, rules: rl });
                        lemma_gen_rule(b0.defs[j].name, i as nat);
                        if w == dd {
                            lemma_gen_has_dollar(b0.defs[j].name, rn);
                            assert(dollar_free(b0.defs[dd].name));
                        }
                        assert(bnow.defs[w] == (DefV { name: rn, rules: rl }));
                    }
                    assert forall|j: int| 0 <= j < dd && is_matching(#[trigger] tyss[j])
                        implies book_def_named(
                            bnow,
                            b0.defs[j].name,
                            seq![
                                RuleV {
                                    pats: Seq::empty(),
                                    body: root_body_spec(
                                        bnow,
                                        b0.defs[j].name,
                                        b0.defs[j].rules,
                                        b0.adts,
                                        tyss[j],
                                    ),
                                },
                            ],
                        ) by {
                        let nj = b0.defs[j].name;
                        let rlp = seq![
                            RuleV {
                                pats: Seq::<PatV>::empty(),
                                body: root_body_spec(bpre, nj, b0.defs[j].rules, b0.adts, tyss[j]),
                            },
                        ];
                        let w = choose|w: int|
                            0 <= w < bpre.defs.len() && bpre.defs[w] == (DefV { name: nj, rules: rlp });
                        if w == dd {
                            assert(b0.defs[j].name != b0.defs[dd].name);
                        }
                        if !suffix_all_var(b0.defs[j].rules[0].pats, 0) && some_rule_matches(
                            b0.defs[j].rules,
                            crate::model::all_indices(b0.defs[j].rules.len()),
                            0,
                        ) {
                            let ai = crate::model::all_indices(b0.defs[j].rules.len());
                            let i0 = choose|i0: int|
                                0 <= i0 < ai.len() && b0.defs[j].rules[ai[i0] as int].pats[0] is Ctr;
                            assert(def_wf(b0, j, tyss[j]));
                            assert(pat_wf_at(b0.adts, tyss[j][0], b0.defs[j].rules[ai[i0] as int].pats[0]));
                            assert(tyss[j][0] is Adt);
                        }
                        if suffix_all_var(b0.defs[j].rules[0].pats, 0) {
                            let zi: int = 0;
                            let rl0 = seq![
                                RuleV {
                                    pats: Seq::<PatV>::empty(),
                                    body: rule_body_spec(
                                        b0.defs[j].rules[0].pats,
                                        b0.defs[j].rules[0].body,
                                    ),
                                },
                            ];
                            assert(book_def_named(bpre, rule_name_spec(b0.defs[j].name, zi as nat), rl0));
                            let w2 = choose|w2: int|
                                0 <= w2 < bpre.defs.len() && bpre.defs[w2] == (DefV {
                                    name: rule_name_spec(b0.defs[j].name, zi as nat),
                                    rules: rl0,
                                });
                            assert(bpre.defs[w2].name == rule_name_spec(nj, 0));
                            assert(book_has_name(bpre, rule_name_spec(nj, 0)));
                        }
                        if !suffix_all_var(b0.defs[j].rules[0].pats, 0) && !some_rule_matches(
                            b0.defs[j].rules,
                            crate::model::all_indices(b0.defs[j].rules.len()),
                            0,
                        ) {
                            let w3 = choose|w3: int|
                                0 <= w3 < bpre.defs.len()
                                    && bpre.defs[w3].name == pass_name_spec(nj)
                                    && single_empty(#[trigger] bpre.defs[w3]);
                            assert(book_has_name(bpre, pass_name_spec(nj)));
                        }
                        lemma_root_body_stable(bpre, bnow, nj, b0.defs[j].rules, b0.adts, tyss[j]);
                        assert(rlp =~= seq![
                            RuleV {
                                pats: Seq::empty(),
                                body: root_body_spec(bnow, nj, b0.defs[j].rules, b0.adts, tyss[j]),
                            },
                        ]);
                        assert(bnow.defs[w] == (DefV { name: nj, rules: rlp }));
                    }
                    assert forall|j: int, c: int|
                        0 <= j < dd && is_matching(tyss[j])
                            && !suffix_all_var(b0.defs[j].rules[0].pats, 0)
                            && some_rule_matches(
                            b0.defs[j].rules,
                            crate::model::all_indices(b0.defs[j].rules.len()),
                            0,
                        ) && 0 <= c < b0.adts[adt_of(tyss[j][0])].ctrs.len() implies book_has_name(
                            bnow,
                            #[trigger] branch_name_spec(
                                b0.defs[j].name,
                                b0.adts[adt_of(tyss[j][0])].ctrs[c].nam,
                            ),
                        ) by {
                        let n3 = branch_name_spec(
                            b0.defs[j].name,
                            b0.adts[adt_of(tyss[j][0])].ctrs[c].nam,
                        );
                        let w = choose|w: int| 0 <= w < bpre.defs.len() && bpre.defs[w].name == n3;
                        assert(bnow.defs[w].name == n3);
                    }
                    assert forall|j: int|
                        0 <= j < dd && is_matching(#[trigger] tyss[j])
                            && !suffix_all_var(b0.defs[j].rules[0].pats, 0)
                            && !some_rule_matches(
                            b0.defs[j].rules,
                            crate::model::all_indices(b0.defs[j].rules.len()),
                            0,
                        ) implies book_has_single(bnow, pass_name_spec(b0.defs[j].name)) by {
                        let w = choose|w: int|
                            0 <= w < bpre.defs.len()
                                && bpre.defs[w].name == pass_name_spec(b0.defs[j].name)
                                && single_empty(#[trigger] bpre.defs[w]);
                        if w == dd {
                            lemma_gen_pass(b0.defs[j].name);
                            lemma_gen_has_dollar(b0.defs[j].name, pass_name_spec(b0.defs[j].name));
                            assert(dollar_free(b0.defs[dd].name));
                        }
                        assert(bnow.defs[w].name == pass_name_spec(b0.defs[j].name));
                        assert(single_empty(bnow.defs[w]));
                    }
                }
            }
            d += 1;
        }
    }
}

/// The one-character scrutinee variable name.
fn name_x() -> (r: Name)
    ensures
        r@ == seq!['x'],
{
    let mut v: Name = Vec::new();
    v.push('x');
    proof {
        assert(v@ =~= seq!['x']);
    }
    v
}

/// The continuation parameter name of a pass-through sub-function.
fn name_nxt() -> (r: Name)
    ensures
        r@ == seq!['n', 'x', 't'],
{
    let mut v: Name = Vec::new();
    v.push('n');
    v.push('x');
    v.push('t');
    proof {
        assert(v@ =~= seq!['n', 'x', 't']);
    }
    v
}

/// A parameter position that does not discriminate among the live rules:
/// defer the decision, then install a two-parameter forwarder that applies
/// the next sub-function to the continuation before the deferred argument.
pub fn make_non_pattern_matching_case(
    book: &mut Book,
    def_type: &Vec<Type>,
    def_id: usize,
    crnt_name: &Name,
    crnt_rules: Vec<usize>,
    match_path: Vec<RulePat>,
)
    requires
        driver_pre(old(book)@, def_type@, def_id as int, crnt_name@, crnt_rules@, pats_view(match_path@)),
        pats_view(match_path@).len() < def_type@.len(),
        !suffix_all_var(
            old(book)@.defs[def_id as int].rules[crnt_rules@[0] as int].pats,
            pats_view(match_path@).len() as int,
        ),
        !some_rule_matches(
            old(book)@.defs[def_id as int].rules,
            crnt_rules@,
            pats_view(match_path@).len() as int,
        ),
    ensures
        book_evolves(old(book)@, final(book)@, crnt_name@),
        book_evolves_below(old(book)@, final(book)@, crnt_name@),
        book_wf(final(book)@),
        book_has_single(final(book)@, crnt_name@),
        book_has_single(final(book)@, pass_name_spec(crnt_name@)),
        book_def_named(
            final(book)@,
            crnt_name@,
            seq![
                RuleV {
                    pats: Seq::empty(),
                    body: pass_body_spec(name_index(final(book)@, pass_name_spec(crnt_name@))),
                },
            ],
        ),
    decreases def_type@.len() - match_path@.len(), 0int,
{
    let ghost b0 = book@;
    let ghost pathv = pats_view(match_path@);
    let ghost rules = b0.defs[def_id as int].rules;
    let ghost k = pathv.len() as int;
    let nxt_name = make_pass_name(crnt_name);
    let mut path2 = match_path;
    let xn = name_x();
    path2.push(RulePat::Var { nam: xn });
    let ghost pathv2 = pats_view(path2@);
    proof {
        assert(pathv2 =~= pathv.push(PatV::Var { nam: seq!['x'] }));
        // the extended path is well formed and keeps the variable discipline
        assert forall|k2: int| 0 <= k2 < pathv2.len()
            implies pat_wf_at(b0.adts, def_type@[k2], pathv2[k2]) by {
            if k2 < k {
                assert(pat_wf_at(b0.adts, def_type@[k2], pathv[k2]));
            }
        }
        assert forall|i: int, k2: int|
            0 <= i < crnt_rules@.len() && 0 <= k2 < pathv2.len() && pathv2[k2] is Var
                implies rules[crnt_rules@[i] as int].pats[k2] is Var by {
            if k2 < k {
                assert(live_var_discipline(rules, crnt_rules@, pathv));
            } else {
                match rules[crnt_rules@[i] as int].pats[k] {
                    PatV::Var { .. } => {},
                    PatV::Ctr { .. } => {
                        assert(some_rule_matches(rules, crnt_rules@, k));
                    },
                }
            }
        }
        // coverage steps to the next position
        assert(covered(rules, b0.adts, def_type@, crnt_rules@, k + 1));
        // the generated name stays below the definition's name
        lemma_gen_pass(crnt_name@);
        lemma_gen_name_trans(b0.defs[def_id as int].name, crnt_name@, nxt_name@);
        // the variable budget still holds
        assert(pathv2.drop_last() =~= pathv);
        assert(path_var_count(pathv2) == path_var_count(pathv) + 1);
        assert(future_budget(def_type@, b0.adts, k)
            >= 1 + future_budget(def_type@, b0.adts, k + 1)) by {
            match def_type@[k] {
                Type::Any => {},
                Type::Adt(t) => {},
            }
        }
        assert(driver_pre(b0, def_type@, def_id as int, nxt_name@, crnt_rules@, pathv2));
    }
    make_pattern_matching_case(book, def_type, def_id, &nxt_name, crnt_rules, path2);
    let ghost b1 = book@;
    let nxt_id = match book.def_id_of(&nxt_name) {
        Option::Some(i) => i,
        Option::None => {
            proof {
                let w = choose|w: int|
                    0 <= w < b1.defs.len() && b1.defs[w].name == nxt_name@
                        && single_empty(b1.defs[w]);
                assert(b1.defs[w].name == nxt_name@);
            }
            vstd::pervasive::unreached()
        },
    };
    let term = Term::Lam {
        nam: Option::Some(name_x()),
        bod: Box::new(Term::Lam {
            nam: Option::Some(name_nxt()),
            bod: Box::new(Term::App {
                fun: Box::new(Term::App {
                    fun: Box::new(Term::Ref { def_id: nxt_id }),
                    arg: Box::new(Term::Var { nam: name_nxt() }),
                }),
                arg: Box::new(Term::Var { nam: name_x() }),
            }),
        }),
    };
    let ghost tv0 = term@;
    let nam2 = clone_name(crnt_name);
    add_case_to_book(book, nam2, term);
    proof {
        lemma_gen_pass(crnt_name@);
        lemma_evolve_weaken(b0, b1, nxt_name@, crnt_name@);
        lemma_evolve_trans(b0, b1, book@, crnt_name@);
        lemma_evolve_preserves_resolve(b0, book@, crnt_name@);
        lemma_gen_below_pass(crnt_name@);
        lemma_evolves_below_weaken(b0, b1, nxt_name@, crnt_name@);
        lemma_evolves_below_trans(b0, b1, book@, crnt_name@);
        lemma_evolve_has_single(b1, book@, crnt_name@, nxt_name@);
        // the installed body is exactly the forwarder, and the reference in
        // it is the (unique) definition carrying the next sub-function's name
        let bf = book@;
        assert(tv0 == pass_body_spec(nxt_id as int)) by {
            reveal_with_fuel(crate::ast::term_view, 8);
        }
        assert(bf.defs[nxt_id as int].name == nxt_name@);
        assert(book_has_name(bf, pass_name_spec(crnt_name@)));
        let w = name_index(bf, pass_name_spec(crnt_name@));
        assert(0 <= w < bf.defs.len() && bf.defs[w].name == pass_name_spec(crnt_name@));
        assert(w == nxt_id as int) by {
            if w < nxt_id as int {
                assert(bf.defs[w].name != bf.defs[nxt_id as int].name);
            } else if w > nxt_id as int {
                assert(bf.defs[nxt_id as int].name != bf.defs[w].name);
            }
        }
        assert(seq![RuleV { pats: Seq::<PatV>::empty(), body: tv0 }]
            =~= seq![RuleV { pats: Seq::empty(), body: pass_body_spec(w) }]);
    }
}

/// A parameter position some live rule matches on: one sub-function per
/// constructor of the parameter's ADT is compiled recursively, then the
/// dispatcher applies the Scott-encoded scrutinee to a reference to each of
/// them in declaration order, re-applies the committed path arguments, and
/// wraps everything in lambdas with the scrutinee outermost.
pub fn make_branch_pattern_matching_case(
    book: &mut Book,
    def_type: &Vec<Type>,
    def_id: usize,
    crnt_name: &Name,
    crnt_rules: Vec<usize>,
    match_path: Vec<RulePat>,
)
    requires
        driver_pre(old(book)@, def_type@, def_id as int, crnt_name@, crnt_rules@, pats_view(match_path@)),
        pats_view(match_path@).len() < def_type@.len(),
        !suffix_all_var(
            old(book)@.defs[def_id as int].rules[crnt_rules@[0] as int].pats,
            pats_view(match_path@).len() as int,
        ),
        some_rule_matches(
            old(book)@.defs[def_id as int].rules,
            crnt_rules@,
            pats_view(match_path@).len() as int,
        ),
    ensures
        book_evolves(old(book)@, final(book)@, crnt_name@),
        book_evolves_below(old(book)@, final(book)@, crnt_name@),
        book_wf(final(book)@),
        book_has_single(final(book)@, crnt_name@),
        def_type@[pats_view(match_path@).len() as int] is Adt ==> forall|c: int|
            0 <= c < old(book)@.adts[adt_of(def_type@[pats_view(match_path@).len() as int])].ctrs.len()
                ==> book_has_name(
                    final(book)@,
                    branch_name_spec(
                        crnt_name@,
                        old(book)@.adts[adt_of(def_type@[pats_view(match_path@).len() as int])]
                            .ctrs[c].nam,
                    ),
                ),
        book_def_named(
            final(book)@,
            crnt_name@,
            seq![
                RuleV {
                    pats: Seq::empty(),
                    body: dispatcher_body_spec(
                        final(book)@,
                        crnt_name@,
                        old(book)@.adts[adt_of(def_type@[pats_view(match_path@).len() as int])].ctrs,
                        pats_view(match_path@),
                    ),
                },
            ],
        ),
    decreases def_type@.len() - match_path@.len(), 0int,
{
    let ghost b0 = book@;
    let ghost pathv = pats_view(match_path@);
    let ghost rules = b0.defs[def_id as int].rules;
    let ghost k = pathv.len() as int;
    let kx = match_path.len();
    let t = match def_type[kx] {
        Type::Adt(t) => t,
        Type::Any => {
            proof {
                assert(covered(rules, b0.adts, def_type@, crnt_rules@, k));
                assert(false);
            }
            vstd::pervasive::unreached()
        },
    };
    let ghost ctrs = b0.adts[t as int].ctrs;
    proof {
        assert(covered(rules, b0.adts, def_type@, crnt_rules@, k));
        assert((t as int) < b0.adts.len());
        assert(book@.adts[t as int] == adt_view(book.adts@[t as int]));
    }
    let n_ctrs = book.adts[t].ctrs.len();
    let mut c: usize = 0;
    while c < n_ctrs
        invariant
            c <= n_ctrs,
            driver_pre(b0, def_type@, def_id as int, crnt_name@, crnt_rules@, pathv),
            pathv == pats_view(match_path@),
            rules == b0.defs[def_id as int].rules,
            k == pathv.len() as int,
            k == kx as int,
            k < def_type@.len(),
            def_type@[k] == Type::Adt(t),
            (t as int) < b0.adts.len(),
            ctrs == b0.adts[t as int].ctrs,
            n_ctrs == ctrs.len(),
            covered(rules, b0.adts, def_type@, crnt_rules@, k),
            !suffix_all_var(rules[crnt_rules@[0] as int].pats, k),
            some_rule_matches(rules, crnt_rules@, k),
            book_evolves(b0, book@, crnt_name@),
            book_evolves_below(b0, book@, crnt_name@),
            book_wf(book@),
            book@.defs[def_id as int] == b0.defs[def_id as int],
            book@.adts == b0.adts,
            forall|c2: int|
                0 <= c2 < c ==> book_has_name(book@, branch_name_spec(crnt_name@, ctrs[c2].nam)),
        decreases n_ctrs - c,
    {
        let ghost bpre = book@;
        let ctr_name = clone_name(&book.adts[t].ctrs[c].nam);
        let ctr_arity = book.adts[t].ctrs[c].arity;
        proof {
            crate::ast::lemma_book_ctr_index(*book, t as int, c as int);
            assert(ctr_name@ == ctrs[c as int].nam);
            assert(ctr_arity as nat == ctrs[c as int].arity);
        }
        let sub_name = make_branch_name(crnt_name, &ctr_name);
        // the rules that survive committing this position to this constructor
        let mut sub_rules: Vec<usize> = Vec::new();
        let mut i: usize = 0;
        proof {
            assert(crnt_rules@.take(0) =~= Seq::<usize>::empty());
        }
        while i < crnt_rules.len()
            invariant
                i <= crnt_rules@.len(),
                sub_rules@ == filter_live(rules, crnt_rules@.take(i as int), k, ctr_name@),
                rules == b0.defs[def_id as int].rules,
                book@ == bpre,
                0 <= (def_id as int) < b0.defs.len(),
                book@.defs.len() >= b0.defs.len(),
                book@.defs[def_id as int] == b0.defs[def_id as int],
                k == kx as int,
                k < def_type@.len(),
                forall|i2: int|
                    0 <= i2 < crnt_rules@.len() ==> (crnt_rules@[i2] as int) < rules.len(),
                forall|r: int| 0 <= r < rules.len() ==> rules[r].pats.len() == def_type@.len(),
            decreases crnt_rules@.len() - i,
        {
            let r = crnt_rules[i];
            proof {
                assert(crnt_rules@.take(i as int + 1).drop_last() =~= crnt_rules@.take(i as int));
                assert(crnt_rules@.take(i as int + 1).last() == crnt_rules@[i as int]);
                crate::ast::lemma_book_pat_index(*book, def_id as int, r as int, k);
            }
            match &book.defs[def_id].rules[r].pats[kx] {
                RulePat::Var { .. } => {
                    proof {
                        assert(rule_keeps(rules, r as int, k, ctr_name@));
                    }
                    sub_rules.push(r);
                },
                RulePat::Ctr { nam, .. } => {
                    if name_eq(nam, &ctr_name) {
                        proof {
                            assert(pv_name(rules[r as int].pats[k]) == ctr_name@);
                            assert(rule_keeps(rules, r as int, k, ctr_name@));
                        }
                        sub_rules.push(r);
                    } else {
                        proof {
                            assert(pv_name(rules[r as int].pats[k]) == nam@);
                            assert(!rule_keeps(rules, r as int, k, ctr_name@));
                        }
                    }
                },
            }
            i += 1;
        }
        proof {
            assert(crnt_rules@.take(crnt_rules@.len() as int) =~= crnt_rules@);
        }
        // one fresh placeholder variable per field
        let mut pargs: Vec<RulePat> = Vec::new();
        while pargs.len() < ctr_arity
            invariant
                pargs@.len() <= ctr_arity,
                forall|j2: int|
                    0 <= j2 < pargs@.len()
                        ==> (#[trigger] pargs@[j2])@ == (PatV::Var { nam: Seq::<char>::empty() }),
            decreases ctr_arity - pargs.len(),
        {
            let en: Name = Vec::new();
            pargs.push(RulePat::Var { nam: en });
        }
        proof {
            assert forall|k2: int| 0 <= k2 < match_path@.len()
                implies pat_args_var((#[trigger] match_path@[k2])@) by {
                assert(pathv[k2] == match_path@[k2]@);
                assert(pat_wf_at(b0.adts, def_type@[k2], pathv[k2]));
                match pathv[k2] {
                    PatV::Var { .. } => {},
                    PatV::Ctr { .. } => {},
                }
            }
        }
        let mut sub_path = clone_pats(&match_path);
        let ghost newpat = PatV::Ctr {
            nam: ctrs[c as int].nam,
            args: Seq::new(ctrs[c as int].arity, |j2: int| PatV::Var { nam: Seq::<char>::empty() }),
        };
        sub_path.push(RulePat::Ctr { nam: ctr_name, args: pargs });
        let ghost pathv2 = pats_view(sub_path@);
        proof {
            assert(sub_path@.last()@ is Ctr);
            assert(pv_name(sub_path@.last()@) == ctrs[c as int].nam);
            assert(pv_args(sub_path@.last()@) =~= newpat->Ctr_args);
            assert(sub_path@.last()@ =~= newpat);
            assert(pathv2 =~= pathv.push(newpat));
            // driver precondition for the sub-function
            assert(def_wf(book@, def_id as int, def_type@));
            lemma_filter_live_subset(rules, crnt_rules@, k, ctr_name@);
            assert forall|j2: int| 0 <= j2 < sub_rules@.len()
                implies (sub_rules@[j2] as int) < book@.defs[def_id as int].rules.len() by {
                let w = choose|w: int|
                    0 <= w < crnt_rules@.len() && crnt_rules@[w] == sub_rules@[j2];
            }
            assert forall|k2: int| 0 <= k2 < pathv2.len()
                implies pat_wf_at(book@.adts, def_type@[k2], pathv2[k2]) by {
                if k2 < k {
                    assert(pat_wf_at(b0.adts, def_type@[k2], pathv[k2]));
                } else {
                    assert(ctrs[c as int].nam == b0.adts[t as int].ctrs[c as int].nam);
                }
            }
            assert forall|i2: int, k2: int|
                0 <= i2 < sub_rules@.len() && 0 <= k2 < pathv2.len() && pathv2[k2] is Var
                    implies rules[sub_rules@[i2] as int].pats[k2] is Var by {
                let w = choose|w: int|
                    0 <= w < crnt_rules@.len() && crnt_rules@[w] == sub_rules@[i2];
                assert(live_var_discipline(rules, crnt_rules@, pathv));
                assert(k2 < k);
                assert(rules[crnt_rules@[w] as int].pats[k2] is Var);
            }
            assert(covered(rules, b0.adts, def_type@, sub_rules@, k + 1));
            assert forall|i2: int| 0 <= i2 < sub_rules@.len()
                implies book_has_name(
                    book@,
                    rule_name_spec(book@.defs[def_id as int].name, sub_rules@[i2] as nat),
                ) by {
                let w = choose|w: int|
                    0 <= w < crnt_rules@.len() && crnt_rules@[w] == sub_rules@[i2];
                assert(book_has_name(b0, rule_name_spec(b0.defs[def_id as int].name, crnt_rules@[w] as nat)));
                lemma_evolve_has_name(
                    b0,
                    book@,
                    crnt_name@,
                    rule_name_spec(b0.defs[def_id as int].name, crnt_rules@[w] as nat),
                );
            }
            lemma_gen_branch(crnt_name@, ctr_name@);
            lemma_gen_name_trans(b0.defs[def_id as int].name, crnt_name@, sub_name@);
            assert(pathv2.drop_last() =~= pathv);
            assert(path_var_count(pathv2) == path_var_count(pathv) + ctrs[c as int].arity);
            lemma_ctrs_max_arity(ctrs, c as int);
            assert(future_budget(def_type@, b0.adts, k)
                == 1 + ctrs_max_arity(ctrs) + future_budget(def_type@, b0.adts, k + 1));
            assert(driver_pre(book@, def_type@, def_id as int, sub_name@, sub_rules@, pathv2));
        }
        make_pattern_matching_case(book, def_type, def_id, &sub_name, sub_rules, sub_path);
        proof {
            lemma_gen_branch(crnt_name@, ctr_name@);
            lemma_evolve_weaken(bpre, book@, sub_name@, crnt_name@);
            lemma_evolve_trans(b0, bpre, book@, crnt_name@);
            lemma_gen_below_branch(crnt_name@, ctr_name@);
            lemma_evolves_below_weaken(bpre, book@, sub_name@, crnt_name@);
            lemma_evolves_below_trans(b0, bpre, book@, crnt_name@);
            lemma_evolve_short_name_unchanged(bpre, book@, sub_name@, def_id as int);
            assert forall|c2: int| 0 <= c2 < c + 1
                implies book_has_name(book@, branch_name_spec(crnt_name@, ctrs[c2].nam)) by {
                if c2 < c {
                    lemma_evolve_has_name(
                        bpre,
                        book@,
                        sub_name@,
                        branch_name_spec(crnt_name@, ctrs[c2].nam),
                    );
                } else {
                    let w = choose|w: int|
                        0 <= w < book@.defs.len() && book@.defs[w].name == sub_name@
                            && single_empty(book@.defs[w]);
                }
            }
        }
        c += 1;
    }
    // the dispatcher: apply the scrutinee to each constructor's sub-function
    let ghost b1 = book@;
    let ghost ids = Seq::new(
        ctrs.len(),
        |c3: int| name_index(b1, branch_name_spec(crnt_name@, ctrs[c3].nam)),
    );
    let mut term = Term::Var { nam: name_x() };
    proof {
        assert(term@ == (TermV::Var { nam: seq!['x'] }));
        assert(ids.take(0) =~= Seq::<int>::empty());
    }
    let mut c2: usize = 0;
    while c2 < n_ctrs
        invariant
            c2 <= n_ctrs,
            book@ == b1,
            book_wf(b1),
            book@.adts == b0.adts,
            (t as int) < b0.adts.len(),
            ctrs == b0.adts[t as int].ctrs,
            n_ctrs == ctrs.len(),
            forall|c3: int|
                0 <= c3 < n_ctrs ==> book_has_name(b1, branch_name_spec(crnt_name@, ctrs[c3].nam)),
            ids == Seq::new(
                ctrs.len(),
                |c3: int| name_index(b1, branch_name_spec(crnt_name@, ctrs[c3].nam)),
            ),
            term@ == apply_refs(TermV::Var { nam: seq!['x'] }, ids.take(c2 as int)),
        decreases n_ctrs - c2,
    {
        let ghost t_pre = term@;
        proof {
            crate::ast::lemma_book_ctr_index(*book, t as int, c2 as int);
        }
        let sub_name = make_branch_name(crnt_name, &book.adts[t].ctrs[c2].nam);
        let id = match book.def_id_of(&sub_name) {
            Option::Some(i) => i,
            Option::None => {
                proof {
                    assert(book_has_name(b1, branch_name_spec(crnt_name@, ctrs[c2 as int].nam)));
                    let w = choose|w: int|
                        0 <= w < b1.defs.len()
                            && b1.defs[w].name == branch_name_spec(crnt_name@, ctrs[c2 as int].nam);
                    assert(b1.defs[w].name == sub_name@);
                }
                vstd::pervasive::unreached()
            },
        };
        proof {
            let w = name_index(b1, branch_name_spec(crnt_name@, ctrs[c2 as int].nam));
            assert(book_has_name(b1, branch_name_spec(crnt_name@, ctrs[c2 as int].nam)));
            assert(0 <= w < b1.defs.len()
                && b1.defs[w].name == branch_name_spec(crnt_name@, ctrs[c2 as int].nam));
            if w < id as int {
                assert(b1.defs[w].name != b1.defs[id as int].name);
            } else if w > id as int {
                assert(b1.defs[id as int].name != b1.defs[w].name);
            }
            assert(ids[c2 as int] == id as int);
        }
        term = Term::App { fun: Box::new(term), arg: Box::new(Term::Ref { def_id: id }) };
        proof {
            reveal_with_fuel(crate::ast::term_view, 3);
            lemma_apply_refs_snoc(
                TermV::Var { nam: seq!['x'] },
                ids.take(c2 as int),
                ids[c2 as int],
            );
            assert(ids.take(c2 as int + 1) =~= ids.take(c2 as int).push(ids[c2 as int]));
            assert(term@ == apply_refs(TermV::Var { nam: seq!['x'] }, ids.take(c2 as int + 1)));
        }
        c2 += 1;
    }
    // re-apply the committed path arguments
    let ghost disp_base = apply_refs(TermV::Var { nam: seq!['x'] }, ids);
    proof {
        assert(ids.take(n_ctrs as int) =~= ids);
    }
    let mut vc: usize = 0;
    let mut j: usize = 0;
    proof {
        assert(pathv.take(0) =~= Seq::<PatV>::empty());
    }
    while j < match_path.len()
        invariant
            book@ == b1,
            pathv == pats_view(match_path@),
            path_var_count(pathv) <= usize::MAX,
            j <= match_path@.len(),
            vc as nat == path_var_count(pathv.take(j as int)),
            (term@, vc as int) == leaf_args(b1, disp_base, pathv, pathv, j as int),
        decreases match_path@.len() - j,
    {
        let ghost t_pre = term@;
        let ghost c_pre = vc as int;
        proof {
            lemma_pvc_take_le(pathv, j as int + 1);
            assert(pathv.take(j as int + 1).drop_last() =~= pathv.take(j as int));
            assert(pathv.take(j as int + 1).last() == pathv[j as int]);
            assert(pathv[j as int] == match_path@[j as int]@);
        }
        match &match_path[j] {
            RulePat::Var { .. } => {
                let vn = make_var_name(vc);
                term = Term::App { fun: Box::new(term), arg: Box::new(Term::Var { nam: vn }) };
                proof {
                    reveal_with_fuel(crate::ast::term_view, 3);
                    assert(term@ == (TermV::App {
                        fun: Box::new(t_pre),
                        arg: Box::new(TermV::Var { nam: var_name_spec(vc as nat) }),
                    }));
                }
                vc += 1;
            },
            RulePat::Ctr { args, .. } => {
                let n = args.len();
                proof {
                    assert(pv_args(pathv[j as int]).len() == args@.len());
                }
                let mut i2: usize = 0;
                while i2 < n
                    invariant
                        i2 <= n,
                        vc as nat == path_var_count(pathv.take(j as int)) + i2,
                        path_var_count(pathv.take(j as int + 1))
                            == path_var_count(pathv.take(j as int)) + n,
                        path_var_count(pathv.take(j as int + 1)) <= path_var_count(pathv),
                        path_var_count(pathv) <= usize::MAX,
                        0 <= c_pre,
                        vc as int == c_pre + i2,
                        term@ == apply_vars(t_pre, c_pre, vc as int),
                    decreases n - i2,
                {
                    proof {
                        lemma_apply_vars_snoc(t_pre, c_pre, vc as int);
                    }
                    let vn = make_var_name(vc);
                    term = Term::App { fun: Box::new(term), arg: Box::new(Term::Var { nam: vn }) };
                    proof {
                        reveal_with_fuel(crate::ast::term_view, 3);
                        assert(term@ == apply_vars(t_pre, c_pre, vc as int + 1));
                    }
                    vc += 1;
                    i2 += 1;
                }
                proof {
                    assert(term@ == apply_vars(t_pre, c_pre, c_pre + pv_args(pathv[j as int]).len()));
                }
            },
        }
        proof {
            assert(leaf_args(b1, disp_base, pathv, pathv, j as int + 1)
                == leaf_arg_step(b1, t_pre, c_pre, pathv[j as int], pathv[j as int]));
        }
        j += 1;
    }
    // lambdas for the path arguments, innermost first
    let ghost apd = leaf_args(b1, disp_base, pathv, pathv, pathv.len() as int);
    proof {
        assert(pathv.take(pathv.len() as int) =~= pathv);
        assert((term@, vc as int) == apd);
    }
    while vc > 0
        invariant
            book@ == b1,
            vc as int <= apd.1,
            term@ == wrap_var_lams(apd.0, vc as int, apd.1),
        decreases vc,
    {
        vc -= 1;
        let vn = make_var_name(vc);
        term = Term::Lam { nam: Option::Some(vn), bod: Box::new(term) };
    }
    // the scrutinee is the outermost parameter
    term = Term::Lam { nam: Option::Some(name_x()), bod: Box::new(term) };
    let ghost tv0 = term@;
    let nam2 = clone_name(crnt_name);
    add_case_to_book(book, nam2, term);
    proof {
        lemma_evolve_trans(b0, b1, book@, crnt_name@);
        lemma_evolves_below_trans(b0, b1, book@, crnt_name@);
        lemma_evolve_preserves_resolve(b0, book@, crnt_name@);
        assert forall|c3: int| 0 <= c3 < ctrs.len()
            implies book_has_name(book@, branch_name_spec(crnt_name@, ctrs[c3].nam)) by {
            lemma_evolve_has_name(b1, book@, crnt_name@, branch_name_spec(crnt_name@, ctrs[c3].nam));
        }
        // the installed body is exactly the dispatcher over the final book
        let bf = book@;
        assert(tv0 == (TermV::Lam {
            nam: Option::Some(seq!['x']),
            bod: Box::new(wrap_var_lams(apd.0, 0, apd.1)),
        }));
        let idsf = Seq::new(
            ctrs.len(),
            |c3: int| name_index(bf, branch_name_spec(crnt_name@, ctrs[c3].nam)),
        );
        assert forall|c3: int| 0 <= c3 < ctrs.len() implies idsf[c3] == ids[c3] by {
            let n3 = branch_name_spec(crnt_name@, ctrs[c3].nam);
            assert(0 <= ids[c3] < b1.defs.len() && b1.defs[ids[c3]].name == n3);
            assert(bf.defs[ids[c3]].name == n3);
            let w = name_index(bf, n3);
            assert(book_has_name(bf, n3));
            assert(0 <= w < bf.defs.len() && bf.defs[w].name == n3);
            if w < ids[c3] {
                assert(bf.defs[w].name != bf.defs[ids[c3]].name);
            } else if w > ids[c3] {
                assert(bf.defs[ids[c3]].name != bf.defs[w].name);
            }
        }
        assert(idsf =~= ids);
        lemma_disp_args_book_irrelevant(b1, bf, disp_base, pathv, pathv.len() as int);
        assert(tv0 == dispatcher_body_spec(bf, crnt_name@, ctrs, pathv));
        assert(seq![RuleV { pats: Seq::<PatV>::empty(), body: tv0 }]
            =~= seq![
                RuleV {
                    pats: Seq::empty(),
                    body: dispatcher_body_spec(bf, crnt_name@, ctrs, pathv),
                },
            ]);
    }
}

} // verus!
