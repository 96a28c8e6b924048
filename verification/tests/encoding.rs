use scott_encoding::ast::{Adt, Book, Ctr, Definition, Rule, RulePat, Term, Type};

fn nm(s: &str) -> Vec<char> {
    s.chars().collect()
}

fn tv(s: &str) -> Term {
    Term::Var { nam: nm(s) }
}

fn tlam(n: &str, b: Term) -> Term {
    Term::Lam { nam: Some(nm(n)), bod: Box::new(b) }
}

fn tapp(f: Term, a: Term) -> Term {
    Term::App { fun: Box::new(f), arg: Box::new(a) }
}

fn tref(i: usize) -> Term {
    Term::Ref { def_id: i }
}

fn pvar(s: &str) -> RulePat {
    RulePat::Var { nam: nm(s) }
}

fn pctr(s: &str, args: Vec<RulePat>) -> RulePat {
    RulePat::Ctr { nam: nm(s), args }
}

fn term_eq(a: &Term, b: &Term) -> bool {
    match (a, b) {
        (Term::Era, Term::Era) => true,
        (Term::Lam { nam: n1, bod: b1 }, Term::Lam { nam: n2, bod: b2 }) => {
            n1 == n2 && term_eq(b1, b2)
        }
        (Term::App { fun: f1, arg: a1 }, Term::App { fun: f2, arg: a2 }) => {
            term_eq(f1, f2) && term_eq(a1, a2)
        }
        (Term::Var { nam: n1 }, Term::Var { nam: n2 }) => n1 == n2,
        (Term::Ref { def_id: i1 }, Term::Ref { def_id: i2 }) => i1 == i2,
        _ => false,
    }
}

fn pat_eq(a: &RulePat, b: &RulePat) -> bool {
    match (a, b) {
        (RulePat::Var { nam: n1 }, RulePat::Var { nam: n2 }) => n1 == n2,
        (RulePat::Ctr { nam: n1, args: a1 }, RulePat::Ctr { nam: n2, args: a2 }) => {
            n1 == n2 && a1.len() == a2.len() && a1.iter().zip(a2.iter()).all(|(x, y)| pat_eq(x, y))
        }
        _ => false,
    }
}

fn book_eq(a: &Book, b: &Book) -> bool {
    a.defs.len() == b.defs.len()
        && a.defs.iter().zip(b.defs.iter()).all(|(d1, d2)| {
            d1.name == d2.name
                && d1.rules.len() == d2.rules.len()
                && d1.rules.iter().zip(d2.rules.iter()).all(|(r1, r2)| {
                    r1.pats.len() == r2.pats.len()
                        && r1.pats.iter().zip(r2.pats.iter()).all(|(p, q)| pat_eq(p, q))
                        && term_eq(&r1.body, &r2.body)
                })
        })
}

fn find_def<'a>(book: &'a Book, name: &str) -> Option<&'a Definition> {
    let n = nm(name);
    book.defs.iter().find(|d| d.name == n)
}

/// The Bool book of the worked example: `True`, `False`, and
/// `not(True) = False; not(False) = True`.
fn bool_book() -> (Book, Vec<Vec<Type>>) {
    let adt = Adt {
        nam: nm("Bool"),
        ctrs: vec![Ctr { nam: nm("True"), arity: 0 }, Ctr { nam: nm("False"), arity: 0 }],
    };
    let def_true = Definition {
        name: nm("True"),
        rules: vec![Rule { pats: vec![], body: tlam("t", tlam("f", tv("t"))) }],
    };
    let def_false = Definition {
        name: nm("False"),
        rules: vec![Rule { pats: vec![], body: tlam("t", tlam("f", tv("f"))) }],
    };
    let def_not = Definition {
        name: nm("not"),
        rules: vec![
            Rule { pats: vec![pctr("True", vec![])], body: tref(1) },
            Rule { pats: vec![pctr("False", vec![])], body: tref(0) },
        ],
    };
    let book = Book { defs: vec![def_true, def_false, def_not], adts: vec![adt] };
    let def_types = vec![vec![], vec![], vec![Type::Adt(0)]];
    (book, def_types)
}

/// The List book: `Nil`, `Cons`, and a definition matching on both
/// constructors.
fn list_book() -> (Book, Vec<Vec<Type>>) {
    let adt = Adt {
        nam: nm("List"),
        ctrs: vec![Ctr { nam: nm("Nil"), arity: 0 }, Ctr { nam: nm("Cons"), arity: 2 }],
    };
    let def_nil = Definition {
        name: nm("Nil"),
        rules: vec![Rule { pats: vec![], body: Term::Era }],
    };
    let def_cons = Definition {
        name: nm("Cons"),
        rules: vec![Rule { pats: vec![], body: Term::Era }],
    };
    let def_f = Definition {
        name: nm("f"),
        rules: vec![
            Rule { pats: vec![pctr("Nil", vec![])], body: Term::Era },
            Rule {
                pats: vec![pctr("Cons", vec![pvar("h"), pvar("t")])],
                body: tapp(tv("h"), tv("t")),
            },
        ],
    };
    let book = Book { defs: vec![def_nil, def_cons, def_f], adts: vec![adt] };
    let def_types = vec![vec![], vec![], vec![Type::Adt(0)]];
    (book, def_types)
}

#[test]
fn arity_invariant_and_primitive_closure() {
    let (mut book, def_types) = bool_book();
    book.encode_pattern_matching_functions(&def_types);
    for d in &book.defs {
        assert_eq!(d.rules.len(), 1);
        assert!(d.rules[0].pats.is_empty());
    }
    let (mut book2, def_types2) = list_book();
    book2.encode_pattern_matching_functions(&def_types2);
    for d in &book2.defs {
        assert_eq!(d.rules.len(), 1);
        assert!(d.rules[0].pats.is_empty());
    }
}

#[test]
fn non_matching_shortcut() {
    // one rule, all-variable patterns: one output definition, no
    // sub-definitions, parameters nested left to right
    let def_g = Definition {
        name: nm("g"),
        rules: vec![Rule { pats: vec![pvar("a"), pvar("b")], body: tapp(tv("a"), tv("b")) }],
    };
    let mut book = Book { defs: vec![def_g], adts: vec![] };
    let def_types = vec![vec![Type::Any, Type::Any]];
    book.encode_pattern_matching_functions(&def_types);
    assert_eq!(book.defs.len(), 1);
    assert!(book.defs[0].rules[0].pats.is_empty());
    let expected = tlam("a", tlam("b", tapp(tv("a"), tv("b"))));
    assert!(term_eq(&book.defs[0].rules[0].body, &expected));
}

#[test]
fn naming_determinism_and_uniqueness() {
    let (mut book1, def_types) = bool_book();
    let (mut book2, _) = bool_book();
    book1.encode_pattern_matching_functions(&def_types);
    book2.encode_pattern_matching_functions(&def_types);
    assert!(book_eq(&book1, &book2));
    for i in 0..book1.defs.len() {
        for j in (i + 1)..book1.defs.len() {
            assert_ne!(book1.defs[i].name, book1.defs[j].name);
        }
    }
    let (mut book3, def_types3) = list_book();
    book3.encode_pattern_matching_functions(&def_types3);
    for i in 0..book3.defs.len() {
        for j in (i + 1)..book3.defs.len() {
            assert_ne!(book3.defs[i].name, book3.defs[j].name);
        }
    }
}

#[test]
fn constructor_completeness() {
    let (mut book, def_types) = list_book();
    book.encode_pattern_matching_functions(&def_types);
    // exactly one branch sub-function per constructor
    assert!(find_def(&book, "f$PNil").is_some());
    assert!(find_def(&book, "f$PCons").is_some());
    let prefix = nm("f$P");
    let n_subs = book
        .defs
        .iter()
        .filter(|d| d.name.len() >= prefix.len() && d.name[..prefix.len()] == prefix[..])
        .count();
    assert_eq!(n_subs, 2);
}

#[test]
fn constructor_completeness_with_default_rule() {
    // only one rule names a constructor; the branch still compiles one
    // sub-function per constructor, the catch-all staying live in both
    let adt = Adt {
        nam: nm("List"),
        ctrs: vec![Ctr { nam: nm("Nil"), arity: 0 }, Ctr { nam: nm("Cons"), arity: 2 }],
    };
    let def_nil = Definition { name: nm("Nil"), rules: vec![Rule { pats: vec![], body: Term::Era }] };
    let def_cons =
        Definition { name: nm("Cons"), rules: vec![Rule { pats: vec![], body: Term::Era }] };
    let def_h = Definition {
        name: nm("h"),
        rules: vec![
            Rule { pats: vec![pctr("Nil", vec![])], body: Term::Era },
            Rule { pats: vec![pvar("x")], body: tv("x") },
        ],
    };
    let mut book = Book { defs: vec![def_nil, def_cons, def_h], adts: vec![adt] };
    let def_types = vec![vec![], vec![], vec![Type::Adt(0)]];
    book.encode_pattern_matching_functions(&def_types);
    assert!(find_def(&book, "h$PNil").is_some());
    assert!(find_def(&book, "h$PCons").is_some());
    // the catch-all rule's leaf under Cons rebuilds the constructor value
    // before calling the rule body, so its sub-function takes both fields
    let cons_case = find_def(&book, "h$PCons").unwrap();
    let expected = tlam(
        "x0",
        tlam("x1", tapp(tref(4), tapp(tapp(tref(1), tv("x0")), tv("x1")))),
    );
    assert!(term_eq(&cons_case.rules[0].body, &expected));
}

#[test]
fn end_to_end_bool_not() {
    let (mut book, def_types) = bool_book();
    book.encode_pattern_matching_functions(&def_types);
    // two extracted rule bodies, each a bare reference
    let r0 = find_def(&book, "not$R0").unwrap();
    assert!(r0.rules[0].pats.is_empty());
    assert!(term_eq(&r0.rules[0].body, &tref(1)));
    let r1 = find_def(&book, "not$R1").unwrap();
    assert!(r1.rules[0].pats.is_empty());
    assert!(term_eq(&r1.rules[0].body, &tref(0)));
    // one case function per constructor, each forwarding to a rule body
    let id_r0 = book.defs.iter().position(|d| d.name == nm("not$R0")).unwrap();
    let id_r1 = book.defs.iter().position(|d| d.name == nm("not$R1")).unwrap();
    let case_true = find_def(&book, "not$PTrue").unwrap();
    assert!(term_eq(&case_true.rules[0].body, &tref(id_r0)));
    let case_false = find_def(&book, "not$PFalse").unwrap();
    assert!(term_eq(&case_false.rules[0].body, &tref(id_r1)));
    // the dispatcher applies the scrutinee to the case functions in
    // constructor-declaration order, under a single outer lambda
    let id_pt = book.defs.iter().position(|d| d.name == nm("not$PTrue")).unwrap();
    let id_pf = book.defs.iter().position(|d| d.name == nm("not$PFalse")).unwrap();
    let not_def = find_def(&book, "not").unwrap();
    let expected = tlam("x", tapp(tapp(tv("x"), tref(id_pt)), tref(id_pf)));
    assert!(term_eq(&not_def.rules[0].body, &expected));
}

#[test]
fn rule_body_extraction_binds_fields() {
    // the Cons rule body is wrapped in one lambda per bound field,
    // left-to-right field order, outermost first
    let (mut book, def_types) = list_book();
    book.encode_pattern_matching_functions(&def_types);
    let r1 = find_def(&book, "f$R1").unwrap();
    let expected = tlam("h", tlam("t", tapp(tv("h"), tv("t"))));
    assert!(term_eq(&r1.rules[0].body, &expected));
}

#[test]
fn generated_names_follow_the_grammar() {
    let (mut book, def_types) = bool_book();
    let names_before: Vec<Vec<char>> = book.defs.iter().map(|d| d.name.clone()).collect();
    book.encode_pattern_matching_functions(&def_types);
    // original names survive at their indices; every new name extends an
    // original name with a '$' segment
    for (i, n) in names_before.iter().enumerate() {
        assert_eq!(&book.defs[i].name, n);
    }
    for d in &book.defs[names_before.len()..] {
        assert!(d.name.contains(&'$'));
    }
    let expected: Vec<&str> =
        vec!["True", "False", "not", "not$R0", "not$R1", "not$PTrue", "not$PFalse"];
    let got: Vec<String> = book.defs.iter().map(|d| d.name.iter().collect()).collect();
    assert_eq!(got, expected);
}

#[test]
fn pass_through_defers_to_later_position() {
    // the first parameter does not discriminate, the second does: the pass
    // emits a forwarding function at the original name, a dispatcher one
    // level down, and swaps the application order at the boundary
    let adt = Adt {
        nam: nm("List"),
        ctrs: vec![Ctr { nam: nm("Nil"), arity: 0 }, Ctr { nam: nm("Cons"), arity: 2 }],
    };
    let def_nil = Definition { name: nm("Nil"), rules: vec![Rule { pats: vec![], body: Term::Era }] };
    let def_cons =
        Definition { name: nm("Cons"), rules: vec![Rule { pats: vec![], body: Term::Era }] };
    let def_f = Definition {
        name: nm("f"),
        rules: vec![
            Rule { pats: vec![pvar("x"), pctr("Nil", vec![])], body: Term::Era },
            Rule {
                pats: vec![pvar("y"), pctr("Cons", vec![pvar("a"), pvar("b")])],
                body: tv("y"),
            },
        ],
    };
    let mut book = Book { defs: vec![def_nil, def_cons, def_f], adts: vec![adt] };
    let def_types = vec![vec![], vec![], vec![Type::Any, Type::Adt(0)]];
    book.encode_pattern_matching_functions(&def_types);
    let expected_names: Vec<&str> =
        vec!["Nil", "Cons", "f", "f$R0", "f$R1", "f$P$PNil", "f$P$PCons", "f$P"];
    let got: Vec<String> = book.defs.iter().map(|d| d.name.iter().collect()).collect();
    assert_eq!(got, expected_names);
    // the forwarder applies the next level to the continuation, then to the
    // deferred argument
    let f_def = find_def(&book, "f").unwrap();
    let forwarder = tlam(
        "x",
        tlam("nxt", tapp(tapp(tref(7), tv("nxt")), tv("x"))),
    );
    assert!(term_eq(&f_def.rules[0].body, &forwarder));
    // the dispatcher one level down takes the scrutinee first, then the
    // deferred argument
    let fp = find_def(&book, "f$P").unwrap();
    let dispatcher = tlam(
        "x",
        tlam("x0", tapp(tapp(tapp(tv("x"), tref(5)), tref(6)), tv("x0"))),
    );
    assert!(term_eq(&fp.rules[0].body, &dispatcher));
    // each constructor's case forwards the deferred argument and the fields
    let pnil = find_def(&book, "f$P$PNil").unwrap();
    assert!(term_eq(&pnil.rules[0].body, &tlam("x0", tapp(tref(3), tv("x0")))));
    let pcons = find_def(&book, "f$P$PCons").unwrap();
    let cons_case = tlam(
        "x0",
        tlam(
            "x1",
            tlam("x2", tapp(tapp(tapp(tref(4), tv("x0")), tv("x1")), tv("x2"))),
        ),
    );
    assert!(term_eq(&pcons.rules[0].body, &cons_case));
}
