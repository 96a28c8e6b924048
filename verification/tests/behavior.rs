//! Behavioral checks: evaluating the compiled program selects the same rule
//! and binds the same values as first-match evaluation of the original
//! definitions, on concrete Scott-encoded arguments.

use scott_encoding::ast::{Adt, Book, Ctr, Definition, Rule, RulePat, Term, Type};

fn chars(s: &str) -> Vec<char> {
    s.chars().collect()
}

fn mkvar(s: &str) -> Term {
    Term::Var { nam: chars(s) }
}

fn mklam(n: &str, b: Term) -> Term {
    Term::Lam { nam: Some(chars(n)), bod: Box::new(b) }
}

fn mkapp(f: Term, a: Term) -> Term {
    Term::App { fun: Box::new(f), arg: Box::new(a) }
}

fn mkref(i: usize) -> Term {
    Term::Ref { def_id: i }
}

fn mkpctr(s: &str, args: Vec<RulePat>) -> RulePat {
    RulePat::Ctr { nam: chars(s), args }
}

fn mkpvar(s: &str) -> RulePat {
    RulePat::Var { nam: chars(s) }
}

fn clone_term(t: &Term) -> Term {
    match t {
        Term::Era => Term::Era,
        Term::Lam { nam, bod } => Term::Lam { nam: nam.clone(), bod: Box::new(clone_term(bod)) },
        Term::App { fun, arg } => {
            Term::App { fun: Box::new(clone_term(fun)), arg: Box::new(clone_term(arg)) }
        }
        Term::Var { nam } => Term::Var { nam: nam.clone() },
        Term::Ref { def_id } => Term::Ref { def_id: *def_id },
    }
}

fn same_term(a: &Term, b: &Term) -> bool {
    match (a, b) {
        (Term::Era, Term::Era) => true,
        (Term::Lam { nam: n1, bod: b1 }, Term::Lam { nam: n2, bod: b2 }) => {
            n1 == n2 && same_term(b1, b2)
        }
        (Term::App { fun: f1, arg: a1 }, Term::App { fun: f2, arg: a2 }) => {
            same_term(f1, f2) && same_term(a1, a2)
        }
        (Term::Var { nam: n1 }, Term::Var { nam: n2 }) => n1 == n2,
        (Term::Ref { def_id: i1 }, Term::Ref { def_id: i2 }) => i1 == i2,
        _ => false,
    }
}

/// Substitutes `val` for the free occurrences of `name` (the substituted
/// values in these tests are closed, so no capture can occur).
fn subst(t: &Term, name: &[char], val: &Term) -> Term {
    match t {
        Term::Era => Term::Era,
        Term::Var { nam } => {
            if nam[..] == *name {
                clone_term(val)
            } else {
                Term::Var { nam: nam.clone() }
            }
        }
        Term::Lam { nam, bod } => {
            let shadows = match nam {
                Some(n) => n[..] == *name,
                None => false,
            };
            if shadows {
                Term::Lam { nam: nam.clone(), bod: Box::new(clone_term(bod)) }
            } else {
                Term::Lam { nam: nam.clone(), bod: Box::new(subst(bod, name, val)) }
            }
        }
        Term::App { fun, arg } => {
            Term::App { fun: Box::new(subst(fun, name, val)), arg: Box::new(subst(arg, name, val)) }
        }
        Term::Ref { def_id } => Term::Ref { def_id: *def_id },
    }
}

fn whnf(book: &Book, t: Term, fuel: &mut usize) -> Term {
    assert!(*fuel > 0, "evaluation fuel exhausted");
    *fuel -= 1;
    match t {
        Term::Ref { def_id } => {
            let b = clone_term(&book.defs[def_id].rules[0].body);
            whnf(book, b, fuel)
        }
        Term::App { fun, arg } => {
            let f = whnf(book, *fun, fuel);
            match f {
                Term::Lam { nam, bod } => match nam {
                    Some(n) => whnf(book, subst(&bod, &n, &arg), fuel),
                    None => whnf(book, *bod, fuel),
                },
                other => Term::App { fun: Box::new(other), arg },
            }
        }
        other => other,
    }
}

fn normalize(book: &Book, t: Term, fuel: &mut usize) -> Term {
    let t = whnf(book, t, fuel);
    match t {
        Term::Lam { nam, bod } => Term::Lam { nam, bod: Box::new(normalize(book, *bod, fuel)) },
        Term::App { fun, arg } => Term::App {
            fun: Box::new(normalize(book, *fun, fuel)),
            arg: Box::new(normalize(book, *arg, fuel)),
        },
        other => other,
    }
}

#[test]
fn precedence_preservation_bool_not() {
    // not(True) = False; not(False) = True, compiled, then run on both
    // Scott-encoded booleans
    let adt = Adt {
        nam: chars("Bool"),
        ctrs: vec![Ctr { nam: chars("True"), arity: 0 }, Ctr { nam: chars("False"), arity: 0 }],
    };
    let scott_true = mklam("t", mklam("f", mkvar("t")));
    let scott_false = mklam("t", mklam("f", mkvar("f")));
    let defs = vec![
        Definition {
            name: chars("True"),
            rules: vec![Rule { pats: vec![], body: clone_term(&scott_true) }],
        },
        Definition {
            name: chars("False"),
            rules: vec![Rule { pats: vec![], body: clone_term(&scott_false) }],
        },
        Definition {
            name: chars("not"),
            rules: vec![
                Rule { pats: vec![mkpctr("True", vec![])], body: mkref(1) },
                Rule { pats: vec![mkpctr("False", vec![])], body: mkref(0) },
            ],
        },
    ];
    let mut book = Book { defs, adts: vec![adt] };
    let def_types = vec![vec![], vec![], vec![Type::Adt(0)]];
    book.encode_pattern_matching_functions(&def_types);
    let not_id = book.defs.iter().position(|d| d.name == chars("not")).unwrap();
    let mut fuel: usize = 100000;
    let r1 = normalize(&book, mkapp(mkref(not_id), clone_term(&scott_true)), &mut fuel);
    assert!(same_term(&r1, &scott_false));
    let r2 = normalize(&book, mkapp(mkref(not_id), clone_term(&scott_false)), &mut fuel);
    assert!(same_term(&r2, &scott_true));
}

#[test]
fn precedence_preservation_catch_all_first() {
    // the textually first rule is a catch-all: it must win on every input,
    // even where a later rule names the argument's constructor
    let adt = Adt {
        nam: chars("Bool"),
        ctrs: vec![Ctr { nam: chars("True"), arity: 0 }, Ctr { nam: chars("False"), arity: 0 }],
    };
    let scott_true = mklam("t", mklam("f", mkvar("t")));
    let scott_false = mklam("t", mklam("f", mkvar("f")));
    let defs = vec![
        Definition {
            name: chars("True"),
            rules: vec![Rule { pats: vec![], body: clone_term(&scott_true) }],
        },
        Definition {
            name: chars("False"),
            rules: vec![Rule { pats: vec![], body: clone_term(&scott_false) }],
        },
        Definition {
            name: chars("p"),
            rules: vec![
                Rule { pats: vec![mkpvar("x")], body: mkref(0) },
                Rule { pats: vec![mkpctr("False", vec![])], body: mkref(1) },
            ],
        },
    ];
    let mut book = Book { defs, adts: vec![adt] };
    let def_types = vec![vec![], vec![], vec![Type::Adt(0)]];
    book.encode_pattern_matching_functions(&def_types);
    let p_id = book.defs.iter().position(|d| d.name == chars("p")).unwrap();
    let mut fuel: usize = 100000;
    // first-match semantics picks the catch-all on False as well
    let r = normalize(&book, mkapp(mkref(p_id), clone_term(&scott_false)), &mut fuel);
    assert!(same_term(&r, &scott_true));
}

#[test]
fn reconstruction_hands_the_whole_value_to_the_rule() {
    // h(Nil) = Era; h(x) = x.  Matching on Cons is forced by the first
    // rule, so the catch-all's leaf must rebuild the Cons value before
    // calling the rule body, and h(Cons a b) must evaluate back to the
    // Scott encoding of Cons a b
    let adt = Adt {
        nam: chars("List"),
        ctrs: vec![Ctr { nam: chars("Nil"), arity: 0 }, Ctr { nam: chars("Cons"), arity: 2 }],
    };
    let scott_nil = mklam("n", mklam("c", mkvar("n")));
    let scott_cons = mklam(
        "a",
        mklam("b", mklam("n", mklam("c", mkapp(mkapp(mkvar("c"), mkvar("a")), mkvar("b"))))),
    );
    let defs = vec![
        Definition {
            name: chars("Nil"),
            rules: vec![Rule { pats: vec![], body: clone_term(&scott_nil) }],
        },
        Definition {
            name: chars("Cons"),
            rules: vec![Rule { pats: vec![], body: clone_term(&scott_cons) }],
        },
        Definition {
            name: chars("h"),
            rules: vec![
                Rule { pats: vec![mkpctr("Nil", vec![])], body: Term::Era },
                Rule { pats: vec![mkpvar("x")], body: mkvar("x") },
            ],
        },
    ];
    let mut book = Book { defs, adts: vec![adt] };
    let def_types = vec![vec![], vec![], vec![Type::Adt(0)]];
    book.encode_pattern_matching_functions(&def_types);
    let h_id = book.defs.iter().position(|d| d.name == chars("h")).unwrap();
    let field_a = Term::Era;
    let field_b = mklam("z", mkvar("z"));
    let cons_value = mkapp(mkapp(mkref(1), clone_term(&field_a)), clone_term(&field_b));
    let mut fuel: usize = 100000;
    let got = normalize(&book, mkapp(mkref(h_id), clone_term(&cons_value)), &mut fuel);
    let want = normalize(&book, cons_value, &mut fuel);
    assert!(same_term(&got, &want));
    // and the Nil rule still wins on Nil
    let got_nil = normalize(&book, mkapp(mkref(h_id), mkref(0)), &mut fuel);
    assert!(same_term(&got_nil, &Term::Era));
}
