//! The term, pattern and program model that the elaboration pass reads and
//! writes, together with its mathematical view (`Seq`-based ghost mirrors of
//! every type) and the small executable helpers on names and books.

use vstd::prelude::*;

verus! {

/// A definition, constructor or variable name: a sequence of characters.
pub type Name = Vec<char>;

/// The declared type of one parameter of a definition, as the type checker
/// reports it: either not an algebraic data type at all, or the ADT at the
/// given index of the book's ADT table.
#[derive(Clone, Copy, PartialEq, Eq, Structural)]
pub enum Type {
    Any,
    Adt(usize),
}

/// An untyped lambda-calculus term, the five primitives the pass emits.
pub enum Term {
    Era,
    Lam { nam: Option<Name>, bod: Box<Term> },
    App { fun: Box<Term>, arg: Box<Term> },
    Var { nam: Name },
    Ref { def_id: usize },
}

/// A rule pattern: a variable (matches anything, binds the name) or a
/// constructor application.  At this stage of the pipeline every sub-pattern
/// of a `Ctr` is itself a plain `Var`.
pub enum RulePat {
    Var { nam: Name },
    Ctr { nam: Name, args: Vec<RulePat> },
}

/// One clause of a definition: a pattern per parameter, and a body.
pub struct Rule {
    pub pats: Vec<RulePat>,
    pub body: Term,
}

/// A named definition: an ordered list of rules, tried top to bottom.
pub struct Definition {
    pub name: Name,
    pub rules: Vec<Rule>,
}

/// A constructor of an ADT: its name and its field count.
pub struct Ctr {
    pub nam: Name,
    pub arity: usize,
}

/// An algebraic data type: a name and an ordered list of constructors.
pub struct Adt {
    pub nam: Name,
    pub ctrs: Vec<Ctr>,
}

/// The program: an append-only, name-unique table of definitions (the index
/// of a definition is its stable id) and a table of ADTs.
pub struct Book {
    pub defs: Vec<Definition>,
    pub adts: Vec<Adt>,
}

// ---------------------------------------------------------------------------
// Ghost views
// ---------------------------------------------------------------------------

/// Ghost mirror of `Term`, with names as `Seq<char>`.
#[verifier::ext_equal]
pub enum TermV {
    Era,
    Lam { nam: Option<Seq<char>>, bod: Box<TermV> },
    App { fun: Box<TermV>, arg: Box<TermV> },
    Var { nam: Seq<char> },
    Ref { def_id: int },
}

/// Ghost mirror of `RulePat`.
#[verifier::ext_equal]
pub enum PatV {
    Var { nam: Seq<char> },
    Ctr { nam: Seq<char>, args: Seq<PatV> },
}

/// Ghost mirror of `Rule`.
#[verifier::ext_equal]
pub struct RuleV {
    pub pats: Seq<PatV>,
    pub body: TermV,
}

/// Ghost mirror of `Definition`.
#[verifier::ext_equal]
pub struct DefV {
    pub name: Seq<char>,
    pub rules: Seq<RuleV>,
}

/// Ghost mirror of `Ctr`.
#[verifier::ext_equal]
pub struct CtrV {
    pub nam: Seq<char>,
    pub arity: nat,
}

/// Ghost mirror of `Adt`.
#[verifier::ext_equal]
pub struct AdtV {
    pub nam: Seq<char>,
    pub ctrs: Seq<CtrV>,
}

/// Ghost mirror of `Book`.
#[verifier::ext_equal]
pub struct BookV {
    pub defs: Seq<DefV>,
    pub adts: Seq<AdtV>,
}

pub open spec fn opt_name_view(nam: Option<Name>) -> Option<Seq<char>> {
    match nam {
        Option::None => Option::None,
        Option::Some(n) => Option::Some(n@),
    }
}

pub open spec fn term_view(t: Term) -> TermV
    decreases t,
{
    match t {
        Term::Era => TermV::Era,
        Term::Lam { nam, bod } => TermV::Lam {
            nam: opt_name_view(nam),
            bod: Box::new(term_view(*bod)),
        },
        Term::App { fun, arg } => TermV::App {
            fun: Box::new(term_view(*fun)),
            arg: Box::new(term_view(*arg)),
        },
        Term::Var { nam } => TermV::Var { nam: nam@ },
        Term::Ref { def_id } => TermV::Ref { def_id: def_id as int },
    }
}

pub open spec fn pat_view(p: RulePat) -> PatV
    decreases p,
{
    match p {
        RulePat::Var { nam } => PatV::Var { nam: nam@ },
        RulePat::Ctr { nam, args } => PatV::Ctr {
            nam: nam@,
            args: Seq::new(
                args@.len(),
                |i: int|
                    if 0 <= i < args@.len() {
                        pat_view(args@[i])
                    } else {
                        PatV::Var { nam: Seq::empty() }
                    },
            ),
        },
    }
}

pub open spec fn pats_view(ps: Seq<RulePat>) -> Seq<PatV> {
    ps.map_values(|p: RulePat| pat_view(p))
}

pub open spec fn rule_view(r: Rule) -> RuleV {
    RuleV { pats: pats_view(r.pats@), body: term_view(r.body) }
}

pub open spec fn def_view(d: Definition) -> DefV {
    DefV { name: d.name@, rules: d.rules@.map_values(|r: Rule| rule_view(r)) }
}

pub open spec fn ctr_view(c: Ctr) -> CtrV {
    CtrV { nam: c.nam@, arity: c.arity as nat }
}

pub open spec fn adt_view(a: Adt) -> AdtV {
    AdtV { nam: a.nam@, ctrs: a.ctrs@.map_values(|c: Ctr| ctr_view(c)) }
}

pub open spec fn book_view(b: Book) -> BookV {
    BookV {
        defs: b.defs@.map_values(|d: Definition| def_view(d)),
        adts: b.adts@.map_values(|a: Adt| adt_view(a)),
    }
}

impl View for Term {
    type V = TermV;

    open spec fn view(&self) -> TermV {
        term_view(*self)
    }
}

impl View for RulePat {
    type V = PatV;

    open spec fn view(&self) -> PatV {
        pat_view(*self)
    }
}

impl View for Rule {
    type V = RuleV;

    open spec fn view(&self) -> RuleV {
        rule_view(*self)
    }
}

impl View for Definition {
    type V = DefV;

    open spec fn view(&self) -> DefV {
        def_view(*self)
    }
}

impl View for Ctr {
    type V = CtrV;

    open spec fn view(&self) -> CtrV {
        ctr_view(*self)
    }
}

impl View for Adt {
    type V = AdtV;

    open spec fn view(&self) -> AdtV {
        adt_view(*self)
    }
}

impl View for Book {
    type V = BookV;

    open spec fn view(&self) -> BookV {
        book_view(*self)
    }
}

/// Bridges the book's view to its concrete vectors, one pattern deep.
pub proof fn lemma_book_pat_index(b: Book, d: int, r: int, k: int)
    requires
        0 <= d < book_view(b).defs.len(),
        0 <= r < book_view(b).defs[d].rules.len(),
        0 <= k < book_view(b).defs[d].rules[r].pats.len(),
    ensures
        book_view(b).defs.len() == b.defs@.len(),
        book_view(b).defs[d] == def_view(b.defs@[d]),
        book_view(b).defs[d].rules.len() == b.defs@[d].rules@.len(),
        book_view(b).defs[d].rules[r] == rule_view(b.defs@[d].rules@[r]),
        book_view(b).defs[d].rules[r].pats.len() == b.defs@[d].rules@[r].pats@.len(),
        book_view(b).defs[d].rules[r].pats[k] == pat_view(b.defs@[d].rules@[r].pats@[k]),
{
    assert(book_view(b).defs[d] == def_view(b.defs@[d]));
    assert(def_view(b.defs@[d]).rules[r] == rule_view(b.defs@[d].rules@[r]));
    assert(pats_view(b.defs@[d].rules@[r].pats@)[k] == pat_view(b.defs@[d].rules@[r].pats@[k]));
}

/// Bridges the book's view to its concrete vectors, one rule deep.
pub proof fn lemma_book_rule_index(b: Book, d: int, r: int)
    requires
        0 <= d < book_view(b).defs.len(),
        0 <= r < book_view(b).defs[d].rules.len(),
    ensures
        book_view(b).defs.len() == b.defs@.len(),
        book_view(b).defs[d] == def_view(b.defs@[d]),
        book_view(b).defs[d].rules.len() == b.defs@[d].rules@.len(),
        book_view(b).defs[d].rules[r] == rule_view(b.defs@[d].rules@[r]),
        book_view(b).defs[d].rules[r].pats.len() == b.defs@[d].rules@[r].pats@.len(),
        book_view(b).defs[d].rules[r].pats == pats_view(b.defs@[d].rules@[r].pats@),
        book_view(b).defs[d].rules[r].body == term_view(b.defs@[d].rules@[r].body),
{
    assert(book_view(b).defs[d] == def_view(b.defs@[d]));
    assert(def_view(b.defs@[d]).rules[r] == rule_view(b.defs@[d].rules@[r]));
}

/// Bridges the book's view to its concrete vectors, one definition deep.
pub proof fn lemma_book_def_index(b: Book, d: int)
    requires
        0 <= d < book_view(b).defs.len(),
    ensures
        book_view(b).defs.len() == b.defs@.len(),
        book_view(b).defs[d] == def_view(b.defs@[d]),
        book_view(b).defs[d].rules.len() == b.defs@[d].rules@.len(),
{
    assert(book_view(b).defs[d] == def_view(b.defs@[d]));
}

/// Bridges the book's view to its concrete vectors, one constructor deep.
pub proof fn lemma_book_ctr_index(b: Book, t: int, c: int)
    requires
        0 <= t < book_view(b).adts.len(),
        0 <= c < book_view(b).adts[t].ctrs.len(),
    ensures
        book_view(b).adts.len() == b.adts@.len(),
        book_view(b).adts[t] == adt_view(b.adts@[t]),
        book_view(b).adts[t].ctrs.len() == b.adts@[t].ctrs@.len(),
        book_view(b).adts[t].ctrs[c] == ctr_view(b.adts@[t].ctrs@[c]),
{
    assert(book_view(b).adts[t] == adt_view(b.adts@[t]));
    assert(adt_view(b.adts@[t]).ctrs[c] == ctr_view(b.adts@[t].ctrs@[c]));
}

// ---------------------------------------------------------------------------
// Executable helpers
// ---------------------------------------------------------------------------

/// Character-for-character equality of two names.
pub fn name_eq(a: &Name, b: &Name) -> (r: bool)
    ensures
        r == (a@ == b@),
{
    if a.len() != b.len() {
        return false;
    }
    let mut i: usize = 0;
    while i < a.len()
        invariant
            i <= a.len(),
            a.len() == b.len(),
            forall|j: int| 0 <= j < i ==> a@[j] == b@[j],
        decreases a.len() - i,
    {
        if a[i] != b[i] {
            return false;
        }
        i += 1;
    }
    proof {
        assert(a@ =~= b@);
    }
    true
}

/// A fresh copy of a name, equal to the original character for character.
pub fn clone_name(n: &Name) -> (r: Name)
    ensures
        r@ == n@,
{
    let mut r: Name = Vec::new();
    let mut i: usize = 0;
    while i < n.len()
        invariant
            i <= n.len(),
            r@ =~= n@.take(i as int),
        decreases n.len() - i,
    {
        r.push(n[i]);
        i += 1;
    }
    proof {
        assert(r@ =~= n@);
    }
    r
}

/// A fresh copy of a term, equal to the original in view.
pub fn clone_term(t: &Term) -> (r: Term)
    ensures
        r@ == t@,
    decreases *t,
{
    match t {
        Term::Era => Term::Era,
        Term::Lam { nam, bod } => {
            let n2 = match nam {
                Option::Some(n) => Option::Some(clone_name(n)),
                Option::None => Option::None,
            };
            Term::Lam { nam: n2, bod: Box::new(clone_term(bod)) }
        },
        Term::App { fun, arg } => Term::App {
            fun: Box::new(clone_term(fun)),
            arg: Box::new(clone_term(arg)),
        },
        Term::Var { nam } => Term::Var { nam: clone_name(nam) },
        Term::Ref { def_id } => Term::Ref { def_id: *def_id },
    }
}

/// The name field of a pattern, whichever variant it is.
pub open spec fn pv_name(p: PatV) -> Seq<char> {
    match p {
        PatV::Var { nam } => nam,
        PatV::Ctr { nam, .. } => nam,
    }
}

/// The sub-patterns of a constructor pattern (empty for a variable).
pub open spec fn pv_args(p: PatV) -> Seq<PatV> {
    match p {
        PatV::Var { .. } => Seq::empty(),
        PatV::Ctr { args, .. } => args,
    }
}

/// All constructor sub-patterns of a pattern are plain variables.
pub open spec fn pat_args_var(p: PatV) -> bool {
    forall|i: int| 0 <= i < pv_args(p).len() ==> pv_args(p)[i] is Var
}

/// A fresh copy of a one-level pattern (the only shape this pass handles),
/// equal to the original in view.
pub fn clone_pat(p: &RulePat) -> (r: RulePat)
    requires
        pat_args_var(p@),
    ensures
        r@ == p@,
{
    match p {
        RulePat::Var { nam } => {
            let r = RulePat::Var { nam: clone_name(nam) };
            proof {
                assert(r@ =~= p@);
            }
            r
        },
        RulePat::Ctr { nam, args } => {
            let mut cargs: Vec<RulePat> = Vec::new();
            let mut i: usize = 0;
            while i < args.len()
                invariant
                    pat_args_var(p@),
                    *p == (RulePat::Ctr { nam: *nam, args: *args }),
                    i <= args.len(),
                    cargs@.len() == i,
                    forall|j: int| 0 <= j < i ==> (#[trigger] cargs@[j])@ == args@[j]@,
                decreases args.len() - i,
            {
                proof {
                    assert(pv_args(p@)[i as int] == pat_view(args@[i as int]));
                }
                let q = match &args[i] {
                    RulePat::Var { nam: vn } => RulePat::Var { nam: clone_name(vn) },
                    RulePat::Ctr { .. } => {
                        proof {
                            assert(pat_view(args@[i as int]) is Ctr);
                        }
                        vstd::pervasive::unreached()
                    },
                };
                proof {
                    assert(q@ =~= args@[i as int]@);
                }
                cargs.push(q);
                i += 1;
            }
            let r = RulePat::Ctr { nam: clone_name(nam), args: cargs };
            proof {
                assert forall|j: int| 0 <= j < pv_args(r@).len()
                    implies pv_args(r@)[j] == pv_args(p@)[j] by {
                    assert(pv_args(r@)[j] == pat_view(cargs@[j]));
                    assert(pv_args(p@)[j] == pat_view(args@[j]));
                }
                assert(pv_args(r@) =~= pv_args(p@));
                assert(r@ =~= p@);
            }
            r
        },
    }
}

/// A fresh copy of a one-level pattern list, equal to the original in view.
pub fn clone_pats(ps: &Vec<RulePat>) -> (r: Vec<RulePat>)
    requires
        forall|j: int| 0 <= j < ps@.len() ==> pat_args_var((#[trigger] ps@[j])@),
    ensures
        pats_view(r@) == pats_view(ps@),
        r@.len() == ps@.len(),
{
    let mut r: Vec<RulePat> = Vec::new();
    let mut i: usize = 0;
    while i < ps.len()
        invariant
            forall|j: int| 0 <= j < ps@.len() ==> pat_args_var((#[trigger] ps@[j])@),
            i <= ps.len(),
            r@.len() == i,
            forall|j: int| 0 <= j < i ==> (#[trigger] r@[j])@ == ps@[j]@,
        decreases ps.len() - i,
    {
        let q = clone_pat(&ps[i]);
        r.push(q);
        i += 1;
    }
    proof {
        assert(pats_view(r@) =~= pats_view(ps@));
    }
    r
}

impl Book {
    /// Appends a brand-new definition to the book.
    pub fn insert_def(&mut self, name: Name, rules: Vec<Rule>)
        ensures
            final(self)@.defs =~= old(self)@.defs.push(DefV { name: name@, rules: rules@.map_values(|r: Rule| rule_view(r)) }),
            final(self)@.adts == old(self)@.adts,
    {
        self.defs.push(Definition { name, rules });
        proof {
            assert(self@.defs =~= old(self)@.defs.push(
                DefV { name: name@, rules: rules@.map_values(|r: Rule| rule_view(r)) },
            ));
        }
    }

    /// Looks a name up in the definition table, returning the first (with
    /// unique names: the only) index holding that name.
    pub fn def_id_of(&self, nam: &Name) -> (r: Option<usize>)
        ensures
            match r {
                Option::Some(i) => i < self.defs.len()
                    && self@.defs[i as int].name == nam@
                    && forall|j: int| 0 <= j < i ==> self@.defs[j].name != nam@,
                Option::None => forall|j: int| 0 <= j < self@.defs.len() ==> self@.defs[j].name != nam@,
            },
    {
        let mut i: usize = 0;
        while i < self.defs.len()
            invariant
                i <= self.defs.len(),
                forall|j: int| 0 <= j < i ==> self@.defs[j].name != nam@,
            decreases self.defs.len() - i,
        {
            if name_eq(&self.defs[i].name, nam) {
                return Option::Some(i);
            }
            i += 1;
        }
        Option::None
    }
}

} // verus!
