//! The generated-name grammar of the pass: rule-body definitions are named
//! `<original>$R<rule-index>`, branch sub-functions `<parent>$P<constructor>`,
//! pass-through sub-functions `<parent>$P`, and synthesized term variables
//! `x<counter>`.  Each builder's result is pinned character for character.

use vstd::prelude::*;
use crate::ast::Name;

verus! {

/// The character for one decimal digit.
pub open spec fn digit_char(d: nat) -> char {
    if d == 0 {
        '0'
    } else if d == 1 {
        '1'
    } else if d == 2 {
        '2'
    } else if d == 3 {
        '3'
    } else if d == 4 {
        '4'
    } else if d == 5 {
        '5'
    } else if d == 6 {
        '6'
    } else if d == 7 {
        '7'
    } else if d == 8 {
        '8'
    } else {
        '9'
    }
}

/// The decimal digits of `n`, most significant first, no leading zeroes
/// (`0` itself is written as one digit).
pub open spec fn dec_digits(n: nat) -> Seq<char>
    decreases n,
{
    if n < 10 {
        seq![digit_char(n)]
    } else {
        dec_digits(n / 10).push(digit_char(n % 10))
    }
}

/// A sequence read back to front.
pub open spec fn reversed(s: Seq<char>) -> Seq<char>
    decreases s.len(),
{
    if s.len() == 0 {
        Seq::empty()
    } else {
        seq![s.last()] + reversed(s.drop_last())
    }
}

pub proof fn lemma_dec_digits_len(n: nat)
    ensures
        dec_digits(n).len() >= 1,
    decreases n,
{
    if n >= 10 {
        lemma_dec_digits_len(n / 10);
    }
}

/// Distinct numbers have distinct digit strings.
pub proof fn lemma_dec_digits_injective(a: nat, b: nat)
    requires
        dec_digits(a) == dec_digits(b),
    ensures
        a == b,
    decreases a,
{
    lemma_dec_digits_len(a);
    lemma_dec_digits_len(b);
    if a < 10 && b < 10 {
        assert(dec_digits(a)[0] == digit_char(a));
        assert(dec_digits(b)[0] == digit_char(b));
    } else if a < 10 {
        lemma_dec_digits_len(b / 10);
        assert(dec_digits(b).len() >= 2);
    } else if b < 10 {
        lemma_dec_digits_len(a / 10);
        assert(dec_digits(a).len() >= 2);
    } else {
        let da = dec_digits(a / 10);
        let db = dec_digits(b / 10);
        assert(dec_digits(a) == da.push(digit_char(a % 10)));
        assert(dec_digits(b) == db.push(digit_char(b % 10)));
        assert(dec_digits(a).last() == digit_char(a % 10));
        assert(dec_digits(b).last() == digit_char(b % 10));
        assert(a % 10 == b % 10);
        assert(da =~= dec_digits(a).drop_last());
        assert(db =~= dec_digits(b).drop_last());
        lemma_dec_digits_injective(a / 10, b / 10);
    }
}

/// The name of the extracted body of rule `idx` of definition `base`.
pub open spec fn rule_name_spec(base: Seq<char>, idx: nat) -> Seq<char> {
    base + seq!['$', 'R'] + dec_digits(idx)
}

/// The name of the branch sub-function for constructor `ctr` under `base`.
pub open spec fn branch_name_spec(base: Seq<char>, ctr: Seq<char>) -> Seq<char> {
    base + seq!['$', 'P'] + ctr
}

/// The name of the pass-through sub-function under `base`.
pub open spec fn pass_name_spec(base: Seq<char>) -> Seq<char> {
    base + seq!['$', 'P']
}

/// The name of the `i`-th synthesized term variable.
pub open spec fn var_name_spec(i: nat) -> Seq<char> {
    seq!['x'] + dec_digits(i)
}

/// One decimal digit as a character.
pub fn digit_char_of(d: usize) -> (c: char)
    requires
        d < 10,
    ensures
        c == digit_char(d as nat),
{
    if d == 0 {
        '0'
    } else if d == 1 {
        '1'
    } else if d == 2 {
        '2'
    } else if d == 3 {
        '3'
    } else if d == 4 {
        '4'
    } else if d == 5 {
        '5'
    } else if d == 6 {
        '6'
    } else if d == 7 {
        '7'
    } else if d == 8 {
        '8'
    } else {
        '9'
    }
}

/// Appends the decimal digits of `n` to `out`.
pub fn push_decimal(out: &mut Name, n: usize)
    ensures
        final(out)@ == old(out)@ + dec_digits(n as nat),
{
    let mut rev: Name = Vec::new();
    let mut m: usize = n;
    loop
        invariant_except_break
            dec_digits(n as nat) == dec_digits(m as nat) + reversed(rev@),
        invariant
            out@ == old(out)@,
        ensures
            dec_digits(n as nat) == reversed(rev@),
            out@ == old(out)@,
        decreases m,
    {
        proof {
            assert(dec_digits(n as nat) =~= dec_digits(m as nat) + reversed(rev@));
        }
        let d = m % 10;
        let ghost rev0 = rev@;
        rev.push(digit_char_of(d));
        proof {
            assert(rev@.drop_last() =~= rev0);
            assert(reversed(rev@) == seq![digit_char(d as nat)] + reversed(rev0));
        }
        if m < 10 {
            proof {
                assert(dec_digits(m as nat) == seq![digit_char(m as nat)]);
                assert(dec_digits(n as nat) =~= reversed(rev@));
            }
            break;
        }
        proof {
            assert(dec_digits(m as nat) == dec_digits((m as nat) / 10).push(digit_char((m as nat) % 10)));
            assert(dec_digits(m as nat) =~= dec_digits((m / 10) as nat) + seq![digit_char(d as nat)]);
            assert(dec_digits(n as nat) =~= dec_digits((m / 10) as nat) + (seq![digit_char(d as nat)]
                + reversed(rev0)));
        }
        m = m / 10;
    }
    loop
        invariant
            out@ + reversed(rev@) == old(out)@ + dec_digits(n as nat),
        ensures
            out@ == old(out)@ + dec_digits(n as nat),
        decreases rev.len(),
    {
        let ghost rev0 = rev@;
        match rev.pop() {
            Option::Some(c) => {
                proof {
                    assert(reversed(rev0) == seq![rev0.last()] + reversed(rev0.drop_last()));
                    assert(out@.push(c) + reversed(rev@) =~= out@ + reversed(rev0));
                }
                out.push(c);
            },
            Option::None => {
                proof {
                    assert(reversed(rev@) =~= Seq::<char>::empty());
                    assert(out@ =~= out@ + reversed(rev@));
                }
                break;
            },
        }
    }
}

/// Builds `x<i>`, the name of the `i`-th synthesized variable.
pub fn make_var_name(i: usize) -> (r: Name)
    ensures
        r@ == var_name_spec(i as nat),
{
    let mut r: Name = Vec::new();
    r.push('x');
    push_decimal(&mut r, i);
    proof {
        assert(r@ =~= var_name_spec(i as nat));
    }
    r
}

/// Builds `<base>$P<ctr>`, the name of a branch sub-function.
pub fn make_branch_name(base: &Name, ctr: &Name) -> (r: Name)
    ensures
        r@ == branch_name_spec(base@, ctr@),
{
    let mut r = crate::ast::clone_name(base);
    r.push('$');
    r.push('P');
    let mut i: usize = 0;
    while i < ctr.len()
        invariant
            i <= ctr.len(),
            r@ =~= base@ + seq!['$', 'P'] + ctr@.take(i as int),
        decreases ctr.len() - i,
    {
        r.push(ctr[i]);
        i += 1;
    }
    proof {
        assert(r@ =~= branch_name_spec(base@, ctr@));
    }
    r
}

/// Builds `<base>$P`, the name of a pass-through sub-function.
pub fn make_pass_name(base: &Name) -> (r: Name)
    ensures
        r@ == pass_name_spec(base@),
{
    let mut r = crate::ast::clone_name(base);
    r.push('$');
    r.push('P');
    proof {
        assert(r@ =~= pass_name_spec(base@));
    }
    r
}

} // verus!
