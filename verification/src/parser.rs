//! The parser: from the text of a formula to an expression tree.
//!
//! The grammar is alternative-based, tried in a fixed priority order, with
//! greedy operator chains, rather than a precedence-climbing grammar: an
//! expression is the first of and-chain, or-chain, implication-chain,
//! biconditional-chain, xor-chain, negation, identifier, parenthesized group
//! that matches a prefix of the input; a full parse then requires that the
//! whole (whitespace-stripped) input was consumed. The spec functions below
//! state that grammar mathematically; each executable parser is proved to
//! return exactly what its spec function says.

use vstd::prelude::*;

use crate::ast::{Expr, ExprView};

verus! {

/// The characters that are stripped from the input before parsing.
pub open spec fn is_space(c: char) -> bool {
    c == ' ' || c == '\n'
}

/// The input with every space and newline removed.
pub open spec fn strip(s: Seq<char>) -> Seq<char>
    decreases s.len(),
{
    if s.len() == 0 {
        Seq::empty()
    } else {
        strip(s.drop_last()) + (if is_space(s.last()) {
            Seq::empty()
        } else {
            seq![s.last()]
        })
    }
}

/// The characters an identifier is made of: ASCII letters and digits.
pub open spec fn is_word_char(c: char) -> bool {
    (('0' as u32) <= (c as u32) && (c as u32) <= ('9' as u32)) || (('A' as u32) <= (c as u32) && (c
        as u32) <= ('Z' as u32)) || (('a' as u32) <= (c as u32) && (c as u32) <= ('z' as u32))
}

/// How many word characters follow from position `pos` on.
pub open spec fn word_run_len(s: Seq<char>, pos: int) -> int
    decreases s.len() - pos,
{
    if pos < 0 || pos >= s.len() || !is_word_char(s[pos]) {
        0
    } else {
        1 + word_run_len(s, pos + 1)
    }
}

/// Matching the literal token `t` at position `pos`: the position just
/// after it on success.
pub open spec fn sp_tag(s: Seq<char>, pos: int, t: Seq<char>) -> Option<int> {
    if 0 <= pos && pos + t.len() <= s.len() && s.subrange(pos, pos + t.len()) == t {
        Some(pos + t.len())
    } else {
        None
    }
}

/// Matching an identifier at `pos`: the longest non-empty run of word
/// characters, as a variable leaf.
pub open spec fn sp_identifier(s: Seq<char>, pos: int) -> Option<(int, ExprView)> {
    let n = word_run_len(s, pos);
    if n == 0 {
        None
    } else {
        Some((pos + n, ExprView::Var(s.subrange(pos, pos + n))))
    }
}

/// A binary connective, as the parser folds chains of it.
#[derive(Clone, Copy, Debug)]
pub enum ZipOp {
    And,
    Or,
    Implication,
    Biconditional,
    XOR,
}

/// The token that writes each connective.
pub open spec fn op_token(op: ZipOp) -> Seq<char> {
    match op {
        ZipOp::And => seq!['&'],
        ZipOp::Or => seq!['|'],
        ZipOp::Implication => seq!['=', '>'],
        ZipOp::Biconditional => seq!['<', '=', '>'],
        ZipOp::XOR => seq!['<', '!', '=', '>'],
    }
}

/// The tree node a connective builds.
pub open spec fn apply_op(op: ZipOp, a: ExprView, b: ExprView) -> ExprView {
    match op {
        ZipOp::And => ExprView::And(Box::new(a), Box::new(b)),
        ZipOp::Or => ExprView::Or(Box::new(a), Box::new(b)),
        ZipOp::Implication => ExprView::Implication(Box::new(a), Box::new(b)),
        ZipOp::Biconditional => ExprView::Biconditional(Box::new(a), Box::new(b)),
        ZipOp::XOR => ExprView::XOR(Box::new(a), Box::new(b)),
    }
}

/// The left-associative fold of a chain: `a & b & c` becomes `(a & b) & c`.
pub open spec fn fold_chain(first: ExprView, rest: Seq<ExprView>, op: ZipOp) -> ExprView
    decreases rest.len(),
{
    if rest.len() == 0 {
        first
    } else {
        fold_chain(apply_op(op, first, rest.first()), rest.drop_first(), op)
    }
}

/// A negation at `pos`: the token `!` followed by a factor.
pub open spec fn sp_not(s: Seq<char>, pos: int) -> Option<(int, ExprView)>
    decreases s.len() - pos, 0int,
{
    match sp_tag(s, pos, seq!['!']) {
        Some(p1) => match sp_factor(s, p1) {
            Some((p2, f)) => Some((p2, ExprView::Not(Box::new(f)))),
            None => None,
        },
        None => None,
    }
}

/// A parenthesized group at `pos`: `(`, a whole expression, `)`.
pub open spec fn sp_parens(s: Seq<char>, pos: int) -> Option<(int, ExprView)>
    decreases s.len() - pos, 0int,
{
    match sp_tag(s, pos, seq!['(']) {
        Some(p1) => match sp_expression(s, p1) {
            Some((p2, e)) => match sp_tag(s, p2, seq![')']) {
                Some(p3) => Some((p3, e)),
                None => None,
            },
            None => None,
        },
        None => None,
    }
}

/// A factor at `pos`: an identifier, a parenthesized group, or a negation,
/// tried in that order.
pub open spec fn sp_factor(s: Seq<char>, pos: int) -> Option<(int, ExprView)>
    decreases s.len() - pos, 1int,
{
    let i = sp_identifier(s, pos);
    if i is Some {
        i
    } else {
        let p = sp_parens(s, pos);
        if p is Some {
            p
        } else {
            sp_not(s, pos)
        }
    }
}

/// The greedy tail of a chain: as many `t`-then-factor pairs as match,
/// starting at `pos`, with the position after the last one. The position
/// guard only secures termination: a successful factor always stands inside
/// the input and past `pos`, as the bounds lemmas below prove.
pub open spec fn sp_more_factors(s: Seq<char>, pos: int, t: Seq<char>) -> (int, Seq<ExprView>)
    decreases s.len() - pos, 2int,
{
    match sp_tag(s, pos, t) {
        Some(p1) => match sp_factor(s, p1) {
            Some((p2, f)) => if pos < p2 <= s.len() {
                let (p3, fs) = sp_more_factors(s, p2, t);
                (p3, seq![f] + fs)
            } else {
                (pos, Seq::empty())
            },
            None => (pos, Seq::empty()),
        },
        None => (pos, Seq::empty()),
    }
}

/// A chain of the connective `op` at `pos`: a factor followed by at least
/// one `t`-then-factor pair, folded left-associatively. The position guard
/// only secures termination, as in `sp_more_factors`.
pub open spec fn sp_chain(s: Seq<char>, pos: int, t: Seq<char>, op: ZipOp) -> Option<
    (int, ExprView),
>
    decreases s.len() - pos, 3int,
{
    match sp_factor(s, pos) {
        Some((p1, f1)) => if pos <= p1 <= s.len() {
            let (p2, fs) = sp_more_factors(s, p1, t);
            if fs.len() == 0 {
                None
            } else {
                Some((p2, fold_chain(f1, fs, op)))
            }
        } else {
            None
        },
        None => None,
    }
}

/// An expression at `pos`: the first alternative that matches, in the fixed
/// order and-chain, or-chain, implication-chain, biconditional-chain,
/// xor-chain, negation, identifier, parenthesized group.
pub open spec fn sp_expression(s: Seq<char>, pos: int) -> Option<(int, ExprView)>
    decreases s.len() - pos, 4int,
{
    let a = sp_chain(s, pos, seq!['&'], ZipOp::And);
    if a is Some {
        a
    } else {
        let o = sp_chain(s, pos, seq!['|'], ZipOp::Or);
        if o is Some {
            o
        } else {
            let im = sp_chain(s, pos, seq!['=', '>'], ZipOp::Implication);
            if im is Some {
                im
            } else {
                let bi = sp_chain(s, pos, seq!['<', '=', '>'], ZipOp::Biconditional);
                if bi is Some {
                    bi
                } else {
                    let x = sp_chain(s, pos, seq!['<', '!', '=', '>'], ZipOp::XOR);
                    if x is Some {
                        x
                    } else {
                        let n = sp_not(s, pos);
                        if n is Some {
                            n
                        } else {
                            let id = sp_identifier(s, pos);
                            if id is Some {
                                id
                            } else {
                                sp_parens(s, pos)
                            }
                        }
                    }
                }
            }
        }
    }
}

/// The whole parse: strip whitespace, match an expression at the start, and
/// demand that it consumed everything.
pub open spec fn parse_spec(s: Seq<char>) -> Option<ExprView> {
    let t = strip(s);
    match sp_expression(t, 0) {
        Some((p, e)) => if p == t.len() {
            Some(e)
        } else {
            None
        },
        None => None,
    }
}

/// Law: whitespace never matters — two inputs that agree once spaces and
/// newlines are removed parse to the same outcome.
pub proof fn lemma_parse_whitespace_insensitive(s1: Seq<char>, s2: Seq<char>)
    requires
        strip(s1) == strip(s2),
    ensures
        parse_spec(s1) == parse_spec(s2),
{
}

proof fn lemma_word_run_len_bounds(s: Seq<char>, pos: int)
    requires
        0 <= pos <= s.len(),
    ensures
        0 <= word_run_len(s, pos),
        pos + word_run_len(s, pos) <= s.len(),
    decreases s.len() - pos,
{
    if pos < s.len() && is_word_char(s[pos]) {
        lemma_word_run_len_bounds(s, pos + 1);
    }
}

proof fn lemma_sp_identifier_bounds(s: Seq<char>, pos: int)
    requires
        0 <= pos <= s.len(),
    ensures
        sp_identifier(s, pos) is Some ==> pos < sp_identifier(s, pos).unwrap().0 <= s.len(),
{
    lemma_word_run_len_bounds(s, pos);
}

proof fn lemma_sp_not_bounds(s: Seq<char>, pos: int)
    requires
        0 <= pos <= s.len(),
    ensures
        sp_not(s, pos) is Some ==> pos < sp_not(s, pos).unwrap().0 <= s.len(),
    decreases s.len() - pos, 0int,
{
    match sp_tag(s, pos, seq!['!']) {
        Some(p1) => {
            lemma_sp_factor_bounds(s, p1);
        },
        None => {},
    }
}

proof fn lemma_sp_parens_bounds(s: Seq<char>, pos: int)
    requires
        0 <= pos <= s.len(),
    ensures
        sp_parens(s, pos) is Some ==> pos < sp_parens(s, pos).unwrap().0 <= s.len(),
    decreases s.len() - pos, 0int,
{
    match sp_tag(s, pos, seq!['(']) {
        Some(p1) => {
            lemma_sp_expression_bounds(s, p1);
        },
        None => {},
    }
}

proof fn lemma_sp_factor_bounds(s: Seq<char>, pos: int)
    requires
        0 <= pos <= s.len(),
    ensures
        sp_factor(s, pos) is Some ==> pos < sp_factor(s, pos).unwrap().0 <= s.len(),
    decreases s.len() - pos, 1int,
{
    lemma_sp_identifier_bounds(s, pos);
    lemma_sp_parens_bounds(s, pos);
    lemma_sp_not_bounds(s, pos);
}

proof fn lemma_sp_more_factors_bounds(s: Seq<char>, pos: int, t: Seq<char>)
    requires
        0 <= pos <= s.len(),
        t.len() >= 1,
    ensures
        pos <= sp_more_factors(s, pos, t).0 <= s.len(),
    decreases s.len() - pos, 2int,
{
    match sp_tag(s, pos, t) {
        Some(p1) => {
            lemma_sp_factor_bounds(s, p1);
            match sp_factor(s, p1) {
                Some((p2, f)) => {
                    if pos < p2 <= s.len() {
                        lemma_sp_more_factors_bounds(s, p2, t);
                    }
                },
                None => {},
            }
        },
        None => {},
    }
}

proof fn lemma_sp_chain_bounds(s: Seq<char>, pos: int, t: Seq<char>, op: ZipOp)
    requires
        0 <= pos <= s.len(),
        t.len() >= 1,
    ensures
        sp_chain(s, pos, t, op) is Some ==> pos < sp_chain(s, pos, t, op).unwrap().0 <= s.len(),
    decreases s.len() - pos, 3int,
{
    lemma_sp_factor_bounds(s, pos);
    match sp_factor(s, pos) {
        Some((p1, f1)) => {
            if pos <= p1 <= s.len() {
                lemma_sp_more_factors_bounds(s, p1, t);
            }
        },
        None => {},
    }
}

proof fn lemma_sp_expression_bounds(s: Seq<char>, pos: int)
    requires
        0 <= pos <= s.len(),
    ensures
        sp_expression(s, pos) is Some ==> pos < sp_expression(s, pos).unwrap().0 <= s.len(),
    decreases s.len() - pos, 4int,
{
    lemma_sp_chain_bounds(s, pos, seq!['&'], ZipOp::And);
    lemma_sp_chain_bounds(s, pos, seq!['|'], ZipOp::Or);
    lemma_sp_chain_bounds(s, pos, seq!['=', '>'], ZipOp::Implication);
    lemma_sp_chain_bounds(s, pos, seq!['<', '=', '>'], ZipOp::Biconditional);
    lemma_sp_chain_bounds(s, pos, seq!['<', '!', '=', '>'], ZipOp::XOR);
    lemma_sp_not_bounds(s, pos);
    lemma_sp_identifier_bounds(s, pos);
    lemma_sp_parens_bounds(s, pos);
}

/// The exec parsers below return positions as `usize` and trees as `Expr`;
/// this view lets each contract equate such a result with its spec parser.
pub open spec fn parse_rv(r: Option<(usize, Expr)>) -> Option<(int, ExprView)> {
    match r {
        Some((p, e)) => Some((p as int, e@)),
        None => None,
    }
}

pub open spec fn pos_rv(r: Option<usize>) -> Option<int> {
    match r {
        Some(p) => Some(p as int),
        None => None,
    }
}

/// Relies on String::push: appends one character at the end.
#[verifier::external_body]
fn string_push(s: &mut String, c: char)
    ensures
        final(s)@ == old(s)@.push(c),
{
    s.push(c);
}

fn word_char(c: char) -> (r: bool)
    ensures
        r == is_word_char(c),
{
    let u = c as u32;
    (('0' as u32) <= u && u <= ('9' as u32)) || (('A' as u32) <= u && u <= ('Z' as u32)) || (('a'
        as u32) <= u && u <= ('z' as u32))
}

fn tag1(s: &Vec<char>, pos: usize, c0: char) -> (r: Option<usize>)
    requires
        pos as int <= s@.len(),
    ensures
        pos_rv(r) == sp_tag(s@, pos as int, seq![c0]),
{
    if s.len() - pos >= 1 && s[pos] == c0 {
        proof {
            assert(s@.subrange(pos as int, pos as int + 1) =~= seq![c0]);
        }
        Some(pos + 1)
    } else {
        proof {
            if sp_tag(s@, pos as int, seq![c0]) is Some {
                assert(s@.subrange(pos as int, pos as int + 1)[0] == s@[pos as int]);
            }
        }
        None
    }
}

fn tag2(s: &Vec<char>, pos: usize, c0: char, c1: char) -> (r: Option<usize>)
    requires
        pos as int <= s@.len(),
    ensures
        pos_rv(r) == sp_tag(s@, pos as int, seq![c0, c1]),
{
    if s.len() - pos >= 2 && s[pos] == c0 && s[pos + 1] == c1 {
        proof {
            assert(s@.subrange(pos as int, pos as int + 2) =~= seq![c0, c1]);
        }
        Some(pos + 2)
    } else {
        proof {
            if sp_tag(s@, pos as int, seq![c0, c1]) is Some {
                assert(s@.subrange(pos as int, pos as int + 2)[0] == s@[pos as int]);
                assert(s@.subrange(pos as int, pos as int + 2)[1] == s@[pos as int + 1]);
            }
        }
        None
    }
}

fn tag3(s: &Vec<char>, pos: usize, c0: char, c1: char, c2: char) -> (r: Option<usize>)
    requires
        pos as int <= s@.len(),
    ensures
        pos_rv(r) == sp_tag(s@, pos as int, seq![c0, c1, c2]),
{
    if s.len() - pos >= 3 && s[pos] == c0 && s[pos + 1] == c1 && s[pos + 2] == c2 {
        proof {
            assert(s@.subrange(pos as int, pos as int + 3) =~= seq![c0, c1, c2]);
        }
        Some(pos + 3)
    } else {
        proof {
            if sp_tag(s@, pos as int, seq![c0, c1, c2]) is Some {
                assert(s@.subrange(pos as int, pos as int + 3)[0] == s@[pos as int]);
                assert(s@.subrange(pos as int, pos as int + 3)[1] == s@[pos as int + 1]);
                assert(s@.subrange(pos as int, pos as int + 3)[2] == s@[pos as int + 2]);
            }
        }
        None
    }
}

fn tag4(s: &Vec<char>, pos: usize, c0: char, c1: char, c2: char, c3: char) -> (r: Option<usize>)
    requires
        pos as int <= s@.len(),
    ensures
        pos_rv(r) == sp_tag(s@, pos as int, seq![c0, c1, c2, c3]),
{
    if s.len() - pos >= 4 && s[pos] == c0 && s[pos + 1] == c1 && s[pos + 2] == c2 && s[pos + 3]
        == c3 {
        proof {
            assert(s@.subrange(pos as int, pos as int + 4) =~= seq![c0, c1, c2, c3]);
        }
        Some(pos + 4)
    } else {
        proof {
            if sp_tag(s@, pos as int, seq![c0, c1, c2, c3]) is Some {
                assert(s@.subrange(pos as int, pos as int + 4)[0] == s@[pos as int]);
                assert(s@.subrange(pos as int, pos as int + 4)[1] == s@[pos as int + 1]);
                assert(s@.subrange(pos as int, pos as int + 4)[2] == s@[pos as int + 2]);
                assert(s@.subrange(pos as int, pos as int + 4)[3] == s@[pos as int + 3]);
            }
        }
        None
    }
}

/// Matches the token of `op` at `pos`.
fn match_op(s: &Vec<char>, pos: usize, op: ZipOp) -> (r: Option<usize>)
    requires
        pos as int <= s@.len(),
    ensures
        pos_rv(r) == sp_tag(s@, pos as int, op_token(op)),
{
    match op {
        ZipOp::And => tag1(s, pos, '&'),
        ZipOp::Or => tag1(s, pos, '|'),
        ZipOp::Implication => tag2(s, pos, '=', '>'),
        ZipOp::Biconditional => tag3(s, pos, '<', '=', '>'),
        ZipOp::XOR => tag4(s, pos, '<', '!', '=', '>'),
    }
}

proof fn lemma_word_run_at(s: Seq<char>, pos: int, end: int)
    requires
        0 <= pos <= end <= s.len(),
        forall|k: int| pos <= k < end ==> is_word_char(s[k]),
        end == s.len() || !is_word_char(s[end]),
    ensures
        word_run_len(s, pos) == end - pos,
    decreases end - pos,
{
    if pos < end {
        lemma_word_run_at(s, pos + 1, end);
    }
}

/// Detects an identifier of a variable: one or more letters or digits.
#[verifier::loop_isolation(false)]
pub fn identifier(s: &Vec<char>, pos: usize) -> (r: Option<(usize, Expr)>)
    requires
        pos as int <= s@.len(),
    ensures
        parse_rv(r) == sp_identifier(s@, pos as int),
{
    let mut end: usize = pos;
    while end < s.len() && word_char(s[end])
        invariant
            pos <= end <= s@.len(),
            forall|k: int| pos <= k < end ==> is_word_char(s@[k]),
        decreases s@.len() - end,
    {
        end += 1;
    }
    proof {
        lemma_word_run_at(s@, pos as int, end as int);
    }
    if end == pos {
        None
    } else {
        let mut name = String::new();
        let mut j: usize = pos;
        while j < end
            invariant
                pos <= j <= end,
                name@ == s@.subrange(pos as int, j as int),
            decreases end - j,
        {
            string_push(&mut name, s[j]);
            proof {
                assert(s@.subrange(pos as int, j + 1) =~= s@.subrange(pos as int, j as int).push(
                    s@[j as int],
                ));
            }
            j += 1;
        }
        Some((end, Expr::Var(name)))
    }
}

/// Detects the "not" operator, with the syntax `!x`.
pub fn operator_not(s: &Vec<char>, pos: usize) -> (r: Option<(usize, Expr)>)
    requires
        pos as int <= s@.len(),
    ensures
        parse_rv(r) == sp_not(s@, pos as int),
    decreases s@.len() - pos, 0int,
{
    match tag1(s, pos, '!') {
        Some(p1) => match factor(s, p1) {
            Some((p2, f)) => Some((p2, Expr::Not(Box::new(f)))),
            None => None,
        },
        None => None,
    }
}

/// Detects a group surrounded by parentheses.
fn parens(s: &Vec<char>, pos: usize) -> (r: Option<(usize, Expr)>)
    requires
        pos as int <= s@.len(),
    ensures
        parse_rv(r) == sp_parens(s@, pos as int),
    decreases s@.len() - pos, 0int,
{
    match tag1(s, pos, '(') {
        Some(p1) => match expression(s, p1) {
            Some((p2, e)) => {
                proof {
                    lemma_sp_expression_bounds(s@, p1 as int);
                }
                match tag1(s, p2, ')') {
                    Some(p3) => Some((p3, e)),
                    None => None,
                }
            },
            None => None,
        },
        None => None,
    }
}

/// Detects either an identifier, a parenthesized group, or a negation.
fn factor(s: &Vec<char>, pos: usize) -> (r: Option<(usize, Expr)>)
    requires
        pos as int <= s@.len(),
    ensures
        parse_rv(r) == sp_factor(s@, pos as int),
    decreases s@.len() - pos, 1int,
{
    match identifier(s, pos) {
        Some(x) => Some(x),
        None => match parens(s, pos) {
            Some(x) => Some(x),
            None => operator_not(s, pos),
        },
    }
}

/// The tree node a connective builds, as a value.
fn mk_binary(op: ZipOp, a: Expr, b: Expr) -> (r: Expr)
    ensures
        r@ == apply_op(op, a@, b@),
{
    match op {
        ZipOp::And => Expr::And(Box::new(a), Box::new(b)),
        ZipOp::Or => Expr::Or(Box::new(a), Box::new(b)),
        ZipOp::Implication => Expr::Implication(Box::new(a), Box::new(b)),
        ZipOp::Biconditional => Expr::Biconditional(Box::new(a), Box::new(b)),
        ZipOp::XOR => Expr::XOR(Box::new(a), Box::new(b)),
    }
}

/// Folds at least two factors into a left-associative chain of `op`:
/// `[a, b, c]` becomes `(a op b) op c`. Fewer than two factors is refused.
#[verifier::loop_isolation(false)]
pub(crate) fn zip(factors: Vec<Expr>, op: ZipOp) -> (r: Option<Expr>)
    ensures
        factors@.len() < 2 ==> r is None,
        factors@.len() >= 2 ==> (match r {
            Some(e) => e@ == fold_chain(
                crate::ast::views_of(factors@).first(),
                crate::ast::views_of(factors@).drop_first(),
                op,
            ),
            None => false,
        }),
{
    if factors.len() < 2 {
        return None;
    }
    let ghost all = crate::ast::views_of(factors@);
    let mut rest = factors;
    let f0 = rest.remove(0);
    let f1 = rest.remove(0);
    let mut expr = mk_binary(op, f0, f1);
    proof {
        assert(crate::ast::views_of(rest@) =~= all.drop_first().drop_first());
        assert(all.drop_first().first() == all[1]);
        assert(fold_chain(all.first(), all.drop_first(), op) == fold_chain(
            apply_op(op, all[0], all[1]),
            all.drop_first().drop_first(),
            op,
        ));
    }
    while rest.len() > 0
        invariant
            fold_chain(all.first(), all.drop_first(), op) == fold_chain(
                expr@,
                crate::ast::views_of(rest@),
                op,
            ),
        decreases rest@.len(),
    {
        let ghost old_rest = rest@;
        let f = rest.remove(0);
        proof {
            assert(crate::ast::views_of(rest@) =~= crate::ast::views_of(old_rest).drop_first());
            assert(crate::ast::views_of(old_rest).first() == f@);
        }
        expr = mk_binary(op, expr, f);
    }
    proof {
        assert(crate::ast::views_of(rest@).len() == 0);
    }
    Some(expr)
}

/// Detects a chain of the connective `op`: a factor followed by at least one
/// token-then-factor pair, folded left-associatively by `zip`.
#[verifier::loop_isolation(false)]
fn operator_chain(s: &Vec<char>, pos: usize, op: ZipOp) -> (r: Option<(usize, Expr)>)
    requires
        pos as int <= s@.len(),
    ensures
        parse_rv(r) == sp_chain(s@, pos as int, op_token(op), op),
    decreases s@.len() - pos, 2int,
{
    let ghost t = op_token(op);
    let first = factor(s, pos);
    proof {
        lemma_sp_factor_bounds(s@, pos as int);
    }
    let (p1, f1) = match first {
        Some(x) => x,
        None => {
            return None;
        },
    };
    let ghost f1v = f1@;

    let mut factors: Vec<Expr> = Vec::new();
    factors.push(f1);
    let mut p: usize = p1;
    let mut more: bool = true;
    while more
        invariant
            p1 <= p,
            p as int <= s@.len(),
            factors@.len() >= 1,
            crate::ast::views_of(factors@).first() == f1v,
            more ==> sp_more_factors(s@, p1 as int, t).0 == sp_more_factors(s@, p as int, t).0,
            more ==> sp_more_factors(s@, p1 as int, t).1 == crate::ast::views_of(
                factors@,
            ).drop_first() + sp_more_factors(s@, p as int, t).1,
            !more ==> sp_more_factors(s@, p1 as int, t).0 == p as int,
            !more ==> sp_more_factors(s@, p1 as int, t).1 == crate::ast::views_of(
                factors@,
            ).drop_first(),
        decreases s@.len() - p + (if more {
            1int
        } else {
            0int
        }),
    {
        let ghost old_p = p as int;
        let ghost old_views = crate::ast::views_of(factors@);
        match match_op(s, p, op) {
            None => {
                more = false;
                proof {
                    assert(sp_more_factors(s@, old_p, t).1 =~= Seq::<ExprView>::empty());
                    assert(old_views.drop_first() + Seq::<ExprView>::empty()
                        =~= old_views.drop_first());
                }
            },
            Some(q) => {
                match factor(s, q) {
                    None => {
                        more = false;
                        proof {
                            assert(sp_more_factors(s@, old_p, t).1 =~= Seq::<ExprView>::empty());
                            assert(old_views.drop_first() + Seq::<ExprView>::empty()
                                =~= old_views.drop_first());
                        }
                    },
                    Some((p2, f)) => {
                        proof {
                            lemma_sp_factor_bounds(s@, q as int);
                        }
                        let ghost fv = f@;
                        factors.push(f);
                        p = p2;
                        proof {
                            assert(crate::ast::views_of(factors@) =~= old_views.push(fv));
                            assert(crate::ast::views_of(factors@).drop_first()
                                =~= old_views.drop_first() + seq![fv]);
                            assert(sp_more_factors(s@, old_p, t).1 == seq![fv]
                                + sp_more_factors(s@, p2 as int, t).1);
                            assert(old_views.drop_first() + (seq![fv] + sp_more_factors(
                                s@,
                                p2 as int,
                                t,
                            ).1) =~= crate::ast::views_of(factors@).drop_first()
                                + sp_more_factors(s@, p2 as int, t).1);
                        }
                    },
                }
            },
        }
    }

    if factors.len() < 2 {
        return None;
    }
    let result = zip(factors, op);
    let e = match result {
        Some(e) => e,
        None => {
            proof {
                assert(false);
            }
            return None;
        },
    };
    Some((p, e))
}

/// Detects the "and" operator, with the syntax `x&y`.
/// Chains like `a&b&c` become `(a&b)&c`.
pub fn operator_and(s: &Vec<char>, pos: usize) -> (r: Option<(usize, Expr)>)
    requires
        pos as int <= s@.len(),
    ensures
        parse_rv(r) == sp_chain(s@, pos as int, op_token(ZipOp::And), ZipOp::And),
    decreases s@.len() - pos, 3int,
{
    operator_chain(s, pos, ZipOp::And)
}

/// Detects the "or" operator, with the syntax `x|y`.
pub fn operator_or(s: &Vec<char>, pos: usize) -> (r: Option<(usize, Expr)>)
    requires
        pos as int <= s@.len(),
    ensures
        parse_rv(r) == sp_chain(s@, pos as int, op_token(ZipOp::Or), ZipOp::Or),
    decreases s@.len() - pos, 3int,
{
    operator_chain(s, pos, ZipOp::Or)
}

/// Detects the "implication" operator, with the syntax `x=>y`.
pub fn operator_implication(s: &Vec<char>, pos: usize) -> (r: Option<(usize, Expr)>)
    requires
        pos as int <= s@.len(),
    ensures
        parse_rv(r) == sp_chain(
            s@,
            pos as int,
            op_token(ZipOp::Implication),
            ZipOp::Implication,
        ),
    decreases s@.len() - pos, 3int,
{
    operator_chain(s, pos, ZipOp::Implication)
}

/// Detects the "biconditional" operator, with the syntax `x<=>y`.
pub fn operator_biconditional(s: &Vec<char>, pos: usize) -> (r: Option<(usize, Expr)>)
    requires
        pos as int <= s@.len(),
    ensures
        parse_rv(r) == sp_chain(
            s@,
            pos as int,
            op_token(ZipOp::Biconditional),
            ZipOp::Biconditional,
        ),
    decreases s@.len() - pos, 3int,
{
    operator_chain(s, pos, ZipOp::Biconditional)
}

/// Detects the "exclusive or" operator, with the syntax `x<!=>y`.
pub fn operator_xor(s: &Vec<char>, pos: usize) -> (r: Option<(usize, Expr)>)
    requires
        pos as int <= s@.len(),
    ensures
        parse_rv(r) == sp_chain(s@, pos as int, op_token(ZipOp::XOR), ZipOp::XOR),
    decreases s@.len() - pos, 3int,
{
    operator_chain(s, pos, ZipOp::XOR)
}

/// Detects all kinds of expressions, both operator chains and leaves, in
/// the grammar's fixed priority order.
pub fn expression(s: &Vec<char>, pos: usize) -> (r: Option<(usize, Expr)>)
    requires
        pos as int <= s@.len(),
    ensures
        parse_rv(r) == sp_expression(s@, pos as int),
    decreases s@.len() - pos, 4int,
{
    match operator_and(s, pos) {
        Some(x) => Some(x),
        None => match operator_or(s, pos) {
            Some(x) => Some(x),
            None => match operator_implication(s, pos) {
                Some(x) => Some(x),
                None => match operator_biconditional(s, pos) {
                    Some(x) => Some(x),
                    None => match operator_xor(s, pos) {
                        Some(x) => Some(x),
                        None => match operator_not(s, pos) {
                            Some(x) => Some(x),
                            None => match identifier(s, pos) {
                                Some(x) => Some(x),
                                None => parens(s, pos),
                            },
                        },
                    },
                },
            },
        },
    }
}

/// Parses a whole formula: spaces and newlines are stripped, an expression
/// is matched at the start, and any unconsumed remainder fails the parse.
#[verifier::loop_isolation(false)]
pub fn parse(input: &str) -> (r: Option<Expr>)
    ensures
        match parse_spec(input@) {
            Some(ev) => match r {
                Some(e) => e@ == ev,
                None => false,
            },
            None => r is None,
        },
{
    let len = input.unicode_len();
    let mut chars: Vec<char> = Vec::new();
    let mut i: usize = 0;
    while i < len
        invariant
            i <= len,
            chars@ == strip(input@.take(i as int)),
        decreases len - i,
    {
        let c = input.get_char(i);
        proof {
            assert(input@.take(i + 1).drop_last() =~= input@.take(i as int));
        }
        if !(c == ' ' || c == '\n') {
            chars.push(c);
            proof {
                assert(chars@ =~= strip(input@.take(i + 1)));
            }
        } else {
            proof {
                assert(chars@ =~= strip(input@.take(i + 1)));
            }
        }
        i += 1;
    }
    proof {
        assert(input@.take(len as int) =~= input@);
    }
    match expression(&chars, 0) {
        Some((p, e)) => if p == chars.len() {
            Some(e)
        } else {
            None
        },
        None => None,
    }
}

} // verus!
