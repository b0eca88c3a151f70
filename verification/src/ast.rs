//! The expression tree built by the parser, and its evaluation semantics.

use vstd::prelude::*;
use vstd::arithmetic::div_mod::{
    lemma_div_decreases, lemma_div_nonincreasing, lemma_div_pos_is_pos,
};
use vstd::wrapping::i32_specs;
use crate::traits::Evaluatable;

verus! {

/// An arithmetic expression: an integer literal, or one of the four binary
/// operators applied to two subexpressions. Each binary node owns its two
/// subtrees exclusively.
#[derive(Debug, PartialEq, Eq)]
pub enum ArithmeticExpression {
    Value(i32),
    Add(Box<ArithmeticExpression>, Box<ArithmeticExpression>),
    Sub(Box<ArithmeticExpression>, Box<ArithmeticExpression>),
    Mul(Box<ArithmeticExpression>, Box<ArithmeticExpression>),
    Div(Box<ArithmeticExpression>, Box<ArithmeticExpression>),
}

/// The quotient of `x` and `d` rounded toward zero, as machine division
/// computes it (the built-in `/` on `int` rounds toward negative infinity).
/// Meaningful only for `d != 0`.
pub open spec fn trunc_quot(x: int, d: int) -> int {
    if x == 0 {
        0
    } else if x > 0 && d > 0 {
        x / d
    } else if x < 0 && d < 0 {
        (x * -1) / (d * -1)
    } else if x < 0 {
        ((x * -1) / d) * -1
    } else {
        (x / (d * -1)) * -1
    }
}

/// Division as the evaluator defines it: division by zero yields the
/// sentinel `0` (a deliberate design choice, not an error), and the one
/// overflowing quotient (`i32::MIN / -1`) wraps around to `i32::MIN`.
pub open spec fn eval_div(l: i32, r: i32) -> i32 {
    if r == 0 {
        0
    } else if l == i32::MIN && r == -1 {
        i32::MIN
    } else {
        trunc_quot(l as int, r as int) as i32
    }
}

/// What an expression tree evaluates to: a post-order walk applying each
/// operator to the values of its children, with wraparound on overflow.
pub open spec fn spec_eval(e: ArithmeticExpression) -> i32
    decreases e,
{
    match e {
        ArithmeticExpression::Value(v) => v,
        ArithmeticExpression::Add(l, r) => i32_specs::wrapping_add(spec_eval(*l), spec_eval(*r)),
        ArithmeticExpression::Sub(l, r) => i32_specs::wrapping_sub(spec_eval(*l), spec_eval(*r)),
        ArithmeticExpression::Mul(l, r) => i32_specs::wrapping_mul(spec_eval(*l), spec_eval(*r)),
        ArithmeticExpression::Div(l, r) => eval_div(spec_eval(*l), spec_eval(*r)),
    }
}

/// For every divisor other than zero, and excepting the one wrapping case,
/// the truncating quotient of two `i32` values fits in an `i32`.
proof fn lemma_trunc_quot_fits(l: i32, r: i32)
    requires
        r != 0,
        !(l == i32::MIN && r == -1),
    ensures
        i32::MIN <= trunc_quot(l as int, r as int) <= i32::MAX,
{
    let x = l as int;
    let d = r as int;
    if x == 0 {
    } else if x > 0 && d > 0 {
        lemma_div_pos_is_pos(x, d);
        lemma_div_nonincreasing(x, d);
    } else if x < 0 && d < 0 {
        lemma_div_pos_is_pos(x * -1, d * -1);
        if d * -1 > 1 {
            lemma_div_decreases(x * -1, d * -1);
        }
    } else if x < 0 {
        lemma_div_pos_is_pos(x * -1, d);
        lemma_div_nonincreasing(x * -1, d);
    } else {
        lemma_div_pos_is_pos(x, d * -1);
        lemma_div_nonincreasing(x, d * -1);
    }
}

/// The tree node for one operator byte applied to two subtrees.
pub open spec fn op_node(
    op: u8,
    l: ArithmeticExpression,
    r: ArithmeticExpression,
) -> ArithmeticExpression {
    if op == 43 {
        ArithmeticExpression::Add(Box::new(l), Box::new(r))
    } else if op == 45 {
        ArithmeticExpression::Sub(Box::new(l), Box::new(r))
    } else if op == 42 {
        ArithmeticExpression::Mul(Box::new(l), Box::new(r))
    } else {
        ArithmeticExpression::Div(Box::new(l), Box::new(r))
    }
}

/// Trees whose literals are non-negative: the only ones the grammar can
/// spell, since it has integer literals but no negation operator.
pub open spec fn wf_tree(t: ArithmeticExpression) -> bool
    decreases t,
{
    match t {
        ArithmeticExpression::Value(v) => v >= 0,
        ArithmeticExpression::Add(l, r) => wf_tree(*l) && wf_tree(*r),
        ArithmeticExpression::Sub(l, r) => wf_tree(*l) && wf_tree(*r),
        ArithmeticExpression::Mul(l, r) => wf_tree(*l) && wf_tree(*r),
        ArithmeticExpression::Div(l, r) => wf_tree(*l) && wf_tree(*r),
    }
}

/// The decimal digit bytes of `v`, most significant first.
pub open spec fn dec_rep(v: nat) -> Seq<u8>
    decreases v,
{
    if v < 10 {
        seq![(48 + v) as u8]
    } else {
        dec_rep(v / 10) + seq![(48 + v % 10) as u8]
    }
}

/// The text a tree renders to: each literal in decimal, each binary node
/// fully parenthesized around its operator.
pub open spec fn render_bytes(t: ArithmeticExpression) -> Seq<u8>
    decreases t,
{
    match t {
        ArithmeticExpression::Value(v) => dec_rep(v as nat),
        ArithmeticExpression::Add(l, r) => seq![40u8] + render_bytes(*l) + seq![43u8]
            + render_bytes(*r) + seq![41u8],
        ArithmeticExpression::Sub(l, r) => seq![40u8] + render_bytes(*l) + seq![45u8]
            + render_bytes(*r) + seq![41u8],
        ArithmeticExpression::Mul(l, r) => seq![40u8] + render_bytes(*l) + seq![42u8]
            + render_bytes(*r) + seq![41u8],
        ArithmeticExpression::Div(l, r) => seq![40u8] + render_bytes(*l) + seq![47u8]
            + render_bytes(*r) + seq![41u8],
    }
}

/// A rendering is never empty and holds only ASCII bytes.
pub proof fn lemma_render_ascii(t: ArithmeticExpression)
    ensures
        render_bytes(t).len() > 0,
        forall|k: int| 0 <= k < render_bytes(t).len() ==> #[trigger] render_bytes(t)[k] < 128,
    decreases t,
{
    match t {
        ArithmeticExpression::Value(v) => {
            lemma_dec_rep_digits(v as nat);
        },
        ArithmeticExpression::Add(l, r) => {
            lemma_render_ascii(*l);
            lemma_render_ascii(*r);
        },
        ArithmeticExpression::Sub(l, r) => {
            lemma_render_ascii(*l);
            lemma_render_ascii(*r);
        },
        ArithmeticExpression::Mul(l, r) => {
            lemma_render_ascii(*l);
            lemma_render_ascii(*r);
        },
        ArithmeticExpression::Div(l, r) => {
            lemma_render_ascii(*l);
            lemma_render_ascii(*r);
        },
    }
}

/// The decimal digits of `v` are digit bytes, and there is at least one.
pub proof fn lemma_dec_rep_digits(v: nat)
    ensures
        dec_rep(v).len() > 0,
        forall|k: int| 0 <= k < dec_rep(v).len() ==> 48 <= #[trigger] dec_rep(v)[k] && dec_rep(v)[k] <= 57,
    decreases v,
{
    if v >= 10 {
        lemma_dec_rep_digits(v / 10);
    }
}

/// Append the decimal digits of `v` to `out`.
fn push_dec(v: u32, out: &mut Vec<u8>)
    ensures
        final(out)@ == old(out)@ + dec_rep(v as nat),
    decreases v,
{
    if v < 10 {
        out.push((48 + v) as u8);
        proof {
            assert(out@ =~= old(out)@ + dec_rep(v as nat));
        }
    } else {
        push_dec(v / 10, out);
        out.push((48 + (v % 10)) as u8);
        proof {
            assert(out@ =~= old(out)@ + dec_rep(v as nat));
        }
    }
}

/// Append the rendering of `t` to `out`.
fn push_render(t: &ArithmeticExpression, out: &mut Vec<u8>)
    requires
        wf_tree(*t),
    ensures
        final(out)@ == old(out)@ + render_bytes(*t),
    decreases *t,
{
    match t {
        ArithmeticExpression::Value(v) => {
            push_dec(*v as u32, out);
        },
        ArithmeticExpression::Add(l, r) => {
            out.push(40);
            push_render(l, out);
            out.push(43);
            push_render(r, out);
            out.push(41);
            proof {
                assert(out@ =~= old(out)@ + render_bytes(*t));
            }
        },
        ArithmeticExpression::Sub(l, r) => {
            out.push(40);
            push_render(l, out);
            out.push(45);
            push_render(r, out);
            out.push(41);
            proof {
                assert(out@ =~= old(out)@ + render_bytes(*t));
            }
        },
        ArithmeticExpression::Mul(l, r) => {
            out.push(40);
            push_render(l, out);
            out.push(42);
            push_render(r, out);
            out.push(41);
            proof {
                assert(out@ =~= old(out)@ + render_bytes(*t));
            }
        },
        ArithmeticExpression::Div(l, r) => {
            out.push(40);
            push_render(l, out);
            out.push(47);
            push_render(r, out);
            out.push(41);
            proof {
                assert(out@ =~= old(out)@ + render_bytes(*t));
            }
        },
    }
}

/// Render a tree as input text: literals in decimal, every binary node
/// parenthesized. Parsing the result gives the tree back
/// (`crate::parser::lemma_render_round_trip`).
pub fn render(tree: &ArithmeticExpression) -> (r: String)
    requires
        wf_tree(*tree),
    ensures
        r@ == crate::lexer::chars_of(render_bytes(*tree)),
{
    let mut out: Vec<u8> = Vec::new();
    push_render(tree, &mut out);
    proof {
        lemma_render_ascii(*tree);
        assert(out@ =~= render_bytes(*tree));
    }
    crate::lexer::ascii_to_string(out.as_slice())
}

impl Evaluatable for ArithmeticExpression {
    type Output = i32;

    open spec fn spec_output(&self) -> i32 {
        spec_eval(*self)
    }

    fn evaluate(&self) -> (r: i32)
        decreases *self,
    {
        match self {
            ArithmeticExpression::Value(v) => *v,
            ArithmeticExpression::Add(lhs, rhs) => lhs.evaluate().wrapping_add(rhs.evaluate()),
            ArithmeticExpression::Sub(lhs, rhs) => lhs.evaluate().wrapping_sub(rhs.evaluate()),
            ArithmeticExpression::Mul(lhs, rhs) => lhs.evaluate().wrapping_mul(rhs.evaluate()),
            ArithmeticExpression::Div(lhs, rhs) => {
                let rv = rhs.evaluate();
                if rv == 0 {
                    0
                } else {
                    let lv = lhs.evaluate();
                    match lv.checked_div(rv) {
                        Some(q) => q,
                        None => {
                            proof {
                                if !(lv == i32::MIN && rv == -1) {
                                    lemma_trunc_quot_fits(lv, rv);
                                }
                            }
                            i32::MIN
                        },
                    }
                }
            },
        }
    }
}

} // verus!
