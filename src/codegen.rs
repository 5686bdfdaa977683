//! Turns the tokens of a `+`/`-` expression into instructions that load the
//! first number and then add or subtract the others, left to right.
use vstd::prelude::*;

use crate::tokenizer::{lemma_scan_at_shape, render, scan, token_text, TokenView, Tokenizer};

verus! {

/// One instruction on the accumulator.
#[derive(Debug, Clone, Copy, PartialEq, Eq, Structural)]
pub enum Instr {
    /// Load the value.
    Mov(i64),
    /// Add the value.
    Add(i64),
    /// Subtract the value.
    Sub(i64),
}

/// Diagnostic when the expression does not start with a number.
pub const FIRST_NOT_NUMBER: &'static str = "the first token is not a number";

/// Diagnostic for any later token out of place.
pub const UNEXPECTED_TOKEN: &'static str = "unexpected token";

/// The instructions for the tail of an expression from token `i` on: pairs
/// of an operator and a number up to the end marker; or the index of the
/// first token out of place.
pub open spec fn gen_rest(toks: Seq<TokenView>, i: int) -> Result<Seq<Instr>, int>
    decreases toks.len() - i,
{
    if i < 0 || i >= toks.len() || toks[i] is Eof {
        Ok(Seq::empty())
    } else if token_text(toks[i]) == seq!['+'] || token_text(toks[i]) == seq!['-'] {
        if i + 1 < toks.len() && toks[i + 1] is Num {
            let v = toks[i + 1]->Num_val as i64;
            let ins = if token_text(toks[i]) == seq!['+'] {
                Instr::Add(v)
            } else {
                Instr::Sub(v)
            };
            match gen_rest(toks, i + 2) {
                Ok(r) => Ok(seq![ins] + r),
                Err(e) => Err(e),
            }
        } else {
            Err(i + 1)
        }
    } else {
        Err(i)
    }
}

/// The instructions for a whole expression, or the index of the first token
/// out of place.
pub open spec fn gen(toks: Seq<TokenView>) -> Result<Seq<Instr>, int> {
    if toks.len() > 0 && toks[0] is Num {
        match gen_rest(toks, 1) {
            Ok(r) => Ok(seq![Instr::Mov(toks[0]->Num_val as i64)] + r),
            Err(e) => Err(e),
        }
    } else {
        Err(0)
    }
}

/// The message of a diagnostic at token `ind`.
pub open spec fn message_at(ind: int) -> Seq<char> {
    if ind == 0 {
        FIRST_NOT_NUMBER@
    } else {
        UNEXPECTED_TOKEN@
    }
}

/// `prefix` put in front of a successful result.
pub open spec fn prepend(prefix: Seq<Instr>, r: Result<Seq<Instr>, int>) -> Result<Seq<Instr>, int> {
    match r {
        Ok(s) => Ok(prefix + s),
        Err(e) => Err(e),
    }
}

/// Compiles the expression `program` to instructions, or returns the
/// diagnostic for the first token out of place.
pub fn compile(program: &String) -> (r: Result<Vec<Instr>, String>)
    ensures
        match r {
            Ok(v) => gen(scan(program@)) == Ok::<Seq<Instr>, int>(v@),
            Err(m) => {
                &&& gen(scan(program@)) is Err
                &&& m@ == render(
                    program@,
                    scan(program@),
                    gen(scan(program@))->Err_0,
                    message_at(gen(scan(program@))->Err_0),
                )
            },
        },
{
    let mut tokenizer = Tokenizer::new(program);
    let ghost toks = scan(program@);
    proof {
        lemma_scan_at_shape(program@, 0);
    }
    let first = match tokenizer.expect_number() {
        Some(n) => n,
        None => {
            return Err(tokenizer.error_at_cur(FIRST_NOT_NUMBER));
        },
    };
    let mut out: Vec<Instr> = Vec::new();
    out.push(Instr::Mov(first));
    assert(out@.skip(1) =~= Seq::<Instr>::empty());
    assert(prepend(Seq::empty(), gen_rest(toks, 1)) =~= gen_rest(toks, 1));
    while !tokenizer.expect_eof()
        invariant
            tokenizer.wf(),
            tokenizer.source() == program@,
            tokenizer.tokens() == toks,
            toks == scan(program@),
            toks.len() >= 1,
            toks.last() is Eof,
            forall|k: int| 0 <= k < toks.len() - 1 ==> !(#[trigger] toks[k] is Eof),
            toks[0] is Num,
            tokenizer.pos() >= 1,
            out@.len() >= 1,
            out@[0] == Instr::Mov(toks[0]->Num_val as i64),
            gen_rest(toks, 1) == prepend(out@.skip(1), gen_rest(toks, tokenizer.pos() as int)),
        decreases toks.len() - tokenizer.pos(),
    {
        let ghost i = tokenizer.pos() as int;
        proof {
            reveal_strlit("+");
            reveal_strlit("-");
            assert("+"@ =~= seq!['+']);
            assert("-"@ =~= seq!['-']);
        }
        let plus = tokenizer.expect_op("+");
        let is_op = plus || tokenizer.expect_op("-");
        if !is_op {
            assert(gen_rest(toks, i) == Err::<Seq<Instr>, int>(i));
            proof {
                assert(i != 0);
            }
            return Err(tokenizer.error_at_cur(UNEXPECTED_TOKEN));
        }
        match tokenizer.expect_number() {
            Some(n) => {
                let ins = if plus {
                    Instr::Add(n)
                } else {
                    Instr::Sub(n)
                };
                let ghost before = out@;
                out.push(ins);
                proof {
                    assert(out@.skip(1) =~= before.skip(1) + seq![ins]);
                    match gen_rest(toks, i + 2) {
                        Ok(r) => {
                            assert(before.skip(1) + (seq![ins] + r) =~= out@.skip(1) + r);
                        },
                        Err(_) => {},
                    }
                }
            },
            None => {
                assert(gen_rest(toks, i) == Err::<Seq<Instr>, int>(i + 1));
                return Err(tokenizer.error_at_cur(UNEXPECTED_TOKEN));
            },
        }
    }
    assert(out@ =~= seq![out@[0]] + out@.skip(1));
    Ok(out)
}

} // verus!
