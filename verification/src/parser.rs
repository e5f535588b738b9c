use vstd::prelude::*;
use crate::ast::{AST, Term};
use crate::lexer::{Token, TokenV};
use crate::model::Lam;

verus! {

/// Why parsing failed: a parenthesis without its mate, a token out of place,
/// or a malformed lambda.
#[derive(Debug)]
pub enum ParsingError {
    MismatchedParens(String),
    InvalidSyntax(String),
    InvalidLambda(String),
}

/// An intermediate outcome of the recursive-descent parser, carrying the
/// position after the consumed tokens: `Continue` is a partial result more
/// tokens may extend, `Stop` a finished subexpression, and `End` the end of
/// an expression with nothing built.
#[derive(Debug)]
pub enum ParserState {
    Continue(AST, usize),
    Stop(AST, usize),
    End(usize),
}

/// The views of a token stream.
pub open spec fn token_views(tokens: Seq<Token>) -> Seq<TokenV> {
    tokens.map_values(|t: Token| t@)
}

/// The mathematical form of an intermediate parser outcome: a partial result
/// more tokens may extend, a finished subexpression, or the end of an
/// expression, each with the position after the consumed tokens.
pub ghost enum ParseStep {
    Continue(Lam, int),
    Stop(Lam, int),
    End(int),
}

/// An exec parser state and its mathematical form agree.
pub open spec fn step_matches(s: ParserState, g: ParseStep) -> bool {
    match (s, g) {
        (ParserState::Continue(t, p), ParseStep::Continue(l, q)) => t@ == l && p == q,
        (ParserState::Stop(t, p), ParseStep::Stop(l, q)) => t@ == l && p == q,
        (ParserState::End(p), ParseStep::End(q)) => p == q,
        _ => false,
    }
}

/// What parsing one expression head yields: a variable becomes a partial
/// result, an opening parenthesis opens a group, a lambda introducer starts
/// a parameter list, a closing parenthesis ends the expression, and the end
/// of input ends it too; nothing else is admitted.
pub open spec fn spec_expression(tokens: Seq<TokenV>, pos: int) -> Option<ParseStep>
    decreases tokens.len() - pos, 1nat,
{
    if pos >= tokens.len() {
        Some(ParseStep::End(pos))
    } else if pos < 0 {
        None
    } else {
        match tokens[pos] {
            TokenV::Var(name) => Some(ParseStep::Continue(Lam::Var(name), pos + 1)),
            TokenV::LParen => spec_group(tokens, pos + 1),
            TokenV::Lambda => spec_lambda(tokens, pos + 1),
            TokenV::RParen => Some(ParseStep::End(pos + 1)),
            _ => None,
        }
    }
}

/// What parsing one lambda parameter yields: a variable before a comma is a
/// parameter with more to come, one before an arrow the last parameter.
pub open spec fn spec_params(tokens: Seq<TokenV>, pos: int) -> Option<ParseStep> {
    if 0 <= pos && pos + 1 < tokens.len() && tokens[pos] is Var {
        if tokens[pos + 1] is Comma {
            Some(ParseStep::Continue(Lam::Var(tokens[pos]->Var_0), pos + 2))
        } else if tokens[pos + 1] is Arrow {
            Some(ParseStep::Stop(Lam::Var(tokens[pos]->Var_0), pos + 2))
        } else {
            None
        }
    } else {
        None
    }
}

/// What chaining applications onto `term` yields: expressions are parsed and
/// folded in from the left until the enclosing expression ends.
pub open spec fn spec_apply(term: Lam, tokens: Seq<TokenV>, pos: int) -> Option<ParseStep>
    decreases tokens.len() - pos, 2nat,
{
    match spec_expression(tokens, pos) {
        None => None,
        Some(ParseStep::End(rest)) => Some(ParseStep::Stop(term, rest)),
        Some(ParseStep::Stop(nt, rest)) => Some(
            ParseStep::Stop(Lam::App(Box::new(term), Box::new(nt)), rest),
        ),
        Some(ParseStep::Continue(nt, rest)) => if pos < rest <= tokens.len() {
            match spec_apply(Lam::App(Box::new(term), Box::new(nt)), tokens, rest) {
                Some(ParseStep::Stop(ft, fr)) => Some(ParseStep::Stop(ft, fr)),
                _ => None,
            }
        } else {
            None
        },
    }
}

/// What parsing a lambda yields: its comma-separated parameters desugar into
/// nested single-parameter abstractions around the body.
pub open spec fn spec_lambda(tokens: Seq<TokenV>, pos: int) -> Option<ParseStep>
    decreases tokens.len() - pos, 2nat,
{
    match spec_params(tokens, pos) {
        None => None,
        Some(ParseStep::End(_)) => None,
        Some(ParseStep::Stop(param, rest)) => if pos < rest <= tokens.len() {
            spec_abstr(param, tokens, rest)
        } else {
            None
        },
        Some(ParseStep::Continue(param, rest)) => if pos < rest <= tokens.len() {
            match param {
                Lam::Var(name) => match spec_lambda(tokens, rest) {
                    Some(ParseStep::Stop(body, new_rest)) => Some(
                        ParseStep::Continue(Lam::Abs(name, Box::new(body)), new_rest),
                    ),
                    Some(ParseStep::Continue(body, new_rest)) => Some(
                        ParseStep::Continue(Lam::Abs(name, Box::new(body)), new_rest),
                    ),
                    _ => None,
                },
                _ => None,
            }
        } else {
            None
        },
    }
}

/// What building an abstraction from a parameter and the expression after
/// the arrow yields.
pub open spec fn spec_abstr(param: Lam, tokens: Seq<TokenV>, pos: int) -> Option<ParseStep>
    decreases tokens.len() - pos, 2nat, 1nat,
{
    match param {
        Lam::Var(name) => match spec_expression(tokens, pos) {
            None => None,
            Some(ParseStep::End(_)) => None,
            Some(ParseStep::Stop(body, rest)) => Some(
                ParseStep::Stop(Lam::Abs(name, Box::new(body)), rest),
            ),
            Some(ParseStep::Continue(head, rest)) => if pos < rest <= tokens.len() {
                match spec_apply(head, tokens, rest) {
                    Some(ParseStep::Stop(body, final_rest)) => Some(
                        ParseStep::Stop(Lam::Abs(name, Box::new(body)), final_rest),
                    ),
                    _ => None,
                }
            } else {
                None
            },
        },
        _ => None,
    }
}

/// What parsing a parenthesized group yields: the whole expression up to the
/// matching closing parenthesis, as a partial result the caller may extend.
pub open spec fn spec_group(tokens: Seq<TokenV>, pos: int) -> Option<ParseStep>
    decreases tokens.len() - pos, 2nat, 1nat,
{
    match spec_expression(tokens, pos) {
        None => None,
        Some(ParseStep::End(_)) => None,
        Some(ParseStep::Stop(term, rest)) => Some(ParseStep::Continue(term, rest)),
        Some(ParseStep::Continue(term, rest)) => if pos < rest <= tokens.len() {
            match spec_apply(term, tokens, rest) {
                Some(ParseStep::Stop(final_term, final_rest)) => Some(
                    ParseStep::Continue(final_term, final_rest),
                ),
                _ => None,
            }
        } else {
            None
        },
    }
}

/// The term a whole token stream parses to, or nothing when the stream is
/// not a well-formed expression.
pub open spec fn spec_parse(tokens: Seq<TokenV>) -> Option<Lam> {
    match spec_expression(tokens, 0) {
        None => None,
        Some(ParseStep::End(_)) => None,
        Some(ParseStep::Stop(term, _)) => Some(term),
        Some(ParseStep::Continue(term, rest)) => if 0 < rest <= tokens.len() {
            match spec_apply(term, tokens, rest) {
                Some(ParseStep::Stop(final_term, _)) => Some(final_term),
                _ => None,
            }
        } else {
            None
        },
    }
}

/// An exec parser outcome and its mathematical form agree: success matches
/// the mirrored step, failure the mirrored rejection.
pub open spec fn mirrors(r: Result<ParserState, ParsingError>, g: Option<ParseStep>) -> bool {
    match r {
        Ok(s) => g matches Some(gs) && step_matches(s, gs),
        Err(_) => g is None,
    }
}

/// Parse one expression head: a variable, a parenthesized group, a lambda,
/// or the end of the enclosing expression.
fn parse_expression(tokens: &Vec<Token>, pos: usize) -> (r: Result<ParserState, ParsingError>)
    requires
        pos <= tokens@.len(),
    ensures
        r matches Ok(s) ==> match s {
            ParserState::Continue(t, p) => t.wf() && pos < p <= tokens@.len(),
            ParserState::Stop(t, p) => t.wf() && pos < p <= tokens@.len(),
            ParserState::End(p) => pos <= p <= tokens@.len(),
        },
        mirrors(r, spec_expression(token_views(tokens@), pos as int)),
    decreases tokens@.len() - pos, 1nat,
{
    let ghost tv = token_views(tokens@);
    if pos >= tokens.len() {
        return Ok(ParserState::End(pos));
    }
    proof {
        assert(tv[pos as int] == tokens@[pos as int]@);
    }
    match &tokens[pos] {
        Token::Var(s) => Ok(ParserState::Continue(AST::var(s.clone()), pos + 1)),
        Token::LParen => group(tokens, pos + 1),
        Token::Lambda => lambda(tokens, pos + 1),
        Token::RParen => Ok(ParserState::End(pos + 1)),
        _ => Err(ParsingError::InvalidSyntax("unexpected token in expression body".to_owned())),
    }
}

/// Parse one lambda parameter together with its separator: a comma announces
/// another parameter, an arrow the body.
fn parse_params(tokens: &Vec<Token>, pos: usize) -> (r: Result<ParserState, ParsingError>)
    requires
        pos <= tokens@.len(),
    ensures
        r matches Ok(s) ==> match s {
            ParserState::Continue(t, p) => t.wf() && t.term is Var && p == pos + 2 && p
                <= tokens@.len(),
            ParserState::Stop(t, p) => t.wf() && t.term is Var && p == pos + 2 && p
                <= tokens@.len(),
            ParserState::End(_) => false,
        },
        mirrors(r, spec_params(token_views(tokens@), pos as int)),
    decreases tokens@.len() - pos, 0nat,
{
    let ghost tv = token_views(tokens@);
    proof {
        if 0 <= pos < tokens@.len() {
            assert(tv[pos as int] == tokens@[pos as int]@);
        }
        if 0 <= pos + 1 < tokens@.len() {
            assert(tv[pos as int + 1] == tokens@[pos as int + 1]@);
        }
    }
    if pos >= tokens.len() {
        return Err(
            ParsingError::InvalidLambda("unexpected end of input in lambda parameters".to_owned()),
        );
    }
    if pos + 1 < tokens.len() {
        let is_var = matches!(&tokens[pos], Token::Var(_));
        if is_var {
            match &tokens[pos] {
                Token::Var(s) => {
                    match &tokens[pos + 1] {
                        Token::Comma => {
                            return Ok(ParserState::Continue(AST::var(s.clone()), pos + 2));
                        },
                        Token::Arrow => {
                            return Ok(ParserState::Stop(AST::var(s.clone()), pos + 2));
                        },
                        _ => {},
                    }
                },
                _ => {},
            }
        }
    }
    Err(ParsingError::InvalidSyntax("unexpected token in lambda parameters".to_owned()))
}

/// Chain applications: extend `term` with parsed expressions until the
/// enclosing expression ends.
fn apply(term: AST, tokens: &Vec<Token>, pos: usize) -> (r: Result<ParserState, ParsingError>)
    requires
        term.wf(),
        pos <= tokens@.len(),
    ensures
        r matches Ok(s) ==> (s matches ParserState::Stop(t, p) && t.wf() && pos <= p
            <= tokens@.len()),
        mirrors(r, spec_apply(term@, token_views(tokens@), pos as int)),
    decreases tokens@.len() - pos, 2nat,
{
    let ghost tv = token_views(tokens@);
    match parse_expression(tokens, pos) {
        Err(e) => Err(e),
        Ok(ParserState::End(rest)) => Ok(ParserState::Stop(term, rest)),
        Ok(ParserState::Stop(new_term, rest)) => Ok(
            ParserState::Stop(AST::apply(term, new_term), rest),
        ),
        Ok(ParserState::Continue(new_term, rest)) => {
            let ghost tm = term@;
            let ghost nv = new_term@;
            match apply(AST::apply(term, new_term), tokens, rest) {
                Err(e) => {
                    proof {
                        assert(spec_apply(tm, tv, pos as int) is None);
                    }
                    Err(e)
                },
                Ok(ParserState::Stop(final_term, final_rest)) => Ok(
                    ParserState::Stop(final_term, final_rest),
                ),
                Ok(_) => unreached(),
            }
        },
    }
}

/// Parse a lambda's parameter list and body, desugaring a comma-separated
/// parameter list into nested single-parameter abstractions.
fn lambda(tokens: &Vec<Token>, pos: usize) -> (r: Result<ParserState, ParsingError>)
    requires
        pos <= tokens@.len(),
    ensures
        r matches Ok(s) ==> match s {
            ParserState::Continue(t, p) => t.wf() && pos < p <= tokens@.len(),
            ParserState::Stop(t, p) => t.wf() && pos < p <= tokens@.len(),
            ParserState::End(_) => false,
        },
        mirrors(r, spec_lambda(token_views(tokens@), pos as int)),
    decreases tokens@.len() - pos, 2nat,
{
    let ghost tv = token_views(tokens@);
    match parse_params(tokens, pos) {
        Err(e) => Err(e),
        Ok(ParserState::End(_)) => unreached(),
        Ok(ParserState::Stop(param, rest)) => {
            proof {
                assert(spec_params(tv, pos as int) matches Some(g) && g matches ParseStep::Stop(
                    l,
                    q,
                ) && l == param@ && q == rest);
            }
            abstr(param, tokens, rest)
        },
        Ok(ParserState::Continue(param, rest)) => {
            let ghost pv = param@;
            proof {
                assert(pv matches Lam::Var(n) && n == crate::ast::name_of(param.term));
            }
            match lambda(tokens, rest) {
                Err(e) => Err(e),
                Ok(ParserState::End(_)) => unreached(),
                Ok(ParserState::Stop(body, new_rest)) => Ok(
                    ParserState::Continue(AST::abstr_var(param, body), new_rest),
                ),
                Ok(ParserState::Continue(body, new_rest)) => Ok(
                    ParserState::Continue(AST::abstr_var(param, body), new_rest),
                ),
            }
        },
    }
}

/// Build an abstraction from a parsed parameter and the expression after the
/// arrow.
fn abstr(param: AST, tokens: &Vec<Token>, pos: usize) -> (r: Result<ParserState, ParsingError>)
    requires
        param.wf(),
        param.term is Var,
        pos <= tokens@.len(),
    ensures
        r matches Ok(s) ==> (s matches ParserState::Stop(t, p) && t.wf() && pos <= p
            <= tokens@.len()),
        mirrors(r, spec_abstr(param@, token_views(tokens@), pos as int)),
    decreases tokens@.len() - pos, 2nat,
{
    let ghost tv = token_views(tokens@);
    proof {
        assert(param@ matches Lam::Var(n) && n == crate::ast::name_of(param.term));
    }
    match parse_expression(tokens, pos) {
        Err(e) => Err(e),
        Ok(ParserState::End(_)) => Err(
            ParsingError::MismatchedParens(
                "a lambda body cannot open with a closing parenthesis".to_owned(),
            ),
        ),
        Ok(ParserState::Stop(body, rest)) => Ok(
            ParserState::Stop(AST::abstr_var(param, body), rest),
        ),
        Ok(ParserState::Continue(head, rest)) => {
            match apply(head, tokens, rest) {
                Err(e) => Err(e),
                Ok(ParserState::Stop(body, final_rest)) => Ok(
                    ParserState::Stop(AST::abstr_var(param, body), final_rest),
                ),
                Ok(_) => unreached(),
            }
        },
    }
}

/// Parse a parenthesized group: the whole expression up to the matching
/// closing parenthesis, handed back as a partial result the caller may
/// extend.
fn group(tokens: &Vec<Token>, pos: usize) -> (r: Result<ParserState, ParsingError>)
    requires
        pos <= tokens@.len(),
    ensures
        r matches Ok(s) ==> (s matches ParserState::Continue(t, p) && t.wf() && pos <= p
            <= tokens@.len()),
        mirrors(r, spec_group(token_views(tokens@), pos as int)),
    decreases tokens@.len() - pos, 2nat,
{
    let ghost tv = token_views(tokens@);
    match parse_expression(tokens, pos) {
        Err(e) => Err(e),
        Ok(ParserState::End(_)) => Err(
            ParsingError::MismatchedParens("empty parentheses are not permitted".to_owned()),
        ),
        Ok(ParserState::Stop(term, rest)) => Ok(ParserState::Continue(term, rest)),
        Ok(ParserState::Continue(term, rest)) => {
            match apply(term, tokens, rest) {
                Err(e) => Err(e),
                Ok(ParserState::Stop(final_term, final_rest)) => Ok(
                    ParserState::Continue(final_term, final_rest),
                ),
                Ok(_) => unreached(),
            }
        },
    }
}

/// Parse a whole token stream into a term; every term built on the way is
/// well-formed, with its cached attributes computed by the constructors.
pub fn parse(tokens: &Vec<Token>) -> (r: Result<AST, ParsingError>)
    ensures
        r matches Ok(t) ==> t.wf() && spec_parse(token_views(tokens@)) == Some(t@),
        r is Err <==> spec_parse(token_views(tokens@)) is None,
{
    let ghost tv = token_views(tokens@);
    match parse_expression(tokens, 0) {
        Err(e) => Err(e),
        Ok(ParserState::End(_)) => Err(
            ParsingError::MismatchedParens(
                "an expression cannot open with a closing parenthesis".to_owned(),
            ),
        ),
        Ok(ParserState::Stop(term, _)) => Ok(term),
        Ok(ParserState::Continue(term, rest)) => {
            match apply(term, tokens, rest) {
                Err(e) => Err(e),
                Ok(ParserState::Stop(final_term, _)) => Ok(final_term),
                Ok(_) => unreached(),
            }
        },
    }
}

} // verus!
