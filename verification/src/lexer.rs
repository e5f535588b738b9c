use vstd::prelude::*;

verus! {

/// A lexical token of the surface syntax: a variable identifier, the lambda
/// introducer, the arrow between parameters and body, parentheses, and the
/// comma between parameters.
#[derive(Debug)]
pub enum Token {
    Var(String),
    Lambda,
    Arrow,
    LParen,
    RParen,
    Comma,
}

/// The mathematical form of a token: the variable case carries its
/// identifier as a character sequence.
pub ghost enum TokenV {
    Var(Seq<char>),
    Lambda,
    Arrow,
    LParen,
    RParen,
    Comma,
}

impl View for Token {
    type V = TokenV;

    open spec fn view(&self) -> TokenV {
        match self {
            Token::Var(s) => TokenV::Var(s@),
            Token::Lambda => TokenV::Lambda,
            Token::Arrow => TokenV::Arrow,
            Token::LParen => TokenV::LParen,
            Token::RParen => TokenV::RParen,
            Token::Comma => TokenV::Comma,
        }
    }
}

/// A character admitted in a variable identifier.
pub open spec fn ident_char(c: char) -> bool {
    ('a' <= c && c <= 'z') || ('A' <= c && c <= 'Z') || ('0' <= c && c <= '9') || c == '_'
}

/// The token a matched lexeme stands for: the fixed symbols map to their
/// tokens, an identifier to a variable token, and anything else to nothing.
pub open spec fn token_for(lexeme: Seq<char>) -> Option<TokenV> {
    if lexeme == seq!['$'] {
        Some(TokenV::Lambda)
    } else if lexeme == seq!['-', '>'] {
        Some(TokenV::Arrow)
    } else if lexeme == seq!['('] {
        Some(TokenV::LParen)
    } else if lexeme == seq![')'] {
        Some(TokenV::RParen)
    } else if lexeme == seq![','] {
        Some(TokenV::Comma)
    } else if forall|i: int| 0 <= i < lexeme.len() ==> ident_char(#[trigger] lexeme[i]) {
        Some(TokenV::Var(lexeme))
    } else {
        None
    }
}

/// The token stream for a sequence of lexemes: each classified lexeme in
/// order, the unclassifiable ones dropped.
pub open spec fn tokens_for(lexemes: Seq<Seq<char>>) -> Seq<TokenV>
    decreases lexemes.len(),
{
    if lexemes.len() == 0 {
        Seq::empty()
    } else {
        match token_for(lexemes.first()) {
            Some(t) => seq![t] + tokens_for(lexemes.drop_first()),
            None => tokens_for(lexemes.drop_first()),
        }
    }
}

/// Classifying distributes over extension at the end of the lexeme sequence.
proof fn lemma_tokens_for_push(lexemes: Seq<Seq<char>>, lexeme: Seq<char>)
    ensures
        tokens_for(lexemes.push(lexeme)) == tokens_for(lexemes) + (match token_for(lexeme) {
            Some(t) => seq![t],
            None => Seq::<TokenV>::empty(),
        }),
    decreases lexemes.len(),
{
    let whole = lexemes.push(lexeme);
    if lexemes.len() == 0 {
        assert(whole.first() == lexeme);
        assert(whole.drop_first() =~= Seq::<Seq<char>>::empty());
        assert(tokens_for(Seq::<Seq<char>>::empty()) == Seq::<TokenV>::empty());
        assert(tokens_for(lexemes) == Seq::<TokenV>::empty());
        match token_for(lexeme) {
            Some(t) => {
                assert(tokens_for(whole) =~= tokens_for(lexemes) + seq![t]);
            },
            None => {
                assert(tokens_for(whole) =~= tokens_for(lexemes));
            },
        }
    } else {
        assert(whole.first() == lexemes.first());
        assert(whole.drop_first() =~= lexemes.drop_first().push(lexeme));
        lemma_tokens_for_push(lexemes.drop_first(), lexeme);
        match token_for(lexemes.first()) {
            Some(t) => {
                assert(tokens_for(whole) =~= tokens_for(lexemes) + (match token_for(lexeme) {
                    Some(t2) => seq![t2],
                    None => Seq::<TokenV>::empty(),
                }));
            },
            None => {},
        }
    }
}

/// What `regex::Regex::find_iter` yields for a pattern and a haystack: the
/// successive non-overlapping matched substrings, leftmost first — a
/// function of the two strings alone.
pub uninterp spec fn regex_matches(pattern: Seq<char>, text: Seq<char>) -> Seq<Seq<char>>;

/// Whether `regex::Regex::new` accepts a pattern: compilation fails exactly
/// on an invalid or oversized pattern, so its outcome is a function of the
/// pattern alone.
pub uninterp spec fn regex_compiles(pattern: Seq<char>) -> bool;

/// The external-crate error a pattern compilation can report.
#[verifier::external_type_specification]
#[verifier::external_body]
pub struct ExRegexError(regex::Error);

/// Relies on regex::Regex::new and regex::Regex::find_iter: compiling a
/// pattern fails on an invalid or oversized one, and searching with a
/// compiled regex yields the successive non-overlapping matches of the
/// haystack, leftmost first, determined by pattern and haystack alone.
#[verifier::external_body]
fn regex_find_all(pattern: &str, text: &str) -> (r: Result<Vec<String>, regex::Error>)
    ensures
        r is Ok <==> regex_compiles(pattern@),
        r matches Ok(v) ==> v.deep_view() == regex_matches(pattern@, text@),
{
    let re = regex::Regex::new(pattern)?;
    Ok(re.find_iter(text).map(|m| m.as_str().to_string()).collect())
}

/// Relies on the Debug rendering of regex::Error to describe a failed
/// pattern compilation.
#[verifier::external_body]
pub(crate) fn regex_error_text(e: &regex::Error) -> String {
    format!("{:?}", e)
}

fn classify(lexeme: &String) -> (r: Option<Token>)
    ensures
        match r {
            Some(t) => token_for(lexeme@) == Some(t@),
            None => token_for(lexeme@) is None,
        },
{
    let s = lexeme.as_str();
    let n = s.unicode_len();
    if n == 1 {
        let c = s.get_char(0);
        if c == '$' {
            proof {
                assert(lexeme@ =~= seq!['$']);
            }
            return Some(Token::Lambda);
        }
        if c == '(' {
            proof {
                assert(lexeme@ =~= seq!['(']);
            }
            return Some(Token::LParen);
        }
        if c == ')' {
            proof {
                assert(lexeme@ =~= seq![')']);
            }
            return Some(Token::RParen);
        }
        if c == ',' {
            proof {
                assert(lexeme@ =~= seq![',']);
            }
            return Some(Token::Comma);
        }
    }
    if n == 2 {
        let c0 = s.get_char(0);
        let c1 = s.get_char(1);
        if c0 == '-' && c1 == '>' {
            proof {
                assert(lexeme@ =~= seq!['-', '>']);
            }
            return Some(Token::Arrow);
        }
    }
    // not one of the fixed symbols: an identifier, or nothing
    proof {
        assert(lexeme@ != seq!['$'] && lexeme@ != seq!['('] && lexeme@ != seq![')'] && lexeme@
            != seq![','] && lexeme@ != seq!['-', '>']);
    }
    let mut i: usize = 0;
    while i < n
        invariant
            n == lexeme@.len(),
            s@ == lexeme@,
            i <= n,
            forall|j: int| 0 <= j < i ==> ident_char(#[trigger] lexeme@[j]),
            lexeme@ != seq!['$'] && lexeme@ != seq!['('] && lexeme@ != seq![')'] && lexeme@
                != seq![','] && lexeme@ != seq!['-', '>'],
        decreases n - i,
    {
        let c = s.get_char(i);
        let alpha_lower = 'a' <= c && c <= 'z';
        let alpha_upper = 'A' <= c && c <= 'Z';
        let digit = '0' <= c && c <= '9';
        if !(alpha_lower || alpha_upper || digit || c == '_') {
            proof {
                assert(!ident_char(lexeme@[i as int]));
            }
            return None;
        }
        i = i + 1;
    }
    proof {
        assert(lexeme@ != seq!['$'] && lexeme@ != seq!['('] && lexeme@ != seq![')'] && lexeme@
            != seq![','] && lexeme@ != seq!['-', '>']);
    }
    Some(Token::Var(lexeme.clone()))
}

/// Split source text into tokens: the lexemes the token pattern finds in the
/// text, each classified; a failed pattern compilation is reported to the
/// caller unrecovered.
pub fn tokenize(input: &str) -> (r: Result<Vec<Token>, regex::Error>)
    ensures
        r is Ok <==> regex_compiles(token_pattern_view()),
        r matches Ok(tokens) ==> tokens@.map_values(|t: Token| t@) == tokens_for(
            regex_matches(token_pattern_view(), input@),
        ),
{
    let pattern = token_pattern();
    let lexemes = match regex_find_all(pattern, input) {
        Ok(v) => v,
        Err(e) => {
            return Err(e);
        },
    };
    let ghost all = lexemes.deep_view();
    let mut tokens: Vec<Token> = Vec::new();
    let mut i: usize = 0;
    proof {
        assert(all.take(0) =~= Seq::<Seq<char>>::empty());
        assert(tokens@.map_values(|t: Token| t@) =~= tokens_for(all.take(0)));
    }
    while i < lexemes.len()
        invariant
            i <= lexemes@.len(),
            all == lexemes.deep_view(),
            all.len() == lexemes@.len(),
            tokens@.map_values(|t: Token| t@) == tokens_for(all.take(i as int)),
        decreases lexemes@.len() - i,
    {
        let ghost before = tokens@;
        proof {
            assert(all[i as int] == lexemes@[i as int]@);
            assert(all.take(i as int + 1) =~= all.take(i as int).push(all[i as int]));
            lemma_tokens_for_push(all.take(i as int), all[i as int]);
        }
        match classify(&lexemes[i]) {
            Some(t) => {
                tokens.push(t);
                proof {
                    assert(tokens@ =~= before.push(tokens@[tokens@.len() - 1]));
                    assert(tokens@.map_values(|t: Token| t@) =~= before.map_values(
                        |t: Token| t@,
                    ).push(tokens@[tokens@.len() - 1]@));
                    assert(tokens@.map_values(|t: Token| t@) =~= tokens_for(
                        all.take(i as int + 1),
                    ));
                }
            },
            None => {
                proof {
                    assert(tokens@.map_values(|t: Token| t@) =~= tokens_for(
                        all.take(i as int + 1),
                    ));
                }
            },
        }
        i = i + 1;
    }
    proof {
        assert(all.take(all.len() as int) =~= all);
    }
    Ok(tokens)
}

/// The lexical pattern of the surface syntax: the lambda introducer, the
/// arrow, identifiers, and the three punctuation marks.
fn token_pattern() -> (r: &'static str)
    ensures
        r@ == token_pattern_view(),
{
    "\\$|->|[a-zA-Z_][a-zA-Z_0-9]*|[(),]"
}

/// The lexical pattern as a character sequence.
pub open spec fn token_pattern_view() -> Seq<char> {
    "\\$|->|[a-zA-Z_][a-zA-Z_0-9]*|[(),]"@
}

} // verus!
