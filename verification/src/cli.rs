//! The command-line request description of the HTTP client: the argument
//! structure, the request methods, and the parsing of `key=value` /
//! `key:value` parameters with backslash escapes.
use vstd::prelude::*;

verus! {

/// One request parameter: a header (written with `:`) or a data field
/// (written with `=`).
#[derive(Debug)]
pub enum Parameter {
    Header { key: String, value: String },
    Data { key: String, value: String },
}

impl Parameter {
    /// Whether this parameter carries data rather than a header.
    pub fn is_data(&self) -> (b: bool)
        ensures
            b == (self is Data),
    {
        match self {
            Parameter::Header { .. } => false,
            _ => true,
        }
    }
}

/// The positional arguments of one request method.
#[derive(Debug)]
pub struct MethodData {
    /// The URL to request.
    pub url: String,
    /// The headers, data, and query parameters to add to the request.
    pub parameters: Vec<Parameter>,
}

/// The HTTP method subcommand with its arguments.
#[allow(non_camel_case_types)]
#[derive(Debug)]
pub enum Method {
    HEAD(MethodData),
    GET(MethodData),
    PUT(MethodData),
    POST(MethodData),
    PATCH(MethodData),
    DELETE(MethodData),
}

impl Method {
    /// The arguments carried by any of the method variants.
    pub open spec fn spec_data(self) -> MethodData {
        match self {
            Method::HEAD(x) => x,
            Method::GET(x) => x,
            Method::PUT(x) => x,
            Method::POST(x) => x,
            Method::PATCH(x) => x,
            Method::DELETE(x) => x,
        }
    }

    /// The arguments carried by this method, whichever variant it is.
    pub fn data(&self) -> (d: &MethodData)
        ensures
            *d == self.spec_data(),
    {
        match self {
            Method::HEAD(x) => x,
            Method::GET(x) => x,
            Method::PUT(x) => x,
            Method::POST(x) => x,
            Method::PATCH(x) => x,
            Method::DELETE(x) => x,
        }
    }
}

/// The parsed command line of the HTTP client. Paths are carried as plain
/// strings; the boundary layer that talks to the file system converts them.
#[derive(Debug)]
pub struct App {
    /// Activate quiet mode.
    pub quiet: bool,
    /// Verbosity level, from repeated flags.
    pub verbose: u8,
    /// Form mode.
    pub form: bool,
    /// Basic authentication.
    pub auth: Option<String>,
    /// Bearer token authentication.
    pub token: Option<String>,
    /// Session name.
    pub session: Option<String>,
    /// Session storage location.
    pub session_dir: Option<String>,
    /// Use the stored session without modifying it.
    pub read_only: bool,
    /// Default to https when no scheme is given.
    pub secure: bool,
    /// The method subcommand, if one was given.
    pub cmd: Option<Method>,
    /// The URL to request when no method subcommand is given.
    pub url: Option<String>,
    /// The parameters of the request when no method subcommand is given.
    pub parameters: Vec<Parameter>,
}

impl App {
    /// A command line is usable only when it names a method subcommand or a
    /// bare URL.
    pub fn validate(&mut self) -> (r: Result<(), ()>)
        ensures
            *final(self) == *old(self),
            (r is Ok) == !(old(self).cmd is None && old(self).url is None),
    {
        if self.cmd.is_none() && self.url.is_none() {
            return Err(());
        }
        Ok(())
    }
}

/// A piece of a parameter argument: a literal run of text, or one escaped
/// separator character.
#[derive(Debug)]
pub enum Token {
    Text(String),
    Escape(char),
}

/// The characters a token stands for in the source text: escapes keep their
/// backslash.
pub open spec fn token_text(t: Token) -> Seq<char> {
    match t {
        Token::Text(s) => s@,
        Token::Escape(c) => seq!['\\', c],
    }
}

/// The concatenated source text of a token sequence.
pub open spec fn tokens_text(ts: Seq<Token>) -> Seq<char>
    decreases ts.len(),
{
    if ts.len() == 0 {
        Seq::empty()
    } else {
        token_text(ts[0]) + tokens_text(ts.drop_first())
    }
}

proof fn lemma_tokens_text_snoc(ts: Seq<Token>, t: Token)
    ensures
        tokens_text(ts.push(t)) == tokens_text(ts) + token_text(t),
    decreases ts.len(),
{
    if ts.len() == 0 {
        assert(ts.push(t).drop_first() =~= Seq::<Token>::empty());
        assert(ts.push(t)[0] == t);
        assert(tokens_text(ts) == Seq::<char>::empty());
        assert(tokens_text(ts.push(t).drop_first()) == Seq::<char>::empty());
        assert(tokens_text(ts.push(t)) =~= tokens_text(ts) + token_text(t));
    } else {
        assert(ts.push(t).drop_first() =~= ts.drop_first().push(t));
        lemma_tokens_text_snoc(ts.drop_first(), t);
        assert(tokens_text(ts.push(t)) =~= tokens_text(ts) + token_text(t));
    }
}

/// Splits a parameter argument into text runs and escaped separators. A
/// backslash before `\`, `=` or `:` makes an escape token; any other
/// backslash, a trailing one included, stays ordinary text. Concatenating the
/// tokens' source text gives back the input.
pub fn gather_escapes(src: &str) -> (tokens: Vec<Token>)
    ensures
        tokens_text(tokens@) == src@,
        forall|k: int|
            0 <= k < tokens@.len() ==> (#[trigger] tokens@[k] matches Token::Escape(c) ==> (c
                == '\\' || c == '=' || c == ':')),
        forall|k: int|
            0 <= k < tokens@.len() ==> (#[trigger] tokens@[k] matches Token::Text(t) ==> t@.len()
                > 0),
{
    let n = src.unicode_len();
    let mut tokens: Vec<Token> = Vec::new();
    let mut start: usize = 0;
    let mut i: usize = 0;
    while i < n
        invariant
            start <= i <= n,
            n == src@.len(),
            tokens_text(tokens@) + src@.subrange(start as int, i as int) == src@.take(i as int),
            forall|k: int|
                0 <= k < tokens@.len() ==> (#[trigger] tokens@[k] matches Token::Escape(c) ==> (c
                    == '\\' || c == '=' || c == ':')),
            forall|k: int|
                0 <= k < tokens@.len() ==> (#[trigger] tokens@[k] matches Token::Text(t) ==> t@.len()
                    > 0),
        decreases n - i,
    {
        let c = src.get_char(i);
        if c != '\\' || i + 1 == n {
            proof {
                assert(tokens_text(tokens@) + src@.subrange(start as int, i as int + 1) =~= (
                tokens_text(tokens@) + src@.subrange(start as int, i as int)).push(src@[i as int]));
                assert(src@.take(i as int + 1) =~= src@.take(i as int).push(src@[i as int]));
            }
            i += 1;
        } else {
            let c2 = src.get_char(i + 1);
            if c2 == '\\' || c2 == '=' || c2 == ':' {
                if start != i {
                    let t = src.substring_char(start, i);
                    let owned = t.to_owned();
                    let ghost toks0 = tokens@;
                    let ghost tk = Token::Text(owned);
                    tokens.push(Token::Text(owned));
                    proof {
                        lemma_tokens_text_snoc(toks0, tk);
                        assert(tokens_text(tokens@) =~= src@.take(i as int));
                    }
                }
                proof {
                    if start == i {
                        assert(src@.subrange(start as int, i as int) =~= Seq::<char>::empty());
                        assert(tokens_text(tokens@) + src@.subrange(start as int, i as int)
                            =~= tokens_text(tokens@));
                    }
                    assert(tokens_text(tokens@) == src@.take(i as int));
                }
                let ghost toks1 = tokens@;
                tokens.push(Token::Escape(c2));
                proof {
                    lemma_tokens_text_snoc(toks1, Token::Escape(c2));
                    assert(tokens_text(toks1) == src@.take(i as int));
                    assert(tokens_text(tokens@) =~= src@.take(i as int + 2)) by {
                        assert(token_text(Token::Escape(c2)) =~= seq!['\\', c2]);
                        assert(src@[i as int] == '\\' && src@[i as int + 1] == c2);
                        assert(src@.take(i as int + 2) =~= src@.take(i as int).push(
                            src@[i as int],
                        ).push(src@[i as int + 1]));
                    }
                }
                i += 2;
                start = i;
                proof {
                    assert(src@.subrange(start as int, i as int) =~= Seq::<char>::empty());
                    assert(tokens_text(tokens@) + src@.subrange(start as int, i as int)
                        =~= tokens_text(tokens@));
                }
            } else {
                proof {
                    assert(tokens_text(tokens@) + src@.subrange(start as int, i as int + 2) =~= (
                    tokens_text(tokens@) + src@.subrange(start as int, i as int)).push(
                        src@[i as int],
                    ).push(src@[i as int + 1]));
                    assert(src@.take(i as int + 2) =~= src@.take(i as int).push(
                        src@[i as int],
                    ).push(src@[i as int + 1]));
                }
                i += 2;
            }
        }
    }
    if start != n {
        let t = src.substring_char(start, n);
        let owned = t.to_owned();
        let ghost toks0 = tokens@;
        let ghost tk = Token::Text(owned);
        tokens.push(Token::Text(owned));
        proof {
            lemma_tokens_text_snoc(toks0, tk);
            assert(tokens_text(tokens@) =~= src@.take(n as int));
        }
    } else {
        proof {
            assert(src@.subrange(start as int, n as int) =~= Seq::<char>::empty());
            assert(tokens_text(tokens@) + src@.subrange(start as int, n as int) =~= tokens_text(
                tokens@,
            ));
        }
    }
    proof {
        assert(src@.take(n as int) =~= src@);
    }
    tokens
}

/// The position of the first separator (`=` or `:`) in `s` at or after `i`
/// that is not consumed by a backslash pair, or -1 when there is none. A
/// backslash consumes the character after it, whatever it is.
pub open spec fn find_sep(s: Seq<char>, i: int) -> int
    decreases s.len() - i,
{
    if i < 0 || i >= s.len() {
        -1
    } else if s[i] == '=' || s[i] == ':' {
        i
    } else if s[i] == '\\' && i + 1 < s.len() {
        find_sep(s, i + 2)
    } else {
        find_sep(s, i + 1)
    }
}

/// Parses one parameter argument: splits it at the first unescaped separator,
/// `:` making a header and `=` making a data field. The key is everything
/// before the separator and the value everything after it, escapes kept as
/// written. Fails exactly when no unescaped separator occurs.
pub fn parse_param(src: &str) -> (r: Result<Parameter, &'static str>)
    ensures
        (r is Ok) == (find_sep(src@, 0) >= 0),
        r is Ok ==> ({
            let p = find_sep(src@, 0);
            &&& 0 <= p < src@.len()
            &&& (src@[p] == ':' ==> (r->Ok_0 matches Parameter::Header { key, value } && key@
                == src@.take(p) && value@ == src@.skip(p + 1)))
            &&& (src@[p] == '=' ==> (r->Ok_0 matches Parameter::Data { key, value } && key@
                == src@.take(p) && value@ == src@.skip(p + 1)))
        }),
        r is Err ==> r->Err_0@ == "missing separator"@,
{
    let n = src.unicode_len();
    let mut i: usize = 0;
    while i < n
        invariant
            i <= n,
            n == src@.len(),
            find_sep(src@, 0) == find_sep(src@, i as int),
        decreases n - i,
    {
        let c = src.get_char(i);
        if c == '=' || c == ':' {
            proof {
                assert(find_sep(src@, i as int) == i as int);
            }
            let key_str = src.substring_char(0, i);
            let value_str = src.substring_char(i + 1, n);
            let key = key_str.to_owned();
            let value = value_str.to_owned();
            proof {
                assert(key@ =~= src@.take(i as int));
                assert(value@ =~= src@.skip(i as int + 1));
            }
            if c == ':' {
                return Ok(Parameter::Header { key, value });
            } else {
                return Ok(Parameter::Data { key, value });
            }
        } else if c == '\\' && i + 1 < n {
            proof {
                assert(find_sep(src@, i as int) == find_sep(src@, i as int + 2));
            }
            i += 2;
        } else {
            proof {
                assert(find_sep(src@, i as int) == find_sep(src@, i as int + 1));
            }
            i += 1;
        }
    }
    proof {
        assert(find_sep(src@, i as int) == -1);
    }
    Err("missing separator")
}

} // verus!
