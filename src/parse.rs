//! The parser: drives a lexer and a request builder through
//! `request-line header-line* CRLF body`.
use vstd::prelude::*;
use crate::lex::{
    initial_lex, lemma_lex_extend, lemma_lex_progress, lemma_lex_read, lex_measure, lex_step,
    LexModel, LexOutcome, LexStep, Token, TokenModel,
};
use crate::lexer::Lexer;
use crate::request::{HttpMethod, HttpRequest, HttpRequestBuilder, RequestModel};
use crate::source::ByteSource;

verus! {

/// Why a request could not be parsed.
#[derive(Debug, PartialEq)]
pub enum ParseError {
    Unexpected { msg: String },
    EarlyEof,
    MaxHeaderSizeExceeded,
}

/// The kind of a parse error.
pub enum ParseErr {
    Unexpected,
    EarlyEof,
    MaxHeaderSizeExceeded,
}

impl View for ParseError {
    type V = ParseErr;

    open spec fn view(&self) -> ParseErr {
        match self {
            ParseError::Unexpected { .. } => ParseErr::Unexpected,
            ParseError::EarlyEof => ParseErr::EarlyEof,
            ParseError::MaxHeaderSizeExceeded => ParseErr::MaxHeaderSizeExceeded,
        }
    }
}

pub open spec fn result_view(r: Result<HttpRequest, ParseError>) -> Result<RequestModel, ParseErr> {
    match r {
        Ok(q) => Ok(q@),
        Err(e) => Err(e@),
    }
}

/// What the parser expects next.
#[derive(Clone, Copy, Debug, PartialEq, Eq, Structural)]
pub enum Stage {
    Method,
    Path,
    Protocol,
    LineEnd,
    Header,
    Value,
    Body,
    Done,
}

/// The parser's state: its lexer's, the request so far, and the header name
/// that waits for its value.
pub struct ParseModel {
    pub stage: Stage,
    pub lex: LexModel,
    pub request: RequestModel,
    pub name: Seq<char>,
}

/// The request a builder starts from.
pub open spec fn empty_request() -> RequestModel {
    RequestModel {
        method: HttpMethod::GET,
        path: Seq::empty(),
        headers: Map::empty(),
        body: Seq::empty(),
    }
}

pub open spec fn initial_parse() -> ParseModel {
    ParseModel {
        stage: Stage::Method,
        lex: initial_lex(),
        request: empty_request(),
        name: Seq::empty(),
    }
}

/// A finished parser: partial state discarded.
pub open spec fn finished(lex: LexModel) -> ParseModel {
    ParseModel { stage: Stage::Done, lex, request: empty_request(), name: Seq::empty() }
}

pub enum Advance {
    Continue(ParseModel),
    Finish(Result<RequestModel, ParseErr>),
}

/// What the parser makes of token `t` (its lexer state already updated).
pub open spec fn on_token(pm: ParseModel, t: TokenModel) -> Advance {
    let unexpected = Advance::Finish(Err(ParseErr::Unexpected));
    match t {
        TokenModel::MaxHeaderSizeExceeded => Advance::Finish(Err(ParseErr::MaxHeaderSizeExceeded)),
        _ => match pm.stage {
            Stage::Method => match t {
                TokenModel::Method(m) => Advance::Continue(
                    ParseModel {
                        stage: Stage::Path,
                        request: RequestModel { method: m, ..pm.request },
                        ..pm
                    },
                ),
                _ => unexpected,
            },
            Stage::Path => match t {
                TokenModel::Path(p) => Advance::Continue(
                    ParseModel {
                        stage: Stage::Protocol,
                        request: RequestModel { path: p, ..pm.request },
                        ..pm
                    },
                ),
                _ => unexpected,
            },
            Stage::Protocol => match t {
                TokenModel::Protocol => Advance::Continue(ParseModel { stage: Stage::LineEnd, ..pm }),
                _ => unexpected,
            },
            Stage::LineEnd => match t {
                TokenModel::Crlf => Advance::Continue(ParseModel { stage: Stage::Header, ..pm }),
                _ => unexpected,
            },
            Stage::Header => match t {
                TokenModel::Crlf => Advance::Continue(ParseModel { stage: Stage::Body, ..pm }),
                TokenModel::HeaderName(n) => Advance::Continue(
                    ParseModel { stage: Stage::Value, name: n, ..pm },
                ),
                _ => unexpected,
            },
            Stage::Value => match t {
                TokenModel::HeaderValue(v) => Advance::Continue(
                    ParseModel {
                        stage: Stage::Header,
                        request: RequestModel {
                            headers: pm.request.headers.insert(pm.name, v),
                            ..pm.request
                        },
                        ..pm
                    },
                ),
                _ => unexpected,
            },
            Stage::Body => match t {
                TokenModel::Body(b) => Advance::Finish(Ok(RequestModel { body: b, ..pm.request })),
                _ => unexpected,
            },
            Stage::Done => Advance::Finish(Err(ParseErr::EarlyEof)),
        },
    }
}

/// What the parser does next.
pub enum ParseOutcome {
    /// Read up to this many bytes and hand them over; none means end of input.
    Read(nat),
    Done(Result<RequestModel, ParseErr>),
}

/// The parser on buffer `s` (`eof`: the input ends there) runs until it
/// needs more input or is done.
pub open spec fn parse_advance(s: Seq<u8>, eof: bool, pm: ParseModel) -> (ParseOutcome, ParseModel)
    decreases lex_measure(s, pm.lex),
    via parse_advance_decreases
{
    if pm.stage == Stage::Done {
        (ParseOutcome::Done(Err(ParseErr::EarlyEof)), pm)
    } else {
        let (o, lm) = lex_step(s, eof, pm.lex);
        match o {
            LexOutcome::Read(n) => (ParseOutcome::Read(n), pm),
            LexOutcome::Finished => (ParseOutcome::Done(Err(ParseErr::EarlyEof)), finished(lm)),
            LexOutcome::Emit(t) => match on_token(ParseModel { lex: lm, ..pm }, t) {
                Advance::Finish(r) => (ParseOutcome::Done(r), finished(lm)),
                Advance::Continue(next) => parse_advance(s, eof, next),
            },
        }
    }
}

#[via_fn]
proof fn parse_advance_decreases(s: Seq<u8>, eof: bool, pm: ParseModel) {
    lemma_lex_progress(s, eof, pm.lex);
}

/// What the parser makes of the whole input `s`.
pub open spec fn parse_result(s: Seq<u8>, pm: ParseModel) -> Result<RequestModel, ParseErr> {
    match parse_advance(s, true, pm).0 {
        ParseOutcome::Done(r) => r,
        ParseOutcome::Read(_) => Err(ParseErr::EarlyEof),
    }
}

/// The request, or the error, that input `s` gives.
pub open spec fn parse_request(s: Seq<u8>) -> Result<RequestModel, ParseErr> {
    parse_result(s, initial_parse())
}

/// A request for input comes only before the end of input, and asks for at
/// least one byte.
pub proof fn lemma_parse_read(s: Seq<u8>, eof: bool, pm: ParseModel)
    ensures
        parse_advance(s, eof, pm).0 is Read ==> !eof && parse_advance(s, eof, pm).0->Read_0 > 0,
    decreases lex_measure(s, pm.lex),
{
    if pm.stage != Stage::Done {
        lemma_lex_read(s, eof, pm.lex);
        lemma_lex_progress(s, eof, pm.lex);
        let (o, lm) = lex_step(s, eof, pm.lex);
        if let LexOutcome::Emit(t) = o {
            if let Advance::Continue(next) = on_token(ParseModel { lex: lm, ..pm }, t) {
                lemma_parse_read(s, eof, next);
            }
        }
    }
}

/// What the parser decides on the bytes held so far, before the end of input,
/// holds of the whole input.
pub proof fn lemma_parse_extend(p: Seq<u8>, s: Seq<u8>, pm: ParseModel)
    requires
        p.len() <= s.len(),
        p == s.subrange(0, p.len() as int),
    ensures
        parse_result(s, pm) == match parse_advance(p, false, pm).0 {
            ParseOutcome::Done(r) => r,
            ParseOutcome::Read(_) => parse_result(s, parse_advance(p, false, pm).1),
        },
    decreases lex_measure(p, pm.lex),
{
    if pm.stage != Stage::Done {
        let (o, lm) = lex_step(p, false, pm.lex);
        if !(o is Read) {
            lemma_lex_extend(p, s, pm.lex);
            lemma_lex_progress(p, false, pm.lex);
            if let LexOutcome::Emit(t) = o {
                if let Advance::Continue(next) = on_token(ParseModel { lex: lm, ..pm }, t) {
                    lemma_parse_extend(p, s, next);
                }
            }
        }
    }
}

/// What one call of `Parser::step` returns.
#[derive(Debug)]
pub enum ParseStep {
    /// Read up to this many bytes and hand them over; none means end of input.
    Read(usize),
    Done(Result<HttpRequest, ParseError>),
}

impl View for ParseStep {
    type V = ParseOutcome;

    open spec fn view(&self) -> ParseOutcome {
        match self {
            ParseStep::Read(n) => ParseOutcome::Read(*n as nat),
            ParseStep::Done(r) => ParseOutcome::Done(result_view(*r)),
        }
    }
}

/// Turns bytes into a request. It never reads: it asks for input, which the
/// caller hands over with `supply`.
pub struct Parser {
    lexer: Lexer,
    stage: Stage,
    builder: HttpRequestBuilder,
    name: String,
}

impl Parser {
    pub closed spec fn model(&self) -> ParseModel {
        ParseModel {
            stage: self.stage,
            lex: self.lexer.model(),
            request: self.builder@,
            name: self.name@,
        }
    }

    /// The bytes handed over so far.
    pub closed spec fn buffered(&self) -> Seq<u8> {
        self.lexer.buffered()
    }

    /// The end of input has been handed over.
    pub closed spec fn at_eof(&self) -> bool {
        self.lexer.at_eof()
    }

    pub closed spec fn wf(&self) -> bool {
        self.lexer.wf()
    }

    /// A parser that holds no bytes yet.
    pub fn new() -> (r: Parser)
        ensures
            r.wf(),
            r.model() == initial_parse(),
            r.buffered() == Seq::<u8>::empty(),
            !r.at_eof(),
    {
        Parser {
            lexer: Lexer::new(),
            stage: Stage::Method,
            builder: HttpRequestBuilder::new(),
            name: String::new(),
        }
    }

    /// Hands over bytes that were read; none means the input has ended.
    pub fn supply(&mut self, bytes: &[u8])
        requires
            old(self).wf(),
        ensures
            final(self).wf(),
            final(self).model() == old(self).model(),
            final(self).buffered() == old(self).buffered() + bytes@,
            final(self).at_eof() == (old(self).at_eof() || bytes@.len() == 0),
    {
        self.lexer.supply(bytes);
    }

    /// Ends the parse: the request built so far, the builder left empty.
    fn finish(&mut self) -> (r: HttpRequest)
        ensures
            r@ == old(self).builder@,
            final(self).model() == finished(old(self).lexer.model()),
            final(self).lexer == old(self).lexer,
    {
        let mut done = HttpRequestBuilder::new();
        std::mem::swap(&mut done, &mut self.builder);
        self.stage = Stage::Done;
        self.name = String::new();
        done.build()
    }

    fn fail(&mut self, e: ParseError) -> (r: Option<Result<HttpRequest, ParseError>>)
        ensures
            r == Some(Err::<HttpRequest, ParseError>(e)),
            final(self).model() == finished(old(self).lexer.model()),
            final(self).lexer == old(self).lexer,
    {
        let _ = self.finish();
        Some(Err(e))
    }

    fn unexpected(&mut self, msg: &str) -> (r: Option<Result<HttpRequest, ParseError>>)
        ensures
            r.is_some() && result_view(r.unwrap()) == Err::<RequestModel, ParseErr>(ParseErr::Unexpected),
            final(self).model() == finished(old(self).lexer.model()),
            final(self).lexer == old(self).lexer,
    {
        self.fail(ParseError::Unexpected { msg: msg.to_owned() })
    }

    /// Takes token `t`: `None` to go on, or the result.
    fn on_token(&mut self, t: Token) -> (r: Option<Result<HttpRequest, ParseError>>)
        requires
            old(self).stage != Stage::Done,
        ensures
            final(self).lexer == old(self).lexer,
            match on_token(old(self).model(), t@) {
                Advance::Finish(res) => r.is_some() && result_view(r.unwrap()) == res
                    && final(self).model() == finished(old(self).lexer.model()),
                Advance::Continue(next) => r.is_none() && final(self).model() == next,
            },
    {
        match t {
            Token::MaxHeaderSizeExceeded => {
                return self.fail(ParseError::MaxHeaderSizeExceeded);
            },
            _ => {},
        }
        match self.stage {
            Stage::Method => match t {
                Token::Method(m) => {
                    self.builder.with_method(m);
                    self.stage = Stage::Path;
                    None
                },
                _ => self.unexpected("Expected HTTP Method"),
            },
            Stage::Path => match t {
                Token::Path(p) => {
                    self.builder.with_path(p.as_str());
                    self.stage = Stage::Protocol;
                    None
                },
                _ => self.unexpected("Expected path"),
            },
            Stage::Protocol => match t {
                Token::Protocol => {
                    self.stage = Stage::LineEnd;
                    None
                },
                _ => self.unexpected("Expected protocol version"),
            },
            Stage::LineEnd => match t {
                Token::Crlf => {
                    self.stage = Stage::Header;
                    None
                },
                _ => self.unexpected("Expected CRLF"),
            },
            Stage::Header => match t {
                Token::Crlf => {
                    self.stage = Stage::Body;
                    None
                },
                Token::HeaderName(n) => {
                    self.name = n;
                    self.stage = Stage::Value;
                    None
                },
                _ => self.unexpected("Expected header"),
            },
            Stage::Value => match t {
                Token::HeaderValue(v) => {
                    self.builder.with_header(self.name.as_str(), v.as_str());
                    self.stage = Stage::Header;
                    None
                },
                _ => self.unexpected("Expected header value"),
            },
            Stage::Body => match t {
                Token::Body(b) => {
                    self.builder.with_body(&b);
                    Some(Ok(self.finish()))
                },
                _ => self.unexpected("Expected body"),
            },
            Stage::Done => self.fail(ParseError::EarlyEof),
        }
    }

    /// Runs until more input is needed or the request is done.
    pub fn step(&mut self) -> (r: ParseStep)
        requires
            old(self).wf(),
        ensures
            final(self).wf(),
            final(self).buffered() == old(self).buffered(),
            final(self).at_eof() == old(self).at_eof(),
            r@ == parse_advance(old(self).buffered(), old(self).at_eof(), old(self).model()).0,
            final(self).model() == parse_advance(
                old(self).buffered(),
                old(self).at_eof(),
                old(self).model(),
            ).1,
    {
        let ghost s = self.buffered();
        let ghost eof = self.at_eof();
        let ghost goal = parse_advance(s, eof, self.model());
        loop
            invariant
                self.wf(),
                self.buffered() == s,
                self.at_eof() == eof,
                parse_advance(s, eof, self.model()) == goal,
                s == old(self).buffered(),
                eof == old(self).at_eof(),
                goal == parse_advance(old(self).buffered(), old(self).at_eof(), old(self).model()),
            decreases lex_measure(s, self.lexer.model()),
        {
            if self.stage == Stage::Done {
                return ParseStep::Done(Err(ParseError::EarlyEof));
            }
            proof {
                lemma_lex_read(s, eof, self.lexer.model());
                lemma_lex_progress(s, eof, self.lexer.model());
            }
            match self.lexer.step() {
                LexStep::Read(n) => {
                    return ParseStep::Read(n);
                },
                LexStep::Finished => {
                    let _ = self.finish();
                    return ParseStep::Done(Err(ParseError::EarlyEof));
                },
                LexStep::Token(t) => {
                    match self.on_token(t) {
                        Some(res) => {
                            return ParseStep::Done(res);
                        },
                        None => {},
                    }
                },
            }
        }
    }
}

/// Parses the request that `input` holds, reading it in the pieces the
/// parser asks for.
pub fn parse(input: &[u8]) -> (r: Result<HttpRequest, ParseError>)
    ensures
        result_view(r) == parse_request(input@),
{
    let mut source = ByteSource::new(input);
    let mut parser = Parser::new();
    loop
        invariant
            parser.wf(),
            parser.buffered() + source.remaining() == input@,
            parser.at_eof() ==> source.remaining().len() == 0,
            parse_result(input@, parser.model()) == parse_request(input@),
        decreases source.remaining().len() + if parser.at_eof() {
            0int
        } else {
            1int
        },
    {
        let ghost buffered = parser.buffered();
        let ghost eof = parser.at_eof();
        let ghost pm = parser.model();
        proof {
            lemma_parse_read(buffered, eof, pm);
            if eof {
                assert(buffered =~= input@);
            } else {
                assert(buffered =~= input@.subrange(0, buffered.len() as int));
                lemma_parse_extend(buffered, input@, pm);
            }
        }
        match parser.step() {
            ParseStep::Done(r) => {
                return r;
            },
            ParseStep::Read(n) => {
                let chunk = source.read(n);
                parser.supply(chunk.as_slice());
                assert(parser.buffered() + source.remaining() =~= input@);
            },
        }
    }
}

} // verus!
