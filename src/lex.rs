//! The lexer: a state machine over a growing byte buffer that emits one token
//! per step, or asks for more input when the bytes it holds cannot decide the
//! next token.
use vstd::prelude::*;
use crate::request::{method_of, HttpMethod};
use crate::text::{ascii_chars, utf8_lossy};

verus! {

/// Past this read position the header section is too large.
pub const MAX_HEADER_SIZE: usize = 8192;

/// How many bytes to ask for while reading the header section.
pub const READ_CHUNK: usize = 1024;

/// A lexical unit of a request.
#[derive(Debug, PartialEq)]
pub enum Token {
    Method(HttpMethod),
    Path(String),
    Protocol,
    HeaderName(String),
    HeaderValue(String),
    Body(Vec<u8>),
    Crlf,
    Error,
    MaxHeaderSizeExceeded,
}

/// What a token holds, text as characters.
pub enum TokenModel {
    Method(HttpMethod),
    Path(Seq<char>),
    Protocol,
    HeaderName(Seq<char>),
    HeaderValue(Seq<char>),
    Body(Seq<u8>),
    Crlf,
    Error,
    MaxHeaderSizeExceeded,
}

impl View for Token {
    type V = TokenModel;

    open spec fn view(&self) -> TokenModel {
        match self {
            Token::Method(m) => TokenModel::Method(*m),
            Token::Path(p) => TokenModel::Path(p@),
            Token::Protocol => TokenModel::Protocol,
            Token::HeaderName(n) => TokenModel::HeaderName(n@),
            Token::HeaderValue(v) => TokenModel::HeaderValue(v@),
            Token::Body(b) => TokenModel::Body(b@),
            Token::Crlf => TokenModel::Crlf,
            Token::Error => TokenModel::Error,
            Token::MaxHeaderSizeExceeded => TokenModel::MaxHeaderSizeExceeded,
        }
    }
}

/// Where the lexer stands in a request.
#[derive(Clone, Copy, Debug, PartialEq, Eq, Structural)]
pub enum LexState {
    Initial,
    RequestLine,
    HeaderName,
    HeaderValue,
    Body,
    End,
}

/// The lexer's state apart from its buffer.
pub struct LexModel {
    pub state: LexState,
    pub pos: nat,
    /// The last header name was `Content-Length`, in any case.
    pub expecting_length: bool,
    /// The last valid `Content-Length` value seen.
    pub length: Option<nat>,
}

/// What one step of the lexer does.
pub enum LexOutcome {
    Emit(TokenModel),
    /// Read up to this many bytes and hand them over; none means end of input.
    Read(nat),
    /// No further tokens.
    Finished,
}

/// What one step of the lexer does.
#[derive(Debug, PartialEq)]
pub enum LexStep {
    Token(Token),
    /// Read up to this many bytes and hand them over; none means end of input.
    Read(usize),
    /// No further tokens.
    Finished,
}

impl View for LexStep {
    type V = LexOutcome;

    open spec fn view(&self) -> LexOutcome {
        match self {
            LexStep::Token(t) => LexOutcome::Emit(t@),
            LexStep::Read(n) => LexOutcome::Read(*n as nat),
            LexStep::Finished => LexOutcome::Finished,
        }
    }
}

pub open spec fn is_blank(b: u8) -> bool {
    b == 32 || b == 9
}

pub open spec fn is_alpha(b: u8) -> bool {
    (65 <= b <= 90) || (97 <= b <= 122)
}

pub open spec fn is_digit(b: u8) -> bool {
    48 <= b <= 57
}

/// `[a-z0-9\-._~%!$&'()*+,;=:@/]`
pub open spec fn is_path_char(b: u8) -> bool {
    b == 33 || (36 <= b <= 59) || b == 61 || b == 64 || b == 95 || (97 <= b <= 122) || b == 126
}

/// `[!#$%&'*+\-.^_`|~a-zA-Z0-9]`
pub open spec fn is_tchar(b: u8) -> bool {
    b == 33 || (35 <= b <= 39) || b == 42 || b == 43 || b == 45 || b == 46 || is_digit(b) || (65
        <= b <= 90) || (94 <= b <= 122) || b == 124 || b == 126
}

/// Where a scan stops.
#[derive(Clone, Copy)]
pub enum ScanKind {
    /// at the first byte that is not a space or tab, or past the size guard
    Blank,
    /// at the first space, tab, CR or LF, or past the size guard
    Word,
    /// at the first byte outside the path charset, or past the size guard
    Path,
    /// at the first byte outside the token charset, or past the size guard
    Name,
    /// at the first CR or LF, or past the size guard
    Value,
}

pub open spec fn stops(kind: ScanKind, k: int, b: u8) -> bool {
    match kind {
        ScanKind::Blank => k > MAX_HEADER_SIZE || !is_blank(b),
        ScanKind::Word => k > MAX_HEADER_SIZE || is_blank(b) || b == 13 || b == 10,
        ScanKind::Path => k > MAX_HEADER_SIZE || !is_path_char(b),
        ScanKind::Name => k > MAX_HEADER_SIZE || !is_tchar(b),
        ScanKind::Value => b == 13 || b == 10 || k > MAX_HEADER_SIZE,
    }
}

/// The first index from `i` on where a scan of `kind` stops, or the length of
/// `s` where it does not.
pub open spec fn scan(s: Seq<u8>, i: int, kind: ScanKind) -> int
    decreases s.len() - i,
{
    if i >= s.len() {
        s.len() as int
    } else if stops(kind, i, s[i]) {
        i
    } else {
        scan(s, i + 1, kind)
    }
}

/// A scan ends at the first stop.
pub proof fn lemma_scan(s: Seq<u8>, i: int, kind: ScanKind)
    requires
        0 <= i <= s.len(),
    ensures
        i <= scan(s, i, kind) <= s.len(),
        forall|k: int| i <= k < scan(s, i, kind) ==> !stops(kind, k, #[trigger] s[k]),
        scan(s, i, kind) < s.len() ==> stops(kind, scan(s, i, kind), s[scan(s, i, kind)]),
    decreases s.len() - i,
{
    if i < s.len() && !stops(kind, i, s[i]) {
        lemma_scan(s, i + 1, kind);
    }
}

/// The first stop from `i` on is where the scan ends.
pub proof fn lemma_scan_is(s: Seq<u8>, i: int, j: int, kind: ScanKind)
    requires
        0 <= i <= j <= s.len(),
        forall|k: int| i <= k < j ==> !stops(kind, k, #[trigger] s[k]),
        j < s.len() ==> stops(kind, j, s[j]),
    ensures
        scan(s, i, kind) == j,
    decreases j - i,
{
    if i < j {
        assert(!stops(kind, i, s[i]));
        lemma_scan_is(s, i + 1, j, kind);
    }
}

/// A scan that stops inside `p` stops at the same place in any extension of `p`.
pub proof fn lemma_scan_extend(p: Seq<u8>, s: Seq<u8>, i: int, kind: ScanKind)
    requires
        0 <= i <= p.len() <= s.len(),
        p == s.subrange(0, p.len() as int),
        scan(p, i, kind) < p.len(),
    ensures
        scan(s, i, kind) == scan(p, i, kind),
{
    lemma_scan(p, i, kind);
    let j = scan(p, i, kind);
    assert forall|k: int| i <= k < j implies !stops(kind, k, #[trigger] s[k]) by {
        assert(s[k] == p[k]);
    }
    assert(s[j] == p[j]);
    lemma_scan_is(s, i, j, kind);
}

/// The bytes of `HTTP/1.1`.
pub open spec fn protocol_bytes() -> Seq<u8> {
    seq![72u8, 84, 84, 80, 47, 49, 46, 49]
}

/// `HTTP/1.1` starts with a letter and holds no space, tab, CR or LF.
pub proof fn lemma_protocol_bytes()
    ensures
        protocol_bytes().len() == 8,
        is_alpha(protocol_bytes()[0]),
        forall|i: int|
            0 <= i < 8 ==> !is_blank(#[trigger] protocol_bytes()[i]) && protocol_bytes()[i] != 13
                && protocol_bytes()[i] != 10,
        forall|m: HttpMethod| method_of(protocol_bytes()) != Some(m),
{
    let p = protocol_bytes();
    assert forall|i: int| 0 <= i < 8 implies !is_blank(#[trigger] p[i]) && p[i] != 13 && p[i]
        != 10 by {
        if i == 0 {
        } else if i == 1 {
        } else if i == 2 {
        } else if i == 3 {
        } else if i == 4 {
        } else if i == 5 {
        } else if i == 6 {
        } else {
        }
    }
}

/// The bytes of `content-length`.
pub open spec fn content_length_name() -> Seq<u8> {
    seq![99u8, 111, 110, 116, 101, 110, 116, 45, 108, 101, 110, 103, 116, 104]
}

pub open spec fn ascii_lower(b: u8) -> u8 {
    if 65 <= b <= 90 {
        (b + 32) as u8
    } else {
        b
    }
}

/// `n` is `content-length` in any mix of cases.
pub open spec fn is_content_length_name(n: Seq<u8>) -> bool {
    n.len() == 14 && forall|i: int| 0 <= i < 14 ==> ascii_lower(#[trigger] n[i])
        == content_length_name()[i]
}

/// `v` without its leading spaces and tabs.
pub open spec fn strip_leading(v: Seq<u8>) -> Seq<u8> {
    v.subrange(scan(v, 0, ScanKind::Blank), v.len() as int)
}

pub open spec fn all_digits(t: Seq<u8>) -> bool {
    forall|i: int| 0 <= i < t.len() ==> is_digit(#[trigger] t[i])
}

/// The number that decimal digits `t` write.
pub open spec fn digits_value(t: Seq<u8>) -> int
    decreases t.len(),
{
    if t.len() == 0 {
        0
    } else {
        digits_value(t.drop_last()) * 10 + (t.last() - 48)
    }
}

/// The length that a `Content-Length` value states, where it is a non-empty
/// run of decimal digits whose number fits a `usize`.
pub open spec fn length_value(t: Seq<u8>) -> Option<nat> {
    if t.len() > 0 && all_digits(t) && digits_value(t) <= usize::MAX {
        Some(digits_value(t) as nat)
    } else {
        None
    }
}

pub open spec fn halted(m: LexModel) -> LexModel {
    LexModel { state: LexState::End, ..m }
}

pub open spec fn moved(m: LexModel, state: LexState, pos: int) -> LexModel {
    LexModel { state, pos: pos as nat, ..m }
}

/// The input ends here, or more is needed.
pub open spec fn need_more(eof: bool, m: LexModel, n: nat) -> (LexOutcome, LexModel) {
    if eof {
        (LexOutcome::Finished, halted(m))
    } else {
        (LexOutcome::Read(n), m)
    }
}

pub open spec fn lex_error(m: LexModel) -> (LexOutcome, LexModel) {
    (LexOutcome::Emit(TokenModel::Error), halted(m))
}

/// A CR stands at `p`: with the LF after it, a CRLF.
pub open spec fn lex_crlf(s: Seq<u8>, eof: bool, m: LexModel, p: int, next: LexState) -> (
    LexOutcome,
    LexModel,
) {
    if p + 1 >= s.len() {
        need_more(eof, m, READ_CHUNK as nat)
    } else if s[p + 1] == 10 {
        (LexOutcome::Emit(TokenModel::Crlf), moved(m, next, p + 2))
    } else {
        lex_error(m)
    }
}

/// A token of the request line, after any spaces and tabs. A method is a
/// whole word; the protocol is the prefix `HTTP/1.1`, the byte after it left
/// to the next step. Past the size guard, `MaxHeaderSizeExceeded`.
pub open spec fn lex_request_line(s: Seq<u8>, eof: bool, m: LexModel) -> (LexOutcome, LexModel) {
    let p = scan(s, m.pos as int, ScanKind::Blank);
    if p >= s.len() {
        need_more(eof, m, READ_CHUNK as nat)
    } else if p > MAX_HEADER_SIZE {
        (LexOutcome::Emit(TokenModel::MaxHeaderSizeExceeded), halted(m))
    } else if s[p] == 13 {
        lex_crlf(s, eof, m, p, LexState::HeaderName)
    } else if is_alpha(s[p]) {
        let q = scan(s, p, ScanKind::Word);
        if q >= s.len() && !eof {
            (LexOutcome::Read(READ_CHUNK as nat), m)
        } else if q > MAX_HEADER_SIZE {
            (LexOutcome::Emit(TokenModel::MaxHeaderSizeExceeded), halted(m))
        } else {
            match method_of(s.subrange(p, q)) {
                Some(mt) => (
                    LexOutcome::Emit(TokenModel::Method(mt)),
                    moved(m, LexState::RequestLine, q),
                ),
                None => if p + 8 <= s.len() && s.subrange(p, p + 8) == protocol_bytes() {
                    (
                        LexOutcome::Emit(TokenModel::Protocol),
                        moved(m, LexState::RequestLine, p + 8),
                    )
                } else {
                    lex_error(m)
                },
            }
        }
    } else if s[p] == 47 {
        let q = scan(s, p, ScanKind::Path);
        if q >= s.len() && !eof {
            (LexOutcome::Read(READ_CHUNK as nat), m)
        } else if q > MAX_HEADER_SIZE {
            (LexOutcome::Emit(TokenModel::MaxHeaderSizeExceeded), halted(m))
        } else {
            (
                LexOutcome::Emit(TokenModel::Path(ascii_chars(s.subrange(p, q)))),
                moved(m, LexState::RequestLine, q),
            )
        }
    } else {
        lex_error(m)
    }
}

/// A header name and its colon, or the blank line that ends the headers.
pub open spec fn lex_header_name(s: Seq<u8>, eof: bool, m: LexModel) -> (LexOutcome, LexModel) {
    let p = m.pos as int;
    if p >= s.len() {
        need_more(eof, m, READ_CHUNK as nat)
    } else if s[p] == 13 {
        lex_crlf(s, eof, m, p, LexState::Body)
    } else {
        let j = scan(s, p, ScanKind::Name);
        if j >= s.len() {
            need_more(eof, m, READ_CHUNK as nat)
        } else if s[j] == 58 && j > p {
            let n = s.subrange(p, j);
            (
                LexOutcome::Emit(TokenModel::HeaderName(ascii_chars(n))),
                LexModel {
                    state: LexState::HeaderValue,
                    pos: (j + 1) as nat,
                    expecting_length: is_content_length_name(n),
                    length: m.length,
                },
            )
        } else if s[j] != 58 && j > MAX_HEADER_SIZE {
            (LexOutcome::Emit(TokenModel::MaxHeaderSizeExceeded), halted(m))
        } else {
            lex_error(m)
        }
    }
}

/// A header value up to its CRLF, leading spaces and tabs dropped.
pub open spec fn lex_header_value(s: Seq<u8>, eof: bool, m: LexModel) -> (LexOutcome, LexModel) {
    let p = m.pos as int;
    let j = scan(s, p, ScanKind::Value);
    if j >= s.len() {
        need_more(eof, m, READ_CHUNK as nat)
    } else if s[j] == 13 {
        if j + 1 >= s.len() {
            need_more(eof, m, READ_CHUNK as nat)
        } else if s[j + 1] == 10 {
            let v = strip_leading(s.subrange(p, j));
            (
                LexOutcome::Emit(TokenModel::HeaderValue(utf8_lossy(v))),
                LexModel {
                    state: LexState::HeaderName,
                    pos: (j + 2) as nat,
                    expecting_length: false,
                    length: if m.expecting_length && length_value(v).is_some() {
                        length_value(v)
                    } else {
                        m.length
                    },
                },
            )
        } else {
            lex_error(m)
        }
    } else if j > MAX_HEADER_SIZE {
        (LexOutcome::Emit(TokenModel::MaxHeaderSizeExceeded), halted(m))
    } else {
        lex_error(m)
    }
}

/// The body: `Content-Length` bytes where a length was given, else all bytes
/// to the end of input.
pub open spec fn lex_body(s: Seq<u8>, eof: bool, m: LexModel) -> (LexOutcome, LexModel) {
    let p = m.pos as int;
    match m.length {
        Some(n) => if p + n <= s.len() {
            (
                LexOutcome::Emit(TokenModel::Body(s.subrange(p, p + n))),
                moved(m, LexState::End, p + n),
            )
        } else {
            need_more(eof, m, (p + n - s.len()) as nat)
        },
        None => if eof {
            (
                LexOutcome::Emit(TokenModel::Body(s.subrange(p, s.len() as int))),
                moved(m, LexState::End, s.len() as int),
            )
        } else {
            (LexOutcome::Read(READ_CHUNK as nat), m)
        },
    }
}

/// One step of the lexer on buffer `s`, `eof` telling whether the input ends
/// where `s` ends.
pub open spec fn lex_step(s: Seq<u8>, eof: bool, m: LexModel) -> (LexOutcome, LexModel) {
    match m.state {
        LexState::End => (LexOutcome::Finished, m),
        LexState::Body => lex_body(s, eof, m),
        _ => if m.pos > MAX_HEADER_SIZE {
            (LexOutcome::Emit(TokenModel::MaxHeaderSizeExceeded), halted(m))
        } else {
            match m.state {
                LexState::HeaderName => lex_header_name(s, eof, m),
                LexState::HeaderValue => lex_header_value(s, eof, m),
                _ => lex_request_line(s, eof, m),
            }
        },
    }
}

/// The lexer before it has read anything.
pub open spec fn initial_lex() -> LexModel {
    LexModel { state: LexState::Initial, pos: 0, expecting_length: false, length: None }
}


/// How far the lexer is from its end: each token it emits brings it closer.
pub open spec fn lex_measure(s: Seq<u8>, m: LexModel) -> nat {
    if m.state == LexState::End {
        0
    } else if m.pos <= s.len() {
        (s.len() - m.pos + 1) as nat
    } else {
        1
    }
}

/// A request for input leaves the state as it was, comes only before the end
/// of input, and asks for at least one byte.
pub proof fn lemma_lex_read(s: Seq<u8>, eof: bool, m: LexModel)
    ensures
        lex_step(s, eof, m).0 is Read ==> {
            &&& !eof
            &&& lex_step(s, eof, m).1 == m
            &&& lex_step(s, eof, m).0->Read_0 > 0
        },
        lex_step(s, eof, m).0 is Finished ==> eof || m.state == LexState::End,
{
}

/// How long the buffer may grow while the lexer in state `m` asks for input:
/// in the header section, the size guard and the CRLF after it plus one chunk;
/// in a body of known length, to the body's end. A body of unknown length
/// runs to the end of input.
pub open spec fn buffer_limit(m: LexModel) -> Option<nat> {
    match m.state {
        LexState::Body => match m.length {
            Some(n) => Some(m.pos + n),
            None => None,
        },
        LexState::End => Some(0),
        _ => Some((MAX_HEADER_SIZE + 2 + READ_CHUNK) as nat),
    }
}

/// The lexer asks for input only while what it holds is short of the limit,
/// and never for more than reaches it.
pub proof fn lemma_lex_read_bound(s: Seq<u8>, eof: bool, m: LexModel)
    ensures
        lex_step(s, eof, m).0 is Read && buffer_limit(m) is Some ==> s.len() + lex_step(
            s,
            eof,
            m,
        ).0->Read_0 <= buffer_limit(m)->Some_0,
{
    let i = m.pos as int;
    let cap = MAX_HEADER_SIZE + 1;
    if s.len() > cap {
        assert(stops(ScanKind::Blank, cap, s[cap]));
        assert(stops(ScanKind::Word, cap, s[cap]));
        assert(stops(ScanKind::Path, cap, s[cap]));
        assert(stops(ScanKind::Name, cap, s[cap]));
        assert(stops(ScanKind::Value, cap, s[cap]));
    }
    if i <= s.len() {
        lemma_scan(s, i, ScanKind::Blank);
        lemma_scan(s, i, ScanKind::Name);
        lemma_scan(s, i, ScanKind::Value);
        let b = scan(s, i, ScanKind::Blank);
        if b < s.len() {
            lemma_scan(s, b, ScanKind::Word);
            lemma_scan(s, b, ScanKind::Path);
        }
    }
}

/// Each token brings the lexer closer to its end, and the read position stays
/// within the buffer.
pub proof fn lemma_lex_progress(s: Seq<u8>, eof: bool, m: LexModel)
    ensures
        lex_step(s, eof, m).0 is Emit ==> lex_measure(s, lex_step(s, eof, m).1) < lex_measure(
            s,
            m,
        ),
        m.pos <= s.len() ==> lex_step(s, eof, m).1.pos <= s.len(),
{
    let p = m.pos as int;
    if p <= s.len() {
        lemma_scan(s, p, ScanKind::Blank);
        lemma_scan(s, p, ScanKind::Name);
        lemma_scan(s, p, ScanKind::Value);
        let b = scan(s, p, ScanKind::Blank);
        if b < s.len() {
            lemma_scan(s, b, ScanKind::Word);
            lemma_scan(s, b, ScanKind::Path);
        }
    }
}

/// A step that the bytes held so far decide, before the end of input, goes the
/// same way on the whole input.
pub proof fn lemma_lex_extend(p: Seq<u8>, s: Seq<u8>, m: LexModel)
    requires
        p.len() <= s.len(),
        p == s.subrange(0, p.len() as int),
        !(lex_step(p, false, m).0 is Read),
    ensures
        lex_step(s, true, m) == lex_step(p, false, m),
{
    let i = m.pos as int;
    if m.state == LexState::End || m.state == LexState::Body {
        if let Some(n) = m.length {
            if i + n <= p.len() {
                assert(p.subrange(i, i + n) =~= s.subrange(i, i + n));
            }
        }
    } else if m.pos > MAX_HEADER_SIZE {
    } else if i > p.len() {
    } else {
        lemma_scan(p, i, ScanKind::Blank);
        lemma_scan(p, i, ScanKind::Name);
        lemma_scan(p, i, ScanKind::Value);
        if scan(p, i, ScanKind::Blank) < p.len() {
            lemma_scan_extend(p, s, i, ScanKind::Blank);
            let b = scan(p, i, ScanKind::Blank);
            assert(s[b] == p[b]);
            if b + 1 < p.len() {
                assert(s[b + 1] == p[b + 1]);
            }
            lemma_scan(p, b, ScanKind::Word);
            lemma_scan(p, b, ScanKind::Path);
            if scan(p, b, ScanKind::Word) < p.len() {
                lemma_scan_extend(p, s, b, ScanKind::Word);
                let q = scan(p, b, ScanKind::Word);
                assert(p.subrange(b, q) =~= s.subrange(b, q));
                if b + 8 <= p.len() {
                    assert(p.subrange(b, b + 8) =~= s.subrange(b, b + 8));
                } else if b + 8 <= s.len() && q <= MAX_HEADER_SIZE {
                    lemma_protocol_bytes();
                    assert(s[q] == p[q]);
                    assert(s.subrange(b, b + 8)[q - b] != protocol_bytes()[q - b]);
                }
            }
            if scan(p, b, ScanKind::Path) < p.len() {
                lemma_scan_extend(p, s, b, ScanKind::Path);
                let q = scan(p, b, ScanKind::Path);
                assert(p.subrange(b, q) =~= s.subrange(b, q));
            }
        }
        if i < p.len() {
            assert(s[i] == p[i]);
            if i + 1 < p.len() {
                assert(s[i + 1] == p[i + 1]);
            }
        }
        if scan(p, i, ScanKind::Name) < p.len() {
            lemma_scan_extend(p, s, i, ScanKind::Name);
            let j = scan(p, i, ScanKind::Name);
            assert(s[j] == p[j]);
            assert(p.subrange(i, j) =~= s.subrange(i, j));
        }
        if scan(p, i, ScanKind::Value) < p.len() {
            lemma_scan_extend(p, s, i, ScanKind::Value);
            let j = scan(p, i, ScanKind::Value);
            assert(s[j] == p[j]);
            if j + 1 < p.len() {
                assert(s[j + 1] == p[j + 1]);
            }
            assert(p.subrange(i, j) =~= s.subrange(i, j));
        }
    }
}

} // verus!
