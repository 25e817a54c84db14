//! The executable lexer.
use vstd::prelude::*;
use crate::lex::{
    ascii_lower, content_length_name, digits_value, halted, initial_lex, is_content_length_name,
    is_digit, lemma_scan, length_value, lex_body, lex_crlf, lex_header_name, lex_header_value,
    lex_request_line, lex_step, need_more, protocol_bytes, scan, stops, LexModel, LexOutcome,
    LexState, LexStep, ScanKind, Token, MAX_HEADER_SIZE, READ_CHUNK, lemma_lex_read, lemma_lex_extend,
    lemma_lex_read_bound, buffer_limit,
};
use crate::request::HttpMethod;
use crate::source::ByteSource;
use crate::text::{copy_range, range_equals, text_from_bytes};

verus! {

fn stops_at(kind: ScanKind, k: usize, b: u8) -> (r: bool)
    ensures
        r == stops(kind, k as int, b),
{
    match kind {
        ScanKind::Blank => k > MAX_HEADER_SIZE || !(b == 32 || b == 9),
        ScanKind::Word => k > MAX_HEADER_SIZE || b == 32 || b == 9 || b == 13 || b == 10,
        ScanKind::Path => k > MAX_HEADER_SIZE || !(b == 33 || (36 <= b && b <= 59) || b == 61 || b == 64 || b == 95 || (97
            <= b && b <= 122) || b == 126),
        ScanKind::Name => k > MAX_HEADER_SIZE || !(b == 33 || (35 <= b && b <= 39) || b == 42 || b
            == 43 || b == 45 || b == 46 || (48 <= b && b <= 57) || (65 <= b && b <= 90) || (94 <= b
            && b <= 122) || b == 124 || b == 126),
        ScanKind::Value => b == 13 || b == 10 || k > MAX_HEADER_SIZE,
    }
}

/// Where a scan of `kind` from `start` stops in `s`.
pub(crate) fn scan_from(s: &[u8], start: usize, kind: ScanKind) -> (r: usize)
    requires
        start <= s@.len(),
    ensures
        r == scan(s@, start as int, kind),
{
    let mut j: usize = start;
    while j < s.len() && !stops_at(kind, j, s[j])
        invariant
            start <= j <= s@.len(),
            scan(s@, start as int, kind) == scan(s@, j as int, kind),
        decreases s.len() - j,
    {
        j = j + 1;
    }
    j
}

/// `n` is `content-length` in any mix of cases.
fn names_content_length(n: &[u8]) -> (r: bool)
    ensures
        r == is_content_length_name(n@),
{
    let want: Vec<u8> = vec![99u8, 111, 110, 116, 101, 110, 116, 45, 108, 101, 110, 103, 116, 104];
    assert(want@ =~= content_length_name());
    if n.len() != 14 {
        return false;
    }
    let mut i: usize = 0;
    while i < 14
        invariant
            n@.len() == 14,
            want@ == content_length_name(),
            i <= 14,
            forall|k: int| 0 <= k < i ==> ascii_lower(#[trigger] n@[k]) == content_length_name()[k],
        decreases 14 - i,
    {
        let b = n[i];
        let lower = if 65 <= b && b <= 90 {
            b + 32
        } else {
            b
        };
        if lower != want[i] {
            return false;
        }
        i = i + 1;
    }
    true
}

pub open spec fn opt_nat(o: Option<usize>) -> Option<nat> {
    match o {
        Some(n) => Some(n as nat),
        None => None,
    }
}

/// The length that the decimal digits `t` state, if they fit a `usize`.
fn parse_length(t: &[u8]) -> (r: Option<usize>)
    ensures
        opt_nat(r) == length_value(t@),
{
    if t.len() == 0 {
        return None;
    }
    let mut value: usize = 0;
    let mut overflow = false;
    let mut i: usize = 0;
    while i < t.len()
        invariant
            i <= t@.len(),
            forall|k: int| 0 <= k < i ==> is_digit(#[trigger] t@[k]),
            overflow <==> digits_value(t@.subrange(0, i as int)) > usize::MAX,
            !overflow ==> value == digits_value(t@.subrange(0, i as int)),
        decreases t.len() - i,
    {
        let b = t[i];
        if !(48 <= b && b <= 57) {
            return None;
        }
        let ghost before = digits_value(t@.subrange(0, i as int));
        assert(t@.subrange(0, i + 1).drop_last() =~= t@.subrange(0, i as int));
        assert(digits_value(t@.subrange(0, i + 1)) == before * 10 + (b - 48));
        if !overflow {
            match value.checked_mul(10) {
                Some(x) => match x.checked_add((b - 48) as usize) {
                    Some(y) => {
                        value = y;
                    },
                    None => {
                        overflow = true;
                    },
                },
                None => {
                    overflow = true;
                },
            }
        }
        i = i + 1;
    }
    assert(t@.subrange(0, t@.len() as int) =~= t@);
    if overflow {
        None
    } else {
        Some(value)
    }
}

/// Turns bytes into tokens. It never reads: where the bytes it holds cannot
/// decide the next token it asks for more, which the caller hands over with
/// `supply`.
pub struct Lexer {
    buffer: Vec<u8>,
    pos: usize,
    state: LexState,
    eof: bool,
    expecting_content_length: bool,
    content_length: Option<usize>,
}

impl Lexer {
    /// The state apart from the buffer.
    pub closed spec fn model(&self) -> LexModel {
        LexModel {
            state: self.state,
            pos: self.pos as nat,
            expecting_length: self.expecting_content_length,
            length: opt_nat(self.content_length),
        }
    }

    /// The bytes handed over so far.
    pub closed spec fn buffered(&self) -> Seq<u8> {
        self.buffer@
    }

    /// The end of input has been handed over.
    pub closed spec fn at_eof(&self) -> bool {
        self.eof
    }

    pub closed spec fn wf(&self) -> bool {
        self.pos <= self.buffer@.len()
    }

    /// A lexer that holds no bytes yet.
    pub fn new() -> (r: Lexer)
        ensures
            r.wf(),
            r.model() == initial_lex(),
            r.buffered() == Seq::<u8>::empty(),
            !r.at_eof(),
    {
        Lexer {
            buffer: Vec::new(),
            pos: 0,
            state: LexState::Initial,
            eof: false,
            expecting_content_length: false,
            content_length: None,
        }
    }

    /// Hands over bytes that were read; none means the input has ended.
    pub fn supply(&mut self, bytes: &[u8])
        requires
            old(self).wf(),
        ensures
            final(self).wf(),
            final(self).model() == old(self).model(),
            final(self).buffered() == old(self).buffered() + bytes@,
            final(self).at_eof() == (old(self).at_eof() || bytes@.len() == 0),
    {
        if bytes.len() == 0 {
            self.eof = true;
        }
        let ghost before = self.buffer@;
        let mut i: usize = 0;
        while i < bytes.len()
            invariant
                i <= bytes@.len(),
                self.buffer@ == before + bytes@.subrange(0, i as int),
                self.pos <= before.len(),
                self.model() == old(self).model(),
                self.eof == (old(self).eof || bytes@.len() == 0),
            decreases bytes.len() - i,
        {
            self.buffer.push(bytes[i]);
            i = i + 1;
            assert(self.buffer@ =~= before + bytes@.subrange(0, i as int));
        }
        assert(bytes@.subrange(0, bytes@.len() as int) =~= bytes@);
    }

    /// This lexer after a step: same buffer, and the model the spec gives.
    pub closed spec fn stepped(
        &self,
        before: &Lexer,
        r: LexStep,
        expected: (LexOutcome, LexModel),
    ) -> bool {
        &&& self.wf()
        &&& self.buffer@ == before.buffer@
        &&& self.eof == before.eof
        &&& r@ == expected.0
        &&& self.model() == expected.1
    }

    fn need_more(&mut self, n: usize) -> (r: LexStep)
        requires
            old(self).wf(),
        ensures
            final(self).stepped(old(self), r, need_more(old(self).eof, old(self).model(), n as nat)),
    {
        if self.eof {
            self.state = LexState::End;
            LexStep::Finished
        } else {
            LexStep::Read(n)
        }
    }

    fn fail(&mut self, t: Token) -> (r: LexStep)
        requires
            old(self).wf(),
        ensures
            final(self).stepped(old(self), r, (LexOutcome::Emit(t@), halted(old(self).model()))),
    {
        self.state = LexState::End;
        LexStep::Token(t)
    }

    fn lex_crlf(&mut self, p: usize, next: LexState) -> (r: LexStep)
        requires
            old(self).wf(),
            p < old(self).buffer@.len(),
        ensures
            final(self).stepped(
                old(self),
                r,
                lex_crlf(old(self).buffer@, old(self).eof, old(self).model(), p as int, next),
            ),
    {
        if p >= self.buffer.len() - 1 {
            self.need_more(READ_CHUNK)
        } else if self.buffer[p + 1] == 10 {
            self.state = next;
            self.pos = p + 2;
            LexStep::Token(Token::Crlf)
        } else {
            self.fail(Token::Error)
        }
    }

    fn lex_request_line(&mut self) -> (r: LexStep)
        requires
            old(self).wf(),
        ensures
            final(self).stepped(
                old(self),
                r,
                lex_request_line(old(self).buffer@, old(self).eof, old(self).model()),
            ),
    {
        let p = scan_from(self.buffer.as_slice(), self.pos, ScanKind::Blank);
        proof {
            lemma_scan(self.buffer@, self.pos as int, ScanKind::Blank);
        }
        if p >= self.buffer.len() {
            return self.need_more(READ_CHUNK);
        }
        if p > MAX_HEADER_SIZE {
            return self.fail(Token::MaxHeaderSizeExceeded);
        }
        let c = self.buffer[p];
        if c == 13 {
            self.lex_crlf(p, LexState::HeaderName)
        } else if (65 <= c && c <= 90) || (97 <= c && c <= 122) {
            let q = scan_from(self.buffer.as_slice(), p, ScanKind::Word);
            proof {
                lemma_scan(self.buffer@, p as int, ScanKind::Word);
            }
            if q >= self.buffer.len() && !self.eof {
                return LexStep::Read(READ_CHUNK);
            }
            if q > MAX_HEADER_SIZE {
                return self.fail(Token::MaxHeaderSizeExceeded);
            }
            match HttpMethod::from_range(self.buffer.as_slice(), p, q) {
                Some(mt) => {
                    self.state = LexState::RequestLine;
                    self.pos = q;
                    LexStep::Token(Token::Method(mt))
                },
                None => {
                    let protocol: Vec<u8> = vec![72u8, 84, 84, 80, 47, 49, 46, 49];
                    assert(protocol@ =~= protocol_bytes());
                    if self.buffer.len() >= 8 && p <= self.buffer.len() - 8 && range_equals(
                        self.buffer.as_slice(),
                        p,
                        p + 8,
                        protocol.as_slice(),
                    ) {
                        self.state = LexState::RequestLine;
                        self.pos = p + 8;
                        LexStep::Token(Token::Protocol)
                    } else {
                        self.fail(Token::Error)
                    }
                },
            }
        } else if c == 47 {
            let q = scan_from(self.buffer.as_slice(), p, ScanKind::Path);
            proof {
                lemma_scan(self.buffer@, p as int, ScanKind::Path);
            }
            if q >= self.buffer.len() && !self.eof {
                return LexStep::Read(READ_CHUNK);
            }
            if q > MAX_HEADER_SIZE {
                return self.fail(Token::MaxHeaderSizeExceeded);
            }
            let bytes = copy_range(self.buffer.as_slice(), p, q);
            assert forall|k: int| 0 <= k < bytes@.len() implies #[trigger] bytes@[k] < 128 by {
                assert(bytes@[k] == self.buffer@[p + k]);
                assert(!stops(ScanKind::Path, p + k, self.buffer@[p + k]));
            }
            let path = text_from_bytes(bytes.as_slice());
            self.state = LexState::RequestLine;
            self.pos = q;
            LexStep::Token(Token::Path(path))
        } else {
            self.fail(Token::Error)
        }
    }

    fn lex_header_name(&mut self) -> (r: LexStep)
        requires
            old(self).wf(),
        ensures
            final(self).stepped(
                old(self),
                r,
                lex_header_name(old(self).buffer@, old(self).eof, old(self).model()),
            ),
    {
        let p = self.pos;
        if p >= self.buffer.len() {
            return self.need_more(READ_CHUNK);
        }
        if self.buffer[p] == 13 {
            return self.lex_crlf(p, LexState::Body);
        }
        let j = scan_from(self.buffer.as_slice(), p, ScanKind::Name);
        proof {
            lemma_scan(self.buffer@, p as int, ScanKind::Name);
        }
        if j >= self.buffer.len() {
            self.need_more(READ_CHUNK)
        } else if self.buffer[j] == 58 && j > p {
            let bytes = copy_range(self.buffer.as_slice(), p, j);
            assert forall|k: int| 0 <= k < bytes@.len() implies #[trigger] bytes@[k] < 128 by {
                assert(bytes@[k] == self.buffer@[p + k]);
                assert(!stops(ScanKind::Name, p + k, self.buffer@[p + k]));
            }
            self.expecting_content_length = names_content_length(bytes.as_slice());
            let name = text_from_bytes(bytes.as_slice());
            self.state = LexState::HeaderValue;
            self.pos = j + 1;
            LexStep::Token(Token::HeaderName(name))
        } else if self.buffer[j] != 58 && j > MAX_HEADER_SIZE {
            self.fail(Token::MaxHeaderSizeExceeded)
        } else {
            self.fail(Token::Error)
        }
    }

    fn lex_header_value(&mut self) -> (r: LexStep)
        requires
            old(self).wf(),
        ensures
            final(self).stepped(
                old(self),
                r,
                lex_header_value(old(self).buffer@, old(self).eof, old(self).model()),
            ),
    {
        let p = self.pos;
        let j = scan_from(self.buffer.as_slice(), p, ScanKind::Value);
        proof {
            lemma_scan(self.buffer@, p as int, ScanKind::Value);
        }
        if j >= self.buffer.len() {
            self.need_more(READ_CHUNK)
        } else if self.buffer[j] == 13 {
            if j + 1 >= self.buffer.len() {
                self.need_more(READ_CHUNK)
            } else if self.buffer[j + 1] == 10 {
                let raw = copy_range(self.buffer.as_slice(), p, j);
                let start = scan_from(raw.as_slice(), 0, ScanKind::Blank);
                proof {
                    lemma_scan(raw@, 0, ScanKind::Blank);
                }
                let value = copy_range(raw.as_slice(), start, raw.len());
                if self.expecting_content_length {
                    match parse_length(value.as_slice()) {
                        Some(n) => {
                            self.content_length = Some(n);
                        },
                        None => {},
                    }
                }
                self.expecting_content_length = false;
                let text = text_from_bytes(value.as_slice());
                self.state = LexState::HeaderName;
                self.pos = j + 2;
                LexStep::Token(Token::HeaderValue(text))
            } else {
                self.fail(Token::Error)
            }
        } else if j > MAX_HEADER_SIZE {
            self.fail(Token::MaxHeaderSizeExceeded)
        } else {
            self.fail(Token::Error)
        }
    }

    fn lex_body(&mut self) -> (r: LexStep)
        requires
            old(self).wf(),
        ensures
            final(self).stepped(
                old(self),
                r,
                lex_body(old(self).buffer@, old(self).eof, old(self).model()),
            ),
    {
        let p = self.pos;
        match self.content_length {
            Some(n) => {
                if n <= self.buffer.len() - p {
                    let body = copy_range(self.buffer.as_slice(), p, p + n);
                    self.state = LexState::End;
                    self.pos = p + n;
                    LexStep::Token(Token::Body(body))
                } else {
                    self.need_more(n - (self.buffer.len() - p))
                }
            },
            None => {
                if self.eof {
                    let body = copy_range(self.buffer.as_slice(), p, self.buffer.len());
                    self.state = LexState::End;
                    self.pos = self.buffer.len();
                    LexStep::Token(Token::Body(body))
                } else {
                    LexStep::Read(READ_CHUNK)
                }
            },
        }
    }

    /// One step: the next token, a request for more input, or the end.
    pub fn step(&mut self) -> (r: LexStep)
        requires
            old(self).wf(),
        ensures
            final(self).wf(),
            final(self).buffered() == old(self).buffered(),
            final(self).at_eof() == old(self).at_eof(),
            r@ == lex_step(old(self).buffered(), old(self).at_eof(), old(self).model()).0,
            final(self).model() == lex_step(
                old(self).buffered(),
                old(self).at_eof(),
                old(self).model(),
            ).1,
    {
        match self.state {
            LexState::End => LexStep::Finished,
            LexState::Body => self.lex_body(),
            _ => {
                if self.pos > MAX_HEADER_SIZE {
                    self.fail(Token::MaxHeaderSizeExceeded)
                } else {
                    match self.state {
                        LexState::HeaderName => self.lex_header_name(),
                        LexState::HeaderValue => self.lex_header_value(),
                        _ => self.lex_request_line(),
                    }
                }
            },
        }
    }

    /// The next token, reading from `source` as the lexer asks; `None` once
    /// no token is left. Its result is what one step of the lexer gives on
    /// all the bytes that were handed over and all that `source` still holds.
    /// It reads nothing where the bytes held decide the step, and never past
    /// `buffer_limit`.
    pub fn next(&mut self, source: &mut ByteSource) -> (r: Option<Token>)
        requires
            old(self).wf(),
            old(self).at_eof() ==> old(source).remaining().len() == 0,
        ensures
            final(self).wf(),
            final(self).buffered() + final(source).remaining() == old(self).buffered() + old(
                source,
            ).remaining(),
            final(self).at_eof() ==> final(source).remaining().len() == 0,
            !(lex_step(old(self).buffered(), old(self).at_eof(), old(self).model()).0 is Read)
                ==> *final(source) == *old(source),
            buffer_limit(old(self).model()) is Some ==> final(self).buffered().len() <= old(
                self,
            ).buffered().len() || final(self).buffered().len() <= buffer_limit(
                old(self).model(),
            )->Some_0,
            ({
                let full = old(self).buffered() + old(source).remaining();
                let expected = lex_step(full, true, old(self).model());
                &&& match r {
                    Some(t) => expected.0 == LexOutcome::Emit(t@),
                    None => expected.0 == LexOutcome::Finished,
                }
                &&& final(self).model() == expected.1
            }),
    {
        let ghost full = self.buffer@ + source.remaining();
        let ghost m = self.model();
        loop
            invariant
                self.wf(),
                self.buffer@ + source.remaining() == full,
                self.eof ==> source.remaining().len() == 0,
                self.model() == m,
                full == old(self).buffered() + old(source).remaining(),
                m == old(self).model(),
                buffer_limit(m) is Some ==> self.buffer@.len() <= old(self).buffered().len()
                    || self.buffer@.len() <= buffer_limit(m)->Some_0,
                (*source == *old(source) && self.buffer@ == old(self).buffered() && self.eof == old(
                    self,
                ).at_eof()) || lex_step(old(self).buffered(), old(self).at_eof(), m).0 is Read,
            decreases source.remaining().len() + if self.eof {
                0int
            } else {
                1int
            },
        {
            let ghost buffered = self.buffer@;
            let ghost eof = self.eof;
            proof {
                lemma_lex_read(buffered, eof, m);
                lemma_lex_read_bound(buffered, eof, m);
                if eof {
                    assert(buffered =~= full);
                } else {
                    assert(buffered =~= full.subrange(0, buffered.len() as int));
                    if !(lex_step(buffered, false, m).0 is Read) {
                        lemma_lex_extend(buffered, full, m);
                    }
                }
            }
            match self.step() {
                LexStep::Token(t) => {
                    return Some(t);
                },
                LexStep::Finished => {
                    return None;
                },
                LexStep::Read(n) => {
                    let chunk = source.read(n);
                    self.supply(chunk.as_slice());
                    assert(self.buffer@ + source.remaining() =~= full);
                },
            }
        }
    }
}

} // verus!
