//! What the parser does on well-formed requests, and the laws that follow:
//! header fields come back as sent, `Content-Length` bounds the body, the
//! header-size guard, and header order not mattering.
use vstd::prelude::*;
use crate::headers::{lemma_map_of_keys, lemma_map_of_last, map_of};
use crate::lex::{
    all_digits, ascii_lower, content_length_name, digits_value, initial_lex, is_alpha,
    is_blank, is_content_length_name, is_path_char, is_tchar, lemma_protocol_bytes, lemma_scan_is, length_value, lex_step, moved,
    protocol_bytes, scan, stops, strip_leading, LexModel, LexOutcome, LexState, ScanKind, TokenModel,
    MAX_HEADER_SIZE,
};
use crate::parse::{
    empty_request, initial_parse, on_token, parse_request, parse_result, Advance, ParseErr,
    ParseModel, Stage,
};
use crate::request::{lemma_method_of_keyword, method_keyword, method_of, HttpMethod, RequestModel};
use crate::text::{ascii_chars, utf8_lossy};

verus! {

pub open spec fn crlf() -> Seq<u8> {
    seq![13u8, 10]
}

/// `METHOD SP PATH SP HTTP/1.1 CRLF`, each `SP` a run of spaces and tabs.
pub open spec fn request_line(m: HttpMethod, sp1: Seq<u8>, path: Seq<u8>, sp2: Seq<u8>) -> Seq<
    u8,
> {
    method_keyword(m) + sp1 + path + sp2 + protocol_bytes() + crlf()
}

/// One or more spaces and tabs.
pub open spec fn valid_blanks(sp: Seq<u8>) -> bool {
    sp.len() > 0 && forall|i: int| 0 <= i < sp.len() ==> is_blank(#[trigger] sp[i])
}

/// A path of the accepted charset that starts with `/`.
pub open spec fn valid_path(path: Seq<u8>) -> bool {
    &&& path.len() > 0
    &&& path[0] == 47
    &&& forall|i: int| 0 <= i < path.len() ==> is_path_char(#[trigger] path[i])
}

/// `NAME ":" VALUE CRLF`; `v` is all that follows the colon.
pub open spec fn header_line(n: Seq<u8>, v: Seq<u8>) -> Seq<u8> {
    n + seq![58u8] + v + crlf()
}

/// A header field that can be sent: a non-empty token name, and a value
/// without CR or LF.
pub open spec fn valid_field(f: (Seq<u8>, Seq<u8>)) -> bool {
    &&& f.0.len() > 0
    &&& forall|i: int| 0 <= i < f.0.len() ==> is_tchar(#[trigger] f.0[i])
    &&& forall|i: int| 0 <= i < f.1.len() ==> #[trigger] f.1[i] != 13 && f.1[i] != 10
}

pub open spec fn valid_fields(hs: Seq<(Seq<u8>, Seq<u8>)>) -> bool {
    forall|i: int| 0 <= i < hs.len() ==> valid_field(#[trigger] hs[i])
}

/// The header lines of fields `hs`, in order.
pub open spec fn header_block(hs: Seq<(Seq<u8>, Seq<u8>)>) -> Seq<u8>
    decreases hs.len(),
{
    if hs.len() == 0 {
        Seq::empty()
    } else {
        header_block(hs.drop_last()) + header_line(hs.last().0, hs.last().1)
    }
}

/// A whole request: request line, header lines, blank line, body.
pub open spec fn request_bytes(
    m: HttpMethod,
    sp1: Seq<u8>,
    path: Seq<u8>,
    sp2: Seq<u8>,
    hs: Seq<(Seq<u8>, Seq<u8>)>,
    body: Seq<u8>,
) -> Seq<u8> {
    request_line(m, sp1, path, sp2) + header_block(hs) + crlf() + body
}

/// The name and value that a field is stored under.
pub open spec fn stored(f: (Seq<u8>, Seq<u8>)) -> (Seq<char>, Seq<char>) {
    (ascii_chars(f.0), utf8_lossy(strip_leading(f.1)))
}

/// The header mapping that fields `hs` give, later fields replacing earlier
/// ones of the same name.
pub open spec fn field_map(hs: Seq<(Seq<u8>, Seq<u8>)>) -> Map<Seq<char>, Seq<char>> {
    map_of(hs.map_values(|f: (Seq<u8>, Seq<u8>)| stored(f)))
}

/// The last valid `Content-Length` among fields `hs`.
pub open spec fn declared_length(hs: Seq<(Seq<u8>, Seq<u8>)>) -> Option<nat>
    decreases hs.len(),
{
    if hs.len() == 0 {
        None
    } else {
        let v = strip_leading(hs.last().1);
        if is_content_length_name(hs.last().0) && length_value(v).is_some() {
            length_value(v)
        } else {
            declared_length(hs.drop_last())
        }
    }
}

/// What parsing `request_bytes(m, sp1, path, sp2, hs, body)` gives when the header
/// section fits the guard.
pub open spec fn expected_request(
    m: HttpMethod,
    path: Seq<u8>,
    hs: Seq<(Seq<u8>, Seq<u8>)>,
    body: Seq<u8>,
) -> Result<RequestModel, ParseErr> {
    let request = RequestModel {
        method: m,
        path: ascii_chars(path),
        headers: field_map(hs),
        body: body,
    };
    match declared_length(hs) {
        Some(n) => if n <= body.len() {
            Ok(RequestModel { body: body.subrange(0, n as int), ..request })
        } else {
            Err(ParseErr::EarlyEof)
        },
        None => Ok(request),
    }
}

/// The parser after the request line and fields `hs`, the header lines having
/// started at `start`.
pub open spec fn fields_model(
    m: HttpMethod,
    path: Seq<u8>,
    hs: Seq<(Seq<u8>, Seq<u8>)>,
    start: nat,
) -> ParseModel {
    ParseModel {
        stage: Stage::Header,
        lex: LexModel {
            state: LexState::HeaderName,
            pos: start + header_block(hs).len(),
            expecting_length: false,
            length: declared_length(hs),
        },
        request: RequestModel {
            method: m,
            path: ascii_chars(path),
            headers: field_map(hs),
            body: Seq::empty(),
        },
        name: if hs.len() == 0 {
            Seq::empty()
        } else {
            ascii_chars(hs.last().0)
        },
    }
}

proof fn lemma_keyword_letters(m: HttpMethod)
    ensures
        3 <= method_keyword(m).len() <= 7,
        forall|i: int|
            0 <= i < method_keyword(m).len() ==> 65 <= #[trigger] method_keyword(m)[i] <= 90,
{
    let k = method_keyword(m);
    assert forall|i: int| 0 <= i < k.len() implies 65 <= #[trigger] k[i] <= 90 by {
        if i == 0 {
        } else if i == 1 {
        } else if i == 2 {
        } else if i == 3 {
        } else if i == 4 {
        } else if i == 5 {
        } else {
        }
    }
}

/// Where the parts of a request line stand in it.
proof fn lemma_request_line_layout(
    m: HttpMethod,
    sp1: Seq<u8>,
    path: Seq<u8>,
    sp2: Seq<u8>,
    rest: Seq<u8>,
)
    ensures
        ({
            let s = request_line(m, sp1, path, sp2) + rest;
            let k = method_keyword(m).len() as int;
            let a = k + sp1.len();
            let b = a + path.len();
            let u = b + sp2.len();
            &&& request_line(m, sp1, path, sp2).len() == u + 10
            &&& s.subrange(0, k) == method_keyword(m)
            &&& forall|i: int| 0 <= i < k ==> s[i] == #[trigger] method_keyword(m)[i]
            &&& forall|i: int| 0 <= i < sp1.len() ==> s[k + i] == #[trigger] sp1[i]
            &&& s.subrange(a, b) == path
            &&& forall|i: int| 0 <= i < path.len() ==> s[a + i] == #[trigger] path[i]
            &&& forall|i: int| 0 <= i < sp2.len() ==> s[b + i] == #[trigger] sp2[i]
            &&& s.subrange(u, u + 8) == protocol_bytes()
            &&& forall|i: int| 0 <= i < 8 ==> s[u + i] == #[trigger] protocol_bytes()[i]
            &&& s[u + 8] == 13
            &&& s[u + 9] == 10
        }),
{
    let s = request_line(m, sp1, path, sp2) + rest;
    let kw = method_keyword(m);
    let k = kw.len() as int;
    let a = k + sp1.len();
    let b = a + path.len();
    let u = b + sp2.len();
    assert(s.subrange(0, k) =~= kw);
    assert(s.subrange(k, a) =~= sp1);
    assert(s.subrange(a, b) =~= path);
    assert(s.subrange(b, u) =~= sp2);
    assert(s.subrange(u, u + 8) =~= protocol_bytes());
    assert forall|i: int| 0 <= i < k implies s[i] == #[trigger] kw[i] by {
        assert(s.subrange(0, k)[i] == s[i]);
    }
    assert forall|i: int| 0 <= i < sp1.len() implies s[k + i] == #[trigger] sp1[i] by {
        assert(s.subrange(k, a)[i] == s[k + i]);
    }
    assert forall|i: int| 0 <= i < path.len() implies s[a + i] == #[trigger] path[i] by {
        assert(s.subrange(a, b)[i] == s[a + i]);
    }
    assert forall|i: int| 0 <= i < sp2.len() implies s[b + i] == #[trigger] sp2[i] by {
        assert(s.subrange(b, u)[i] == s[b + i]);
    }
    assert forall|i: int| 0 <= i < 8 implies s[u + i] == #[trigger] protocol_bytes()[i] by {
        assert(s.subrange(u, u + 8)[i] == s[u + i]);
    }
}

/// A run of spaces and tabs from `from`: the blank scan ends after it, or at
/// the size guard.
proof fn lemma_skip_blanks(s: Seq<u8>, from: int, sp: Seq<u8>)
    requires
        valid_blanks(sp),
        0 <= from,
        from + sp.len() < s.len(),
        forall|i: int| 0 <= i < sp.len() ==> s[from + i] == #[trigger] sp[i],
        !is_blank(s[from + sp.len()]),
    ensures
        scan(s, from, ScanKind::Blank) == if from + sp.len() <= MAX_HEADER_SIZE + 1 {
            from + sp.len()
        } else if from <= MAX_HEADER_SIZE + 1 {
            MAX_HEADER_SIZE + 1
        } else {
            from
        },
{
    let end = from + sp.len();
    let j = if end <= MAX_HEADER_SIZE + 1 {
        end
    } else if from <= MAX_HEADER_SIZE + 1 {
        MAX_HEADER_SIZE + 1
    } else {
        from
    };
    assert forall|i: int| from <= i < j implies !stops(ScanKind::Blank, i, #[trigger] s[i]) by {
        assert(s[from + (i - from)] == sp[i - from]);
    }
    if j < end {
        assert(s[from + (j - from)] == sp[j - from]);
    }
    lemma_scan_is(s, from, j, ScanKind::Blank);
}

/// The parser takes a well-formed request line, unless the size guard stops
/// it there.
proof fn lemma_request_line(
    m: HttpMethod,
    sp1: Seq<u8>,
    path: Seq<u8>,
    sp2: Seq<u8>,
    rest: Seq<u8>,
)
    requires
        valid_path(path),
        valid_blanks(sp1),
        valid_blanks(sp2),
    ensures
        ({
            let s = request_line(m, sp1, path, sp2) + rest;
            let start = request_line(m, sp1, path, sp2).len();
            ||| parse_request(s) == parse_result(s, fields_model(m, path, Seq::empty(), start))
            ||| parse_request(s) == Err::<RequestModel, ParseErr>(ParseErr::MaxHeaderSizeExceeded)
                && start > MAX_HEADER_SIZE + 2
        }),
{
    let s = request_line(m, sp1, path, sp2) + rest;
    let kw = method_keyword(m);
    let k = kw.len() as int;
    let a = k + sp1.len();
    let p = path.len() as int;
    let b = a + p;
    let u = b + sp2.len();
    lemma_request_line_layout(m, sp1, path, sp2, rest);
    lemma_keyword_letters(m);
    lemma_protocol_bytes();
    lemma_method_of_keyword(m);
    let empty: Seq<(Seq<u8>, Seq<u8>)> = Seq::empty();
    assert(header_block(empty) =~= Seq::<u8>::empty());
    assert(empty.map_values(|f: (Seq<u8>, Seq<u8>)| stored(f)) =~= Seq::empty());
    assert(field_map(empty) == Map::<Seq<char>, Seq<char>>::empty());
    // the method
    let pm0 = initial_parse();
    assert(s[0] == kw[0]);
    assert(stops(ScanKind::Blank, 0, s[0]));
    lemma_scan_is(s, 0, 0, ScanKind::Blank);
    assert forall|i: int| 0 <= i < k implies !stops(ScanKind::Word, i, #[trigger] s[i]) by {
        assert(s[i] == kw[i]);
    }
    assert(s[k + 0] == sp1[0]);
    lemma_scan_is(s, 0, k, ScanKind::Word);
    let lm1 = moved(initial_lex(), LexState::RequestLine, k);
    assert(lex_step(s, true, pm0.lex) == (LexOutcome::Emit(TokenModel::Method(m)), lm1));
    let pm1 = ParseModel {
        stage: Stage::Path,
        lex: lm1,
        request: RequestModel { method: m, ..empty_request() },
        name: Seq::empty(),
    };
    assert(on_token(ParseModel { lex: lm1, ..pm0 }, TokenModel::Method(m)) == Advance::Continue(
        pm1,
    ));
    assert(parse_result(s, pm0) == parse_result(s, pm1));
    // the path
    assert(s[a + 0] == path[0]);
    lemma_skip_blanks(s, k, sp1);
    if a > MAX_HEADER_SIZE {
        assert(lex_step(s, true, lm1).0 == LexOutcome::Emit(TokenModel::MaxHeaderSizeExceeded));
        return;
    }
    let j = if b <= MAX_HEADER_SIZE + 1 {
        b
    } else {
        MAX_HEADER_SIZE + 1
    };
    assert forall|i: int| a <= i < j implies !stops(ScanKind::Path, i, #[trigger] s[i]) by {
        assert(s[a + (i - a)] == path[i - a]);
    }
    assert(s[b + 0] == sp2[0]);
    if j < b {
        assert(s[a + (j - a)] == path[j - a]);
    }
    lemma_scan_is(s, a, j, ScanKind::Path);
    if j > MAX_HEADER_SIZE {
        assert(lex_step(s, true, lm1).0 == LexOutcome::Emit(TokenModel::MaxHeaderSizeExceeded));
        return;
    }
    let lm2 = moved(lm1, LexState::RequestLine, b);
    assert(ascii_chars(s.subrange(a, b)) == ascii_chars(path));
    assert(lex_step(s, true, lm1) == (
        LexOutcome::Emit(TokenModel::Path(ascii_chars(path))),
        lm2,
    ));
    let pm2 = ParseModel {
        stage: Stage::Protocol,
        lex: lm2,
        request: RequestModel { method: m, path: ascii_chars(path), ..empty_request() },
        name: Seq::empty(),
    };
    assert(parse_result(s, pm1) == parse_result(s, pm2));
    // the protocol
    assert(s[u + 0] == protocol_bytes()[0]);
    lemma_skip_blanks(s, b, sp2);
    if u > MAX_HEADER_SIZE {
        assert(lex_step(s, true, lm2).0 == LexOutcome::Emit(TokenModel::MaxHeaderSizeExceeded));
        return;
    }
    let j2 = if u + 8 <= MAX_HEADER_SIZE + 1 {
        u + 8
    } else {
        MAX_HEADER_SIZE + 1
    };
    assert forall|i: int| u <= i < j2 implies !stops(ScanKind::Word, i, #[trigger] s[i]) by {
        assert(s[u + (i - u)] == protocol_bytes()[i - u]);
    }
    if j2 < u + 8 {
        assert(s[u + (j2 - u)] == protocol_bytes()[j2 - u]);
    }
    lemma_scan_is(s, u, j2, ScanKind::Word);
    if j2 > MAX_HEADER_SIZE {
        assert(lex_step(s, true, lm2).0 == LexOutcome::Emit(TokenModel::MaxHeaderSizeExceeded));
        return;
    }
    let lm3 = moved(lm2, LexState::RequestLine, u + 8);
    assert(lex_step(s, true, lm2) == (LexOutcome::Emit(TokenModel::Protocol), lm3));
    let pm3 = ParseModel { stage: Stage::LineEnd, lex: lm3, ..pm2 };
    assert(parse_result(s, pm2) == parse_result(s, pm3));
    // the CRLF
    lemma_scan_is(s, u + 8, u + 8, ScanKind::Blank);
    let lm4 = moved(lm3, LexState::HeaderName, u + 10);
    assert(lex_step(s, true, lm3) == (LexOutcome::Emit(TokenModel::Crlf), lm4));
    let pm4 = ParseModel { stage: Stage::Header, lex: lm4, ..pm3 };
    assert(parse_result(s, pm3) == parse_result(s, pm4));
    assert(pm4 == fields_model(m, path, empty, (u + 10) as nat));
}

/// Appending a field appends its line, may set the length, and inserts it
/// into the mapping.
proof fn lemma_push_field(hs: Seq<(Seq<u8>, Seq<u8>)>, f: (Seq<u8>, Seq<u8>))
    ensures
        hs.push(f).drop_last() == hs,
        header_block(hs.push(f)) == header_block(hs) + header_line(f.0, f.1),
        declared_length(hs.push(f)) == if is_content_length_name(f.0) && length_value(
            strip_leading(f.1),
        ).is_some() {
            length_value(strip_leading(f.1))
        } else {
            declared_length(hs)
        },
        field_map(hs.push(f)) == field_map(hs).insert(stored(f).0, stored(f).1),
{
    assert(hs.push(f).drop_last() =~= hs);
    let g = |x: (Seq<u8>, Seq<u8>)| stored(x);
    assert(hs.push(f).map_values(g) =~= hs.map_values(g).push(stored(f)));
    assert(hs.map_values(g).push(stored(f)).drop_last() =~= hs.map_values(g));
}

/// Where the parts of a header line stand.
proof fn lemma_header_line_layout(a: Seq<u8>, n: Seq<u8>, v: Seq<u8>, b: Seq<u8>)
    ensures
        ({
            let s = a + header_line(n, v) + b;
            let q = a.len() as int;
            let c = q + n.len();
            let e = c + 1 + v.len();
            &&& header_line(n, v).len() == n.len() + v.len() + 3
            &&& s.len() == e + 2 + b.len()
            &&& s.subrange(q, c) == n
            &&& forall|i: int| 0 <= i < n.len() ==> s[q + i] == #[trigger] n[i]
            &&& s[c] == 58
            &&& s.subrange(c + 1, e) == v
            &&& forall|i: int| 0 <= i < v.len() ==> s[c + 1 + i] == #[trigger] v[i]
            &&& s[e] == 13
            &&& s[e + 1] == 10
        }),
{
    let s = a + header_line(n, v) + b;
    let q = a.len() as int;
    let c = q + n.len();
    let e = c + 1 + v.len();
    assert(s.subrange(q, c) =~= n);
    assert(s.subrange(c + 1, e) =~= v);
    assert forall|i: int| 0 <= i < n.len() implies s[q + i] == #[trigger] n[i] by {
        assert(s.subrange(q, c)[i] == s[q + i]);
    }
    assert forall|i: int| 0 <= i < v.len() implies s[c + 1 + i] == #[trigger] v[i] by {
        assert(s.subrange(c + 1, e)[i] == s[c + 1 + i]);
    }
}

/// The parser takes one well-formed header line, unless the size guard stops
/// it within the line.
proof fn lemma_header_line(
    m: HttpMethod,
    path: Seq<u8>,
    hs: Seq<(Seq<u8>, Seq<u8>)>,
    start: nat,
    a: Seq<u8>,
    f: (Seq<u8>, Seq<u8>),
    b: Seq<u8>,
)
    requires
        valid_field(f),
        a.len() == start + header_block(hs).len(),
    ensures
        ({
            let s = a + header_line(f.0, f.1) + b;
            let pm = fields_model(m, path, hs, start);
            ||| parse_result(s, pm) == parse_result(s, fields_model(m, path, hs.push(f), start))
            ||| parse_result(s, pm) == Err::<RequestModel, ParseErr>(ParseErr::MaxHeaderSizeExceeded)
                && a.len() + header_line(f.0, f.1).len() > MAX_HEADER_SIZE + 2
        }),
{
    let (n, v) = f;
    let s = a + header_line(n, v) + b;
    let pm = fields_model(m, path, hs, start);
    let q = a.len() as int;
    let c = q + n.len();
    let e = c + 1 + v.len();
    lemma_header_line_layout(a, n, v, b);
    lemma_push_field(hs, f);
    if q > MAX_HEADER_SIZE {
        assert(lex_step(s, true, pm.lex).0 == LexOutcome::Emit(TokenModel::MaxHeaderSizeExceeded));
        return;
    }
    // the name
    assert(s[q] == n[0]);
    let j = if c <= MAX_HEADER_SIZE + 1 {
        c
    } else {
        MAX_HEADER_SIZE + 1
    };
    assert forall|k: int| q <= k < j implies !stops(ScanKind::Name, k, #[trigger] s[k]) by {
        assert(s[q + (k - q)] == n[k - q]);
    }
    if j < c {
        assert(s[q + (j - q)] == n[j - q]);
    }
    lemma_scan_is(s, q, j, ScanKind::Name);
    if j < c {
        assert(lex_step(s, true, pm.lex).0 == LexOutcome::Emit(TokenModel::MaxHeaderSizeExceeded));
        return;
    }
    let lm1 = LexModel {
        state: LexState::HeaderValue,
        pos: (c + 1) as nat,
        expecting_length: is_content_length_name(n),
        length: declared_length(hs),
    };
    assert(lex_step(s, true, pm.lex) == (
        LexOutcome::Emit(TokenModel::HeaderName(ascii_chars(n))),
        lm1,
    ));
    let pm1 = ParseModel { stage: Stage::Value, lex: lm1, name: ascii_chars(n), ..pm };
    assert(parse_result(s, pm) == parse_result(s, pm1));
    if c + 1 > MAX_HEADER_SIZE {
        assert(lex_step(s, true, lm1).0 == LexOutcome::Emit(TokenModel::MaxHeaderSizeExceeded));
        return;
    }
    // the value
    let j2 = if e <= MAX_HEADER_SIZE + 1 {
        e
    } else {
        MAX_HEADER_SIZE + 1
    };
    assert forall|k: int| c + 1 <= k < j2 implies !stops(ScanKind::Value, k, #[trigger] s[k]) by {
        assert(s[c + 1 + (k - c - 1)] == v[k - c - 1]);
    }
    if j2 < e {
        assert(s[c + 1 + (j2 - c - 1)] == v[j2 - c - 1]);
    }
    lemma_scan_is(s, c + 1, j2, ScanKind::Value);
    if j2 < e {
        assert(lex_step(s, true, lm1).0 == LexOutcome::Emit(TokenModel::MaxHeaderSizeExceeded));
        return;
    }
    let after = fields_model(m, path, hs.push(f), start);
    assert(lex_step(s, true, lm1) == (
        LexOutcome::Emit(TokenModel::HeaderValue(stored(f).1)),
        after.lex,
    ));
    assert(parse_result(s, pm1) == parse_result(s, after));
}


/// The parser takes well-formed header lines `hs`, unless the size guard stops
/// it within them.
proof fn lemma_header_block(
    m: HttpMethod,
    path: Seq<u8>,
    hs: Seq<(Seq<u8>, Seq<u8>)>,
    a: Seq<u8>,
    y: Seq<u8>,
)
    requires
        valid_fields(hs),
    ensures
        ({
            let s = a + header_block(hs) + y;
            let pm = fields_model(m, path, Seq::empty(), a.len());
            ||| parse_result(s, pm) == parse_result(s, fields_model(m, path, hs, a.len()))
            ||| parse_result(s, pm) == Err::<RequestModel, ParseErr>(ParseErr::MaxHeaderSizeExceeded)
                && a.len() + header_block(hs).len() > MAX_HEADER_SIZE + 2
        }),
    decreases hs.len(),
{
    let s = a + header_block(hs) + y;
    if hs.len() == 0 {
        assert(hs =~= Seq::empty());
    } else {
        let t = hs.drop_last();
        let f = hs.last();
        assert(hs =~= t.push(f));
        assert forall|i: int| 0 <= i < t.len() implies valid_field(#[trigger] t[i]) by {
            assert(t[i] == hs[i]);
        }
        assert(valid_field(hs[hs.len() - 1]));
        let line = header_line(f.0, f.1);
        assert(s =~= a + header_block(t) + (line + y));
        lemma_header_block(m, path, t, a, line + y);
        assert(s =~= (a + header_block(t)) + line + y);
        lemma_header_line(m, path, t, a.len(), a + header_block(t), f, y);
    }
}

/// The blank line that ends the header section, and the body after it.
proof fn lemma_blank_line_and_body(
    m: HttpMethod,
    path: Seq<u8>,
    hs: Seq<(Seq<u8>, Seq<u8>)>,
    start: nat,
    z: Seq<u8>,
    body: Seq<u8>,
)
    requires
        z.len() == start + header_block(hs).len(),
    ensures
        ({
            let s = z + crlf() + body;
            let pm = fields_model(m, path, hs, start);
            &&& z.len() <= MAX_HEADER_SIZE ==> parse_result(s, pm) == expected_request(
                m,
                path,
                hs,
                body,
            )
            &&& z.len() > MAX_HEADER_SIZE ==> parse_result(s, pm) == Err::<RequestModel, ParseErr>(
                ParseErr::MaxHeaderSizeExceeded,
            )
        }),
{
    let s = z + crlf() + body;
    let pm = fields_model(m, path, hs, start);
    let b = z.len() as int;
    if b > MAX_HEADER_SIZE {
        assert(lex_step(s, true, pm.lex).0 == LexOutcome::Emit(TokenModel::MaxHeaderSizeExceeded));
        return;
    }
    assert(s[b] == 13);
    assert(s[b + 1] == 10);
    let lm1 = moved(pm.lex, LexState::Body, b + 2);
    assert(lex_step(s, true, pm.lex) == (LexOutcome::Emit(TokenModel::Crlf), lm1));
    let pm1 = ParseModel { stage: Stage::Body, lex: lm1, ..pm };
    assert(parse_result(s, pm) == parse_result(s, pm1));
    assert(s.subrange(b + 2, s.len() as int) =~= body);
    match declared_length(hs) {
        Some(n) => {
            if n <= body.len() {
                assert(s.subrange(b + 2, b + 2 + n) =~= body.subrange(0, n as int));
            }
        },
        None => {},
    }
}

/// What parsing a well-formed request gives: the exact request where the
/// header section fits the size guard (an early end where the body is
/// shorter than its `Content-Length`), and `MaxHeaderSizeExceeded` where it
/// does not.
pub proof fn lemma_parse_request_bytes(
    m: HttpMethod,
    sp1: Seq<u8>,
    path: Seq<u8>,
    sp2: Seq<u8>,
    hs: Seq<(Seq<u8>, Seq<u8>)>,
    body: Seq<u8>,
)
    requires
        valid_path(path),
        valid_blanks(sp1),
        valid_blanks(sp2),
        valid_fields(hs),
    ensures
        request_line(m, sp1, path, sp2).len() + header_block(hs).len() <= MAX_HEADER_SIZE ==> parse_request(
            request_bytes(m, sp1, path, sp2, hs, body),
        ) == expected_request(m, path, hs, body),
        request_line(m, sp1, path, sp2).len() + header_block(hs).len() > MAX_HEADER_SIZE ==> parse_request(
            request_bytes(m, sp1, path, sp2, hs, body),
        ) == Err::<RequestModel, ParseErr>(ParseErr::MaxHeaderSizeExceeded),
{
    let rl = request_line(m, sp1, path, sp2);
    let block = header_block(hs);
    let s = request_bytes(m, sp1, path, sp2, hs, body);
    assert(s =~= rl + (block + crlf() + body));
    lemma_request_line(m, sp1, path, sp2, block + crlf() + body);
    assert(s =~= rl + block + (crlf() + body));
    lemma_header_block(m, path, hs, rl, crlf() + body);
    assert(s =~= (rl + block) + crlf() + body);
    lemma_blank_line_and_body(m, path, hs, rl.len(), rl + block, body);
}

/// Header guard: a request line and header lines that together pass the size
/// guard give `MaxHeaderSizeExceeded`, whatever follows them.
pub proof fn law_header_guard(
    m: HttpMethod,
    sp1: Seq<u8>,
    path: Seq<u8>,
    sp2: Seq<u8>,
    hs: Seq<(Seq<u8>, Seq<u8>)>,
    rest: Seq<u8>,
)
    requires
        valid_path(path),
        valid_blanks(sp1),
        valid_blanks(sp2),
        valid_fields(hs),
        request_line(m, sp1, path, sp2).len() + header_block(hs).len() > MAX_HEADER_SIZE,
    ensures
        parse_request(request_line(m, sp1, path, sp2) + header_block(hs) + rest) == Err::<
            RequestModel,
            ParseErr,
        >(ParseErr::MaxHeaderSizeExceeded),
{
    let rl = request_line(m, sp1, path, sp2);
    let block = header_block(hs);
    let s = rl + block + rest;
    assert(s =~= rl + (block + rest));
    lemma_request_line(m, sp1, path, sp2, block + rest);
    lemma_header_block(m, path, hs, rl, rest);
    let pm = fields_model(m, path, hs, rl.len());
    assert(lex_step(s, true, pm.lex).0 == LexOutcome::Emit(TokenModel::MaxHeaderSizeExceeded));
}


/// The start of a header line: its name, or its name, colon and part of its
/// value.
pub open spec fn partial_line(n: Seq<u8>, v: Option<Seq<u8>>) -> Seq<u8> {
    match v {
        Some(v) => n + seq![58u8] + v,
        None => n,
    }
}

/// The value part of a partial line, empty where it stops at the name.
pub open spec fn partial_value(v: Option<Seq<u8>>) -> Seq<u8> {
    match v {
        Some(v) => v,
        None => Seq::empty(),
    }
}

/// A header line that runs past the size guard stops the parser there,
/// whatever comes after the guard.
proof fn lemma_partial_line(
    m: HttpMethod,
    path: Seq<u8>,
    hs: Seq<(Seq<u8>, Seq<u8>)>,
    start: nat,
    a: Seq<u8>,
    n: Seq<u8>,
    v: Option<Seq<u8>>,
    rest: Seq<u8>,
)
    requires
        valid_field((n, partial_value(v))),
        a.len() == start + header_block(hs).len(),
        a.len() + partial_line(n, v).len() > MAX_HEADER_SIZE + 1,
    ensures
        parse_result(a + partial_line(n, v) + rest, fields_model(m, path, hs, start)) == Err::<
            RequestModel,
            ParseErr,
        >(ParseErr::MaxHeaderSizeExceeded),
{
    let t = partial_line(n, v);
    let s = a + t + rest;
    let pm = fields_model(m, path, hs, start);
    let q = a.len() as int;
    let c = q + n.len();
    let cap = MAX_HEADER_SIZE + 1;
    if q > MAX_HEADER_SIZE {
        assert(lex_step(s, true, pm.lex).0 == LexOutcome::Emit(TokenModel::MaxHeaderSizeExceeded));
        return;
    }
    assert(s.subrange(q, c) =~= n);
    assert forall|i: int| 0 <= i < n.len() implies s[q + i] == #[trigger] n[i] by {
        assert(s.subrange(q, c)[i] == s[q + i]);
    }
    assert(s[q + 0] == n[0]);
    if c > cap {
        assert forall|k: int| q <= k < cap implies !stops(ScanKind::Name, k, #[trigger] s[k]) by {
            assert(s[q + (k - q)] == n[k - q]);
        }
        assert(s[q + (cap - q)] == n[cap - q]);
        lemma_scan_is(s, q, cap, ScanKind::Name);
        assert(lex_step(s, true, pm.lex).0 == LexOutcome::Emit(TokenModel::MaxHeaderSizeExceeded));
        return;
    }
    let w = partial_value(v);
    assert(v is Some);
    assert(s[c] == 58);
    assert forall|k: int| q <= k < c implies !stops(ScanKind::Name, k, #[trigger] s[k]) by {
        assert(s[q + (k - q)] == n[k - q]);
    }
    lemma_scan_is(s, q, c, ScanKind::Name);
    let lm1 = LexModel {
        state: LexState::HeaderValue,
        pos: (c + 1) as nat,
        expecting_length: is_content_length_name(n),
        length: declared_length(hs),
    };
    assert(lex_step(s, true, pm.lex) == (
        LexOutcome::Emit(TokenModel::HeaderName(ascii_chars(n))),
        lm1,
    ));
    let pm1 = ParseModel { stage: Stage::Value, lex: lm1, name: ascii_chars(n), ..pm };
    assert(parse_result(s, pm) == parse_result(s, pm1));
    if c + 1 > MAX_HEADER_SIZE {
        assert(lex_step(s, true, lm1).0 == LexOutcome::Emit(TokenModel::MaxHeaderSizeExceeded));
        return;
    }
    let e = c + 1 + w.len();
    assert(s.subrange(c + 1, e) =~= w);
    assert(t =~= n + seq![58u8] + w);
    assert(e == q + t.len());
    let f = (n, w);
    assert(valid_field(f));
    assert forall|k: int| c + 1 <= k < cap implies !stops(ScanKind::Value, k, #[trigger] s[k]) by {
        assert(s.subrange(c + 1, e)[k - c - 1] == s[k]);
        assert(f.1[k - c - 1] != 13 && f.1[k - c - 1] != 10);
    }
    assert(s.subrange(c + 1, e)[cap - c - 1] == s[cap]);
    assert(f.1[cap - c - 1] != 13);
    lemma_scan_is(s, c + 1, cap, ScanKind::Value);
    assert(lex_step(s, true, lm1).0 == LexOutcome::Emit(TokenModel::MaxHeaderSizeExceeded));
}

/// Header guard, within a line: where the header lines run past the size
/// guard inside a line, well-formed up to there, the parse gives
/// `MaxHeaderSizeExceeded`, whatever follows.
pub proof fn law_header_guard_within_line(
    m: HttpMethod,
    sp1: Seq<u8>,
    path: Seq<u8>,
    sp2: Seq<u8>,
    hs: Seq<(Seq<u8>, Seq<u8>)>,
    n: Seq<u8>,
    v: Option<Seq<u8>>,
    rest: Seq<u8>,
)
    requires
        valid_path(path),
        valid_blanks(sp1),
        valid_blanks(sp2),
        valid_fields(hs),
        valid_field((n, partial_value(v))),
        request_line(m, sp1, path, sp2).len() + header_block(hs).len() + partial_line(n, v).len()
            > MAX_HEADER_SIZE + 1,
    ensures
        parse_request(
            request_line(m, sp1, path, sp2) + header_block(hs) + partial_line(n, v) + rest,
        ) == Err::<RequestModel, ParseErr>(ParseErr::MaxHeaderSizeExceeded),
{
    let rl = request_line(m, sp1, path, sp2);
    let block = header_block(hs);
    let t = partial_line(n, v);
    let s = rl + block + t + rest;
    assert(s =~= rl + (block + t + rest));
    lemma_request_line(m, sp1, path, sp2, block + t + rest);
    assert(s =~= rl + block + (t + rest));
    lemma_header_block(m, path, hs, rl, t + rest);
    lemma_partial_line(m, path, hs, rl.len(), rl + block, n, v, rest);
}

/// Different bytes are different ASCII text.
proof fn lemma_ascii_chars_injective(a: Seq<u8>, b: Seq<u8>)
    requires
        ascii_chars(a) == ascii_chars(b),
    ensures
        a == b,
{
    assert(a.len() == ascii_chars(a).len());
    assert(b.len() == ascii_chars(b).len());
    assert forall|i: int| 0 <= i < a.len() implies a[i] == b[i] by {
        assert(ascii_chars(a)[i] == a[i] as char);
        assert(ascii_chars(b)[i] == b[i] as char);
    }
    assert(a =~= b);
}

/// Round trip of header fields: in a request that parses, a field that no
/// later field of the same name follows is stored under its name, with its
/// value stripped of leading spaces and tabs.
pub proof fn law_field_round_trip(
    m: HttpMethod,
    sp1: Seq<u8>,
    path: Seq<u8>,
    sp2: Seq<u8>,
    before: Seq<(Seq<u8>, Seq<u8>)>,
    n: Seq<u8>,
    v: Seq<u8>,
    after: Seq<(Seq<u8>, Seq<u8>)>,
    body: Seq<u8>,
)
    requires
        valid_path(path),
        valid_blanks(sp1),
        valid_blanks(sp2),
        valid_fields(before.push((n, v)) + after),
        forall|i: int| 0 <= i < after.len() ==> (#[trigger] after[i]).0 != n,
        request_line(m, sp1, path, sp2).len() + header_block(before.push((n, v)) + after).len()
            <= MAX_HEADER_SIZE,
        match declared_length(before.push((n, v)) + after) {
            Some(k) => k <= body.len(),
            None => true,
        },
    ensures
        match parse_request(request_bytes(m, sp1, path, sp2, before.push((n, v)) + after, body)) {
            Ok(r) => r.headers.contains_key(ascii_chars(n)) && r.headers[ascii_chars(n)]
                == utf8_lossy(strip_leading(v)),
            Err(_) => false,
        },
{
    let hs = before.push((n, v)) + after;
    lemma_parse_request_bytes(m, sp1, path, sp2, hs, body);
    let stored_fields = hs.map_values(|f: (Seq<u8>, Seq<u8>)| stored(f));
    let i = before.len() as int;
    assert(hs[i] == (n, v));
    assert forall|j: int| i < j < stored_fields.len() implies (#[trigger] stored_fields[j]).0
        != stored_fields[i].0 by {
        assert(hs[j] == after[j - i - 1]);
        if stored_fields[j].0 == stored_fields[i].0 {
            lemma_ascii_chars_injective(hs[j].0, n);
        }
    }
    lemma_map_of_last(stored_fields, i);
}

/// The bytes of `Content-Length`.
pub open spec fn content_length_field() -> Seq<u8> {
    seq![67u8, 111, 110, 116, 101, 110, 116, 45, 76, 101, 110, 103, 116, 104]
}

proof fn lemma_content_length_field()
    ensures
        is_content_length_name(content_length_field()),
        forall|i: int|
            0 <= i < content_length_field().len() ==> is_tchar(
                #[trigger] content_length_field()[i],
            ),
{
    let f = content_length_field();
    assert forall|i: int| 0 <= i < 14 implies ascii_lower(#[trigger] f[i])
        == content_length_name()[i] && is_tchar(f[i]) by {
        if i == 0 {
        } else if i == 1 {
        } else if i == 2 {
        } else if i == 3 {
        } else if i == 4 {
        } else if i == 5 {
        } else if i == 6 {
        } else if i == 7 {
        } else if i == 8 {
        } else if i == 9 {
        } else if i == 10 {
        } else if i == 11 {
        } else if i == 12 {
        } else {
        }
    }
}

proof fn lemma_digits_value_nonnegative(t: Seq<u8>)
    requires
        all_digits(t),
    ensures
        digits_value(t) >= 0,
    decreases t.len(),
{
    if t.len() > 0 {
        assert(all_digits(t.drop_last()));
        lemma_digits_value_nonnegative(t.drop_last());
    }
}

/// Content-Length bound: with `Content-Length: N` as the last header field,
/// the body is the first `N` bytes of what follows the blank line, and the
/// input ends early where fewer follow.
pub proof fn law_content_length_bound(
    m: HttpMethod,
    sp1: Seq<u8>,
    path: Seq<u8>,
    sp2: Seq<u8>,
    hs: Seq<(Seq<u8>, Seq<u8>)>,
    digits: Seq<u8>,
    body: Seq<u8>,
)
    requires
        valid_path(path),
        valid_blanks(sp1),
        valid_blanks(sp2),
        valid_fields(hs),
        digits.len() > 0,
        all_digits(digits),
        digits_value(digits) <= usize::MAX,
        request_line(m, sp1, path, sp2).len() + header_block(
            hs.push((content_length_field(), seq![32u8] + digits)),
        ).len() <= MAX_HEADER_SIZE,
    ensures
        ({
            let n = digits_value(digits);
            let result = parse_request(
                request_bytes(m, sp1, path, sp2, hs.push((content_length_field(), seq![32u8] + digits)), body),
            );
            &&& n <= body.len() ==> result is Ok && result->Ok_0.body == body.subrange(0, n)
            &&& n > body.len() ==> result == Err::<RequestModel, ParseErr>(ParseErr::EarlyEof)
        }),
{
    let value = seq![32u8] + digits;
    let f = (content_length_field(), value);
    let all = hs.push(f);
    lemma_content_length_field();
    assert(value[0] == 32);
    assert(value[1] == digits[0]);
    lemma_scan_is(value, 0, 1, ScanKind::Blank);
    assert(strip_leading(value) =~= digits);
    assert forall|i: int| 0 <= i < value.len() implies #[trigger] value[i] != 13 && value[i]
        != 10 by {
        if i > 0 {
            assert(value[i] == digits[i - 1]);
        }
    }
    assert(valid_field(f));
    assert forall|i: int| 0 <= i < all.len() implies valid_field(#[trigger] all[i]) by {
        if i < hs.len() {
            assert(all[i] == hs[i]);
        }
    }
    lemma_push_field(hs, f);
    lemma_digits_value_nonnegative(digits);
    assert(length_value(digits) == Some(digits_value(digits) as nat));
    assert(declared_length(all) == Some(digits_value(digits) as nat));
    lemma_parse_request_bytes(m, sp1, path, sp2, all, body);
}

/// Content-Length and body length agree: where the header fields declare a
/// valid length and at least that many bytes follow, the body has exactly
/// that length.
pub proof fn law_length_matches_body(
    m: HttpMethod,
    sp1: Seq<u8>,
    path: Seq<u8>,
    sp2: Seq<u8>,
    hs: Seq<(Seq<u8>, Seq<u8>)>,
    body: Seq<u8>,
)
    requires
        valid_path(path),
        valid_blanks(sp1),
        valid_blanks(sp2),
        valid_fields(hs),
        request_line(m, sp1, path, sp2).len() + header_block(hs).len() <= MAX_HEADER_SIZE,
        declared_length(hs) is Some,
        declared_length(hs)->Some_0 <= body.len(),
    ensures
        ({
            let result = parse_request(request_bytes(m, sp1, path, sp2, hs, body));
            result is Ok && result->Ok_0.body.len() == declared_length(hs)->Some_0
        }),
{
    lemma_parse_request_bytes(m, sp1, path, sp2, hs, body);
}

/// No two fields share a name.
pub open spec fn distinct_names(hs: Seq<(Seq<u8>, Seq<u8>)>) -> bool {
    forall|i: int, j: int|
        0 <= i < hs.len() && 0 <= j < hs.len() && i != j ==> (#[trigger] hs[i]).0 != (
        #[trigger] hs[j]).0
}

/// With distinct names, a name is mapped exactly where a field carries it.
proof fn lemma_field_map_distinct(hs: Seq<(Seq<u8>, Seq<u8>)>, k: Seq<char>)
    requires
        distinct_names(hs),
    ensures
        field_map(hs).contains_key(k) <==> exists|i: int|
            0 <= i < hs.len() && stored(#[trigger] hs[i]).0 == k,
        forall|i: int|
            0 <= i < hs.len() && stored(#[trigger] hs[i]).0 == k ==> field_map(hs)[k] == stored(
                hs[i],
            ).1,
{
    let sf = hs.map_values(|f: (Seq<u8>, Seq<u8>)| stored(f));
    lemma_map_of_keys(sf, k);
    if field_map(hs).contains_key(k) {
        let i = choose|i: int| 0 <= i < sf.len() && (#[trigger] sf[i]).0 == k;
        assert(stored(hs[i]).0 == k);
    }
    if exists|i: int| 0 <= i < hs.len() && stored(#[trigger] hs[i]).0 == k {
        let i = choose|i: int| 0 <= i < hs.len() && stored(#[trigger] hs[i]).0 == k;
        assert(sf[i].0 == k);
    }
    assert forall|i: int|
        0 <= i < hs.len() && stored(#[trigger] hs[i]).0 == k implies field_map(hs)[k] == stored(
        hs[i],
    ).1 by {
        assert forall|j: int| i < j < sf.len() implies (#[trigger] sf[j]).0 != sf[i].0 by {
            if sf[j].0 == sf[i].0 {
                lemma_ascii_chars_injective(hs[j].0, hs[i].0);
            }
        }
        lemma_map_of_last(sf, i);
    }
}

/// Order independence: two requests whose header lines are the same fields
/// in another order, no two of a name, both parse, to the same header
/// mapping, method and path.
pub proof fn law_field_order(
    m: HttpMethod,
    sp1: Seq<u8>,
    path: Seq<u8>,
    sp2: Seq<u8>,
    hs1: Seq<(Seq<u8>, Seq<u8>)>,
    hs2: Seq<(Seq<u8>, Seq<u8>)>,
    body: Seq<u8>,
)
    requires
        valid_path(path),
        valid_blanks(sp1),
        valid_blanks(sp2),
        valid_fields(hs1),
        valid_fields(hs2),
        distinct_names(hs1),
        distinct_names(hs2),
        hs1.to_multiset() == hs2.to_multiset(),
        request_line(m, sp1, path, sp2).len() + header_block(hs1).len() <= MAX_HEADER_SIZE,
        request_line(m, sp1, path, sp2).len() + header_block(hs2).len() <= MAX_HEADER_SIZE,
        match declared_length(hs1) {
            Some(k) => k <= body.len(),
            None => true,
        },
        match declared_length(hs2) {
            Some(k) => k <= body.len(),
            None => true,
        },
    ensures
        ({
            let r1 = parse_request(request_bytes(m, sp1, path, sp2, hs1, body));
            let r2 = parse_request(request_bytes(m, sp1, path, sp2, hs2, body));
            &&& r1 is Ok
            &&& r2 is Ok
            &&& r1->Ok_0.headers == r2->Ok_0.headers
            &&& r1->Ok_0.method == r2->Ok_0.method
            &&& r1->Ok_0.path == r2->Ok_0.path
        }),
{
    lemma_parse_request_bytes(m, sp1, path, sp2, hs1, body);
    lemma_parse_request_bytes(m, sp1, path, sp2, hs2, body);
    hs1.to_multiset_ensures();
    hs2.to_multiset_ensures();
    assert forall|k: Seq<char>| #[trigger] field_map(hs1).contains_key(k) == field_map(
        hs2,
    ).contains_key(k) by {
        lemma_field_map_distinct(hs1, k);
        lemma_field_map_distinct(hs2, k);
        if field_map(hs1).contains_key(k) {
            let i = choose|i: int| 0 <= i < hs1.len() && stored(#[trigger] hs1[i]).0 == k;
            assert(hs1.contains(hs1[i]));
            assert(hs1.to_multiset().count(hs1[i]) > 0);
            assert(hs2.contains(hs1[i]));
            let j = choose|j: int| 0 <= j < hs2.len() && hs2[j] == hs1[i];
            assert(stored(hs2[j]).0 == k);
        }
        if field_map(hs2).contains_key(k) {
            let j = choose|j: int| 0 <= j < hs2.len() && stored(#[trigger] hs2[j]).0 == k;
            assert(hs2.contains(hs2[j]));
            assert(hs2.to_multiset().count(hs2[j]) > 0);
            assert(hs1.contains(hs2[j]));
            let i = choose|i: int| 0 <= i < hs1.len() && hs1[i] == hs2[j];
            assert(stored(hs1[i]).0 == k);
        }
    }
    assert forall|k: Seq<char>| #[trigger] field_map(hs1).contains_key(k) implies field_map(
        hs1,
    )[k] == field_map(hs2)[k] by {
        lemma_field_map_distinct(hs1, k);
        lemma_field_map_distinct(hs2, k);
        let i = choose|i: int| 0 <= i < hs1.len() && stored(#[trigger] hs1[i]).0 == k;
        assert(hs1.contains(hs1[i]));
        assert(hs1.to_multiset().count(hs1[i]) > 0);
        assert(hs2.contains(hs1[i]));
        let j = choose|j: int| 0 <= j < hs2.len() && hs2[j] == hs1[i];
        assert(stored(hs2[j]).0 == k);
    }
    assert(field_map(hs1) =~= field_map(hs2));
}

} // verus!
