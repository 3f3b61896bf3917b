//! Parsing of raw HTTP/1.x responses into status line, headers and body.

use vstd::prelude::*;
use crate::error::Error;
use crate::text::{
    before, chars_of, find_char, index_of, lemma_index_of_bounds, parse_u32,
    parse_u32_range, skip_whitespace, split_on, string_of, trim, trim_range, trim_start,
};

verus! {

/// `s` with each `"\n\r"` replaced by `"\n"`, scanning from the left.
pub open spec fn normalize_line_ends(s: Seq<char>) -> Seq<char>
    decreases s.len(),
{
    if s.len() == 0 {
        s
    } else if s.len() >= 2 && s[0] == '\n' && s[1] == '\r' {
        seq!['\n'] + normalize_line_ends(s.skip(2))
    } else {
        seq![s[0]] + normalize_line_ends(s.drop_first())
    }
}

/// The text that the parser reads: leading whitespace dropped, then line ends normalised.
pub open spec fn preprocess(raw: Seq<char>) -> Seq<char> {
    normalize_line_ends(trim_start(raw))
}

/// The index of the first `"\n\n"` in `s`, if any.
pub open spec fn index_of_blank_line(s: Seq<char>) -> Option<int>
    decreases s.len(),
{
    if s.len() < 2 {
        None
    } else if s[0] == '\n' && s[1] == '\n' {
        Some(0)
    } else {
        match index_of_blank_line(s.drop_first()) {
            Some(i) => Some(i + 1),
            None => None,
        }
    }
}

/// A header as a pair of name and value.
pub open spec fn header_of(line: Seq<char>) -> Option<(Seq<char>, Seq<char>)> {
    match index_of(line, ':') {
        Some(i) => Some((trim(line.take(i)), trim(line.skip(i + 1)))),
        None => None,
    }
}

/// The headers of the given lines, in order; a line without `:` gives none.
pub open spec fn headers_of_lines(lines: Seq<Seq<char>>) -> Seq<(Seq<char>, Seq<char>)>
    decreases lines.len(),
{
    if lines.len() == 0 {
        Seq::empty()
    } else {
        let first = match header_of(lines[0]) {
            Some(h) => seq![h],
            None => Seq::empty(),
        };
        first + headers_of_lines(lines.drop_first())
    }
}

/// The headers and the body in the text that follows the status line. A
/// blank line right after the status line leaves no headers; otherwise the
/// header lines run up to the first blank line, and without one all of it is
/// the body.
pub open spec fn headers_and_body(rest: Seq<char>) -> (Seq<(Seq<char>, Seq<char>)>, Seq<char>) {
    if rest.len() > 0 && rest[0] == '\n' {
        (Seq::empty(), rest.drop_first())
    } else {
        match index_of_blank_line(rest) {
            Some(j) => (headers_of_lines(split_on(rest.take(j), '\n')), rest.skip(j + 2)),
            None => (Seq::empty(), rest),
        }
    }
}

/// The status code of a token: its value, or 404 where it is no `u32`.
pub open spec fn status_code_of(token: Seq<char>) -> u32 {
    match parse_u32(token) {
        Some(v) => v,
        None => 404,
    }
}

/// What a response consists of.
pub struct ResponseView {
    pub version: Seq<char>,
    pub status_code: u32,
    pub reason: Seq<char>,
    pub headers: Seq<(Seq<char>, Seq<char>)>,
    pub body: Seq<char>,
}

/// The response that `raw` describes, or `None` where it is malformed.
pub open spec fn response_of(raw: Seq<char>) -> Option<ResponseView> {
    let p = preprocess(raw);
    match index_of(p, '\n') {
        Some(i) => {
            let tokens = split_on(p.take(i), ' ');
            if tokens.len() >= 3 {
                let (headers, body) = headers_and_body(p.skip(i + 1));
                Some(
                    ResponseView {
                        version: tokens[0],
                        status_code: status_code_of(tokens[1]),
                        reason: tokens[2],
                        headers,
                        body,
                    },
                )
            } else {
                None
            }
        },
        None => None,
    }
}

/// Whether `r` is what parsing `raw` gives: the response that `raw` describes,
/// or `MalformedResponse` where there is none.
pub open spec fn is_outcome_of(raw: Seq<char>, r: Result<HttpResponse, Error>) -> bool {
    match response_of(raw) {
        Some(v) => r is Ok && r->Ok_0@ == v,
        None => r is Err && r->Err_0 == Error::MalformedResponse,
    }
}

/// Parsing the same raw text twice gives equal outcomes: both fail with the
/// same error, or both succeed with the same version, status, reason, headers
/// and body.
pub proof fn lemma_parse_deterministic(
    raw: Seq<char>,
    first: Result<HttpResponse, Error>,
    second: Result<HttpResponse, Error>,
)
    requires
        is_outcome_of(raw, first),
        is_outcome_of(raw, second),
    ensures
        first is Ok <==> second is Ok,
        first is Ok ==> first->Ok_0@ == second->Ok_0@,
        first is Err ==> first->Err_0 == second->Err_0,
{
}

/// The value of the first header named `name`.
pub open spec fn lookup(headers: Seq<(Seq<char>, Seq<char>)>, name: Seq<char>) -> Option<
    Seq<char>,
>
    decreases headers.len(),
{
    if headers.len() == 0 {
        None
    } else if headers[0].0 == name {
        Some(headers[0].1)
    } else {
        lookup(headers.drop_first(), name)
    }
}

/// A header line's name and value, trimmed.
#[derive(Debug, Clone)]
pub struct Header {
    pub name: String,
    pub value: String,
}

impl View for Header {
    type V = (Seq<char>, Seq<char>);

    open spec fn view(&self) -> (Seq<char>, Seq<char>) {
        (self.name@, self.value@)
    }
}

impl Header {
    pub fn new(name: String, value: String) -> (r: Self)
        ensures
            r.name@ == name@,
            r.value@ == value@,
    {
        Self { name, value }
    }
}

/// A parsed response.
#[derive(Debug, Clone)]
pub struct HttpResponse {
    version: String,
    status_code: u32,
    reason: String,
    headers: Vec<Header>,
    body: String,
}

impl View for HttpResponse {
    type V = ResponseView;

    closed spec fn view(&self) -> ResponseView {
        ResponseView {
            version: self.version@,
            status_code: self.status_code,
            reason: self.reason@,
            headers: self.headers@.map_values(|h: Header| h@),
            body: self.body@,
        }
    }
}


proof fn lemma_split_first(s: Seq<char>, c: char)
    ensures
        split_on(s, c).len() >= 1,
        split_on(s, c)[0] == before(s, c),
        match index_of(s, c) {
            Some(i) => split_on(s, c).drop_first() == split_on(s.skip(i + 1), c),
            None => split_on(s, c).len() == 1,
        },
{
    lemma_index_of_bounds(s, c);
    match index_of(s, c) {
        Some(i) => {
            assert((seq![s.take(i)] + split_on(s.skip(i + 1), c)).drop_first() =~= split_on(
                s.skip(i + 1),
                c,
            ));
        },
        None => {},
    }
}

proof fn lemma_blank_line_at(s: Seq<char>, j: int)
    requires
        0 <= j <= s.len(),
        forall|k: int| 0 <= k < j && k + 1 < s.len() ==> !(#[trigger] s[k] == '\n' && s[k + 1] == '\n'),
        j + 1 < s.len() ==> s[j] == '\n' && s[j + 1] == '\n',
        j + 1 >= s.len() ==> j == s.len(),
    ensures
        index_of_blank_line(s) == (if j + 1 < s.len() { Some(j) } else { None::<int> }),
    decreases s.len(),
{
    if s.len() >= 2 && j > 0 {
        let t = s.drop_first();
        assert forall|k: int| 0 <= k < j - 1 && k + 1 < t.len() implies !(#[trigger] t[k] == '\n' && t[k
            + 1] == '\n') by {
            assert(t[k] == s[k + 1] && t[k + 1] == s[k + 2]);
        }
        lemma_blank_line_at(t, j - 1);
    }
}

proof fn lemma_headers_cons(first: Seq<char>, rest: Seq<Seq<char>>)
    ensures
        headers_of_lines(seq![first] + rest) == (match header_of(first) {
            Some(h) => seq![h],
            None => Seq::empty(),
        }) + headers_of_lines(rest),
{
    let l = seq![first] + rest;
    assert(l.drop_first() =~= rest);
    assert(l[0] == first);
}

impl HttpResponse {
    /// The text `s[lo..hi]` with each `"\n\r"` replaced by `"\n"`.
    fn normalize(s: &Vec<char>, lo: usize, hi: usize) -> (r: Vec<char>)
        requires
            lo <= hi <= s@.len(),
        ensures
            r@ == normalize_line_ends(s@.subrange(lo as int, hi as int)),
    {
        let mut out: Vec<char> = Vec::new();
        let mut i: usize = lo;
        while i < hi
            invariant
                lo <= i <= hi <= s@.len(),
                normalize_line_ends(s@.subrange(lo as int, hi as int)) == out@
                    + normalize_line_ends(s@.subrange(i as int, hi as int)),
            decreases hi - i,
        {
            let ghost sub = s@.subrange(i as int, hi as int);
            let ghost old_out = out@;
            if i + 1 < hi && s[i] == '\n' && s[i + 1] == '\r' {
                assert(sub.skip(2) =~= s@.subrange(i + 2, hi as int));
                out.push('\n');
                assert(old_out + normalize_line_ends(sub) =~= out@ + normalize_line_ends(
                    sub.skip(2),
                ));
                i = i + 2;
            } else {
                assert(sub.drop_first() =~= s@.subrange(i + 1, hi as int));
                out.push(s[i]);
                assert(old_out + normalize_line_ends(sub) =~= out@ + normalize_line_ends(
                    sub.drop_first(),
                ));
                i = i + 1;
            }
        }
        assert(out@ + normalize_line_ends(s@.subrange(i as int, hi as int)) =~= out@);
        out
    }

    /// Finds the first `"\n\n"` in `s[lo..hi]`, as an index into `s`.
    fn find_blank_line(s: &Vec<char>, lo: usize, hi: usize) -> (r: Option<usize>)
        requires
            lo <= hi <= s@.len(),
        ensures
            match r {
                Some(j) => lo <= j && j + 2 <= hi && index_of_blank_line(
                    s@.subrange(lo as int, hi as int),
                ) == Some(j - lo),
                None => index_of_blank_line(s@.subrange(lo as int, hi as int)) == None::<int>,
            },
    {
        let ghost t = s@.subrange(lo as int, hi as int);
        let mut i: usize = lo;
        while hi - i > 1
            invariant
                lo <= i <= hi <= s@.len(),
                t == s@.subrange(lo as int, hi as int),
                forall|k: int|
                    0 <= k < i - lo && k + 1 < t.len() ==> !(#[trigger] t[k] == '\n' && t[k + 1] == '\n'),
            decreases hi - i,
        {
            if s[i] == '\n' && s[i + 1] == '\n' {
                proof {
                    lemma_blank_line_at(t, i - lo);
                }
                return Some(i);
            }
            i = i + 1;
        }
        proof {
            lemma_blank_line_at(t, t.len() as int);
        }
        None
    }

    fn parse_header(s: &Vec<char>, lo: usize, hi: usize) -> (r: Option<Header>)
        requires
            lo <= hi <= s@.len(),
        ensures
            match r {
                Some(h) => header_of(s@.subrange(lo as int, hi as int)) == Some(h@),
                None => header_of(s@.subrange(lo as int, hi as int)) is None,
            },
    {
        let ghost line = s@.subrange(lo as int, hi as int);
        match find_char(s, lo, hi, ':') {
            Some(c) => {
                assert(line.take(c - lo) =~= s@.subrange(lo as int, c as int));
                assert(line.skip(c - lo + 1) =~= s@.subrange(c + 1, hi as int));
                let (a, b) = trim_range(s, lo, c);
                let (d, e) = trim_range(s, c + 1, hi);
                Some(Header::new(string_of(s, a, b), string_of(s, d, e)))
            },
            None => None,
        }
    }

    fn parse_headers(s: &Vec<char>, lo: usize, hi: usize) -> (r: Vec<Header>)
        requires
            lo <= hi <= s@.len(),
        ensures
            r@.map_values(|h: Header| h@) == headers_of_lines(
                split_on(s@.subrange(lo as int, hi as int), '\n'),
            ),
    {
        let mut out: Vec<Header> = Vec::new();
        let mut pos: usize = lo;
        loop
            invariant
                lo <= pos <= hi <= s@.len(),
                headers_of_lines(split_on(s@.subrange(lo as int, hi as int), '\n')) == out@.map_values(
                    |h: Header| h@,
                ) + headers_of_lines(split_on(s@.subrange(pos as int, hi as int), '\n')),
            decreases hi - pos,
        {
            let ghost rest = s@.subrange(pos as int, hi as int);
            let ghost old_views = out@.map_values(|h: Header| h@);
            proof {
                lemma_split_first(rest, '\n');
            }
            let nl = find_char(s, pos, hi, '\n');
            let end = match nl {
                Some(e) => e,
                None => hi,
            };
            assert(before(rest, '\n') =~= s@.subrange(pos as int, end as int));
            let ghost line = s@.subrange(pos as int, end as int);
            let ghost tail = match nl {
                Some(e) => split_on(s@.subrange(e + 1, hi as int), '\n'),
                None => Seq::<Seq<char>>::empty(),
            };
            proof {
                if let Some(e) = nl {
                    assert(rest.skip(e - pos + 1) =~= s@.subrange(e + 1, hi as int));
                }
                assert(split_on(rest, '\n') =~= seq![line] + tail);
                lemma_headers_cons(line, tail);
            }
            match Self::parse_header(s, pos, end) {
                Some(h) => {
                    out.push(h);
                    assert(out@.map_values(|h: Header| h@) =~= old_views + seq![h@]);
                },
                None => {},
            }
            match nl {
                Some(e) => {
                    assert(headers_of_lines(split_on(s@.subrange(lo as int, hi as int), '\n'))
                        =~= out@.map_values(|h: Header| h@) + headers_of_lines(tail));
                    pos = e + 1;
                },
                None => {
                    assert(tail.len() == 0);
                    assert(headers_of_lines(split_on(s@.subrange(lo as int, hi as int), '\n'))
                        =~= out@.map_values(|h: Header| h@));
                    return out;
                },
            }
        }
    }

    /// Parses a raw response: a status line of at least three space-separated
    /// tokens ended by `\n`, then header lines up to the first blank line, then
    /// the body.
    pub fn new(raw_response: String) -> (r: Result<Self, Error>)
        ensures
            is_outcome_of(raw_response@, r),
    {
        let raw = chars_of(raw_response.as_str());
        let n = raw.len();
        let a = skip_whitespace(&raw, 0, n);
        assert(raw@.subrange(0, n as int) =~= raw@);
        let p = Self::normalize(&raw, a, n);
        let m = p.len();
        assert(p@.subrange(0, m as int) =~= p@);
        let i = match find_char(&p, 0, m, '\n') {
            Some(i) => i,
            None => {
                return Err(Error::MalformedResponse);
            },
        };
        let ghost status = p@.take(i as int);
        assert(p@.subrange(0, i as int) =~= status);
        proof {
            lemma_split_first(status, ' ');
        }
        let t0 = match find_char(&p, 0, i, ' ') {
            Some(k) => k,
            None => {
                return Err(Error::MalformedResponse);
            },
        };
        let ghost s1 = status.skip(t0 + 1);
        assert(s1 =~= p@.subrange(t0 + 1, i as int));
        assert(before(status, ' ') =~= p@.subrange(0, t0 as int));
        proof {
            lemma_split_first(s1, ' ');
        }
        let t1 = match find_char(&p, t0 + 1, i, ' ') {
            Some(k) => k,
            None => {
                return Err(Error::MalformedResponse);
            },
        };
        let ghost s2 = s1.skip(t1 - t0);
        assert(s2 =~= p@.subrange(t1 + 1, i as int));
        assert(before(s1, ' ') =~= p@.subrange(t0 + 1, t1 as int));
        proof {
            lemma_split_first(s2, ' ');
        }
        let t2 = match find_char(&p, t1 + 1, i, ' ') {
            Some(k) => k,
            None => i,
        };
        assert(before(s2, ' ') =~= p@.subrange(t1 + 1, t2 as int));
        let ghost tokens = split_on(status, ' ');
        assert(tokens[1] == split_on(s1, ' ')[0]);
        assert(tokens[2] == split_on(s2, ' ')[0]);
        let version = string_of(&p, 0, t0);
        let status_code = match parse_u32_range(&p, t0 + 1, t1) {
            Some(v) => v,
            None => 404,
        };
        let reason = string_of(&p, t1 + 1, t2);
        let ghost rest = p@.skip(i + 1);
        assert(rest =~= p@.subrange(i + 1, m as int));
        let (headers, body) = if i + 1 < m && p[i + 1] == '\n' {
            assert(rest.drop_first() =~= p@.subrange(i + 2, m as int));
            (Vec::new(), string_of(&p, i + 2, m))
        } else {
            match Self::find_blank_line(&p, i + 1, m) {
                Some(j) => {
                    assert(rest.take(j - (i + 1)) =~= p@.subrange(i + 1, j as int));
                    assert(rest.skip(j - (i + 1) + 2) =~= p@.subrange(j + 2, m as int));
                    (Self::parse_headers(&p, i + 1, j), string_of(&p, j + 2, m))
                },
                None => (Vec::new(), string_of(&p, i + 1, m)),
            }
        };
        let r = HttpResponse { version, status_code, reason, headers, body };
        assert(r@.headers =~= headers_and_body(rest).0);
        Ok(r)
    }

    pub fn version(&self) -> (r: String)
        ensures
            r@ == self@.version,
    {
        self.version.clone()
    }

    pub fn status_code(&self) -> (r: u32)
        ensures
            r == self@.status_code,
    {
        self.status_code
    }

    pub fn reason(&self) -> (r: String)
        ensures
            r@ == self@.reason,
    {
        self.reason.clone()
    }

    pub fn headers(&self) -> (r: Vec<Header>)
        ensures
            r@.map_values(|h: Header| h@) == self@.headers,
    {
        let mut out: Vec<Header> = Vec::new();
        let mut i: usize = 0;
        while i < self.headers.len()
            invariant
                i <= self.headers@.len(),
                out@.len() == i,
                forall|k: int| 0 <= k < i ==> #[trigger] out@[k]@ == self.headers@[k]@,
            decreases self.headers@.len() - i,
        {
            let h = &self.headers[i];
            out.push(Header::new(h.name.clone(), h.value.clone()));
            i = i + 1;
        }
        assert(out@.map_values(|h: Header| h@) =~= self@.headers);
        out
    }

    pub fn body(&self) -> (r: String)
        ensures
            r@ == self@.body,
    {
        self.body.clone()
    }

    /// The value of the first header whose name is exactly `name`.
    pub fn header_value(&self, name: &str) -> (r: Result<String, String>)
        ensures
            match lookup(self@.headers, name@) {
                Some(v) => r is Ok && r->Ok_0@ == v,
                None => r is Err && r->Err_0@ == "failed to find "@ + name@ + " in headers"@,
            },
    {
        let key = String::from_str(name);
        let ghost views = self@.headers;
        let mut i: usize = 0;
        assert(views.skip(0) =~= views);
        while i < self.headers.len()
            invariant
                i <= self.headers@.len(),
                views == self@.headers,
                key@ == name@,
                lookup(views, name@) == lookup(views.skip(i as int), name@),
            decreases self.headers@.len() - i,
        {
            let h = &self.headers[i];
            assert(views.skip(i as int)[0] == h@);
            if h.name == key {
                return Ok(h.value.clone());
            }
            assert(views.skip(i as int).drop_first() =~= views.skip(i + 1));
            i = i + 1;
        }
        let mut msg = String::from_str("failed to find ");
        msg.append(name);
        msg.append(" in headers");
        Err(msg)
    }
}

} // verus!
