//! HTTP responses: a status line, header fields and a body.
use vstd::prelude::*;
use crate::consumer::{blank_end, decimal_value, digits_end, find_from, is_digit, saturate, word_end, Consumer};
use crate::request::{crlf, key_index, Head};
use crate::text::{chars_to_string, find_chars, str_to_chars, trim, trimmed};

verus! {

#[derive(Debug)]
pub enum ResponseError {
    /// No CRLF ends a first line.
    NoLine,
    /// No empty line ends the header.
    NoHeaderEnd,
    StatusLine(StatusLineError),
    Header(HeaderError),
}

#[derive(Clone, Copy, Debug, PartialEq, Eq, Structural)]
pub enum StatusLineError {
    NoStatus,
    NoStatusCode,
    NoProtocol,
}

#[derive(Debug)]
pub enum HeaderError {
    /// A line without a `:`.
    InvalidHeader(String),
}

/// A status line such as `HTTP/1.1 200 OK`.
pub struct StatusLine {
    pub status: String,
    pub status_code: usize,
    pub proto: String,
}

pub struct StatusLineView {
    pub status: Seq<char>,
    pub status_code: usize,
    pub proto: Seq<char>,
}

impl View for StatusLine {
    type V = StatusLineView;

    open spec fn view(&self) -> StatusLineView {
        StatusLineView { status: self.status@, status_code: self.status_code, proto: self.proto@ }
    }
}

/// What a status line means: the protocol is the first word; after blanks,
/// a run of digits gives the code (saturated to `usize::MAX`); after blanks,
/// the next word is the status.
pub open spec fn parse_status_line(s: Seq<char>) -> Result<StatusLineView, StatusLineError> {
    let proto_end = word_end(s, 0);
    let code_at = blank_end(s, proto_end);
    if s.len() == 0 {
        Err(StatusLineError::NoProtocol)
    } else if !(code_at < s.len() && is_digit(s[code_at])) {
        Err(StatusLineError::NoStatusCode)
    } else {
        let code_end = digits_end(s, code_at);
        let status_at = blank_end(s, code_end);
        if status_at >= s.len() {
            Err(StatusLineError::NoStatus)
        } else {
            Ok(StatusLineView {
                status: s.subrange(status_at, word_end(s, status_at)),
                status_code: saturate(decimal_value(s.subrange(code_at, code_end))),
                proto: s.subrange(0, proto_end),
            })
        }
    }
}

impl StatusLine {
    pub fn parse(line: &str) -> (r: Result<Self, StatusLineError>)
        ensures
            match (r, parse_status_line(line@)) {
                (Ok(v), Ok(w)) => v@ == w,
                (Err(e), Err(f)) => e == f,
                _ => false,
            },
    {
        let ghost s = line@;
        let mut con = Consumer::new(line);
        proof {
            crate::consumer::lemma_scan_bounds(s, 0);
        }
        let proto = match con.next_until_space() {
            Some(p) => {
                con.skip_space();
                p
            },
            None => return Err(StatusLineError::NoProtocol),
        };
        proof {
            crate::consumer::lemma_scan_bounds(s, con.pos());
        }
        let status_code = match con.to_usize() {
            Some(code) => {
                con.skip_space();
                code
            },
            None => return Err(StatusLineError::NoStatusCode),
        };
        proof {
            crate::consumer::lemma_scan_bounds(s, con.pos());
        }
        let status = match con.next_until_space() {
            Some(st) => {
                con.skip_space();
                st
            },
            None => return Err(StatusLineError::NoStatus),
        };
        Ok(Self { status, status_code, proto })
    }
}

/// The lines of `s` from index `i` on, split at each CRLF.
pub open spec fn crlf_lines_from(s: Seq<char>, i: int) -> Seq<Seq<char>>
    decreases s.len() + 1 - i,
{
    if i < 0 || i > s.len() {
        seq![]
    } else {
        match find_from(s, i, crlf()) {
            Some(k) => if i <= k && k + 2 <= s.len() {
                seq![s.subrange(i, k)] + crlf_lines_from(s, k + 2)
            } else {
                seq![]
            },
            None => seq![s.subrange(i, s.len() as int)],
        }
    }
}

/// A field set: in place where its name is there, at the end where not.
pub open spec fn insert_field(e: Seq<(Seq<char>, Seq<char>)>, k: Seq<char>, v: Seq<char>) -> Seq<(Seq<char>, Seq<char>)> {
    match key_index(e, k) {
        Some(i) => e.update(i, (k, v)),
        None => e.push((k, v)),
    }
}

/// The fields that header lines give, one per line, split at the first `:`
/// with the value trimmed; or the first line without a `:`.
pub open spec fn parse_fields(lines: Seq<Seq<char>>) -> Result<Seq<(Seq<char>, Seq<char>)>, Seq<char>>
    decreases lines.len(),
{
    if lines.len() == 0 {
        Ok(seq![])
    } else {
        match parse_fields(lines.drop_last()) {
            Err(l) => Err(l),
            Ok(e) => {
                let line = lines.last();
                match find_from(line, 0, seq![':']) {
                    None => Err(line),
                    Some(c) => Ok(
                        insert_field(
                            e,
                            line.subrange(0, c),
                            trimmed(line.subrange(c + 1, line.len() as int)),
                        ),
                    ),
                }
            },
        }
    }
}

/// The fields of a response header, each name at most once.
pub struct Header(Head);

impl View for Header {
    type V = Seq<(Seq<char>, Seq<char>)>;

    closed spec fn view(&self) -> Seq<(Seq<char>, Seq<char>)> {
        self.0@
    }
}

impl Header {
    pub closed spec fn wf(&self) -> bool {
        self.0.wf()
    }

    /// Parses header lines separated by CRLF. A later field of the same name
    /// replaces the value of an earlier one.
    pub fn parse(src: &str) -> (r: Result<Self, HeaderError>)
        ensures
            match (r, parse_fields(crlf_lines_from(src@, 0))) {
                (Ok(h), Ok(e)) => h.wf() && h@ == e,
                (Err(HeaderError::InvalidHeader(l)), Err(m)) => l@ == m,
                _ => false,
            },
    {
        let v = str_to_chars(src);
        let sep: Vec<char> = vec!['\r', '\n'];
        let colon: Vec<char> = vec![':'];
        assert(sep@ =~= crlf());
        assert(colon@ =~= seq![':']);
        let mut head = Head::empty();
        let ghost mut done: Seq<Seq<char>> = seq![];
        let mut i: usize = 0;
        loop
            invariant
                i <= v.len(),
                v@ == src@,
                sep@ == crlf(),
                colon@ == seq![':'],
                head.wf(),
                crlf_lines_from(v@, 0) == done + crlf_lines_from(v@, i as int),
                parse_fields(done) == Ok::<Seq<(Seq<char>, Seq<char>)>, Seq<char>>(head@),
            decreases v.len() + 1 - i,
        {
            let next = find_chars(&v, i, &sep);
            let end = match next {
                Some(k) => k,
                None => v.len(),
            };
            proof {
                crate::consumer::lemma_find_from_first(v@, i as int, crlf());
            }
            let line_str = chars_to_string(&v, i, end);
            let line = str_to_chars(line_str.as_str());
            let ghost l = line@;
            proof {
                crate::consumer::lemma_find_from_first(l, 0, seq![':']);
                let rest = crlf_lines_from(v@, i as int);
                assert(rest.len() > 0 && rest[0] == l);
                assert(parse_fields(done.push(l)) == match find_from(l, 0, seq![':']) {
                    None => Err(l),
                    Some(c) => Ok(insert_field(head@, l.subrange(0, c), trimmed(l.subrange(c + 1, l.len() as int)))),
                }) by {
                    assert(done.push(l).drop_last() =~= done);
                }
            }
            match find_chars(&line, 0, &colon) {
                None => {
                    proof {
                        lemma_parse_fields_err(done.push(l), crlf_lines_from(v@, i as int).drop_first());
                        assert(done + crlf_lines_from(v@, i as int) =~= done.push(l) + crlf_lines_from(v@, i as int).drop_first());
                    }
                    assert(parse_fields(done.push(l)) == Err::<Seq<(Seq<char>, Seq<char>)>, Seq<char>>(l));
                    assert(parse_fields(crlf_lines_from(v@, 0)) == Err::<Seq<(Seq<char>, Seq<char>)>, Seq<char>>(l));
                    assert(line_str@ == l);
                    return Err(HeaderError::InvalidHeader(line_str));
                },
                Some(c) => {
                    let key = chars_to_string(&line, 0, c);
                    let raw = chars_to_string(&line, c + 1, line.len());
                    let value = trim(raw.as_str());
                    head.add(key.as_str(), value.as_str());
                    assert(key@ == l.subrange(0, c as int));
                    assert(value@ == trimmed(l.subrange(c + 1, l.len() as int)));
                    assert(parse_fields(done.push(l)) == Ok::<Seq<(Seq<char>, Seq<char>)>, Seq<char>>(head@));
                },
            }
            proof {
                done = done.push(l);
            }
            match next {
                Some(k) => {
                    proof {
                        let rest = crlf_lines_from(v@, i as int);
                        assert(rest == seq![l] + crlf_lines_from(v@, k + 2));
                        assert(done.drop_last() + rest =~= done + crlf_lines_from(v@, k + 2));
                    }
                    i = k + 2;
                },
                None => {
                    proof {
                        assert(crlf_lines_from(v@, i as int) == seq![l]);
                        assert(done.drop_last() + seq![l] =~= done);
                        assert(crlf_lines_from(v@, 0) == done);
                    }
                    return Ok(Header(head));
                },
            }
        }
    }

    /// The value of the field `key`, where it is there.
    pub fn get(&self, key: &str) -> (r: Option<String>)
        ensures
            match key_index(self@, key@) {
                Some(i) => r is Some && r->0@ == self@[i].1,
                None => r is None,
            },
    {
        self.0.get(key)
    }
}

/// Once the lines read so far give an error, more lines give the same one.
proof fn lemma_parse_fields_err(a: Seq<Seq<char>>, b: Seq<Seq<char>>)
    requires
        parse_fields(a) is Err,
    ensures
        parse_fields(a + b) == parse_fields(a),
    decreases b.len(),
{
    if b.len() > 0 {
        lemma_parse_fields_err(a, b.drop_last());
        assert((a + b).drop_last() =~= a + b.drop_last());
    } else {
        assert(a + b =~= a);
    }
}

/// A response: status line, header fields, body.
pub struct Response {
    pub status_line: StatusLine,
    pub header: Header,
    pub body: String,
}

pub open spec fn header_end() -> Seq<char> {
    seq!['\r', '\n', '\r', '\n']
}

impl Response {
    /// Splits a response at its first CRLF and at the first empty line after
    /// it: status line, header, body.
    pub fn parse(response: &str) -> (r: Result<Self, ResponseError>)
        ensures
            ({
                let s = response@;
                match find_from(s, 0, crlf()) {
                    None => r matches Err(ResponseError::NoLine),
                    Some(k1) => match parse_status_line(s.subrange(0, k1)) {
                        Err(e) => r matches Err(ResponseError::StatusLine(f)) && f == e,
                        Ok(sl) => match find_from(s, k1 + 2, header_end()) {
                            None => r matches Err(ResponseError::NoHeaderEnd),
                            Some(k2) => match parse_fields(crlf_lines_from(s.subrange(k1 + 2, k2), 0)) {
                                Err(line) => r matches Err(ResponseError::Header(HeaderError::InvalidHeader(l)))
                                    && l@ == line,
                                Ok(fields) => r matches Ok(res) && res.status_line@ == sl && res.header@
                                    == fields && res.body@ == s.subrange(k2 + 4, s.len() as int),
                            },
                        },
                    },
                }
            }),
    {
        let v = str_to_chars(response);
        let sep: Vec<char> = vec!['\r', '\n'];
        let end: Vec<char> = vec!['\r', '\n', '\r', '\n'];
        assert(sep@ =~= crlf());
        assert(end@ =~= header_end());
        proof {
            crate::consumer::lemma_find_from_first(v@, 0, crlf());
        }
        let k1 = match find_chars(&v, 0, &sep) {
            Some(k) => k,
            None => return Err(ResponseError::NoLine),
        };
        let first_line = chars_to_string(&v, 0, k1);
        let status_line = match StatusLine::parse(first_line.as_str()) {
            Ok(sl) => sl,
            Err(e) => return Err(ResponseError::StatusLine(e)),
        };
        proof {
            crate::consumer::lemma_find_from_first(v@, k1 + 2, header_end());
        }
        let k2 = match find_chars(&v, k1 + 2, &end) {
            Some(k) => k,
            None => return Err(ResponseError::NoHeaderEnd),
        };
        let header_str = chars_to_string(&v, k1 + 2, k2);
        let header = match Header::parse(header_str.as_str()) {
            Ok(h) => h,
            Err(e) => return Err(ResponseError::Header(e)),
        };
        let body = chars_to_string(&v, k2 + 4, v.len());
        Ok(Self { status_line, header, body })
    }
}

} // verus!
