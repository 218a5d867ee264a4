//! HTTP requests: a request line, a head of fields and a body, and their
//! text on the wire.
use vstd::prelude::*;
use vstd::string::*;
use crate::url::{parse_url, URLError, URL};

verus! {

#[derive(Clone, Copy, Debug, PartialEq, Eq, Structural)]
pub enum Method {
    GET,
    POST,
}

#[derive(Clone, Copy, Debug, PartialEq, Eq, Structural)]
pub enum RequestError {
    NoHost,
}

#[derive(Clone, Copy, Debug, PartialEq, Eq, Structural)]
pub enum HeadError {
    NoHost,
}

pub open spec fn method_name(m: Method) -> Seq<char> {
    match m {
        Method::GET => seq!['G', 'E', 'T'],
        Method::POST => seq!['P', 'O', 'S', 'T'],
    }
}

pub open spec fn host_key() -> Seq<char> {
    seq!['H', 'o', 's', 't']
}

pub open spec fn crlf() -> Seq<char> {
    seq!['\r', '\n']
}

/// The index of the first field named `k` at or after `i`, if any.
pub open spec fn key_index_from(e: Seq<(Seq<char>, Seq<char>)>, k: Seq<char>, i: int) -> Option<int>
    decreases e.len() - i,
{
    if i < 0 || i >= e.len() {
        None
    } else if e[i].0 == k {
        Some(i)
    } else {
        key_index_from(e, k, i + 1)
    }
}

/// The index of the field named `k`, if any.
pub open spec fn key_index(e: Seq<(Seq<char>, Seq<char>)>, k: Seq<char>) -> Option<int> {
    key_index_from(e, k, 0)
}

/// No two fields share a name.
pub open spec fn keys_unique(e: Seq<(Seq<char>, Seq<char>)>) -> bool {
    forall|i: int, j: int| 0 <= i < j < e.len() ==> e[i].0 != e[j].0
}

/// The fields written out one per line as `name:value`.
pub open spec fn fields_text(e: Seq<(Seq<char>, Seq<char>)>) -> Seq<char>
    decreases e.len(),
{
    if e.len() == 0 {
        seq![]
    } else {
        fields_text(e.drop_last()) + e.last().0 + seq![':'] + e.last().1 + crlf()
    }
}

/// The text of a head: the `Host` field first, then the others in order.
pub open spec fn head_text(e: Seq<(Seq<char>, Seq<char>)>, i: int) -> Seq<char> {
    seq!['H', 'o', 's', 't', ':', ' '] + e[i].1 + crlf() + fields_text(e.remove(i))
}

proof fn lemma_key_index(e: Seq<(Seq<char>, Seq<char>)>, k: Seq<char>, i: int)
    requires
        0 <= i,
    ensures
        match key_index_from(e, k, i) {
            Some(j) => i <= j < e.len() && e[j].0 == k && forall|l: int| i <= l < j ==> e[l].0 != k,
            None => forall|l: int| i <= l < e.len() ==> e[l].0 != k,
        },
    decreases e.len() - i,
{
    if i < e.len() && e[i].0 != k {
        lemma_key_index(e, k, i + 1);
    }
}

/// The fields of a request, each name at most once, in the order they were
/// first added.
pub struct Head(Vec<(String, String)>);

impl View for Head {
    type V = Seq<(Seq<char>, Seq<char>)>;

    closed spec fn view(&self) -> Seq<(Seq<char>, Seq<char>)> {
        self.0@.map_values(|p: (String, String)| (p.0@, p.1@))
    }
}

impl Head {
    pub open spec fn wf(&self) -> bool {
        keys_unique(self@)
    }

    /// A head with no field.
    pub fn empty() -> (r: Self)
        ensures
            r.wf(),
            r@ == Seq::<(Seq<char>, Seq<char>)>::empty(),
    {
        let head = Self(Vec::new());
        assert(head@ =~= seq![]);
        head
    }

    /// A head with the one field `Host`.
    pub fn new(host: &str) -> (r: Self)
        ensures
            r.wf(),
            r@ == seq![(host_key(), host@)],
    {
        let mut head = Self(Vec::new());
        assert(head@ =~= seq![]);
        head.add("Host", host);
        proof {
            reveal_strlit("Host");
            assert("Host"@ =~= host_key());
            assert(head@ =~= seq![(host_key(), host@)]);
        }
        head
    }

    /// The index of the field named `key`.
    fn find(&self, key: &String) -> (r: Option<usize>)
        ensures
            match r {
                Some(i) => key_index(self@, key@) == Some(i as int),
                None => key_index(self@, key@) is None,
            },
    {
        proof {
            lemma_key_index(self@, key@, 0);
        }
        let mut i: usize = 0;
        while i < self.0.len()
            invariant
                i <= self.0.len(),
                key_index(self@, key@) == key_index_from(self@, key@, i as int),
            decreases self.0.len() - i,
        {
            if self.0[i].0 == *key {
                return Some(i);
            }
            i = i + 1;
        }
        None
    }

    /// Sets the field `key` to `val`: in place where it is there, at the end
    /// where it is not.
    pub fn add(&mut self, key: &str, val: &str)
        requires
            old(self).wf(),
        ensures
            final(self).wf(),
            match key_index(old(self)@, key@) {
                Some(i) => final(self)@ == old(self)@.update(i, (key@, val@)),
                None => final(self)@ == old(self)@.push((key@, val@)),
            },
    {
        proof {
            lemma_key_index(self@, key@, 0);
        }
        let k = String::from_str(key);
        let v = String::from_str(val);
        match self.find(&k) {
            Some(i) => {
                self.0.remove(i);
                self.0.insert(i, (k, v));
                assert(self@ =~= old(self)@.update(i as int, (key@, val@)));
            },
            None => {
                self.0.push((k, v));
                assert(self@ =~= old(self)@.push((key@, val@)));
            },
        }
    }

    /// Removes the field `key`, where it is there.
    pub fn remove(&mut self, key: &str)
        requires
            old(self).wf(),
        ensures
            final(self).wf(),
            match key_index(old(self)@, key@) {
                Some(i) => final(self)@ == old(self)@.remove(i),
                None => final(self)@ == old(self)@,
            },
    {
        proof {
            lemma_key_index(self@, key@, 0);
        }
        let k = String::from_str(key);
        match self.find(&k) {
            Some(i) => {
                self.0.remove(i);
                assert(self@ =~= old(self)@.remove(i as int));
                assert forall|a: int, b: int| 0 <= a < b < self@.len() implies self@[a].0 != self@[b].0 by {
                    let a0 = if a < i { a } else { a + 1 };
                    let b0 = if b < i { b } else { b + 1 };
                    assert(self@[a] == old(self)@[a0]);
                    assert(self@[b] == old(self)@[b0]);
                }
            },
            None => {},
        }
    }

    /// The value of the field `key`, where it is there.
    pub fn get(&self, key: &str) -> (r: Option<String>)
        ensures
            match key_index(self@, key@) {
                Some(i) => r is Some && r->0@ == self@[i].1,
                None => r is None,
            },
    {
        proof {
            lemma_key_index(self@, key@, 0);
        }
        let k = String::from_str(key);
        match self.find(&k) {
            Some(i) => {
                assert(self@[i as int] == (self.0@[i as int].0@, self.0@[i as int].1@));
                let v = self.0[i].1.clone();
                Some(v)
            },
            None => None,
        }
    }

    /// The head as text: `Host: <host>` first, then `name:value` for each
    /// other field in order, each line ending in CRLF. The head is left
    /// empty. Without a `Host` field it fails and stays as it is.
    pub fn build(&mut self) -> (r: Result<String, HeadError>)
        requires
            old(self).wf(),
        ensures
            final(self).wf(),
            match key_index(old(self)@, host_key()) {
                Some(i) => r is Ok && r->Ok_0@ == head_text(old(self)@, i) && final(self)@
                    == Seq::<(Seq<char>, Seq<char>)>::empty(),
                None => r == Err::<String, HeadError>(HeadError::NoHost) && final(self)@ == old(self)@,
            },
    {
        proof {
            reveal_strlit("Host");
            reveal_strlit("Host: ");
            reveal_strlit("\r\n");
            reveal_strlit(":");
            lemma_key_index(self@, host_key(), 0);
        }
        assert("Host"@ =~= host_key());
        assert(":"@ =~= seq![':']);
        assert("\r\n"@ =~= crlf());
        let key = String::from_str("Host");
        let i = match self.find(&key) {
            Some(i) => i,
            None => return Err(HeadError::NoHost),
        };
        let mut result = String::from_str("Host: ");
        result.append(self.0[i].1.as_str());
        result.append("\r\n");
        assert(result@ =~= seq!['H', 'o', 's', 't', ':', ' '] + old(self)@[i as int].1 + crlf());
        self.remove("Host");
        let ghost rest = self@;
        let mut k: usize = 0;
        while k < self.0.len()
            invariant
                k <= self.0.len(),
                self@ == rest,
                result@ == seq!['H', 'o', 's', 't', ':', ' '] + old(self)@[i as int].1 + crlf()
                    + fields_text(rest.subrange(0, k as int)),
            decreases self.0.len() - k,
        {
            let ghost before = result@;
            result.append(self.0[k].0.as_str());
            result.append(":");
            result.append(self.0[k].1.as_str());
            result.append("\r\n");
            proof {
                reveal_strlit(":");
                reveal_strlit("\r\n");
                assert(":"@ =~= seq![':']);
                assert("\r\n"@ =~= crlf());
                let pre = rest.subrange(0, k as int);
                let next = rest.subrange(0, k + 1);
                assert(next.drop_last() =~= pre);
                assert(next.last() == rest[k as int]);
                assert(rest[k as int] == (self.0@[k as int].0@, self.0@[k as int].1@));
                assert(fields_text(next) == fields_text(pre) + rest[k as int].0 + seq![':'] + rest[k as int].1 + crlf());
                assert(result@ =~= before + rest[k as int].0 + seq![':'] + rest[k as int].1 + crlf());
            }
            k = k + 1;
        }
        assert(rest.subrange(0, k as int) =~= rest);
        self.0 = Vec::new();
        assert(self@ =~= Seq::<(Seq<char>, Seq<char>)>::empty());
        Ok(result)
    }
}

/// The first line of a request: method, path and protocol.
pub struct RequestLine {
    pub method: Method,
    pub path: String,
    pub protocol: String,
}

/// The text of a request line: `<method> <path> HTTP/1.0` and CRLF.
pub open spec fn request_line_text(method: Method, path: Seq<char>) -> Seq<char> {
    method_name(method) + seq![' '] + path + seq![' ', 'H', 'T', 'T', 'P', '/', '1', '.', '0']
        + crlf()
}

impl RequestLine {
    pub fn new(method: Method, path: &str, protocol: &str) -> (r: Self)
        ensures
            r.method == method,
            r.path@ == path@,
            r.protocol@ == protocol@,
    {
        Self { method, path: String::from_str(path), protocol: String::from_str(protocol) }
    }

    pub fn build(&self) -> (r: String)
        ensures
            r@ == request_line_text(self.method, self.path@),
    {
        proof {
            reveal_strlit("GET");
            reveal_strlit("POST");
            reveal_strlit(" ");
            reveal_strlit(" HTTP/1.0\r\n");
        }
        let mut r = match self.method {
            Method::GET => String::from_str("GET"),
            Method::POST => String::from_str("POST"),
        };
        r.append(" ");
        r.append(self.path.as_str());
        r.append(" HTTP/1.0\r\n");
        assert(r@ =~= request_line_text(self.method, self.path@));
        r
    }
}

/// A request: its line, its head and its body.
pub struct Request {
    pub line: RequestLine,
    pub head: Head,
    pub body: String,
}

impl Request {
    /// A `GET` request for a URL: its path and scheme in the line, its host
    /// as the one field, no body.
    pub fn get(url: &str) -> (r: Result<Self, URLError>)
        ensures
            match parse_url(url@) {
                Ok(u) => r matches Ok(q) && q.line.method == Method::GET && q.line.path@ == u.path
                    && q.line.protocol@ == u.scheme && q.head.wf() && q.head@ == seq![
                    (host_key(), u.host),
                ] && q.body@ == Seq::<char>::empty(),
                Err(e) => r == Err::<Self, URLError>(e),
            },
    {
        let url = match URL::parse(url) {
            Ok(u) => u,
            Err(e) => return Err(e),
        };
        let host = url.host();
        Ok(Self::new(&url, Method::GET, Head::new(host.as_str()), None))
    }

    /// The value of the `Host` field.
    pub fn read_host(&self) -> (r: Result<String, RequestError>)
        ensures
            match key_index(self.head@, host_key()) {
                Some(i) => r matches Ok(h) && h@ == self.head@[i].1,
                None => r == Err::<String, RequestError>(RequestError::NoHost),
            },
    {
        proof {
            reveal_strlit("Host");
            assert("Host"@ =~= host_key());
        }
        match self.head.get("Host") {
            Some(s) => Ok(s),
            None => Err(RequestError::NoHost),
        }
    }

    pub fn new(url: &URL, method: Method, head: Head, body: Option<String>) -> (r: Self)
        ensures
            r.line.method == method,
            r.line.path@ == url@.path,
            r.line.protocol@ == url@.scheme,
            r.head@ == head@,
            r.head.wf() == head.wf(),
            r.body@ == match body {
                Some(b) => b@,
                None => Seq::<char>::empty(),
            },
    {
        let path = url.path();
        let scheme = url.scheme();
        Self {
            line: RequestLine::new(method, path.as_str(), scheme.as_str()),
            head,
            body: match body {
                Some(s) => s,
                None => String::new(),
            },
        }
    }

    /// The request as text: its line, its head, an empty line and the body.
    /// The head is emptied. Without a `Host` field it fails.
    pub fn build(&mut self) -> (r: Result<String, HeadError>)
        requires
            old(self).head.wf(),
        ensures
            final(self).head.wf(),
            match key_index(old(self).head@, host_key()) {
                Some(i) => r matches Ok(s) && s@ == request_line_text(old(self).line.method, old(self).line.path@)
                    + head_text(old(self).head@, i) + crlf() + old(self).body@,
                None => r == Err::<String, HeadError>(HeadError::NoHost),
            },
    {
        proof {
            reveal_strlit("\r\n");
        }
        let mut r = self.line.build();
        let head = match self.head.build() {
            Ok(h) => h,
            Err(e) => return Err(e),
        };
        r.append(head.as_str());
        r.append("\r\n");
        r.append(self.body.as_str());
        Ok(r)
    }
}

} // verus!
