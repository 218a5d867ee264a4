//! URLs of the form `(scheme "://")? host (path)?`.
use vstd::prelude::*;
use vstd::string::*;
use crate::consumer::{find_from, word_end, Consumer};

verus! {

#[derive(Clone, Copy, Debug, PartialEq, Eq, Structural)]
pub enum URLError {
    NoHost,
}

/// A parsed URL. The port is always 80.
pub struct URL {
    scheme: String,
    host: String,
    port: usize,
    path: String,
}

pub struct URLView {
    pub scheme: Seq<char>,
    pub host: Seq<char>,
    pub port: nat,
    pub path: Seq<char>,
}

impl View for URL {
    type V = URLView;

    closed spec fn view(&self) -> URLView {
        URLView { scheme: self.scheme@, host: self.host@, port: self.port as nat, path: self.path@ }
    }
}

pub open spec fn scheme_separator() -> Seq<char> {
    seq![':', '/', '/']
}

/// What a URL string means. The scheme is what comes before the first
/// `://` (`http` where there is none). The host runs from there to the first
/// `/`, or, where no `/` follows, to the first space or tab; it is missing
/// where nothing follows the scheme. The path runs from that `/` to the first
/// space or tab, and is `/` where nothing is left.
pub open spec fn parse_url(s: Seq<char>) -> Result<URLView, URLError> {
    let (scheme, p) = match find_from(s, 0, scheme_separator()) {
        Some(k) => (s.subrange(0, k), k + 3),
        None => (seq!['h', 't', 't', 'p'], 0),
    };
    let host_end = match find_from(s, p, seq!['/']) {
        Some(k) => k,
        None => word_end(s, p),
    };
    if find_from(s, p, seq!['/']) is None && p >= s.len() {
        Err(URLError::NoHost)
    } else {
        let path = if host_end < s.len() {
            s.subrange(host_end, word_end(s, host_end))
        } else {
            seq!['/']
        };
        Ok(URLView { scheme, host: s.subrange(p, host_end), port: 80, path })
    }
}

impl URL {
    pub fn parse(url: &str) -> (r: Result<Self, URLError>)
        ensures
            match (r, parse_url(url@)) {
                (Ok(u), Ok(v)) => u@ == v,
                (Err(e), Err(f)) => e == f,
                _ => false,
            },
    {
        proof {
            reveal_strlit("://");
            reveal_strlit("http");
            reveal_strlit("/");
        }
        assert("://"@ =~= scheme_separator());
        assert("http"@ =~= seq!['h', 't', 't', 'p']);
        assert("/"@ =~= seq!['/']);
        let ghost s = url@;
        let mut consumer = Consumer::new(url);
        proof {
            crate::consumer::lemma_find_from_first(s, 0, scheme_separator());
        }
        let scheme = match consumer.next_until("://") {
            Some(sch) => {
                consumer.next_n(3);
                sch
            },
            None => String::from_str("http"),
        };
        let ghost p = consumer.pos();
        proof {
            crate::consumer::lemma_find_from_first(s, p, seq!['/']);
            crate::consumer::lemma_scan_bounds(s, p);
        }
        let host = match consumer.next_until("/") {
            Some(h) => h,
            None => match consumer.next_until_space() {
                Some(h) => h,
                None => return Err(URLError::NoHost),
            },
        };
        let ghost q = consumer.pos();
        proof {
            crate::consumer::lemma_scan_bounds(s, q);
        }
        let path = match consumer.next_until_space() {
            Some(pa) => pa,
            None => String::from_str("/"),
        };
        Ok(Self { scheme, host, port: 80, path })
    }

    pub fn scheme(&self) -> (r: String)
        ensures
            r@ == self@.scheme,
    {
        self.scheme.clone()
    }

    pub fn host(&self) -> (r: String)
        ensures
            r@ == self@.host,
    {
        self.host.clone()
    }

    pub fn port(&self) -> (r: usize)
        ensures
            r == self@.port,
    {
        self.port
    }

    pub fn path(&self) -> (r: String)
        ensures
            r@ == self@.path,
    {
        self.path.clone()
    }
}

} // verus!
