//! Parsing of `http://host[:port][/path][?query]` URLs.

use vstd::prelude::*;
use crate::text::{after, before, chars_of, find_char, index_of, lemma_index_of_bounds, string_of};

verus! {

/// The scheme marker `http://`.
pub open spec fn scheme() -> Seq<char> {
    seq!['h', 't', 't', 'p', ':', '/', '/']
}

/// Whether `s` holds `http://` anywhere.
pub open spec fn contains_scheme(s: Seq<char>) -> bool {
    exists|i: int| 0 <= i && i + 7 <= s.len() && #[trigger] s.subrange(i, i + 7) == scheme()
}

pub open spec fn starts_with_scheme(s: Seq<char>) -> bool {
    s.len() >= 7 && s.take(7) == scheme()
}

/// `s` without its leading `http://`, where it has one.
pub open spec fn strip_scheme(s: Seq<char>) -> Seq<char> {
    if starts_with_scheme(s) {
        s.skip(7)
    } else {
        s
    }
}

/// The `host[:port]` part: what precedes the first `/`.
pub open spec fn authority_of(s: Seq<char>) -> Seq<char> {
    before(strip_scheme(s), '/')
}

pub open spec fn host_of(s: Seq<char>) -> Seq<char> {
    before(authority_of(s), ':')
}

pub open spec fn default_port() -> Seq<char> {
    seq!['8', '0']
}

pub open spec fn port_of(s: Seq<char>) -> Seq<char> {
    match after(authority_of(s), ':') {
        Some(p) => p,
        None => default_port(),
    }
}

pub open spec fn path_of(s: Seq<char>) -> Seq<char> {
    match after(strip_scheme(s), '/') {
        Some(b) => before(b, '?'),
        None => Seq::empty(),
    }
}

pub open spec fn searchpart_of(s: Seq<char>) -> Seq<char> {
    match after(strip_scheme(s), '?') {
        Some(q) => q,
        None => Seq::empty(),
    }
}

/// A URL and the parts that `parse` extracts from it.
#[derive(Debug, Clone, PartialEq)]
pub struct Url {
    pub url: String,
    pub host: String,
    pub port: String,
    pub path: String,
    pub searchpart: String,
}

/// Whether `s[i..]` starts with `http://`.
fn scheme_at(s: &Vec<char>, i: usize) -> (r: bool)
    requires
        i <= s@.len(),
    ensures
        r == starts_with_scheme(s@.skip(i as int)),
{
    if s.len() - i < 7 {
        return false;
    }
    let r = s[i] == 'h' && s[i + 1] == 't' && s[i + 2] == 't' && s[i + 3] == 'p' && s[i + 4]
        == ':' && s[i + 5] == '/' && s[i + 6] == '/';
    assert(r == (s@.skip(i as int).take(7) =~= scheme()));
    r
}

impl Url {
    pub open spec fn is_parsed_from(&self, s: Seq<char>) -> bool {
        &&& self.url@ == s
        &&& self.host@ == host_of(s)
        &&& self.port@ == port_of(s)
        &&& self.path@ == path_of(s)
        &&& self.searchpart@ == searchpart_of(s)
    }

    /// A URL not parsed yet: empty host, path and search part, and the
    /// default port.
    pub fn new(url: String) -> (r: Self)
        ensures
            r.url@ == url@,
            r.host@ == Seq::<char>::empty(),
            r.port@ == default_port(),
            r.path@ == Seq::<char>::empty(),
            r.searchpart@ == Seq::<char>::empty(),
    {
        proof {
            reveal_strlit("80");
        }
        let port = String::from_str("80");
        assert(port@ =~= default_port());
        Self {
            url,
            host: String::new(),
            port,
            path: String::new(),
            searchpart: String::new(),
        }
    }

    fn is_http(s: &Vec<char>) -> (r: bool)
        ensures
            r == contains_scheme(s@),
    {
        let mut i: usize = 0;
        while i < s.len()
            invariant
                i <= s@.len(),
                forall|k: int| 0 <= k < i ==> !(k + 7 <= s@.len() && #[trigger] s@.subrange(k, k + 7) == scheme()),
            decreases s@.len() - i,
        {
            if scheme_at(s, i) {
                assert(s@.subrange(i as int, i + 7) =~= s@.skip(i as int).take(7));
                return true;
            }
            assert(i + 7 <= s@.len() ==> s@.subrange(i as int, i + 7) =~= s@.skip(i as int).take(7));
            i = i + 1;
        }
        false
    }

    pub fn parse(&mut self) -> (r: Result<Self, String>)
        ensures
            contains_scheme(old(self).url@) ==> {
                &&& final(self).is_parsed_from(old(self).url@)
                &&& r is Ok
                &&& r->Ok_0.is_parsed_from(old(self).url@)
            },
            !contains_scheme(old(self).url@) ==> {
                &&& *final(self) == *old(self)
                &&& r is Err
                &&& r->Err_0@ == "Only HTTP scheme is supported."@
            },
    {
        let s = chars_of(self.url.as_str());
        if !Self::is_http(&s) {
            return Err(String::from_str("Only HTTP scheme is supported."));
        }
        let n = s.len();
        assert(s@.skip(0) =~= s@);
        let pos: usize = if scheme_at(&s, 0) {
            7
        } else {
            0
        };
        let ghost rest = s@.skip(pos as int);
        assert(rest == s@.subrange(pos as int, n as int));
        assert(strip_scheme(s@) == rest);
        let slash = find_char(&s, pos, n, '/');
        let a_end = match slash {
            Some(i) => i,
            None => n,
        };
        assert(authority_of(s@) =~= s@.subrange(pos as int, a_end as int));
        let colon = find_char(&s, pos, a_end, ':');
        let (host, port) = match colon {
            Some(c) => (string_of(&s, pos, c), string_of(&s, c + 1, a_end)),
            None => {
                proof {
                    reveal_strlit("80");
                }
                let p = String::from_str("80");
                assert(p@ =~= default_port());
                (string_of(&s, pos, a_end), p)
            },
        };
        proof {
            let auth = s@.subrange(pos as int, a_end as int);
            if let Some(c) = colon {
                assert(auth.take(c - pos) =~= s@.subrange(pos as int, c as int));
                assert(auth.skip(c - pos + 1) =~= s@.subrange(c + 1, a_end as int));
            }
        }
        let path = match slash {
            Some(i) => {
                let q = find_char(&s, i + 1, n, '?');
                let p_end = match q {
                    Some(k) => k,
                    None => n,
                };
                proof {
                    let b = rest.skip(i - pos + 1);
                    assert(b =~= s@.subrange(i + 1, n as int));
                    if let Some(k) = q {
                        assert(b.take(k - (i + 1)) =~= s@.subrange(i + 1, k as int));
                    }
                }
                string_of(&s, i + 1, p_end)
            },
            None => String::new(),
        };
        let question = find_char(&s, pos, n, '?');
        let searchpart = match question {
            Some(k) => {
                assert(rest.skip(k - pos + 1) =~= s@.subrange(k + 1, n as int));
                string_of(&s, k + 1, n)
            },
            None => String::new(),
        };
        assert(s@ == self.url@);
        self.host = host;
        self.port = port;
        self.path = path;
        self.searchpart = searchpart;
        Ok(Url {
            url: self.url.clone(),
            host: self.host.clone(),
            port: self.port.clone(),
            path: self.path.clone(),
            searchpart: self.searchpart.clone(),
        })
    }

    pub fn host(&self) -> (r: String)
        ensures
            r@ == self.host@,
    {
        self.host.clone()
    }

    pub fn port(&self) -> (r: String)
        ensures
            r@ == self.port@,
    {
        self.port.clone()
    }

    pub fn path(&self) -> (r: String)
        ensures
            r@ == self.path@,
    {
        self.path.clone()
    }

    pub fn searchpart(&self) -> (r: String)
        ensures
            r@ == self.searchpart@,
    {
        self.searchpart.clone()
    }
}


/// A URL that starts with `http://` is accepted, and its host is the text
/// after that `http://` up to the first `:` or `/`, or to its end.
pub proof fn lemma_host_of_http_url(t: Seq<char>)
    ensures
        contains_scheme(scheme() + t),
        ({
            let h = host_of(scheme() + t);
            &&& h.len() <= t.len()
            &&& h == t.take(h.len() as int)
            &&& forall|k: int| 0 <= k < h.len() ==> t[k] != ':' && t[k] != '/'
            &&& h.len() < t.len() ==> (t[h.len() as int] == ':' || t[h.len() as int] == '/')
        }),
{
    let s = scheme() + t;
    let z = 0int;
    assert(s.subrange(z, z + 7) =~= scheme());
    assert(s.take(7) =~= scheme());
    assert(s.skip(7) =~= t);
    assert(strip_scheme(s) == t);
    lemma_index_of_bounds(t, '/');
    let a = authority_of(s);
    lemma_index_of_bounds(a, ':');
    let h = host_of(s);
    match index_of(t, '/') {
        Some(i) => {
            assert(a == t.take(i));
            match index_of(a, ':') {
                Some(j) => {
                    assert(h =~= t.take(j));
                    assert(t[j] == a[j]);
                    assert forall|k: int| 0 <= k < h.len() implies t[k] != ':' && t[k] != '/' by {
                        assert(a[k] == t[k]);
                    }
                },
                None => {
                    assert(h =~= t.take(i));
                    assert forall|k: int| 0 <= k < h.len() implies t[k] != ':' && t[k] != '/' by {
                        assert(a[k] == t[k]);
                    }
                },
            }
        },
        None => {
            assert(a == t);
            match index_of(a, ':') {
                Some(j) => {
                    assert(h =~= t.take(j));
                    assert forall|k: int| 0 <= k < h.len() implies t[k] != ':' && t[k] != '/' by {
                        assert(a[k] == t[k]);
                    }
                },
                None => {
                    assert(h =~= t.take(t.len() as int));
                },
            }
        },
    }
}

/// Parsing depends on the raw text alone, and parsing again the text that a
/// parsed URL holds gives the same parts.
pub proof fn lemma_parse_idempotent(s: Seq<char>, first: Url, second: Url)
    requires
        first.is_parsed_from(s),
        second.is_parsed_from(first.url@),
    ensures
        second.url@ == first.url@,
        second.host@ == first.host@,
        second.port@ == first.port@,
        second.path@ == first.path@,
        second.searchpart@ == first.searchpart@,
{
}

} // verus!
