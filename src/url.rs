//! URL normalisation: protocol, host, registrable domain and subdomain,
//! and the host projection used to build the host graph.
use vstd::prelude::*;

use crate::text::{
    count_char, count_occurrences, find_char, first_from, has_prefix, last_before,
    lemma_last_before_bounds, rfind_char_before, same_text, starts_with, tail_equals,
};

verus! {

pub open spec fn http_scheme() -> Seq<char> {
    seq!['h', 't', 't', 'p', ':', '/', '/']
}

pub open spec fn https_scheme() -> Seq<char> {
    seq!['h', 't', 't', 'p', 's', ':', '/', '/']
}

pub open spec fn relative_scheme() -> Seq<char> {
    seq!['/', '/']
}

pub open spec fn co_uk() -> Seq<char> {
    seq!['c', 'o', '.', 'u', 'k']
}

pub open spec fn www() -> Seq<char> {
    seq!['w', 'w', 'w']
}

/// Where the host starts: after `http://`, `https://` or `//`, else at 0.
pub open spec fn host_start(s: Seq<char>) -> int {
    if has_prefix(s, http_scheme()) {
        7
    } else if has_prefix(s, https_scheme()) {
        8
    } else if has_prefix(s, relative_scheme()) {
        2
    } else {
        0
    }
}

/// The URL without its leading protocol.
pub open spec fn stripped_of_protocol(s: Seq<char>) -> Seq<char> {
    s.subrange(host_start(s), s.len() as int)
}

/// The URL up to its first `?`.
pub open spec fn stripped_of_query(s: Seq<char>) -> Seq<char> {
    s.subrange(0, first_from(s, '?', 0) as int)
}

/// The host: from the end of the protocol to the first `/` or the end.
pub open spec fn host_of(s: Seq<char>) -> Seq<char> {
    let t = stripped_of_protocol(s);
    t.subrange(0, first_from(t, '/', 0) as int)
}

/// Where the registrable domain starts inside a host: the last two labels,
/// or the last three when those two are `co.uk`; the whole host when it
/// holds at most one dot.
pub open spec fn domain_start(h: Seq<char>) -> int {
    if count_char(h, '.') > 1 {
        let last = last_before(h, '.', h.len() as int);
        let start = last_before(h, '.', last) + 1;
        if h.subrange(start, h.len() as int) == co_uk() {
            last_before(h, '.', start - 1) + 1
        } else {
            start
        }
    } else {
        0
    }
}

pub open spec fn domain_of(s: Seq<char>) -> Seq<char> {
    let h = host_of(s);
    h.subrange(domain_start(h), h.len() as int)
}

/// The host with the domain and the dot before it removed; none when empty.
pub open spec fn subdomain_of(s: Seq<char>) -> Option<Seq<char>> {
    let h = host_of(s);
    let p = h.subrange(0, domain_start(h));
    if p.len() == 0 || p == seq!['.'] {
        None
    } else {
        Some(p.subrange(0, p.len() - 1))
    }
}

/// The domain when the subdomain is exactly `www`, else the host.
pub open spec fn host_without_specific_subdomains_of(s: Seq<char>) -> Seq<char> {
    if subdomain_of(s) == Some(www()) {
        domain_of(s)
    } else {
        host_of(s)
    }
}

/// Length of the protocol name: 4 for `http://`, 5 for `https://`,
/// 1 for `//`, 0 without a protocol.
pub open spec fn protocol_end(s: Seq<char>) -> int {
    if has_prefix(s, http_scheme()) {
        4
    } else if has_prefix(s, https_scheme()) {
        5
    } else if has_prefix(s, relative_scheme()) {
        1
    } else {
        0
    }
}

pub open spec fn protocol_of(s: Seq<char>) -> Seq<char> {
    s.subrange(0, protocol_end(s))
}

pub open spec fn is_homepage_spec(s: Seq<char>) -> bool {
    let t = stripped_of_protocol(s);
    first_from(t, '/', 0) == t.len() || first_from(t, '/', 0) == t.len() - 1
}

/// Protocol and host: everything before the first `/` that follows the
/// protocol's `://`.
pub open spec fn site_of(s: Seq<char>) -> Seq<char> {
    let start = protocol_end(s) + 3;
    let rest = s.subrange(start, s.len() as int);
    s.subrange(0, start + first_from(rest, '/', 0))
}

pub open spec fn full_of(s: Seq<char>) -> Seq<char> {
    if protocol_end(s) == 0 {
        https_scheme() + s
    } else {
        s
    }
}

pub open spec fn is_full_path_spec(s: Seq<char>) -> bool {
    let p = protocol_of(s);
    p == seq!['h', 't', 't', 'p'] || p == seq!['h', 't', 't', 'p', 's'] || p == seq!['p', 'd', 'f']
}

/// Whether `rel` is prefixed with a site rather than a whole URL.
pub open spec fn prefix_needs_site(rel: Seq<char>) -> bool {
    rel.len() > 0 && rel[0] == '/'
}

/// `rel` made absolute against `base`.
pub open spec fn prefixed(rel: Seq<char>, base: Seq<char>) -> Seq<char> {
    let base_slash = base.len() > 0 && base.last() == '/';
    if prefix_needs_site(rel) {
        site_of(base) + rel
    } else if base_slash {
        base + rel
    } else {
        base + seq!['/'] + rel
    }
}

/// Whether `site_of` is defined: the URL reaches past its protocol's `://`.
pub open spec fn has_site(s: Seq<char>) -> bool {
    protocol_end(s) + 3 <= s.len()
}

/// Name of what `http::Uri`'s parser decides of a string.
pub uninterp spec fn accepted_as_uri(s: Seq<char>) -> bool;

/// Relies on `http::Uri`'s `FromStr`: whether the text parses as a URI,
/// which depends on the text alone.
#[verifier::external_body]
fn parses_as_uri(s: &str) -> (r: bool)
    ensures
        r == accepted_as_uri(s@),
{
    s.parse::<http::Uri>().is_ok()
}

/// A URL held as its raw text.
#[derive(Debug, PartialEq, Eq, Clone, Hash)]
pub struct Url(pub String);

impl View for Url {
    type V = Seq<char>;

    open spec fn view(&self) -> Seq<char> {
        self.0@
    }
}

impl From<String> for Url {
    fn from(url: String) -> (r: Url)
        ensures
            r@ == url@,
    {
        Url(url)
    }
}

impl vstd::std_specs::convert::FromSpecImpl<String> for Url {
    open spec fn obeys_from_spec() -> bool {
        true
    }

    open spec fn from_spec(v: String) -> Url {
        Url(v)
    }
}

proof fn lemma_literals()
    ensures
        "http://"@ == http_scheme(),
        "https://"@ == https_scheme(),
        "//"@ == relative_scheme(),
        "co.uk"@ == co_uk(),
        "www"@ == www(),
        "http"@ == seq!['h', 't', 't', 'p'],
        "https"@ == seq!['h', 't', 't', 'p', 's'],
        "pdf"@ == seq!['p', 'd', 'f'],
        "/"@ == seq!['/'],
        "."@ == seq!['.'],
{
    {
        reveal_strlit("http://");
        reveal_strlit("https://");
        reveal_strlit("//");
        reveal_strlit("co.uk");
        reveal_strlit("www");
        reveal_strlit("http");
        reveal_strlit("https");
        reveal_strlit("pdf");
        reveal_strlit("/");
        reveal_strlit(".");
    }
    assert("http://"@ =~= http_scheme());
    assert("https://"@ =~= https_scheme());
    assert("//"@ =~= relative_scheme());
    assert("co.uk"@ =~= co_uk());
    assert("www"@ =~= www());
    assert("http"@ =~= seq!['h', 't', 't', 'p']);
    assert("https"@ =~= seq!['h', 't', 't', 'p', 's']);
    assert("pdf"@ =~= seq!['p', 'd', 'f']);
    assert("/"@ =~= seq!['/']);
    assert("."@ =~= seq!['.']);
}

impl Url {
    /// Position where the host starts.
    fn host_start(&self) -> (r: usize)
        ensures
            r as int == host_start(self@),
            r <= self@.len(),
    {
        proof {
            lemma_literals();
        }
        let url = self.0.as_str();
        if starts_with(url, "http://") {
            7
        } else if starts_with(url, "https://") {
            8
        } else if starts_with(url, "//") {
            2
        } else {
            0
        }
    }

    pub fn strip_protocol(&self) -> (r: &str)
        ensures
            r@ == stripped_of_protocol(self@),
    {
        let start = self.host_start();
        let url = self.0.as_str();
        url.substring_char(start, url.unicode_len())
    }

    pub fn strip_query(&self) -> (r: &str)
        ensures
            r@ == stripped_of_query(self@),
    {
        let url = self.0.as_str();
        let end = find_char(url, '?');
        url.substring_char(0, end)
    }

    pub fn host(&self) -> (r: &str)
        ensures
            r@ == host_of(self@),
    {
        let url = self.strip_protocol();
        let end = find_char(url, '/');
        url.substring_char(0, end)
    }

    /// Where the domain starts inside `host`.
    fn domain_start(host: &str) -> (r: usize)
        ensures
            r as int == domain_start(host@),
            r <= host@.len(),
    {
        let n = host.unicode_len();
        if count_occurrences(host, '.') > 1 {
            proof {
                lemma_literals();
                lemma_last_before_bounds(host@, '.', n as int);
            }
            let last = match rfind_char_before(host, '.', n) {
                Some(i) => i,
                None => 0,
            };
            proof {
                lemma_last_before_bounds(host@, '.', last as int);
            }
            let start = match rfind_char_before(host, '.', last) {
                Some(i) => i + 1,
                None => 0,
            };
            if tail_equals(host, start, "co.uk") {
                if start == 0 {
                    0
                } else {
                    proof {
                        lemma_last_before_bounds(host@, '.', start - 1);
                    }
                    match rfind_char_before(host, '.', start - 1) {
                        Some(i) => i + 1,
                        None => 0,
                    }
                }
            } else {
                start
            }
        } else {
            0
        }
    }

    pub fn domain(&self) -> (r: &str)
        ensures
            r@ == domain_of(self@),
    {
        let host = self.host();
        let start = Url::domain_start(host);
        host.substring_char(start, host.unicode_len())
    }

    pub fn subdomain(&self) -> (r: Option<&str>)
        ensures
            match subdomain_of(self@) {
                Some(d) => r.is_some() && r.unwrap()@ == d,
                None => r.is_none(),
            },
    {
        proof {
            lemma_literals();
        }
        let host = self.host();
        let start = Url::domain_start(host);
        let sub = host.substring_char(0, start);
        if start == 0 || same_text(sub, ".") {
            None
        } else {
            Some(sub.substring_char(0, start - 1))
        }
    }

    pub fn is_homepage(&self) -> (r: bool)
        ensures
            r == is_homepage_spec(self@),
    {
        let url = self.strip_protocol();
        let n = url.unicode_len();
        let i = find_char(url, '/');
        i == n || i + 1 == n
    }

    fn find_protocol_end(&self) -> (r: usize)
        ensures
            r as int == protocol_end(self@),
            r <= self@.len(),
    {
        proof {
            lemma_literals();
        }
        let url = self.0.as_str();
        if starts_with(url, "http://") {
            4
        } else if starts_with(url, "https://") {
            5
        } else if starts_with(url, "//") {
            1
        } else {
            0
        }
    }

    pub fn protocol(&self) -> (r: &str)
        ensures
            r@ == protocol_of(self@),
    {
        let end = self.find_protocol_end();
        self.0.as_str().substring_char(0, end)
    }

    /// Defined when the URL reaches past its protocol's `://`.
    pub fn site(&self) -> (r: &str)
        requires
            has_site(self@),
        ensures
            r@ == site_of(self@),
    {
        let start = self.find_protocol_end() + 3;
        let url = self.0.as_str();
        let rest = url.substring_char(start, url.unicode_len());
        let end = find_char(rest, '/');
        url.substring_char(0, end + start)
    }

    pub fn is_full_path(&self) -> (r: bool)
        ensures
            r == is_full_path_spec(self@),
    {
        proof {
            lemma_literals();
        }
        let p = self.protocol();
        same_text(p, "http") || same_text(p, "https") || same_text(p, "pdf")
    }

    pub fn prefix_with(&mut self, url: &Url)
        requires
            prefix_needs_site(old(self)@) ==> has_site(url@),
        ensures
            final(self)@ == prefixed(old(self)@, url@),
    {
        proof {
            lemma_literals();
        }
        let n = url.0.as_str().unicode_len();
        let base_slash = n > 0 && url.0.as_str().get_char(n - 1) == '/';
        let own = self.0.as_str();
        let rel_slash = own.unicode_len() > 0 && own.get_char(0) == '/';
        let joined = if rel_slash {
            String::from_str(url.site()).concat(own)
        } else if base_slash {
            url.0.clone().concat(own)
        } else {
            url.0.clone().concat("/").concat(own)
        };
        self.0 = joined;
    }

    pub fn full(&self) -> (r: String)
        ensures
            r@ == full_of(self@),
    {
        proof {
            lemma_literals();
        }
        if self.find_protocol_end() == 0 {
            String::from_str("https://").concat(self.0.as_str())
        } else {
            self.0.clone()
        }
    }

    pub fn raw(&self) -> (r: &str)
        ensures
            r@ == self@,
    {
        self.0.as_str()
    }

    pub fn is_valid_uri(&self) -> (r: bool)
        ensures
            r == accepted_as_uri(full_of(self@)),
    {
        let full = self.full();
        parses_as_uri(full.as_str())
    }

    pub fn host_without_specific_subdomains(&self) -> (r: &str)
        ensures
            r@ == host_without_specific_subdomains_of(self@),
    {
        proof {
            lemma_literals();
        }
        match self.subdomain() {
            Some(sub) => {
                if same_text(sub, "www") {
                    self.domain()
                } else {
                    self.host()
                }
            },
            None => self.host(),
        }
    }
}

} // verus!
