//! The chain of versioned submission addresses, newest first.

use vstd::prelude::*;

verus! {

/// Trusted: `String::push_str` appends the characters of `string` to `s`.
pub assume_specification[ String::push_str ](s: &mut String, string: &str)
    ensures
        final(s)@ == old(s)@ + string@,
;

/// The address for traces of one protocol version.
pub open spec fn traces_url(host: Seq<char>, port: Seq<char>, version: Seq<char>) -> Seq<char> {
    "http://"@ + host + ":"@ + port + "/"@ + version + "/traces"@
}

/// One address, and the older one to fall back to, if any.
#[derive(Debug)]
pub struct Endpoint {
    pub endpoint: String,
    pub fallback: Box<Option<Endpoint>>,
}

fn url_for(host: &str, port: &str, version: &str) -> (url: String)
    ensures
        url@ == traces_url(host@, port@, version@),
{
    let mut url: String = "http://".to_owned();
    url.push_str(host);
    url.push_str(":");
    url.push_str(port);
    url.push_str("/");
    url.push_str(version);
    url.push_str("/traces");
    url
}

impl Endpoint {
    /// The addresses from this one on, newest first.
    pub open spec fn chain(self) -> Seq<Seq<char>>
        decreases self,
    {
        match *self.fallback {
            Some(next) => seq![self.endpoint@] + next.chain(),
            None => seq![self.endpoint@],
        }
    }

    pub fn new(endpoint: String, fallback: Option<Endpoint>) -> (r: Self)
        ensures
            r.endpoint == endpoint,
            *r.fallback == fallback,
    {
        Endpoint { endpoint, fallback: Box::new(fallback) }
    }

    /// The chain for an agent at `host` and `port`: v0.4, then v0.3, then v0.2.
    pub fn create_traces_endpoint(host: &str, port: &str) -> (r: Self)
        ensures
            r.chain() == seq![
                traces_url(host@, port@, "v0.4"@),
                traces_url(host@, port@, "v0.3"@),
                traces_url(host@, port@, "v0.2"@),
            ],
    {
        let last = Endpoint::new(url_for(host, port, "v0.2"), None);
        let middle = Endpoint::new(url_for(host, port, "v0.3"), Some(last));
        let first = Endpoint::new(url_for(host, port, "v0.4"), Some(middle));
        proof {
            assert(last.chain() =~= seq![traces_url(host@, port@, "v0.2"@)]);
            assert(middle.chain() =~= seq![
                traces_url(host@, port@, "v0.3"@),
                traces_url(host@, port@, "v0.2"@),
            ]);
            assert(first.chain() =~= seq![
                traces_url(host@, port@, "v0.4"@),
                traces_url(host@, port@, "v0.3"@),
                traces_url(host@, port@, "v0.2"@),
            ]);
        }
        first
    }

    pub fn endpoint(&self) -> (r: &str)
        ensures
            r@ == self.endpoint@,
    {
        self.endpoint.as_str()
    }

    pub fn fallback(&self) -> (r: &Option<Endpoint>)
        ensures
            *r == *self.fallback,
    {
        &*self.fallback
    }

    /// A chain is never empty, and its head is this address.
    pub proof fn lemma_chain_head(self)
        ensures
            self.chain().len() >= 1,
            self.chain()[0] == self.endpoint@,
            (*self.fallback) matches Some(next) ==> self.chain().skip(1) == next.chain(),
            (*self.fallback) is None <==> self.chain().len() == 1,
        decreases self,
    {
        match *self.fallback {
            Some(next) => {
                next.lemma_chain_head();
                assert(self.chain().skip(1) =~= next.chain());
            },
            None => {},
        }
    }
}

} // verus!
