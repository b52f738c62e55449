//! Dispatch of requests to handlers by method and first URI path segment.
use vstd::prelude::*;
use vstd::utf8::{
    decode_utf8, decode_utf8_encode_utf8, encode_utf8, encode_utf8_decode_utf8,
    encode_utf8_valid_utf8, valid_utf8,
};

use crate::codec::{option_values, PacketModel};
use crate::message::{CoAPRequest, CoAPResponse};
use crate::packet::{spec_option_number, OptionType, PacketClass, Requests};

verus! {

/// A handler may be called on any request.
pub open spec fn accepts_all<H: Fn(CoAPRequest) -> Option<CoAPResponse>>(h: H) -> bool {
    forall|req: CoAPRequest| #[trigger] call_requires(h, (req,))
}

/// The index of the first route for `method` and `path`, or the number of
/// routes when there is none.
pub open spec fn route_index<H>(routes: Seq<(Requests, Seq<char>, H)>, method: Requests, path: Seq<
    char,
>) -> int
    decreases routes.len(),
{
    if routes.len() == 0 || (routes[0].0 == method && routes[0].1 == path) {
        0
    } else {
        1 + route_index(routes.drop_first(), method, path)
    }
}

/// The routes with the handler for `method` and `path` set to `h`.
pub open spec fn with_route<H>(
    routes: Seq<(Requests, Seq<char>, H)>,
    method: Requests,
    path: Seq<char>,
    h: H,
) -> Seq<(Requests, Seq<char>, H)> {
    let k = route_index(routes, method, path);
    if k < routes.len() {
        routes.update(k, (method, path, h))
    } else {
        routes.push((method, path, h))
    }
}

/// The handler that a request goes to: its class must be a request method,
/// its first URI path value must be UTF-8, and a route must match both.
pub open spec fn route_for<H>(routes: Seq<(Requests, Seq<char>, H)>, req: PacketModel) -> Option<H> {
    match req.code {
        PacketClass::Request(method) => match option_values(
            req.options,
            spec_option_number(OptionType::UriPath),
        ) {
            Some(vs) => if vs.len() > 0 && valid_utf8(vs[0]) {
                let k = route_index(routes, method, decode_utf8(vs[0]));
                if k < routes.len() {
                    Some(routes[k].2)
                } else {
                    None
                }
            } else {
                None
            },
            None => None,
        },
        _ => None,
    }
}

proof fn lemma_route_index_at<H>(
    routes: Seq<(Requests, Seq<char>, H)>,
    method: Requests,
    path: Seq<char>,
    k: int,
)
    requires
        0 <= k <= routes.len(),
        forall|j: int| 0 <= j < k ==> !(routes[j].0 == method && routes[j].1 == path),
        k < routes.len() ==> routes[k].0 == method && routes[k].1 == path,
    ensures
        route_index(routes, method, path) == k,
    decreases routes.len(),
{
    if k > 0 {
        let rest = routes.drop_first();
        assert forall|j: int| 0 <= j < k - 1 implies !(rest[j].0 == method && rest[j].1 == path) by {
            assert(rest[j] == routes[j + 1]);
        }
        if k - 1 < rest.len() {
            assert(rest[k - 1] == routes[k]);
        }
        lemma_route_index_at(rest, method, path, k - 1);
    }
}

fn bytes_equal(a: &[u8], b: &[u8]) -> (r: bool)
    ensures
        r == (a@ == b@),
{
    if a.len() != b.len() {
        return false;
    }
    let mut i: usize = 0;
    while i < a.len()
        invariant
            i <= a@.len() == b@.len(),
            forall|j: int| 0 <= j < i ==> a@[j] == b@[j],
        decreases a@.len() - i,
    {
        if a[i] != b[i] {
            return false;
        }
        i = i + 1;
    }
    assert(a@ =~= b@);
    true
}

/// Maps (method, path) to handlers.
#[derive(Clone)]
pub struct CoAPRouter<H> {
    routes: Vec<(Requests, String, H)>,
}

impl<H> View for CoAPRouter<H> {
    type V = Seq<(Requests, Seq<char>, H)>;

    closed spec fn view(&self) -> Seq<(Requests, Seq<char>, H)> {
        self.routes@.map_values(|r: (Requests, String, H)| (r.0, r.1@, r.2))
    }
}

impl<H: Fn(CoAPRequest) -> Option<CoAPResponse>> CoAPRouter<H> {
    /// Every registered handler may be called on any request.
    pub open spec fn wf(&self) -> bool {
        forall|i: int| 0 <= i < self@.len() ==> accepts_all(#[trigger] self@[i].2)
    }

    pub fn new() -> (r: CoAPRouter<H>)
        ensures
            r@ == Seq::<(Requests, Seq<char>, H)>::empty(),
            r.wf(),
    {
        let r = CoAPRouter { routes: Vec::new() };
        assert(r@ =~= Seq::<(Requests, Seq<char>, H)>::empty());
        r
    }

    /// The first route for `method` whose path is written as `path` in
    /// UTF-8, or the number of routes.
    fn find_route(&self, method: Requests, path: &[u8]) -> (k: usize)
        ensures
            k <= self@.len(),
            forall|j: int|
                0 <= j < k ==> !(self@[j].0 == method && encode_utf8(self@[j].1) == path@),
            k < self@.len() ==> self@[k as int].0 == method && encode_utf8(self@[k as int].1)
                == path@,
    {
        let mut k: usize = 0;
        while k < self.routes.len()
            invariant
                k <= self@.len() == self.routes@.len(),
                forall|j: int|
                    0 <= j < k ==> !(self@[j].0 == method && encode_utf8(self@[j].1) == path@),
            decreases self.routes@.len() - k,
        {
            let candidate = &self.routes[k];
            if candidate.0 == method && bytes_equal(candidate.1.as_str().as_bytes(), path) {
                return k;
            }
            k = k + 1;
        }
        k
    }

    /// Registers `handler` for `method` and `endpoint`, replacing the
    /// handler registered for both before.
    pub fn route(&mut self, method: Requests, endpoint: &String, handler: H)
        requires
            old(self).wf(),
            accepts_all(handler),
        ensures
            final(self)@ == with_route(old(self)@, method, endpoint@, handler),
            final(self).wf(),
    {
        let k = self.find_route(method, endpoint.as_str().as_bytes());
        proof {
            broadcast use encode_utf8_decode_utf8;

            let routes = self@;
            assert forall|j: int| 0 <= j < routes.len() implies (encode_utf8(routes[j].1)
                == encode_utf8(endpoint@)) == (routes[j].1 == endpoint@) by {
                if encode_utf8(routes[j].1) == encode_utf8(endpoint@) {
                    assert(decode_utf8(encode_utf8(routes[j].1)) == decode_utf8(
                        encode_utf8(endpoint@),
                    ));
                }
            }
            lemma_route_index_at(routes, method, endpoint@, k as int);
        }
        let ghost before = self@;
        if k < self.routes.len() {
            self.routes[k] = (method, endpoint.clone(), handler);
        } else {
            self.routes.push((method, endpoint.clone(), handler));
        }
        assert(self@ =~= with_route(before, method, endpoint@, handler));
    }

    pub fn get(&mut self, endpoint: &String, handler: H)
        requires
            old(self).wf(),
            accepts_all(handler),
        ensures
            final(self)@ == with_route(old(self)@, Requests::Get, endpoint@, handler),
            final(self).wf(),
    {
        self.route(Requests::Get, endpoint, handler);
    }

    pub fn post(&mut self, endpoint: &String, handler: H)
        requires
            old(self).wf(),
            accepts_all(handler),
        ensures
            final(self)@ == with_route(old(self)@, Requests::Post, endpoint@, handler),
            final(self).wf(),
    {
        self.route(Requests::Post, endpoint, handler);
    }

    pub fn put(&mut self, endpoint: &String, handler: H)
        requires
            old(self).wf(),
            accepts_all(handler),
        ensures
            final(self)@ == with_route(old(self)@, Requests::Put, endpoint@, handler),
            final(self).wf(),
    {
        self.route(Requests::Put, endpoint, handler);
    }

    pub fn delete(&mut self, endpoint: &String, handler: H)
        requires
            old(self).wf(),
            accepts_all(handler),
        ensures
            final(self)@ == with_route(old(self)@, Requests::Delete, endpoint@, handler),
            final(self).wf(),
    {
        self.route(Requests::Delete, endpoint, handler);
    }

    /// Hands the request to the handler that its method and first URI path
    /// segment select, and returns what the handler returns; `None` when no
    /// handler is selected.
    pub fn handle(&self, req: CoAPRequest) -> (r: Option<CoAPResponse>)
        requires
            self.wf(),
            req.message.wf(),
        ensures
            match route_for(self@, req.message@) {
                Some(h) => call_ensures(h, (req,), r),
                None => r is None,
            },
    {
        let method = match req.message.get_class() {
            PacketClass::Request(m) => m,
            _ => {
                return None;
            },
        };
        let uri = match req.message.get_option(OptionType::UriPath) {
            Some(values) => values,
            None => {
                return None;
            },
        };
        if uri.len() == 0 {
            return None;
        }
        let k = self.find_route(method, uri[0].as_slice());
        proof {
            broadcast use encode_utf8_decode_utf8, encode_utf8_valid_utf8;

            let routes = self@;
            let v = uri@[0]@;
            if valid_utf8(v) {
                decode_utf8_encode_utf8(v);
                assert forall|j: int| 0 <= j < routes.len() implies (encode_utf8(routes[j].1) == v)
                    == (routes[j].1 == decode_utf8(v)) by {
                    if encode_utf8(routes[j].1) == v {
                        assert(decode_utf8(encode_utf8(routes[j].1)) == decode_utf8(v));
                    }
                }
                lemma_route_index_at(routes, method, decode_utf8(v), k as int);
            } else {
                assert(k == routes.len()) by {
                    if k < routes.len() {
                        assert(valid_utf8(encode_utf8(routes[k as int].1)));
                    }
                }
            }
        }
        if k < self.routes.len() {
            let handler = &self.routes[k].2;
            proof {
                assert(self@[k as int].2 == *handler);
                assert(accepts_all(*handler));
            }
            handler(req)
        } else {
            None
        }
    }
}

} // verus!
