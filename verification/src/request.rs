//! Authorization requests, their builder, and the key under which the engine
//! caches their answers.
use vstd::prelude::*;
use crate::types::{Action, AttrMap, Principal, Resource, ToText, VValue, Value, keys_sorted, map_get};
use crate::error::RUNEError;
use crate::text::{owned, push_char};
use crate::debug_text::value_debug;
use crate::facts::clock_nanos;

verus! {

/// A declaration of the hasher of the `ahash` crate.
#[verifier::external_type_specification]
#[verifier::external_body]
pub struct ExAHasher(ahash::AHasher);

/// A hasher with the crate's fixed keys (`AHasher::default`); those keys are
/// drawn once per process, so nothing is stated of the hasher's state.
#[verifier::external_body]
fn new_hasher() -> ahash::AHasher {
    <ahash::AHasher as core::default::Default>::default()
}

/// Feeds a text to the hasher as `str::hash` does (its bytes, then a 0xff byte).
#[verifier::external_body]
fn hash_text(h: &mut ahash::AHasher, s: &str) {
    std::hash::Hash::hash(s, h)
}

/// The hash of what was fed (`Hasher::finish`); it depends on the per-process
/// keys, so nothing is stated of it.
#[verifier::external_body]
fn hash_finish(h: &ahash::AHasher) -> u64 {
    std::hash::Hasher::finish(h)
}

/// The hexadecimal digit of `d`.
pub open spec fn hex_digit(d: nat) -> char {
    if d < 10 {
        crate::text::digit_char(d)
    } else if d == 10 {
        'a'
    } else if d == 11 {
        'b'
    } else if d == 12 {
        'c'
    } else if d == 13 {
        'd'
    } else if d == 14 {
        'e'
    } else {
        'f'
    }
}

/// Lower-case hexadecimal rendering of a natural number, without leading zeros.
pub open spec fn hex(n: nat) -> Seq<char>
    decreases n,
{
    if n < 16 {
        seq![hex_digit(n)]
    } else {
        hex(n / 16).push(hex_digit(n % 16))
    }
}

fn hex_char(d: u64) -> (c: char)
    requires
        d < 16,
    ensures
        c == hex_digit(d as nat),
{
    if d < 10 {
        if d == 0 { '0' }
        else if d == 1 { '1' }
        else if d == 2 { '2' }
        else if d == 3 { '3' }
        else if d == 4 { '4' }
        else if d == 5 { '5' }
        else if d == 6 { '6' }
        else if d == 7 { '7' }
        else if d == 8 { '8' }
        else { '9' }
    } else if d == 10 { 'a' }
    else if d == 11 { 'b' }
    else if d == 12 { 'c' }
    else if d == 13 { 'd' }
    else if d == 14 { 'e' }
    else { 'f' }
}

/// Appends the hexadecimal rendering of `n`.
fn push_hex(s: &mut String, n: u64)
    ensures
        final(s)@ == old(s)@ + hex(n as nat),
    decreases n,
{
    if n < 16 {
        push_char(s, hex_char(n));
        assert(seq![hex_digit(n as nat)] =~= hex(n as nat));
    } else {
        push_hex(s, n / 16);
        push_char(s, hex_char(n % 16));
        assert(old(s)@ + hex((n / 16) as nat) + seq![hex_digit((n % 16) as nat)] =~= old(s)@ + hex(
            n as nat,
        ));
    }
}

/// A fresh request id: `req_` and the clock's nanoseconds in hexadecimal.
fn generate_request_id() -> (r: String)
    ensures
        r@.len() > 4,
        r@.subrange(0, 4) == seq!['r', 'e', 'q', '_'],
{
    let mut s = String::new();
    push_char(&mut s, 'r');
    push_char(&mut s, 'e');
    push_char(&mut s, 'q');
    push_char(&mut s, '_');
    let ghost prefix = s@;
    push_hex(&mut s, clock_nanos());
    proof {
        assert(prefix =~= seq!['r', 'e', 'q', '_']);
        assert(s@.subrange(0, 4) =~= prefix);
        lemma_hex_nonempty(s@.len() as nat);
    }
    s
}

proof fn lemma_hex_nonempty(n: nat)
    ensures
        hex(n).len() >= 1,
    decreases n,
{
    if n >= 16 {
        lemma_hex_nonempty(n / 16);
    }
}

/// Authorization request.
#[derive(Debug)]
pub struct Request {
    /// Principal making the request
    pub principal: Principal,
    /// Action being performed
    pub action: Action,
    /// Resource being accessed
    pub resource: Resource,
    /// Additional context
    pub context: AttrMap,
    /// Request ID for tracing
    pub request_id: String,
}

impl Clone for Request {
    fn clone(&self) -> (r: Self)
        ensures
            r.principal.entity@ == self.principal.entity@,
            r.action.name@ == self.action.name@,
            r.action.parameters@ == self.action.parameters@,
            r.resource.entity@ == self.resource.entity@,
            r.context@ == self.context@,
            r.request_id@ == self.request_id@,
    {
        Request {
            principal: self.principal.clone(),
            action: self.action.clone(),
            resource: self.resource.clone(),
            context: self.context.clone(),
            request_id: owned(self.request_id.as_str()),
        }
    }
}

/// A piece of what the cache key of a request is computed from.
pub enum KeyPart<'a> {
    /// A text, hashed as a text
    Text(&'a str),
    /// A value, hashed by its debug rendering
    Shown(&'a Value),
}

/// The pieces of an attribute map, key then value for each entry in key order.
pub open spec fn map_parts(m: Seq<(Seq<char>, VValue)>) -> Seq<KeyModel> {
    Seq::new(2 * m.len(), |i: int| if i % 2 == 0 {
        KeyModel::Text(m[i / 2].0)
    } else {
        KeyModel::Shown(m[i / 2].1)
    })
}

/// Model of a piece of a cache key.
pub enum KeyModel {
    /// A text
    Text(Seq<char>),
    /// A value
    Shown(VValue),
}

/// The model of a piece.
pub open spec fn part_model(p: KeyPart) -> KeyModel {
    match p {
        KeyPart::Text(s) => KeyModel::Text(s@),
        KeyPart::Shown(v) => KeyModel::Shown(v@),
    }
}

/// The pieces of a request's cache key, in hashing order: principal type and
/// id, action name and parameters, resource type and id, then the context.
pub open spec fn key_parts_spec(r: Request) -> Seq<KeyModel> {
    seq![
        KeyModel::Text(r.principal.entity@.ty),
        KeyModel::Text(r.principal.entity@.id),
        KeyModel::Text(r.action.name@),
    ] + map_parts(r.action.parameters@) + seq![
        KeyModel::Text(r.resource.entity@.ty),
        KeyModel::Text(r.resource.entity@.id),
    ] + map_parts(r.context@)
}

/// Appends the pieces of an attribute map.
fn push_map_parts<'a>(out: &mut Vec<KeyPart<'a>>, m: &'a AttrMap)
    ensures
        final(out)@.map_values(|p: KeyPart| part_model(p)) == old(out)@.map_values(
            |p: KeyPart| part_model(p),
        ) + map_parts(m@),
{
    let mut i: usize = 0;
    let n = m.len();
    while i < n
        invariant
            n == m@.len(),
            i <= n,
            out@.map_values(|p: KeyPart| part_model(p)) == old(out)@.map_values(
                |p: KeyPart| part_model(p),
            ) + map_parts(m@.take(i as int)),
        decreases n - i,
    {
        let ghost before = out@.map_values(|p: KeyPart| part_model(p));
        out.push(KeyPart::Text(m.key_at(i).as_str()));
        out.push(KeyPart::Shown(m.value_at(i)));
        proof {
            assert(out@.map_values(|p: KeyPart| part_model(p)) =~= before + seq![
                KeyModel::Text(m@[i as int].0),
                KeyModel::Shown(m@[i as int].1),
            ]);
            assert(map_parts(m@.take(i + 1)) =~= map_parts(m@.take(i as int)) + seq![
                KeyModel::Text(m@[i as int].0),
                KeyModel::Shown(m@[i as int].1),
            ]);
        }
        i = i + 1;
    }
    assert(m@.take(n as int) =~= m@);
}

impl Request {
    /// A request with an empty context and a fresh id.
    pub fn new(principal: Principal, action: Action, resource: Resource) -> (r: Request)
        ensures
            r.principal == principal,
            r.action == action,
            r.resource == resource,
            r.context@ == Seq::<(Seq<char>, VValue)>::empty(),
            r.request_id@.subrange(0, 4) == seq!['r', 'e', 'q', '_'],
    {
        Request {
            principal,
            action,
            resource,
            context: AttrMap::new(),
            request_id: generate_request_id(),
        }
    }

    /// The same request with `key` bound to `value` in its context.
    pub fn with_context(self, key: impl ToText, value: Value) -> (r: Request)
        ensures
            r.principal == self.principal,
            r.action == self.action,
            r.resource == self.resource,
            r.request_id == self.request_id,
            keys_sorted(self.context@) ==> keys_sorted(r.context@),
            forall|k: Seq<char>|
                #[trigger] map_get(r.context@, k) == if k == key.text() {
                    Some(value@)
                } else {
                    map_get(self.context@, k)
                },
    {
        let mut r = self;
        let k = key.to_text();
        r.context.insert(k, value);
        r
    }

    /// What the cache key is computed from, in hashing order.
    pub fn cache_key_parts(&self) -> (r: Vec<KeyPart<'_>>)
        ensures
            r@.map_values(|p: KeyPart| part_model(p)) == key_parts_spec(*self),
    {
        let mut out: Vec<KeyPart<'_>> = Vec::new();
        out.push(KeyPart::Text(self.principal.entity.entity_type.as_str()));
        out.push(KeyPart::Text(self.principal.entity.id.as_str()));
        out.push(KeyPart::Text(self.action.name.as_str()));
        let ghost head = out@.map_values(|p: KeyPart| part_model(p));
        assert(head =~= seq![
            KeyModel::Text(self.principal.entity@.ty),
            KeyModel::Text(self.principal.entity@.id),
            KeyModel::Text(self.action.name@),
        ]);
        push_map_parts(&mut out, &self.action.parameters);
        let ghost mid = out@.map_values(|p: KeyPart| part_model(p));
        out.push(KeyPart::Text(self.resource.entity.entity_type.as_str()));
        out.push(KeyPart::Text(self.resource.entity.id.as_str()));
        assert(out@.map_values(|p: KeyPart| part_model(p)) =~= mid + seq![
            KeyModel::Text(self.resource.entity@.ty),
            KeyModel::Text(self.resource.entity@.id),
        ]);
        push_map_parts(&mut out, &self.context);
        assert(out@.map_values(|p: KeyPart| part_model(p)) =~= key_parts_spec(*self));
        out
    }

    /// The key under which the engine caches the answer to this request: the
    /// hash, with the process's `ahash` keys, of the pieces that
    /// `cache_key_parts` lists, in that order.
    pub fn cache_key(&self) -> (r: u64) {
        let parts = self.cache_key_parts();
        let mut h = new_hasher();
        let mut i: usize = 0;
        while i < parts.len()
            invariant
                i <= parts@.len(),
            decreases parts.len() - i,
        {
            match parts[i] {
                KeyPart::Text(s) => hash_text(&mut h, s),
                KeyPart::Shown(v) => {
                    let shown = value_debug(v);
                    hash_text(&mut h, shown.as_str())
                },
            }
            i = i + 1;
        }
        hash_finish(&h)
    }
}

/// Request builder for a fluent construction.
pub struct RequestBuilder {
    principal: Option<Principal>,
    action: Option<Action>,
    resource: Option<Resource>,
    context: AttrMap,
}

/// Model of a builder: what has been set so far.
pub struct VRequestBuilder {
    /// The principal, if set
    pub principal: Option<Principal>,
    /// The action, if set
    pub action: Option<Action>,
    /// The resource, if set
    pub resource: Option<Resource>,
    /// The context so far
    pub context: Seq<(Seq<char>, VValue)>,
}

impl View for RequestBuilder {
    type V = VRequestBuilder;

    closed spec fn view(&self) -> VRequestBuilder {
        VRequestBuilder {
            principal: self.principal,
            action: self.action,
            resource: self.resource,
            context: self.context@,
        }
    }
}

impl Default for RequestBuilder {
    fn default() -> (r: Self)
        ensures
            r@.principal is None,
            r@.action is None,
            r@.resource is None,
            r@.context == Seq::<(Seq<char>, VValue)>::empty(),
    {
        RequestBuilder::new()
    }
}

impl RequestBuilder {
    /// A builder with nothing set.
    pub fn new() -> (r: Self)
        ensures
            r@.principal is None,
            r@.action is None,
            r@.resource is None,
            r@.context == Seq::<(Seq<char>, VValue)>::empty(),
    {
        RequestBuilder { principal: None, action: None, resource: None, context: AttrMap::new() }
    }

    /// Set the principal.
    pub fn principal(self, principal: Principal) -> (r: Self)
        ensures
            r@ == (VRequestBuilder { principal: Some(principal), ..self@ }),
    {
        RequestBuilder { principal: Some(principal), ..self }
    }

    /// Set the action.
    pub fn action(self, action: Action) -> (r: Self)
        ensures
            r@ == (VRequestBuilder { action: Some(action), ..self@ }),
    {
        RequestBuilder { action: Some(action), ..self }
    }

    /// Set the resource.
    pub fn resource(self, resource: Resource) -> (r: Self)
        ensures
            r@ == (VRequestBuilder { resource: Some(resource), ..self@ }),
    {
        RequestBuilder { resource: Some(resource), ..self }
    }

    /// Bind `key` to `value` in the context.
    pub fn context(self, key: impl ToText, value: Value) -> (r: Self)
        ensures
            r@.principal == self@.principal,
            r@.action == self@.action,
            r@.resource == self@.resource,
            keys_sorted(self@.context) ==> keys_sorted(r@.context),
            forall|k: Seq<char>|
                #[trigger] map_get(r@.context, k) == if k == key.text() {
                    Some(value@)
                } else {
                    map_get(self@.context, k)
                },
    {
        let mut b = self;
        let k = key.to_text();
        b.context.insert(k, value);
        b
    }

    /// The request, once principal, action and resource are all set; else
    /// the invalid-request error that names the first one missing.
    pub fn build(self) -> (r: Result<Request, RUNEError>)
        ensures
            match r {
                Ok(req) => self@.principal == Some(req.principal) && self@.action == Some(req.action)
                    && self@.resource == Some(req.resource) && req.context@ == self@.context,
                Err(e) => if self@.principal is None {
                    e matches RUNEError::InvalidRequest(m) && m@ == "Missing principal"@
                } else if self@.action is None {
                    e matches RUNEError::InvalidRequest(m) && m@ == "Missing action"@
                } else {
                    self@.resource is None && (e matches RUNEError::InvalidRequest(m) && m@
                        == "Missing resource"@)
                },
            },
    {
        let RequestBuilder { principal, action, resource, context } = self;
        let principal = match principal {
            Some(p) => p,
            None => return Err(RUNEError::InvalidRequest(owned("Missing principal"))),
        };
        let action = match action {
            Some(a) => a,
            None => return Err(RUNEError::InvalidRequest(owned("Missing action"))),
        };
        let resource = match resource {
            Some(x) => x,
            None => return Err(RUNEError::InvalidRequest(owned("Missing resource"))),
        };
        let mut request = Request::new(principal, action, resource);
        request.context = context;
        Ok(request)
    }
}

} // verus!
