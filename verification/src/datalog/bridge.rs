//! The bridge between authorization entities and Datalog facts, both ways.
use vstd::prelude::*;
use crate::facts::{Fact, VFact, facts_view};
use crate::request::Request;
use crate::types::{Action, AttrMap, Entity, Principal, Resource, VEntity, VValue, Value,
    value_clone, values_view, lemma_values_view, entities_view, lemma_entities_view, keys_sorted,
    map_get};
use crate::text::{owned, concat2, str_eq, is_prefix, starts_with, chars_of, chars_order, lemma_chars_order_eq,
    lemma_chars_order_antisym};

verus! {

broadcast use vstd::std_specs::vec::group_vec_axioms;

/// A fact with one argument.
fn fact1(pred: String, a: Value) -> (r: Fact)
    ensures
        r@ == (VFact { pred: pred@, args: seq![a@] }),
{
    let ghost av = a@;
    let mut v: Vec<Value> = Vec::new();
    v.push(a);
    proof {
        lemma_values_view(v@);
        assert(values_view(v@) =~= seq![av]);
    }
    Fact::new(pred, v)
}

/// A fact with two arguments.
fn fact2(pred: String, a: Value, b: Value) -> (r: Fact)
    ensures
        r@ == (VFact { pred: pred@, args: seq![a@, b@] }),
{
    let ghost av = a@;
    let ghost bv = b@;
    let mut v: Vec<Value> = Vec::new();
    v.push(a);
    v.push(b);
    proof {
        lemma_values_view(v@);
        assert(values_view(v@) =~= seq![av, bv]);
    }
    Fact::new(pred, v)
}

/// A fact with three arguments.
fn fact3(pred: String, a: Value, b: Value, c: Value) -> (r: Fact)
    ensures
        r@ == (VFact { pred: pred@, args: seq![a@, b@, c@] }),
{
    let ghost av = a@;
    let ghost bv = b@;
    let ghost cv = c@;
    let mut v: Vec<Value> = Vec::new();
    v.push(a);
    v.push(b);
    v.push(c);
    proof {
        lemma_values_view(v@);
        assert(values_view(v@) =~= seq![av, bv, cv]);
    }
    Fact::new(pred, v)
}

/// A string value with the characters of `s`.
fn str_value(s: &str) -> (r: Value)
    ensures
        r@ == VValue::Str(s@),
{
    Value::String(owned(s))
}

/// The facts of a map's entries: `pred(owner, key, value)` for each entry, in key order.
pub open spec fn entry_facts(owner: Seq<char>, m: Seq<(Seq<char>, VValue)>, pred: Seq<char>) -> Seq<
    VFact,
> {
    m.map_values(
        |e: (Seq<char>, VValue)|
            VFact { pred, args: seq![VValue::Str(owner), VValue::Str(e.0), e.1] },
    )
}

/// The facts of an entity under a prefix: its identity `prefix(id, type)`,
/// its attributes `prefix_attr(id, key, value)`, then for each parent
/// `prefix_parent(id, parent_id)` followed by the parent's own facts.
pub open spec fn entity_facts(e: VEntity, prefix: Seq<char>) -> Seq<VFact>
    decreases e, 0nat,
{
    seq![VFact { pred: prefix, args: seq![VValue::Str(e.id), VValue::Str(e.ty)] }] + entry_facts(
        e.id,
        e.attrs,
        prefix + "_attr"@,
    ) + parents_facts(e.id, e.parents, prefix)
}

/// The facts of the parents of an entity, in order.
pub open spec fn parents_facts(id: Seq<char>, ps: Seq<VEntity>, prefix: Seq<char>) -> Seq<VFact>
    decreases ps, 1nat,
{
    if ps.len() == 0 {
        Seq::empty()
    } else {
        parents_facts(id, ps.drop_last(), prefix) + seq![
            VFact {
                pred: prefix + "_parent"@,
                args: seq![VValue::Str(id), VValue::Str(ps.last().id)],
            },
        ] + entity_facts(ps.last(), prefix)
    }
}

/// The facts of an action: `action(name)`, then `action_param(name, key, value)`
/// for each parameter in key order.
pub open spec fn action_facts(name: Seq<char>, params: Seq<(Seq<char>, VValue)>) -> Seq<VFact> {
    seq![VFact { pred: "action"@, args: seq![VValue::Str(name)] }] + entry_facts(
        name,
        params,
        "action_param"@,
    )
}

/// The facts of a request's context: `context(key, value)` for each entry in key order.
pub open spec fn context_facts(m: Seq<(Seq<char>, VValue)>) -> Seq<VFact> {
    m.map_values(|e: (Seq<char>, VValue)| VFact { pred: "context"@, args: seq![VValue::Str(e.0), e.1] })
}

/// Appends `pred(owner, key, value)` for each entry of a map.
fn push_entry_facts(out: &mut Vec<Fact>, owner: &str, m: &AttrMap, pred: &str)
    ensures
        facts_view(final(out)@) == facts_view(old(out)@) + entry_facts(owner@, m@, pred@),
{
    let n = m.len();
    let mut i: usize = 0;
    while i < n
        invariant
            n == m@.len(),
            i <= n,
            facts_view(out@) == facts_view(old(out)@) + entry_facts(owner@, m@.take(i as int), pred@),
        decreases n - i,
    {
        let f = fact3(
            owned(pred),
            str_value(owner),
            str_value(m.key_at(i).as_str()),
            value_clone(m.value_at(i)),
        );
        let ghost before = facts_view(out@);
        out.push(f);
        proof {
            assert(facts_view(out@) =~= before.push(f@));
            assert(entry_facts(owner@, m@.take(i + 1), pred@) =~= entry_facts(
                owner@,
                m@.take(i as int),
                pred@,
            ).push(f@));
        }
        i = i + 1;
    }
    assert(m@.take(n as int) =~= m@);
}

/// Appends the facts of an entity under a prefix.
fn entity_to_facts(out: &mut Vec<Fact>, e: &Entity, prefix: &str)
    ensures
        facts_view(final(out)@) == facts_view(old(out)@) + entity_facts(e@, prefix@),
    decreases e,
{
    let ident = fact2(owned(prefix), str_value(e.id.as_str()), str_value(e.entity_type.as_str()));
    let ghost start = facts_view(out@);
    out.push(ident);
    assert(facts_view(out@) =~= start.push(ident@));
    let attr_pred = concat2(prefix, "_attr");
    push_entry_facts(out, e.id.as_str(), &e.attributes, attr_pred.as_str());
    let parent_pred = concat2(prefix, "_parent");
    let ghost after_attrs = facts_view(out@);
    proof {
        lemma_entities_view(e.parents@);
    }
    let mut i: usize = 0;
    assert(entities_view(e.parents@).take(0) =~= Seq::<VEntity>::empty());
    while i < e.parents.len()
        invariant
            i <= e.parents@.len(),
            parent_pred@ == prefix@ + "_parent"@,
            entities_view(e.parents@).len() == e.parents@.len(),
            forall|j: int| 0 <= j < e.parents@.len() ==> #[trigger] entities_view(e.parents@)[j] == e.parents@[j]@,
            facts_view(out@) == after_attrs + parents_facts(
                e@.id,
                entities_view(e.parents@).take(i as int),
                prefix@,
            ),
        decreases e.parents.len() - i,
    {
        proof {
            assert(decreases_to!(*e => e.parents));
            assert(decreases_to!(e.parents => e.parents[i as int]));
            assert(decreases_to!(*e => e.parents[i as int]));
        }
        let p = &e.parents[i];
        let link = fact2(owned(parent_pred.as_str()), str_value(e.id.as_str()), str_value(p.id.as_str()));
        let ghost before = facts_view(out@);
        out.push(link);
        assert(facts_view(out@) =~= before.push(link@));
        entity_to_facts(out, p, prefix);
        proof {
            let ps = entities_view(e.parents@).take(i + 1);
            assert(ps.drop_last() =~= entities_view(e.parents@).take(i as int));
            assert(ps.last() == p@);
            assert(facts_view(out@) =~= after_attrs + parents_facts(e@.id, ps, prefix@));
        }
        i = i + 1;
    }
    assert(entities_view(e.parents@).take(i as int) =~= entities_view(e.parents@));
    assert(facts_view(out@) =~= start + entity_facts(e@, prefix@));
}

/// The facts of a request: those of its principal, action and resource, then its context.
pub open spec fn request_facts(r: Request) -> Seq<VFact> {
    entity_facts(r.principal.entity@, "principal"@) + action_facts(r.action.name@, r.action.parameters@)
        + entity_facts(r.resource.entity@, "resource"@) + context_facts(r.context@)
}

/// The metadata facts of a request.
pub open spec fn metadata_facts(r: Request) -> Seq<VFact> {
    seq![
        VFact { pred: "request_principal"@, args: seq![VValue::Str(r.principal.entity@.id)] },
        VFact { pred: "request_action"@, args: seq![VValue::Str(r.action.name@)] },
        VFact { pred: "request_resource"@, args: seq![VValue::Str(r.resource.entity@.id)] },
    ]
}

/// Conversions between authorization entities and Datalog facts.
pub struct CedarDatalogBridge;

impl CedarDatalogBridge {
    /// The facts of a request: its principal, action, resource and context.
    pub fn request_to_facts(request: &Request) -> (r: Vec<Fact>)
        ensures
            facts_view(r@) == request_facts(*request),
    {
        let mut out: Vec<Fact> = Vec::new();
        entity_to_facts(&mut out, &request.principal.entity, "principal");
        let mut a = Self::action_to_facts(&request.action);
        let ghost before_a = facts_view(out@);
        let ghost av = facts_view(a@);
        out.append(&mut a);
        assert(facts_view(out@) =~= before_a + av);
        entity_to_facts(&mut out, &request.resource.entity, "resource");
        let ghost before_c = facts_view(out@);
        let n = request.context.len();
        let mut i: usize = 0;
        while i < n
            invariant
                n == request.context@.len(),
                i <= n,
                facts_view(out@) == before_c + context_facts(request.context@.take(i as int)),
            decreases n - i,
        {
            let f = fact2(
                owned("context"),
                str_value(request.context.key_at(i).as_str()),
                value_clone(request.context.value_at(i)),
            );
            let ghost before = facts_view(out@);
            out.push(f);
            proof {
                assert(facts_view(out@) =~= before.push(f@));
                assert(context_facts(request.context@.take(i + 1)) =~= context_facts(
                    request.context@.take(i as int),
                ).push(f@));
            }
            i = i + 1;
        }
        assert(request.context@.take(n as int) =~= request.context@);
        assert(facts_view(out@) =~= request_facts(*request));
        out
    }

    /// The facts of a principal: `principal(id, type)`, `principal_attr(id, key, value)`,
    /// and for each parent `principal_parent(id, parent_id)` and the parent's facts.
    pub fn principal_to_facts(principal: &Principal) -> (r: Vec<Fact>)
        ensures
            facts_view(r@) == entity_facts(principal.entity@, "principal"@),
    {
        let mut out: Vec<Fact> = Vec::new();
        entity_to_facts(&mut out, &principal.entity, "principal");
        assert(facts_view(out@) =~= entity_facts(principal.entity@, "principal"@));
        out
    }

    /// The facts of a resource: `resource(id, type)`, `resource_attr(id, key, value)`,
    /// and for each parent `resource_parent(id, parent_id)` and the parent's facts.
    pub fn resource_to_facts(resource: &Resource) -> (r: Vec<Fact>)
        ensures
            facts_view(r@) == entity_facts(resource.entity@, "resource"@),
    {
        let mut out: Vec<Fact> = Vec::new();
        entity_to_facts(&mut out, &resource.entity, "resource");
        assert(facts_view(out@) =~= entity_facts(resource.entity@, "resource"@));
        out
    }

    /// The facts of an action: `action(name)` and `action_param(name, key, value)`.
    pub fn action_to_facts(action: &Action) -> (r: Vec<Fact>)
        ensures
            facts_view(r@) == action_facts(action.name@, action.parameters@),
    {
        let mut out: Vec<Fact> = Vec::new();
        let f = fact1(owned("action"), str_value(action.name.as_str()));
        out.push(f);
        assert(facts_view(out@) =~= seq![f@]);
        push_entry_facts(&mut out, action.name.as_str(), &action.parameters, "action_param");
        assert(facts_view(out@) =~= action_facts(action.name@, action.parameters@));
        out
    }

    /// The facts naming the principal, action and resource of a request.
    pub fn request_metadata_facts(request: &Request) -> (r: Vec<Fact>)
        ensures
            facts_view(r@) == metadata_facts(*request),
    {
        let mut out: Vec<Fact> = Vec::new();
        let a = fact1(owned("request_principal"), str_value(request.principal.entity.id.as_str()));
        let b = fact1(owned("request_action"), str_value(request.action.name.as_str()));
        let c = fact1(owned("request_resource"), str_value(request.resource.entity.id.as_str()));
        out.push(a);
        out.push(b);
        out.push(c);
        assert(facts_view(out@) =~= metadata_facts(*request));
        out
    }
}


/// The map an association list stands for: each key to its first value.
pub open spec fn assoc_map(m: Seq<(Seq<char>, VValue)>) -> Map<Seq<char>, VValue> {
    Map::new(|k: Seq<char>| map_get(m, k) is Some, |k: Seq<char>| map_get(m, k)->0)
}

/// What the facts can tell of an entity: type, id, attributes as a map, parents.
pub struct VShape {
    /// Entity type
    pub ty: Seq<char>,
    /// Entity id
    pub id: Seq<char>,
    /// Attributes
    pub attrs: Map<Seq<char>, VValue>,
    /// Parents
    pub parents: Seq<VShape>,
}

/// The shape of an entity.
pub open spec fn shape_of(e: VEntity) -> VShape
    decreases e, 0nat,
{
    VShape { ty: e.ty, id: e.id, attrs: assoc_map(e.attrs), parents: shapes_of(e.parents) }
}

/// The shapes of entities.
pub open spec fn shapes_of(s: Seq<VEntity>) -> Seq<VShape>
    decreases s, 1nat,
{
    if s.len() == 0 {
        Seq::empty()
    } else {
        shapes_of(s.drop_last()).push(shape_of(s.last()))
    }
}

/// The attributes of an entity and of all its ancestors are in key order.
pub open spec fn all_sorted(e: VEntity) -> bool
    decreases e, 0nat,
{
    keys_sorted(e.attrs) && all_sorted_seq(e.parents)
}

/// The attributes of entities and of their ancestors are in key order.
pub open spec fn all_sorted_seq(s: Seq<VEntity>) -> bool
    decreases s, 1nat,
{
    s.len() == 0 || (all_sorted_seq(s.drop_last()) && all_sorted(s.last()))
}

/// No attribute key occurs twice, for an entity and all its ancestors.
pub open spec fn all_keys_distinct(e: VEntity) -> bool
    decreases e, 0nat,
{
    entry_keys_distinct(e.attrs) && all_keys_distinct_seq(e.parents)
}

/// `all_keys_distinct` for each entity of a sequence.
pub open spec fn all_keys_distinct_seq(s: Seq<VEntity>) -> bool
    decreases s, 1nat,
{
    s.len() == 0 || (all_keys_distinct_seq(s.drop_last()) && all_keys_distinct(s.last()))
}

/// The first argument of a fact is the string `id`.
pub open spec fn has_id(f: VFact, id: Seq<char>) -> bool {
    f.args.len() > 0 && f.args[0] == VValue::Str(id)
}

/// The position of the first fact `pred(id, ..)`.
pub open spec fn first_fact(facts: Seq<VFact>, pred: Seq<char>, id: Seq<char>) -> Option<int>
    decreases facts.len(),
{
    if facts.len() == 0 {
        None
    } else if facts[0].pred == pred && has_id(facts[0], id) {
        Some(0)
    } else {
        match first_fact(facts.drop_first(), pred, id) {
            Some(i) => Some(i + 1),
            None => None,
        }
    }
}

/// The type an identity fact gives: its second argument, where that is a string.
pub open spec fn identity_type(facts: Seq<VFact>, id: Seq<char>, prefix: Seq<char>) -> Option<Seq<char>> {
    match first_fact(facts, prefix, id) {
        Some(i) => if facts[i].args.len() > 1 && facts[i].args[1] is Str {
            Some(facts[i].args[1]->Str_0)
        } else {
            None
        },
        None => None,
    }
}

/// The key and value that a fact `pred(id, key, value)` gives, if it is one.
pub open spec fn keyed_entry(f: VFact, pred: Seq<char>, id: Seq<char>) -> Option<(Seq<char>, VValue)> {
    if f.pred == pred && has_id(f, id) && f.args.len() > 2 && f.args[1] is Str {
        Some((f.args[1]->Str_0, f.args[2]))
    } else {
        None
    }
}

/// The attributes the first `k` facts give to `id`: later facts override earlier ones.
pub open spec fn attrs_upto(facts: Seq<VFact>, k: int, id: Seq<char>, pred: Seq<char>) -> Map<
    Seq<char>,
    VValue,
>
    decreases k,
{
    if k <= 0 {
        Map::empty()
    } else {
        let m = attrs_upto(facts, k - 1, id, pred);
        match keyed_entry(facts[k - 1], pred, id) {
            Some((key, v)) => m.insert(key, v),
            None => m,
        }
    }
}

/// The parent that a fact `pred(id, parent_id, ..)` names, if it is one.
pub open spec fn parent_named(f: VFact, pred: Seq<char>, id: Seq<char>) -> Option<Seq<char>> {
    if f.pred == pred && has_id(f, id) && f.args.len() > 1 && f.args[1] is Str {
        Some(f.args[1]->Str_0)
    } else {
        None
    }
}

/// The entity that the facts describe under a prefix, following parent
/// facts at most `fuel` levels deep.
pub open spec fn build(facts: Seq<VFact>, id: Seq<char>, prefix: Seq<char>, fuel: nat) -> Option<VShape>
    decreases fuel, 0nat,
{
    if fuel == 0 {
        None
    } else {
        match identity_type(facts, id, prefix) {
            None => None,
            Some(ty) => Some(
                VShape {
                    ty,
                    id,
                    attrs: attrs_upto(facts, facts.len() as int, id, prefix + "_attr"@),
                    parents: parents_upto(facts, facts.len() as nat, id, prefix, (fuel - 1) as nat),
                },
            ),
        }
    }
}

/// The parents that the first `k` facts name for `id`, each rebuilt.
pub open spec fn parents_upto(facts: Seq<VFact>, k: nat, id: Seq<char>, prefix: Seq<char>, fuel: nat) -> Seq<
    VShape,
>
    decreases fuel, k,
{
    if k == 0 || k > facts.len() {
        Seq::empty()
    } else {
        let ps = parents_upto(facts, (k - 1) as nat, id, prefix, fuel);
        match parent_named(facts[k - 1], prefix + "_parent"@, id) {
            Some(pid) => match build(facts, pid, prefix, fuel) {
                Some(p) => ps.push(p),
                None => ps,
            },
            None => ps,
        }
    }
}

/// Rebuilding `id` from the facts ends within `fuel` levels of parents.
pub open spec fn ends(facts: Seq<VFact>, id: Seq<char>, prefix: Seq<char>, fuel: nat) -> bool
    decreases fuel, 0nat,
{
    match identity_type(facts, id, prefix) {
        None => true,
        Some(_) => fuel > 0 && parents_end(facts, facts.len() as nat, id, prefix, (fuel - 1) as nat),
    }
}

/// Rebuilding each parent named by the first `k` facts ends within `fuel` levels.
pub open spec fn parents_end(facts: Seq<VFact>, k: nat, id: Seq<char>, prefix: Seq<char>, fuel: nat) -> bool
    decreases fuel, k,
{
    if k == 0 || k > facts.len() {
        true
    } else {
        parents_end(facts, (k - 1) as nat, id, prefix, fuel) && match parent_named(
            facts[k - 1],
            prefix + "_parent"@,
            id,
        ) {
            Some(pid) => ends(facts, pid, prefix, fuel),
            None => true,
        }
    }
}

/// The entity the facts describe, where rebuilding it ends.
pub open spec fn rebuild(facts: Seq<VFact>, id: Seq<char>, prefix: Seq<char>) -> Option<VShape> {
    build(facts, id, prefix, choose|n: nat| ends(facts, id, prefix, n))
}

/// Whether the first argument of a fact is the string `id`.
fn fact_has_id(args: &Vec<Value>, id: &str) -> (r: bool)
    ensures
        r == (values_view(args@).len() > 0 && values_view(args@)[0] == VValue::Str(id@)),
{
    proof {
        lemma_values_view(args@);
    }
    if args.len() == 0 {
        return false;
    }
    match &args[0] {
        Value::String(s) => str_eq(s.as_str(), id),
        _ => false,
    }
}

/// The position of the first fact `pred(id, ..)`.
fn find_fact(facts: &[Fact], pred: &str, id: &str) -> (r: Option<usize>)
    ensures
        match r {
            Some(i) => first_fact(facts_view(facts@), pred@, id@) == Some(i as int) && i < facts@.len(),
            None => first_fact(facts_view(facts@), pred@, id@) is None,
        },
{
    let ghost fv = facts_view(facts@);
    let mut i: usize = 0;
    assert(fv.skip(0) =~= fv);
    while i < facts.len()
        invariant
            fv == facts_view(facts@),
            i <= facts@.len(),
            first_fact(fv, pred@, id@) == match first_fact(fv.skip(i as int), pred@, id@) {
                Some(k) => Some(k + i),
                None => None,
            },
        decreases facts.len() - i,
    {
        assert(fv.skip(i as int)[0] == facts@[i as int]@);
        if str_eq(facts[i].predicate.as_str(), pred) && fact_has_id(&facts[i].args, id) {
            return Some(i);
        }
        assert(fv.skip(i as int).drop_first() =~= fv.skip(i + 1));
        i = i + 1;
    }
    None
}

/// The type an identity fact gives.
fn find_identity_type(facts: &[Fact], id: &str, prefix: &str) -> (r: Option<String>)
    ensures
        match r {
            Some(t) => identity_type(facts_view(facts@), id@, prefix@) == Some(t@),
            None => identity_type(facts_view(facts@), id@, prefix@) is None,
        },
{
    match find_fact(facts, prefix, id) {
        Some(i) => {
            let args = &facts[i].args;
            proof {
                lemma_values_view(args@);
            }
            if args.len() > 1 {
                match &args[1] {
                    Value::String(t) => Some(owned(t.as_str())),
                    _ => None,
                }
            } else {
                None
            }
        },
        None => None,
    }
}

/// The key and value of a fact `pred(id, key, value)`.
fn fact_entry<'a>(f: &'a Fact, pred: &str, id: &str) -> (r: Option<(&'a String, &'a Value)>)
    ensures
        match r {
            Some((k, v)) => keyed_entry(f@, pred@, id@) == Some((k@, v@)),
            None => keyed_entry(f@, pred@, id@) is None,
        },
{
    proof {
        lemma_values_view(f.args@);
    }
    if str_eq(f.predicate.as_str(), pred) && fact_has_id(&f.args, id) && f.args.len() > 2 {
        match &f.args[1] {
            Value::String(k) => Some((k, &f.args[2])),
            _ => None,
        }
    } else {
        None
    }
}

/// The parent id of a fact `pred(id, parent_id, ..)`.
fn fact_parent<'a>(f: &'a Fact, pred: &str, id: &str) -> (r: Option<&'a String>)
    ensures
        match r {
            Some(p) => parent_named(f@, pred@, id@) == Some(p@),
            None => parent_named(f@, pred@, id@) is None,
        },
{
    proof {
        lemma_values_view(f.args@);
    }
    if str_eq(f.predicate.as_str(), pred) && fact_has_id(&f.args, id) && f.args.len() > 1 {
        match &f.args[1] {
            Value::String(p) => Some(p),
            _ => None,
        }
    } else {
        None
    }
}

/// Rebuild an entity, following parents at most `fuel` levels deep.
fn rebuild_entity(facts: &[Fact], id: &str, prefix: &str, Ghost(fuel): Ghost<nat>) -> (r: Option<Entity>)
    requires
        ends(facts_view(facts@), id@, prefix@, fuel),
    ensures
        match r {
            Some(e) => build(facts_view(facts@), id@, prefix@, fuel) == Some(shape_of(e@)) && all_sorted(
                e@,
            ),
            None => build(facts_view(facts@), id@, prefix@, fuel) is None,
        },
    decreases fuel,
{
    let ghost fv = facts_view(facts@);
    let ty = match find_identity_type(facts, id, prefix) {
        Some(t) => t,
        None => return None,
    };
    let mut entity = Entity::new(ty.as_str(), id);
    let attr_pred = concat2(prefix, "_attr");
    let mut k: usize = 0;
    assert(assoc_map(entity@.attrs) =~= Map::<Seq<char>, VValue>::empty());
    while k < facts.len()
        invariant
            k <= facts@.len(),
            fv == facts_view(facts@),
            attr_pred@ == prefix@ + "_attr"@,
            entity@.ty == ty@,
            entity@.id == id@,
            entity@.parents == Seq::<VEntity>::empty(),
            keys_sorted(entity@.attrs),
            assoc_map(entity@.attrs) == attrs_upto(fv, k as int, id@, attr_pred@),
        decreases facts.len() - k,
    {
        assert(fv[k as int] == facts@[k as int]@);
        match fact_entry(&facts[k], attr_pred.as_str(), id) {
            Some((key, v)) => {
                let ghost before = entity@;
                entity = entity.with_attribute(key.as_str(), value_clone(v));
                assert(assoc_map(entity@.attrs) =~= assoc_map(before.attrs).insert(key@, v@));
            },
            None => {},
        }
        k = k + 1;
    }
    let parent_pred = concat2(prefix, "_parent");
    let ghost attrs_done = entity@.attrs;
    let mut j: usize = 0;
    assert(shapes_of(entity@.parents) =~= Seq::<VShape>::empty());
    while j < facts.len()
        invariant
            j <= facts@.len(),
            fuel > 0,
            fv == facts_view(facts@),
            identity_type(fv, id@, prefix@) is Some,
            parents_end(fv, fv.len() as nat, id@, prefix@, (fuel - 1) as nat),
            parent_pred@ == prefix@ + "_parent"@,
            entity@.ty == ty@,
            entity@.id == id@,
            entity@.attrs == attrs_done,
            keys_sorted(attrs_done),
            all_sorted_seq(entity@.parents),
            shapes_of(entity@.parents) == parents_upto(fv, j as nat, id@, prefix@, (fuel - 1) as nat),
        decreases facts.len() - j,
    {
        assert(fv[j as int] == facts@[j as int]@);
        proof {
            lemma_parents_end_at(fv, fv.len() as nat, id@, prefix@, (fuel - 1) as nat, j as int);
        }
        match fact_parent(&facts[j], parent_pred.as_str(), id) {
            Some(pid) => {
                match rebuild_entity(facts, pid.as_str(), prefix, Ghost((fuel - 1) as nat)) {
                    Some(p) => {
                        let ghost before = entity@;
                        let ghost pv = p@;
                        entity = entity.with_parent(p);
                        assert(entity@.parents == before.parents.push(pv));
                        assert(entity@.parents.drop_last() =~= before.parents);
                        assert(shapes_of(entity@.parents) =~= shapes_of(before.parents).push(shape_of(pv)));
                    },
                    None => {},
                }
            },
            None => {},
        }
        j = j + 1;
    }
    proof {
        assert(all_sorted(entity@));
    }
    Some(entity)
}

proof fn lemma_parents_end_at(facts: Seq<VFact>, k: nat, id: Seq<char>, prefix: Seq<char>, fuel: nat, j: int)
    requires
        parents_end(facts, k, id, prefix, fuel),
        0 <= j < k <= facts.len(),
    ensures
        match parent_named(facts[j], prefix + "_parent"@, id) {
            Some(pid) => ends(facts, pid, prefix, fuel),
            None => true,
        },
    decreases k,
{
    if j < k - 1 {
        lemma_parents_end_at(facts, (k - 1) as nat, id, prefix, fuel, j);
    }
}

impl CedarDatalogBridge {
    /// Rebuild an entity from facts under a prefix: its identity fact
    /// `prefix(id, type)` (the first one), its attributes from
    /// `prefix_attr(id, key, value)` facts (a later one overriding an earlier
    /// one), and each parent named by a `prefix_parent(id, parent_id)` fact that
    /// can itself be rebuilt. `None` where there is no identity fact with a
    /// string type. The parent facts must not lead round in a cycle.
    pub fn facts_to_entity(facts: &[Fact], entity_id: &str, prefix: &str) -> (r: Option<Entity>)
        requires
            exists|n: nat| ends(facts_view(facts@), entity_id@, prefix@, n),
        ensures
            match r {
                Some(e) => rebuild(facts_view(facts@), entity_id@, prefix@) == Some(shape_of(e@))
                    && all_sorted(e@),
                None => rebuild(facts_view(facts@), entity_id@, prefix@) is None,
            },
    {
        let ghost n = choose|n: nat| ends(facts_view(facts@), entity_id@, prefix@, n);
        rebuild_entity(facts, entity_id, prefix, Ghost(n))
    }

    /// Rebuild a principal from the `principal` facts.
    pub fn facts_to_principal(facts: &[Fact], principal_id: &str) -> (r: Option<Principal>)
        requires
            exists|n: nat| ends(facts_view(facts@), principal_id@, "principal"@, n),
        ensures
            match r {
                Some(p) => rebuild(facts_view(facts@), principal_id@, "principal"@) == Some(
                    shape_of(p.entity@),
                ) && all_sorted(p.entity@),
                None => rebuild(facts_view(facts@), principal_id@, "principal"@) is None,
            },
    {
        match Self::facts_to_entity(facts, principal_id, "principal") {
            Some(entity) => Some(Principal { entity }),
            None => None,
        }
    }

    /// Rebuild a resource from the `resource` facts.
    pub fn facts_to_resource(facts: &[Fact], resource_id: &str) -> (r: Option<Resource>)
        requires
            exists|n: nat| ends(facts_view(facts@), resource_id@, "resource"@, n),
        ensures
            match r {
                Some(x) => rebuild(facts_view(facts@), resource_id@, "resource"@) == Some(
                    shape_of(x.entity@),
                ) && all_sorted(x.entity@),
                None => rebuild(facts_view(facts@), resource_id@, "resource"@) is None,
            },
    {
        match Self::facts_to_entity(facts, resource_id, "resource") {
            Some(entity) => Some(Resource { entity }),
            None => None,
        }
    }

    /// Rebuild an action: `None` unless some fact `action(name, ..)` exists;
    /// parameters come from `action_param(name, key, value)` facts, a later
    /// one overriding an earlier one.
    pub fn facts_to_action(facts: &[Fact], action_name: &str) -> (r: Option<Action>)
        ensures
            match r {
                Some(a) => first_fact(facts_view(facts@), "action"@, action_name@) is Some
                    && a.name@ == action_name@ && keys_sorted(a.parameters@) && assoc_map(
                    a.parameters@,
                ) == attrs_upto(
                    facts_view(facts@),
                    facts@.len() as int,
                    action_name@,
                    "action_param"@,
                ),
                None => first_fact(facts_view(facts@), "action"@, action_name@) is None,
            },
    {
        let ghost fv = facts_view(facts@);
        match find_fact(facts, "action", action_name) {
            None => return None,
            Some(_) => {},
        }
        let mut action = Action::new(action_name);
        let mut k: usize = 0;
        assert(assoc_map(action.parameters@) =~= Map::<Seq<char>, VValue>::empty());
        while k < facts.len()
            invariant
                k <= facts@.len(),
                fv == facts_view(facts@),
                action.name@ == action_name@,
                keys_sorted(action.parameters@),
                assoc_map(action.parameters@) == attrs_upto(fv, k as int, action_name@, "action_param"@),
            decreases facts.len() - k,
        {
            assert(fv[k as int] == facts@[k as int]@);
            match fact_entry(&facts[k], "action_param", action_name) {
                Some((key, v)) => {
                    let ghost before = action.parameters@;
                    action = action.with_parameter(key.as_str(), value_clone(v));
                    assert(assoc_map(action.parameters@) =~= assoc_map(before).insert(key@, v@));
                },
                None => {},
            }
            k = k + 1;
        }
        Some(action)
    }
}


/// The position of the first fact of a predicate.
pub open spec fn first_of(facts: Seq<VFact>, pred: Seq<char>) -> Option<int>
    decreases facts.len(),
{
    if facts.len() == 0 {
        None
    } else if facts[0].pred == pred {
        Some(0)
    } else {
        match first_of(facts.drop_first(), pred) {
            Some(i) => Some(i + 1),
            None => None,
        }
    }
}

/// The string first argument of the first fact of a predicate.
pub open spec fn named_by(facts: Seq<VFact>, pred: Seq<char>) -> Option<Seq<char>> {
    match first_of(facts, pred) {
        Some(i) => if facts[i].args.len() > 0 && facts[i].args[0] is Str {
            Some(facts[i].args[0]->Str_0)
        } else {
            None
        },
        None => None,
    }
}

/// The key and value of a fact `context(key, value, ..)`.
pub open spec fn context_entry(f: VFact) -> Option<(Seq<char>, VValue)> {
    if f.pred == "context"@ && f.args.len() > 1 && f.args[0] is Str {
        Some((f.args[0]->Str_0, f.args[1]))
    } else {
        None
    }
}

/// The context the first `k` facts give: later facts override earlier ones.
pub open spec fn context_upto(facts: Seq<VFact>, k: int) -> Map<Seq<char>, VValue>
    decreases k,
{
    if k <= 0 {
        Map::empty()
    } else {
        let m = context_upto(facts, k - 1);
        match context_entry(facts[k - 1]) {
            Some((key, v)) => m.insert(key, v),
            None => m,
        }
    }
}

/// The string first argument of the first fact of a predicate.
fn find_named(facts: &[Fact], pred: &str) -> (r: Option<String>)
    ensures
        match r {
            Some(x) => named_by(facts_view(facts@), pred@) == Some(x@),
            None => named_by(facts_view(facts@), pred@) is None,
        },
{
    let ghost fv = facts_view(facts@);
    let mut i: usize = 0;
    assert(fv.skip(0) =~= fv);
    while i < facts.len()
        invariant
            fv == facts_view(facts@),
            i <= facts@.len(),
            first_of(fv, pred@) == match first_of(fv.skip(i as int), pred@) {
                Some(k) => Some(k + i),
                None => None,
            },
        decreases facts.len() - i,
    {
        assert(fv.skip(i as int)[0] == facts@[i as int]@);
        if str_eq(facts[i].predicate.as_str(), pred) {
            let args = &facts[i].args;
            proof {
                lemma_values_view(args@);
            }
            if args.len() > 0 {
                match &args[0] {
                    Value::String(x) => {
                        return Some(owned(x.as_str()));
                    },
                    _ => {
                        return None;
                    },
                }
            }
            return None;
        }
        assert(fv.skip(i as int).drop_first() =~= fv.skip(i + 1));
        i = i + 1;
    }
    None
}

/// What rebuilding a request from facts requires: the principal and resource
/// that the metadata facts name can be rebuilt without going round in a cycle.
pub open spec fn request_rebuild_ends(facts: Seq<VFact>) -> bool {
    &&& named_by(facts, "request_principal"@) matches Some(p) ==> exists|n: nat|
        ends(facts, p, "principal"@, n)
    &&& named_by(facts, "request_resource"@) matches Some(x) ==> exists|n: nat|
        ends(facts, x, "resource"@, n)
}

impl CedarDatalogBridge {
    /// Rebuild a request: the principal, action and resource named by the
    /// first `request_principal`, `request_action` and `request_resource` facts,
    /// each rebuilt from the facts, and a context from the `context(key, value)`
    /// facts (a later one overriding an earlier one); the request gets a fresh id.
    pub fn facts_to_request(facts: &[Fact]) -> (r: Option<Request>)
        requires
            request_rebuild_ends(facts_view(facts@)),
        ensures
            ({
                let fv = facts_view(facts@);
                match r {
                    Some(req) => named_by(fv, "request_principal"@) matches Some(pid) && named_by(
                        fv,
                        "request_action"@,
                    ) matches Some(an) && named_by(fv, "request_resource"@) matches Some(rid)
                        && rebuild(fv, pid, "principal"@) == Some(shape_of(req.principal.entity@))
                        && first_fact(fv, "action"@, an) is Some && req.action.name@ == an
                        && assoc_map(req.action.parameters@) == attrs_upto(
                        fv,
                        fv.len() as int,
                        an,
                        "action_param"@,
                    ) && rebuild(fv, rid, "resource"@) == Some(shape_of(req.resource.entity@))
                        && assoc_map(req.context@) == context_upto(fv, fv.len() as int),
                    None => named_by(fv, "request_principal"@) is None || named_by(
                        fv,
                        "request_action"@,
                    ) is None || named_by(fv, "request_resource"@) is None || rebuild(
                        fv,
                        named_by(fv, "request_principal"@)->0,
                        "principal"@,
                    ) is None || first_fact(fv, "action"@, named_by(fv, "request_action"@)->0) is None
                        || rebuild(fv, named_by(fv, "request_resource"@)->0, "resource"@) is None,
                }
            }),
    {
        let ghost fv = facts_view(facts@);
        let principal_id = match find_named(facts, "request_principal") {
            Some(x) => x,
            None => return None,
        };
        let action_name = match find_named(facts, "request_action") {
            Some(x) => x,
            None => return None,
        };
        let resource_id = match find_named(facts, "request_resource") {
            Some(x) => x,
            None => return None,
        };
        let principal = match Self::facts_to_principal(facts, principal_id.as_str()) {
            Some(p) => p,
            None => return None,
        };
        let action = match Self::facts_to_action(facts, action_name.as_str()) {
            Some(a) => a,
            None => return None,
        };
        let resource = match Self::facts_to_resource(facts, resource_id.as_str()) {
            Some(x) => x,
            None => return None,
        };
        let mut request = Request::new(principal, action, resource);
        let mut k: usize = 0;
        assert(assoc_map(request.context@) =~= Map::<Seq<char>, VValue>::empty());
        while k < facts.len()
            invariant
                k <= facts@.len(),
                fv == facts_view(facts@),
                keys_sorted(request.context@),
                assoc_map(request.context@) == context_upto(fv, k as int),
                rebuild(fv, principal_id@, "principal"@) == Some(shape_of(request.principal.entity@)),
                rebuild(fv, resource_id@, "resource"@) == Some(shape_of(request.resource.entity@)),
                request.action.name@ == action_name@,
                assoc_map(request.action.parameters@) == attrs_upto(
                    fv,
                    fv.len() as int,
                    action_name@,
                    "action_param"@,
                ),
            decreases facts.len() - k,
        {
            assert(fv[k as int] == facts@[k as int]@);
            let f = &facts[k];
            proof {
                lemma_values_view(f.args@);
            }
            if str_eq(f.predicate.as_str(), "context") && f.args.len() > 1 {
                match &f.args[0] {
                    Value::String(key) => {
                        let ghost before = request.context@;
                        request = request.with_context(key.as_str(), value_clone(&f.args[1]));
                        assert(assoc_map(request.context@) =~= assoc_map(before).insert(
                            key@,
                            f.args@[1]@,
                        ));
                    },
                    _ => {},
                }
            }
            k = k + 1;
        }
        Some(request)
    }
}


/// A fact about entities under a prefix: its predicate is the prefix or starts with `prefix_`.
pub open spec fn under_prefix(f: VFact, prefix: Seq<char>) -> bool {
    f.pred == prefix || is_prefix(prefix + "_"@, f.pred)
}

/// The facts under a prefix, in order.
pub open spec fn facts_under(facts: Seq<VFact>, prefix: Seq<char>) -> Seq<VFact> {
    facts.filter(|f: VFact| under_prefix(f, prefix))
}

/// The distinct string first arguments of facts, in order of first appearance.
pub open spec fn ids_in(facts: Seq<VFact>) -> Seq<Seq<char>>
    decreases facts.len(),
{
    if facts.len() == 0 {
        Seq::empty()
    } else {
        let ids = ids_in(facts.drop_last());
        let f = facts.last();
        if f.args.len() > 0 && f.args[0] is Str && !ids.contains(f.args[0]->Str_0) {
            ids.push(f.args[0]->Str_0)
        } else {
            ids
        }
    }
}

/// The rebuilt entities of some ids, those that can be rebuilt, in order.
pub open spec fn rebuilt_all(facts: Seq<VFact>, ids: Seq<Seq<char>>, prefix: Seq<char>) -> Seq<VShape>
    decreases ids.len(),
{
    if ids.len() == 0 {
        Seq::empty()
    } else {
        let rest = rebuilt_all(facts, ids.drop_last(), prefix);
        match rebuild(facts, ids.last(), prefix) {
            Some(e) => rest.push(e),
            None => rest,
        }
    }
}

impl CedarDatalogBridge {
    /// Rebuild every entity that the facts under a prefix mention by their
    /// first argument, from those facts, in order of first mention.
    pub fn extract_entities_from_facts(facts: &[Fact], prefix: &str) -> (r: Vec<Entity>)
        requires
            forall|id: Seq<char>|
                #[trigger] ids_in(facts_under(facts_view(facts@), prefix@)).contains(id) ==> exists|n: nat|
                    ends(facts_under(facts_view(facts@), prefix@), id, prefix@, n),
        ensures
            shapes_of(crate::types::entities_view(r@)) == rebuilt_all(
                facts_under(facts_view(facts@), prefix@),
                ids_in(facts_under(facts_view(facts@), prefix@)),
                prefix@,
            ),
    {
        let ghost fv = facts_view(facts@);
        let sep = concat2(prefix, "_");
        let sep_chars = chars_of(sep.as_str());
        let mut cands: Vec<Fact> = Vec::new();
        let mut ids: Vec<String> = Vec::new();
        let mut k: usize = 0;
        assert(facts_under(fv.take(0), prefix@) =~= Seq::<VFact>::empty()) by {
            reveal(Seq::filter);
        }
        assert(facts_view(cands@) =~= Seq::<VFact>::empty());
        assert(crate::text::models(ids@) =~= Seq::<Seq<char>>::empty());
        while k < facts.len()
            invariant
                k <= facts@.len(),
                fv == facts_view(facts@),
                sep_chars@ == prefix@ + "_"@,
                facts_view(cands@) == facts_under(fv.take(k as int), prefix@),
                crate::text::models(ids@) == ids_in(facts_view(cands@)),
            decreases facts.len() - k,
        {
            assert(fv[k as int] == facts@[k as int]@);
            let f = &facts[k];
            let pc = chars_of(f.predicate.as_str());
            let keep = str_eq(f.predicate.as_str(), prefix) || starts_with(pc.as_slice(), sep_chars.as_slice());
            assert(fv.take(k + 1).drop_last() =~= fv.take(k as int));
            if keep {
                let ghost before = facts_view(cands@);
                let c = f.clone();
                cands.push(c);
                assert(facts_view(cands@) =~= before.push(f@));
                assert(facts_under(fv.take(k + 1), prefix@) =~= before.push(f@)) by {
                    reveal(Seq::filter);
                }
                assert(facts_view(cands@).drop_last() =~= before);
                proof {
                    lemma_values_view(f.args@);
                }
                if f.args.len() > 0 {
                    match &f.args[0] {
                        Value::String(id) => {
                            let mut seen = false;
                            let mut j: usize = 0;
                            while j < ids.len()
                                invariant
                                    j <= ids@.len(),
                                    seen == crate::text::models(ids@).take(j as int).contains(id@),
                                decreases ids.len() - j,
                            {
                                let same = str_eq(ids[j].as_str(), id.as_str());
                                proof {
                                    let m = crate::text::models(ids@);
                                    assert(m.take(j + 1) =~= m.take(j as int).push(m[j as int]));
                                    if same {
                                        assert(m.take(j + 1)[j as int] == id@);
                                    }
                                    if m.take(j + 1).contains(id@) && !same {
                                        let t = m.take(j + 1);
                                        let w = choose|w: int| 0 <= w < t.len() && #[trigger] t[w] == id@;
                                        assert(m.take(j as int)[w] == id@);
                                    }
                                }
                                seen = seen || same;
                                j = j + 1;
                            }
                            assert(crate::text::models(ids@).take(j as int) =~= crate::text::models(ids@));
                            if !seen {
                                let ghost before_ids = crate::text::models(ids@);
                                ids.push(owned(id.as_str()));
                                assert(crate::text::models(ids@) =~= before_ids.push(id@));
                            }
                        },
                        _ => {},
                    }
                }
            } else {
                assert(facts_under(fv.take(k + 1), prefix@) =~= facts_under(fv.take(k as int), prefix@)) by {
                    reveal(Seq::filter);
                }
            }
            k = k + 1;
        }
        assert(fv.take(k as int) =~= fv);
        let ghost cv = facts_view(cands@);
        let mut out: Vec<Entity> = Vec::new();
        let mut i: usize = 0;
        assert(crate::text::models(ids@).take(0) =~= Seq::<Seq<char>>::empty());
        assert(shapes_of(crate::types::entities_view(out@)) =~= Seq::<VShape>::empty());
        while i < ids.len()
            invariant
                i <= ids@.len(),
                cv == facts_view(cands@),
                cv == facts_under(fv, prefix@),
                crate::text::models(ids@) == ids_in(cv),
                forall|id: Seq<char>|
                    #[trigger] ids_in(cv).contains(id) ==> exists|n: nat| ends(cv, id, prefix@, n),
                shapes_of(crate::types::entities_view(out@)) == rebuilt_all(
                    cv,
                    crate::text::models(ids@).take(i as int),
                    prefix@,
                ),
            decreases ids.len() - i,
        {
            let ghost m = crate::text::models(ids@);
            assert(m[i as int] == ids@[i as int]@);
            assert(ids_in(cv).contains(m[i as int]));
            assert(m.take(i + 1).drop_last() =~= m.take(i as int));
            match Self::facts_to_entity(cands.as_slice(), ids[i].as_str(), prefix) {
                Some(e) => {
                    let ghost before = out@;
                    let ghost ev = e@;
                    out.push(e);
                    proof {
                        lemma_entities_view(before);
                        lemma_entities_view(out@);
                        assert(crate::types::entities_view(out@) =~= crate::types::entities_view(before).push(ev));
                        assert(crate::types::entities_view(out@).drop_last() =~= crate::types::entities_view(before));
                    }
                },
                None => {},
            }
            i = i + 1;
        }
        assert(crate::text::models(ids@).take(i as int) =~= crate::text::models(ids@));
        out
    }
}

/// Looking a key up after appending an entry.
proof fn lemma_map_get_push(s: Seq<(Seq<char>, VValue)>, x: (Seq<char>, VValue), k: Seq<char>)
    ensures
        map_get(s.push(x), k) == if map_get(s, k) is Some {
            map_get(s, k)
        } else if x.0 == k {
            Some(x.1)
        } else {
            None
        },
    decreases s.len(),
{
    if s.len() > 0 {
        assert(s.push(x).drop_first() =~= s.drop_first().push(x));
        assert(s.push(x)[0] == s[0]);
        lemma_map_get_push(s.drop_first(), x, k);
    } else {
        assert(s.push(x).drop_first() =~= Seq::<(Seq<char>, VValue)>::empty());
        assert(s.push(x)[0] == x);
        assert(map_get(Seq::<(Seq<char>, VValue)>::empty(), k) is None);
        assert(map_get(s, k) is None);
    }
}

/// A key that no entry holds is absent.
proof fn lemma_map_get_none(s: Seq<(Seq<char>, VValue)>, k: Seq<char>)
    requires
        forall|i: int| 0 <= i < s.len() ==> (#[trigger] s[i]).0 != k,
    ensures
        map_get(s, k) is None,
    decreases s.len(),
{
    if s.len() > 0 {
        assert forall|i: int| 0 <= i < s.drop_first().len() implies (#[trigger] s.drop_first()[i]).0 != k by {
            assert(s.drop_first()[i] == s[i + 1]);
        }
        lemma_map_get_none(s.drop_first(), k);
    }
}

/// The attributes rebuilt from an entity's facts are its attributes.
proof fn lemma_attrs_of_entries(e: VEntity, prefix: Seq<char>, facts: Seq<VFact>)
    requires
        entry_keys_distinct(e.attrs),
        facts == seq![VFact { pred: prefix, args: seq![VValue::Str(e.id), VValue::Str(e.ty)] }] + entry_facts(
            e.id,
            e.attrs,
            prefix + "_attr"@,
        ),
        "_attr"@.len() > 0,
    ensures
        attrs_upto(facts, facts.len() as int, e.id, prefix + "_attr"@) == assoc_map(e.attrs),
{
    lemma_attrs_prefix(e, prefix, facts, e.attrs.len() as int);
    assert(e.attrs.take(e.attrs.len() as int) =~= e.attrs);
}

proof fn lemma_attrs_prefix(e: VEntity, prefix: Seq<char>, facts: Seq<VFact>, j: int)
    requires
        entry_keys_distinct(e.attrs),
        facts == seq![VFact { pred: prefix, args: seq![VValue::Str(e.id), VValue::Str(e.ty)] }] + entry_facts(
            e.id,
            e.attrs,
            prefix + "_attr"@,
        ),
        "_attr"@.len() > 0,
        0 <= j <= e.attrs.len(),
    ensures
        attrs_upto(facts, 1 + j, e.id, prefix + "_attr"@) == assoc_map(e.attrs.take(j)),
    decreases j,
{
    let ap = prefix + "_attr"@;
    if j == 0 {
        assert((prefix + "_attr"@).len() != prefix.len());
        assert(keyed_entry(facts[0], ap, e.id) is None);
        assert(attrs_upto(facts, 0, e.id, ap) == Map::<Seq<char>, VValue>::empty());
        assert(assoc_map(e.attrs.take(0)) =~= Map::<Seq<char>, VValue>::empty());
    } else {
        lemma_attrs_prefix(e, prefix, facts, j - 1);
        let x = e.attrs[j - 1];
        assert(facts[j] == VFact { pred: ap, args: seq![VValue::Str(e.id), VValue::Str(x.0), x.1] });
        assert(keyed_entry(facts[j], ap, e.id) == Some((x.0, x.1)));
        let pre = e.attrs.take(j - 1);
        assert(e.attrs.take(j) =~= pre.push(x));
        assert forall|i: int| 0 <= i < pre.len() implies (#[trigger] pre[i]).0 != x.0 by {
            assert(e.attrs[i].0 != e.attrs[j - 1].0);
        }
        lemma_map_get_none(pre, x.0);
        assert(assoc_map(e.attrs.take(j)) =~= assoc_map(pre).insert(x.0, x.1)) by {
            assert forall|k: Seq<char>| true implies map_get(pre.push(x), k) == (if map_get(pre, k) is Some {
                map_get(pre, k)
            } else if x.0 == k {
                Some(x.1)
            } else {
                None
            }) by {
                lemma_map_get_push(pre, x, k);
            }
        }
    }
}

/// A key not among the first entries is unbound in them.
proof fn lemma_map_get_absent(m: Seq<(Seq<char>, VValue)>, k: Seq<char>)
    requires
        forall|i: int| 0 <= i < m.len() ==> #[trigger] m[i].0 != k,
    ensures
        map_get(m, k) is None,
    decreases m.len(),
{
    if m.len() > 0 {
        assert forall|i: int| 0 <= i < m.drop_first().len() implies #[trigger] m.drop_first()[i].0 != k by {
            assert(m.drop_first()[i] == m[i + 1]);
        }
        lemma_map_get_absent(m.drop_first(), k);
    }
}

/// No key occurs twice among entries.
pub open spec fn entry_keys_distinct(m: Seq<(Seq<char>, VValue)>) -> bool {
    forall|i: int, j: int| 0 <= i < j < m.len() ==> #[trigger] m[i].0 != #[trigger] m[j].0
}

/// Entries in key order have distinct keys.
proof fn lemma_sorted_distinct(m: Seq<(Seq<char>, VValue)>)
    requires
        keys_sorted(m),
    ensures
        entry_keys_distinct(m),
{
    assert forall|i: int, j: int| 0 <= i < j < m.len() implies #[trigger] m[i].0 != #[trigger] m[j].0 by {
        assert(chars_order(m[i].0, m[j].0) < 0);
        lemma_chars_order_eq(m[i].0, m[j].0);
    }
}

/// The parameters the first facts of an action give are those of its first
/// entries.
proof fn lemma_action_attrs(name: Seq<char>, params: Seq<(Seq<char>, VValue)>, k: int)
    requires
        entry_keys_distinct(params),
        0 <= k <= params.len(),
    ensures
        attrs_upto(action_facts(name, params), k + 1, name, "action_param"@) == assoc_map(params.take(k)),
    decreases k,
{
    let fs = action_facts(name, params);
    if k == 0 {
        assert(fs[0].pred == "action"@);
        assert(keyed_entry(fs[0], "action_param"@, name) is None) by {
            reveal_strlit("action");
            reveal_strlit("action_param");
            assert("action"@ != "action_param"@) by {
                assert("action"@.len() != "action_param"@.len());
            }
        }
        assert(assoc_map(params.take(0)) =~= Map::<Seq<char>, VValue>::empty());
        assert(attrs_upto(fs, 0, name, "action_param"@) == Map::<Seq<char>, VValue>::empty());
        assert(attrs_upto(fs, 1, name, "action_param"@) == attrs_upto(fs, 0, name, "action_param"@));
    } else {
        lemma_action_attrs(name, params, k - 1);
        let e = params[k - 1];
        assert(fs[k] == VFact { pred: "action_param"@, args: seq![VValue::Str(name), VValue::Str(e.0), e.1] });
        assert(keyed_entry(fs[k], "action_param"@, name) == Some((e.0, e.1)));
        assert(attrs_upto(fs, k + 1, name, "action_param"@) == attrs_upto(fs, k, name, "action_param"@).insert(e.0, e.1));
        assert(params.take(k) =~= params.take(k - 1).push(e));
        assert forall|i: int| 0 <= i < params.take(k - 1).len() implies #[trigger] params.take(k - 1)[i].0 != e.0 by {
            assert(params[i].0 != params[k - 1].0);
        }
        lemma_map_get_absent(params.take(k - 1), e.0);
        assert forall|key: Seq<char>| #![auto] map_get(params.take(k), key) == map_get(params.take(k - 1), key) || key == e.0 by {
            lemma_map_get_push(params.take(k - 1), e, key);
        }
        lemma_map_get_push(params.take(k - 1), e, e.0);
        assert(assoc_map(params.take(k)) =~= assoc_map(params.take(k - 1)).insert(e.0, e.1)) by {
            assert forall|key: Seq<char>| #![auto] assoc_map(params.take(k)).dom().contains(key)
                == assoc_map(params.take(k - 1)).insert(e.0, e.1).dom().contains(key) by {
                lemma_map_get_push(params.take(k - 1), e, key);
            }
            assert forall|key: Seq<char>| #![auto] assoc_map(params.take(k)).dom().contains(key)
                implies assoc_map(params.take(k))[key] == assoc_map(params.take(k - 1)).insert(e.0, e.1)[key] by {
                lemma_map_get_push(params.take(k - 1), e, key);
            }
        }
    }
}

/// Round trip of an action through facts: the facts of an action name it,
/// and the parameters they give back are the action's parameters, as a map
/// (for parameters with distinct keys, in any order).
pub proof fn law_action_roundtrip(name: Seq<char>, params: Seq<(Seq<char>, VValue)>)
    requires
        entry_keys_distinct(params),
    ensures
        first_fact(action_facts(name, params), "action"@, name) == Some(0int),
        attrs_upto(action_facts(name, params), action_facts(name, params).len() as int, name, "action_param"@)
            == assoc_map(params),
{
    let fs = action_facts(name, params);
    assert(fs[0] == VFact { pred: "action"@, args: seq![VValue::Str(name)] });
    assert(has_id(fs[0], name));
    assert(fs.len() == params.len() + 1);
    lemma_action_attrs(name, params, params.len() as int);
    assert(params.take(params.len() as int) =~= params);
}

/// A bound key is one of the keys.
proof fn lemma_map_get_some(m: Seq<(Seq<char>, VValue)>, k: Seq<char>)
    requires
        map_get(m, k) is Some,
    ensures
        exists|j: int| 0 <= j < m.len() && (#[trigger] m[j]).0 == k,
    decreases m.len(),
{
    if m[0].0 != k {
        lemma_map_get_some(m.drop_first(), k);
        let j = choose|j: int| 0 <= j < m.drop_first().len() && (#[trigger] m.drop_first()[j]).0 == k;
        assert(m[j + 1] == m.drop_first()[j]);
    }
}

/// The entries after the first of a list in key order are in key order and
/// do not hold the first key.
proof fn lemma_sorted_tail(s: Seq<(Seq<char>, VValue)>)
    requires
        keys_sorted(s),
        s.len() > 0,
    ensures
        keys_sorted(s.drop_first()),
        map_get(s.drop_first(), s[0].0) is None,
{
    let t = s.drop_first();
    assert forall|i: int, j: int| 0 <= i < j < t.len() implies chars_order(#[trigger] t[i].0, #[trigger] t[j].0) < 0 by {
        assert(t[i] == s[i + 1]);
        assert(t[j] == s[j + 1]);
    }
    assert forall|i: int| 0 <= i < t.len() implies #[trigger] t[i].0 != s[0].0 by {
        assert(t[i] == s[i + 1]);
        assert(chars_order(s[0].0, s[i + 1].0) < 0);
        lemma_chars_order_eq(s[0].0, t[i].0);
    }
    lemma_map_get_absent(t, s[0].0);
}

/// Two attribute lists in key order that bind the same keys to the same
/// values are the same list.
proof fn lemma_sorted_assoc_unique(s1: Seq<(Seq<char>, VValue)>, s2: Seq<(Seq<char>, VValue)>)
    requires
        keys_sorted(s1),
        keys_sorted(s2),
        assoc_map(s1) == assoc_map(s2),
    ensures
        s1 == s2,
    decreases s1.len(),
{
    if s1.len() == 0 || s2.len() == 0 {
        if s1.len() > 0 {
            assert(map_get(s1, s1[0].0) == Some(s1[0].1));
            assert(assoc_map(s1).dom().contains(s1[0].0));
            assert(assoc_map(s2).dom().contains(s1[0].0));
        }
        if s2.len() > 0 {
            assert(map_get(s2, s2[0].0) == Some(s2[0].1));
            assert(assoc_map(s2).dom().contains(s2[0].0));
            assert(assoc_map(s1).dom().contains(s2[0].0));
        }
        assert(s1 =~= s2);
    } else {
        let a = s1[0].0;
        let b = s2[0].0;
        assert(map_get(s1, a) == Some(s1[0].1));
        assert(map_get(s2, b) == Some(s2[0].1));
        assert(assoc_map(s1).dom().contains(a));
        assert(assoc_map(s2).dom().contains(a));
        lemma_map_get_some(s2, a);
        let j2 = choose|j: int| 0 <= j < s2.len() && (#[trigger] s2[j]).0 == a;
        assert(assoc_map(s2).dom().contains(b));
        assert(assoc_map(s1).dom().contains(b));
        lemma_map_get_some(s1, b);
        let j1 = choose|j: int| 0 <= j < s1.len() && (#[trigger] s1[j]).0 == b;
        if a != b {
            assert(j2 != 0);
            assert(j1 != 0);
            assert(chars_order(s2[0].0, s2[j2].0) < 0);
            assert(chars_order(s1[0].0, s1[j1].0) < 0);
            lemma_chars_order_antisym(a, b);
            assert(false);
        }
        assert(assoc_map(s1)[a] == s1[0].1);
        assert(assoc_map(s2)[a] == s2[0].1);
        assert(s1[0] == s2[0]);
        let t1 = s1.drop_first();
        let t2 = s2.drop_first();
        lemma_sorted_tail(s1);
        lemma_sorted_tail(s2);
        assert forall|k: Seq<char>| #[trigger] map_get(t1, k) == map_get(t2, k) by {
            if k != a {
                assert(map_get(s1, k) == map_get(t1, k));
                assert(map_get(s2, k) == map_get(t2, k));
                if map_get(s1, k) is Some {
                    assert(assoc_map(s1).dom().contains(k));
                    assert(assoc_map(s2).dom().contains(k));
                    assert(assoc_map(s1)[k] == assoc_map(s2)[k]);
                    assert(assoc_map(s1)[k] == map_get(s1, k)->0);
                    assert(assoc_map(s2)[k] == map_get(s2, k)->0);
                    assert(map_get(s1, k) == map_get(s2, k));
                } else if map_get(s2, k) is Some {
                    assert(assoc_map(s2).dom().contains(k));
                    assert(assoc_map(s1).dom().contains(k));
                } else {
                    assert(map_get(s1, k) == map_get(s2, k));
                }
            } else {
                assert(map_get(t1, a) is None);
                assert(map_get(t2, b) is None);
            }
        }
        assert(assoc_map(t1) =~= assoc_map(t2));
        lemma_sorted_assoc_unique(t1, t2);
        assert forall|i: int| 0 <= i < s1.len() implies s1[i] == s2[i] by {
            if i > 0 {
                assert(s1[i] == t1[i - 1]);
                assert(s2[i] == t2[i - 1]);
            }
        }
        assert(s1 =~= s2);
    }
}

/// Exact round trip of an action through facts: parameters in key order
/// that bind what the action's facts give are the action's parameters, so
/// rebuilding the action from its facts gives the action back.
pub proof fn law_action_roundtrip_exact(
    name: Seq<char>,
    params: Seq<(Seq<char>, VValue)>,
    other: Seq<(Seq<char>, VValue)>,
)
    requires
        keys_sorted(params),
        keys_sorted(other),
        assoc_map(other) == attrs_upto(action_facts(name, params), action_facts(name, params).len() as int, name, "action_param"@),
    ensures
        other == params,
{
    lemma_sorted_distinct(params);
    law_action_roundtrip(name, params);
    lemma_sorted_assoc_unique(other, params);
}

/// The facts whose first argument is the string `x`, in order.
pub open spec fn about(fs: Seq<VFact>, x: Seq<char>) -> Seq<VFact>
    decreases fs.len(),
{
    if fs.len() == 0 {
        Seq::empty()
    } else if has_id(fs[0], x) {
        seq![fs[0]] + about(fs.drop_first(), x)
    } else {
        about(fs.drop_first(), x)
    }
}

/// The identity fact of an entity.
pub open spec fn identity_fact(e: VEntity, prefix: Seq<char>) -> VFact {
    VFact { pred: prefix, args: seq![VValue::Str(e.id), VValue::Str(e.ty)] }
}

/// The fact linking `id` to a parent.
pub open spec fn link_fact(id: Seq<char>, p: VEntity, prefix: Seq<char>) -> VFact {
    VFact { pred: prefix + "_parent"@, args: seq![VValue::Str(id), VValue::Str(p.id)] }
}

/// The facts linking `id` to each of its parents, in order.
pub open spec fn links(id: Seq<char>, ps: Seq<VEntity>, prefix: Seq<char>) -> Seq<VFact>
    decreases ps.len(),
{
    if ps.len() == 0 {
        Seq::empty()
    } else {
        links(id, ps.drop_last(), prefix).push(link_fact(id, ps.last(), prefix))
    }
}

/// The facts of an entity that name it first: its identity, its attributes
/// and the links to its parents.
pub open spec fn own_facts(e: VEntity, prefix: Seq<char>) -> Seq<VFact> {
    seq![identity_fact(e, prefix)] + entry_facts(e.id, e.attrs, prefix + "_attr"@) + links(e.id, e.parents, prefix)
}

/// The ids of an entity and of all its ancestors.
pub open spec fn tree_ids(e: VEntity) -> Set<Seq<char>>
    decreases e, 0nat,
{
    set![e.id] + trees_ids(e.parents)
}

/// The ids of entities and of all their ancestors.
pub open spec fn trees_ids(s: Seq<VEntity>) -> Set<Seq<char>>
    decreases s, 1nat,
{
    if s.len() == 0 {
        Set::empty()
    } else {
        trees_ids(s.drop_last()) + tree_ids(s.last())
    }
}

/// An entity and its ancestors form a tree with pairwise distinct ids.
pub open spec fn distinct_tree(e: VEntity) -> bool
    decreases e, 0nat,
{
    !trees_ids(e.parents).contains(e.id) && distinct_trees(e.parents)
}

/// Entities whose trees have pairwise distinct ids, none shared between two.
pub open spec fn distinct_trees(s: Seq<VEntity>) -> bool
    decreases s, 1nat,
{
    s.len() == 0 || (distinct_trees(s.drop_last()) && trees_ids(s.drop_last()).disjoint(tree_ids(s.last()))
        && distinct_tree(s.last()))
}

/// Each entity of a tree has exactly its own facts among those naming it.
pub open spec fn placed(fs: Seq<VFact>, e: VEntity, prefix: Seq<char>) -> bool
    decreases e, 0nat,
{
    about(fs, e.id) == own_facts(e, prefix) && placed_all(fs, e.parents, prefix)
}

/// `placed` for each entity of a sequence.
pub open spec fn placed_all(fs: Seq<VFact>, s: Seq<VEntity>, prefix: Seq<char>) -> bool
    decreases s, 1nat,
{
    s.len() == 0 || (placed_all(fs, s.drop_last(), prefix) && placed(fs, s.last(), prefix))
}

/// The parents that facts `g` name for `id`, each rebuilt from `fs`.
pub open spec fn parents_over(fs: Seq<VFact>, g: Seq<VFact>, id: Seq<char>, prefix: Seq<char>, fuel: nat) -> Seq<VShape>
    decreases g.len(),
{
    if g.len() == 0 {
        Seq::empty()
    } else {
        let ps = parents_over(fs, g.drop_last(), id, prefix, fuel);
        match parent_named(g.last(), prefix + "_parent"@, id) {
            Some(pid) => match build(fs, pid, prefix, fuel) {
                Some(p) => ps.push(p),
                None => ps,
            },
            None => ps,
        }
    }
}

/// Whether rebuilding each parent that facts `g` name for `id` ends within `fuel` levels.
pub open spec fn ends_over(fs: Seq<VFact>, g: Seq<VFact>, id: Seq<char>, prefix: Seq<char>, fuel: nat) -> bool
    decreases g.len(),
{
    if g.len() == 0 {
        true
    } else {
        ends_over(fs, g.drop_last(), id, prefix, fuel) && match parent_named(g.last(), prefix + "_parent"@, id) {
            Some(pid) => ends(fs, pid, prefix, fuel),
            None => true,
        }
    }
}

/// The levels of ancestors above an entity.
pub open spec fn depth(e: VEntity) -> nat
    decreases e, 0nat,
{
    if e.parents.len() == 0 {
        0
    } else {
        1 + depths(e.parents)
    }
}

/// The largest depth among entities.
pub open spec fn depths(s: Seq<VEntity>) -> nat
    decreases s, 1nat,
{
    if s.len() == 0 {
        0
    } else {
        let a = depths(s.drop_last());
        let b = depth(s.last());
        if a >= b { a } else { b }
    }
}

proof fn lemma_about_concat(a: Seq<VFact>, b: Seq<VFact>, x: Seq<char>)
    ensures
        about(a + b, x) == about(a, x) + about(b, x),
    decreases a.len(),
{
    if a.len() > 0 {
        assert((a + b).drop_first() =~= a.drop_first() + b);
        assert((a + b)[0] == a[0]);
        lemma_about_concat(a.drop_first(), b, x);
        if has_id(a[0], x) {
            assert(seq![a[0]] + (about(a.drop_first(), x) + about(b, x)) =~= (seq![a[0]] + about(a.drop_first(), x))
                + about(b, x));
        }
    } else {
        assert(a + b =~= b);
        assert(about(a, x) =~= Seq::<VFact>::empty());
        assert(about(a, x) + about(b, x) =~= about(b, x));
    }
}

proof fn lemma_about_one(f: VFact, x: Seq<char>)
    ensures
        about(seq![f], x) == if has_id(f, x) { seq![f] } else { Seq::<VFact>::empty() },
{
    assert(seq![f].drop_first() =~= Seq::<VFact>::empty());
    assert(seq![f][0] == f);
    assert(about(Seq::<VFact>::empty(), x) =~= Seq::<VFact>::empty());
    if has_id(f, x) {
        assert(seq![f] + Seq::<VFact>::empty() =~= seq![f]);
    }
}

proof fn lemma_about_all(fs: Seq<VFact>, x: Seq<char>)
    requires
        forall|i: int| 0 <= i < fs.len() ==> has_id(#[trigger] fs[i], x),
    ensures
        about(fs, x) == fs,
    decreases fs.len(),
{
    if fs.len() > 0 {
        assert forall|i: int| 0 <= i < fs.drop_first().len() implies has_id(#[trigger] fs.drop_first()[i], x) by {
            assert(fs.drop_first()[i] == fs[i + 1]);
        }
        lemma_about_all(fs.drop_first(), x);
        assert(seq![fs[0]] + fs.drop_first() =~= fs);
    }
}

proof fn lemma_about_none(fs: Seq<VFact>, x: Seq<char>)
    requires
        forall|i: int| 0 <= i < fs.len() ==> !has_id(#[trigger] fs[i], x),
    ensures
        about(fs, x) == Seq::<VFact>::empty(),
    decreases fs.len(),
{
    if fs.len() > 0 {
        assert forall|i: int| 0 <= i < fs.drop_first().len() implies !has_id(#[trigger] fs.drop_first()[i], x) by {
            assert(fs.drop_first()[i] == fs[i + 1]);
        }
        lemma_about_none(fs.drop_first(), x);
    }
}

proof fn lemma_links_about(id: Seq<char>, ps: Seq<VEntity>, prefix: Seq<char>, x: Seq<char>)
    ensures
        about(links(id, ps, prefix), x) == if x == id { links(id, ps, prefix) } else { Seq::<VFact>::empty() },
        links(id, ps, prefix).len() == ps.len(),
        forall|i: int| 0 <= i < ps.len() ==> #[trigger] links(id, ps, prefix)[i] == link_fact(id, ps[i], prefix),
    decreases ps.len(),
{
    if ps.len() > 0 {
        lemma_links_about(id, ps.drop_last(), prefix, x);
        let l = links(id, ps.drop_last(), prefix);
        let f = link_fact(id, ps.last(), prefix);
        lemma_about_concat(l, seq![f], x);
        lemma_about_one(f, x);
        assert(l.push(f) =~= l + seq![f]);
        assert forall|i: int| 0 <= i < ps.len() implies #[trigger] links(id, ps, prefix)[i] == link_fact(id, ps[i], prefix) by {
            if i < ps.len() - 1 {
                assert(ps.drop_last()[i] == ps[i]);
            }
        }
        if x != id {
            assert(Seq::<VFact>::empty() + Seq::<VFact>::empty() =~= Seq::<VFact>::empty());
        }
    }
}

proof fn lemma_entries_about(owner: Seq<char>, m: Seq<(Seq<char>, VValue)>, pred: Seq<char>, x: Seq<char>)
    ensures
        about(entry_facts(owner, m, pred), x) == if x == owner { entry_facts(owner, m, pred) } else { Seq::<VFact>::empty() },
{
    let fs = entry_facts(owner, m, pred);
    if x == owner {
        assert forall|i: int| 0 <= i < fs.len() implies has_id(#[trigger] fs[i], x) by {}
        lemma_about_all(fs, x);
    } else {
        assert forall|i: int| 0 <= i < fs.len() implies !has_id(#[trigger] fs[i], x) by {}
        lemma_about_none(fs, x);
    }
}

/// Facts of a tree name only the ids of the tree.
proof fn lemma_tree_about_none(e: VEntity, prefix: Seq<char>, x: Seq<char>)
    requires
        !tree_ids(e).contains(x),
    ensures
        about(entity_facts(e, prefix), x) == Seq::<VFact>::empty(),
    decreases e, 0nat,
{
    let ident = identity_fact(e, prefix);
    let ent = entry_facts(e.id, e.attrs, prefix + "_attr"@);
    assert(entity_facts(e, prefix) == seq![ident] + ent + parents_facts(e.id, e.parents, prefix));
    lemma_about_concat(seq![ident] + ent, parents_facts(e.id, e.parents, prefix), x);
    lemma_about_concat(seq![ident], ent, x);
    lemma_about_one(ident, x);
    lemma_entries_about(e.id, e.attrs, prefix + "_attr"@, x);
    lemma_trees_about_none(e.id, e.parents, prefix, x);
    assert(Seq::<VFact>::empty() + Seq::<VFact>::empty() + Seq::<VFact>::empty() =~= Seq::<VFact>::empty());
}

proof fn lemma_trees_about_none(id: Seq<char>, ps: Seq<VEntity>, prefix: Seq<char>, x: Seq<char>)
    requires
        !trees_ids(ps).contains(x),
        x != id,
    ensures
        about(parents_facts(id, ps, prefix), x) == Seq::<VFact>::empty(),
    decreases ps, 1nat,
{
    if ps.len() > 0 {
        let last = ps.last();
        lemma_trees_about_none(id, ps.drop_last(), prefix, x);
        lemma_tree_about_none(last, prefix, x);
        let a = parents_facts(id, ps.drop_last(), prefix);
        let l = seq![link_fact(id, last, prefix)];
        assert(parents_facts(id, ps, prefix) == a + l + entity_facts(last, prefix));
        lemma_about_concat(a + l, entity_facts(last, prefix), x);
        lemma_about_concat(a, l, x);
        lemma_about_one(link_fact(id, last, prefix), x);
        assert(Seq::<VFact>::empty() + Seq::<VFact>::empty() + Seq::<VFact>::empty() =~= Seq::<VFact>::empty());
    }
}

/// The facts of parents that name their child are the links.
proof fn lemma_parents_about_child(id: Seq<char>, ps: Seq<VEntity>, prefix: Seq<char>)
    requires
        !trees_ids(ps).contains(id),
    ensures
        about(parents_facts(id, ps, prefix), id) == links(id, ps, prefix),
    decreases ps.len(),
{
    if ps.len() > 0 {
        let last = ps.last();
        assert(!trees_ids(ps.drop_last()).contains(id));
        assert(!tree_ids(last).contains(id));
        lemma_parents_about_child(id, ps.drop_last(), prefix);
        lemma_tree_about_none(last, prefix, id);
        let a = parents_facts(id, ps.drop_last(), prefix);
        let l = seq![link_fact(id, last, prefix)];
        assert(parents_facts(id, ps, prefix) == a + l + entity_facts(last, prefix));
        lemma_about_concat(a + l, entity_facts(last, prefix), id);
        lemma_about_concat(a, l, id);
        lemma_about_one(link_fact(id, last, prefix), id);
        assert(links(id, ps.drop_last(), prefix) + l + Seq::<VFact>::empty() =~= links(id, ps, prefix));
    } else {
        assert(links(id, ps, prefix) =~= Seq::<VFact>::empty());
    }
}

/// In facts that hold a tree's facts between facts naming none of its ids,
/// every entity of the tree has exactly its own facts.
proof fn lemma_placed(fs: Seq<VFact>, a: Seq<VFact>, b: Seq<VFact>, e: VEntity, prefix: Seq<char>)
    requires
        fs == a + entity_facts(e, prefix) + b,
        forall|y: Seq<char>| #[trigger] tree_ids(e).contains(y) ==> about(a, y) == Seq::<VFact>::empty() && about(b, y)
            == Seq::<VFact>::empty(),
        distinct_tree(e),
    ensures
        placed(fs, e, prefix),
    decreases e, 0nat,
{
    let ident = identity_fact(e, prefix);
    let ent = entry_facts(e.id, e.attrs, prefix + "_attr"@);
    let pf = parents_facts(e.id, e.parents, prefix);
    assert(entity_facts(e, prefix) == seq![ident] + ent + pf);
    assert(tree_ids(e).contains(e.id));
    lemma_about_concat(a + entity_facts(e, prefix), b, e.id);
    lemma_about_concat(a, entity_facts(e, prefix), e.id);
    lemma_about_concat(seq![ident] + ent, pf, e.id);
    lemma_about_concat(seq![ident], ent, e.id);
    lemma_about_one(ident, e.id);
    lemma_entries_about(e.id, e.attrs, prefix + "_attr"@, e.id);
    lemma_parents_about_child(e.id, e.parents, prefix);
    assert(about(fs, e.id) =~= own_facts(e, prefix));
    assert forall|y: Seq<char>| #[trigger] trees_ids(e.parents).contains(y) implies about(a + seq![ident] + ent, y)
        == Seq::<VFact>::empty() && about(b, y) == Seq::<VFact>::empty() && y != e.id by {
        assert(tree_ids(e).contains(y));
        lemma_about_concat(a + seq![ident], ent, y);
        lemma_about_concat(a, seq![ident], y);
        lemma_about_one(ident, y);
        lemma_entries_about(e.id, e.attrs, prefix + "_attr"@, y);
        assert(Seq::<VFact>::empty() + Seq::<VFact>::empty() + Seq::<VFact>::empty() =~= Seq::<VFact>::empty());
    }
    assert(fs =~= (a + seq![ident] + ent) + pf + b);
    lemma_placed_all(fs, a + seq![ident] + ent, b, e.id, e.parents, prefix);
}

proof fn lemma_placed_all(fs: Seq<VFact>, a: Seq<VFact>, b: Seq<VFact>, id: Seq<char>, ps: Seq<VEntity>, prefix: Seq<char>)
    requires
        fs == a + parents_facts(id, ps, prefix) + b,
        forall|y: Seq<char>| #[trigger] trees_ids(ps).contains(y) ==> about(a, y) == Seq::<VFact>::empty() && about(b, y)
            == Seq::<VFact>::empty() && y != id,
        distinct_trees(ps),
    ensures
        placed_all(fs, ps, prefix),
    decreases ps, 1nat,
{
    if ps.len() > 0 {
        let last = ps.last();
        let pre = ps.drop_last();
        let pa = parents_facts(id, pre, prefix);
        let l = seq![link_fact(id, last, prefix)];
        let el = entity_facts(last, prefix);
        assert(parents_facts(id, ps, prefix) == pa + l + el);
        // the earlier parents
        assert forall|y: Seq<char>| #[trigger] trees_ids(pre).contains(y) implies about(a, y) == Seq::<VFact>::empty()
            && about(l + el + b, y) == Seq::<VFact>::empty() && y != id by {
            assert(trees_ids(ps).contains(y));
            assert(!tree_ids(last).contains(y));
            lemma_about_concat(l + el, b, y);
            lemma_about_concat(l, el, y);
            lemma_about_one(link_fact(id, last, prefix), y);
            lemma_tree_about_none(last, prefix, y);
            assert(Seq::<VFact>::empty() + Seq::<VFact>::empty() + Seq::<VFact>::empty() =~= Seq::<VFact>::empty());
        }
        assert(fs =~= a + pa + (l + el + b));
        lemma_placed_all(fs, a, l + el + b, id, pre, prefix);
        // the last parent
        assert forall|y: Seq<char>| #[trigger] tree_ids(last).contains(y) implies about(a + pa + l, y)
            == Seq::<VFact>::empty() && about(b, y) == Seq::<VFact>::empty() by {
            assert(trees_ids(ps).contains(y));
            assert(!trees_ids(pre).contains(y));
            lemma_about_concat(a + pa, l, y);
            lemma_about_concat(a, pa, y);
            lemma_trees_about_none(id, pre, prefix, y);
            lemma_about_one(link_fact(id, last, prefix), y);
            assert(Seq::<VFact>::empty() + Seq::<VFact>::empty() + Seq::<VFact>::empty() =~= Seq::<VFact>::empty());
        }
        assert(fs =~= (a + pa + l) + el + b);
        lemma_placed(fs, a + pa + l, b, last, prefix);
    }
}

proof fn lemma_first_fact_bounds(fs: Seq<VFact>, p: Seq<char>, x: Seq<char>)
    ensures
        first_fact(fs, p, x) matches Some(i) ==> 0 <= i < fs.len(),
    decreases fs.len(),
{
    if fs.len() > 0 {
        lemma_first_fact_bounds(fs.drop_first(), p, x);
    }
}

proof fn lemma_identity_shift(fs: Seq<VFact>, x: Seq<char>, p: Seq<char>)
    requires
        fs.len() > 0,
        !(fs[0].pred == p && has_id(fs[0], x)),
    ensures
        identity_type(fs, x, p) == identity_type(fs.drop_first(), x, p),
{
    lemma_first_fact_bounds(fs.drop_first(), p, x);
    match first_fact(fs.drop_first(), p, x) {
        Some(i) => {
            assert(first_fact(fs, p, x) == Some(i + 1));
            assert(fs[i + 1] == fs.drop_first()[i]);
        },
        None => {
            assert(first_fact(fs, p, x) is None);
        },
    }
}

/// The identity found for an id is found among the facts naming it.
proof fn lemma_identity_about(fs: Seq<VFact>, x: Seq<char>, p: Seq<char>)
    ensures
        identity_type(fs, x, p) == identity_type(about(fs, x), x, p),
    decreases fs.len(),
{
    if fs.len() > 0 {
        lemma_identity_about(fs.drop_first(), x, p);
        let g = about(fs, x);
        if fs[0].pred == p && has_id(fs[0], x) {
            assert(g[0] == fs[0]);
            assert(first_fact(fs, p, x) == Some(0int));
            assert(first_fact(g, p, x) == Some(0int));
        } else {
            lemma_identity_shift(fs, x, p);
            if has_id(fs[0], x) {
                assert(g[0] == fs[0]);
                lemma_identity_shift(g, x, p);
                assert(g.drop_first() =~= about(fs.drop_first(), x));
            }
        }
    }
}

/// Attributes over a prefix depend only on that prefix.
proof fn lemma_attrs_stable(s: Seq<VFact>, t: Seq<VFact>, j: int, x: Seq<char>, pred: Seq<char>)
    requires
        0 <= j <= s.len(),
        j <= t.len(),
        forall|i: int| 0 <= i < j ==> s[i] == t[i],
    ensures
        attrs_upto(s, j, x, pred) == attrs_upto(t, j, x, pred),
    decreases j,
{
    if j > 0 {
        lemma_attrs_stable(s, t, j - 1, x, pred);
    }
}

/// The attributes found for an id are found among the facts naming it.
proof fn lemma_attrs_about(fs: Seq<VFact>, x: Seq<char>, pred: Seq<char>, k: int)
    requires
        0 <= k <= fs.len(),
    ensures
        attrs_upto(fs, k, x, pred) == attrs_upto(about(fs.take(k), x), about(fs.take(k), x).len() as int, x, pred),
    decreases k,
{
    if k > 0 {
        lemma_attrs_about(fs, x, pred, k - 1);
        let g = about(fs.take(k - 1), x);
        assert(fs.take(k) =~= fs.take(k - 1) + seq![fs[k - 1]]);
        lemma_about_concat(fs.take(k - 1), seq![fs[k - 1]], x);
        lemma_about_one(fs[k - 1], x);
        if has_id(fs[k - 1], x) {
            let g2 = g + seq![fs[k - 1]];
            lemma_attrs_stable(g, g2, g.len() as int, x, pred);
            assert(g2[g.len() as int] == fs[k - 1]);
        } else {
            assert(g + Seq::<VFact>::empty() =~= g);
        }
    } else {
        assert(fs.take(0) =~= Seq::<VFact>::empty());
    }
}

/// Facts that give no attribute to `x` leave its attributes as they were.
proof fn lemma_attrs_tail(g: Seq<VFact>, h: Seq<VFact>, x: Seq<char>, pred: Seq<char>)
    requires
        forall|i: int| 0 <= i < h.len() ==> #[trigger] keyed_entry(h[i], pred, x) is None,
    ensures
        attrs_upto(g + h, (g + h).len() as int, x, pred) == attrs_upto(g, g.len() as int, x, pred),
    decreases h.len(),
{
    if h.len() > 0 {
        let h0 = h.drop_last();
        assert forall|i: int| 0 <= i < h0.len() implies #[trigger] keyed_entry(h0[i], pred, x) is None by {
            assert(h0[i] == h[i]);
        }
        lemma_attrs_tail(g, h0, x, pred);
        lemma_attrs_stable(g + h0, g + h, (g + h0).len() as int, x, pred);
        assert((g + h)[(g + h).len() - 1] == h[h.len() - 1]);
    } else {
        assert(g + h =~= g);
    }
}

/// The parents found for an id are found among the facts naming it.
proof fn lemma_parents_about(fs: Seq<VFact>, x: Seq<char>, prefix: Seq<char>, fuel: nat, k: nat)
    requires
        k <= fs.len(),
    ensures
        parents_upto(fs, k, x, prefix, fuel) == parents_over(fs, about(fs.take(k as int), x), x, prefix, fuel),
        parents_end(fs, k, x, prefix, fuel) == ends_over(fs, about(fs.take(k as int), x), x, prefix, fuel),
    decreases k,
{
    if k > 0 {
        lemma_parents_about(fs, x, prefix, fuel, (k - 1) as nat);
        let g = about(fs.take(k - 1), x);
        assert(fs.take(k as int) =~= fs.take(k - 1) + seq![fs[k - 1]]);
        lemma_about_concat(fs.take(k - 1), seq![fs[k - 1]], x);
        lemma_about_one(fs[k - 1], x);
        if has_id(fs[k - 1], x) {
            let g2 = g + seq![fs[k - 1]];
            assert(g2.drop_last() =~= g);
            assert(g2.last() == fs[k - 1]);
        } else {
            assert(g + Seq::<VFact>::empty() =~= g);
            assert(parent_named(fs[k - 1], prefix + "_parent"@, x) is None);
        }
    } else {
        assert(fs.take(0) =~= Seq::<VFact>::empty());
    }
}

/// Parents over two runs of facts are those over the first, then those over the second.
proof fn lemma_over_concat(fs: Seq<VFact>, g: Seq<VFact>, h: Seq<VFact>, x: Seq<char>, prefix: Seq<char>, fuel: nat)
    ensures
        parents_over(fs, g + h, x, prefix, fuel) == parents_over(fs, g, x, prefix, fuel) + parents_over(fs, h, x, prefix, fuel),
        ends_over(fs, g + h, x, prefix, fuel) == (ends_over(fs, g, x, prefix, fuel) && ends_over(fs, h, x, prefix, fuel)),
    decreases h.len(),
{
    if h.len() > 0 {
        lemma_over_concat(fs, g, h.drop_last(), x, prefix, fuel);
        assert((g + h).drop_last() =~= g + h.drop_last());
        assert((g + h).last() == h.last());
        let a = parents_over(fs, g, x, prefix, fuel);
        let b = parents_over(fs, h.drop_last(), x, prefix, fuel);
        match parent_named(h.last(), prefix + "_parent"@, x) {
            Some(pid) => match build(fs, pid, prefix, fuel) {
                Some(p) => {
                    assert((a + b).push(p) =~= a + b.push(p));
                },
                None => {},
            },
            None => {},
        }
    } else {
        assert(g + h =~= g);
        assert(parents_over(fs, g, x, prefix, fuel) + Seq::<VShape>::empty() =~= parents_over(fs, g, x, prefix, fuel));
    }
}

/// Facts that name no parent give no parents.
proof fn lemma_over_none(fs: Seq<VFact>, g: Seq<VFact>, x: Seq<char>, prefix: Seq<char>, fuel: nat)
    requires
        forall|i: int| 0 <= i < g.len() ==> #[trigger] parent_named(g[i], prefix + "_parent"@, x) is None,
    ensures
        parents_over(fs, g, x, prefix, fuel) == Seq::<VShape>::empty(),
        ends_over(fs, g, x, prefix, fuel),
    decreases g.len(),
{
    if g.len() > 0 {
        let g0 = g.drop_last();
        assert forall|i: int| 0 <= i < g0.len() implies #[trigger] parent_named(g0[i], prefix + "_parent"@, x) is None by {
            assert(g0[i] == g[i]);
        }
        lemma_over_none(fs, g0, x, prefix, fuel);
        assert(parent_named(g[g.len() - 1], prefix + "_parent"@, x) is None);
    }
}

/// The three predicates of an entity's facts differ.
proof fn lemma_preds_differ(prefix: Seq<char>)
    ensures
        prefix != prefix + "_attr"@,
        prefix != prefix + "_parent"@,
        prefix + "_attr"@ != prefix + "_parent"@,
        "_attr"@.len() > 0,
{
    reveal_strlit("_attr");
    reveal_strlit("_parent");
    assert((prefix + "_attr"@).len() == prefix.len() + 5);
    assert((prefix + "_parent"@).len() == prefix.len() + 7);
}

/// An entity's own facts: the identity first, attributes only from the
/// attribute facts, parents only from the links.
proof fn lemma_own_facts(fs: Seq<VFact>, e: VEntity, prefix: Seq<char>, fuel: nat)
    ensures
        identity_type(own_facts(e, prefix), e.id, prefix) == Some(e.ty),
        attrs_upto(own_facts(e, prefix), own_facts(e, prefix).len() as int, e.id, prefix + "_attr"@) == attrs_upto(
            seq![identity_fact(e, prefix)] + entry_facts(e.id, e.attrs, prefix + "_attr"@),
            (seq![identity_fact(e, prefix)] + entry_facts(e.id, e.attrs, prefix + "_attr"@)).len() as int,
            e.id,
            prefix + "_attr"@,
        ),
        parents_over(fs, own_facts(e, prefix), e.id, prefix, fuel) == parents_over(fs, links(e.id, e.parents, prefix), e.id, prefix, fuel),
        ends_over(fs, own_facts(e, prefix), e.id, prefix, fuel) == ends_over(fs, links(e.id, e.parents, prefix), e.id, prefix, fuel),
{
    lemma_preds_differ(prefix);
    let ident = identity_fact(e, prefix);
    let head = seq![ident] + entry_facts(e.id, e.attrs, prefix + "_attr"@);
    let l = links(e.id, e.parents, prefix);
    let own = own_facts(e, prefix);
    assert(own[0] == ident);
    assert(first_fact(own, prefix, e.id) == Some(0int));
    lemma_links_about(e.id, e.parents, prefix, e.id);
    assert forall|i: int| 0 <= i < l.len() implies #[trigger] keyed_entry(l[i], prefix + "_attr"@, e.id) is None by {
        assert(l[i] == link_fact(e.id, e.parents[i], prefix));
    }
    lemma_attrs_tail(head, l, e.id, prefix + "_attr"@);
    assert forall|i: int| 0 <= i < head.len() implies #[trigger] parent_named(head[i], prefix + "_parent"@, e.id) is None by {
        if i > 0 {
            assert(head[i] == entry_facts(e.id, e.attrs, prefix + "_attr"@)[i - 1]);
        }
    }
    lemma_over_none(fs, head, e.id, prefix, fuel);
    lemma_over_concat(fs, head, l, e.id, prefix, fuel);
    assert(Seq::<VShape>::empty() + parents_over(fs, l, e.id, prefix, fuel) =~= parents_over(fs, l, e.id, prefix, fuel));
}

/// Rebuilding an entity whose facts are placed gives its shape, where the
/// rebuilding ends.
proof fn lemma_build(fs: Seq<VFact>, e: VEntity, prefix: Seq<char>, n: nat)
    requires
        placed(fs, e, prefix),
        all_keys_distinct(e),
        ends(fs, e.id, prefix, n),
    ensures
        build(fs, e.id, prefix, n) == Some(shape_of(e)),
    decreases e, 0nat,
{
    let own = own_facts(e, prefix);
    lemma_own_facts(fs, e, prefix, (n - 1) as nat);
    lemma_identity_about(fs, e.id, prefix);
    assert(fs.take(fs.len() as int) =~= fs);
    assert(identity_type(fs, e.id, prefix) == Some(e.ty));
    lemma_parents_about(fs, e.id, prefix, (n - 1) as nat, fs.len() as nat);
    lemma_attrs_about(fs, e.id, prefix + "_attr"@, fs.len() as int);
    lemma_preds_differ(prefix);
    lemma_attrs_of_entries(e, prefix, seq![identity_fact(e, prefix)] + entry_facts(e.id, e.attrs, prefix + "_attr"@));
    lemma_links_ends(fs, e.id, e.parents, prefix, (n - 1) as nat);
    lemma_build_all(fs, e.id, e.parents, prefix, (n - 1) as nat);
}

/// Rebuilding the parents that links name gives their shapes.
proof fn lemma_build_all(fs: Seq<VFact>, id: Seq<char>, ps: Seq<VEntity>, prefix: Seq<char>, n: nat)
    requires
        placed_all(fs, ps, prefix),
        all_keys_distinct_seq(ps),
        forall|i: int| 0 <= i < ps.len() ==> ends(fs, (#[trigger] ps[i]).id, prefix, n),
    ensures
        parents_over(fs, links(id, ps, prefix), id, prefix, n) == shapes_of(ps),
    decreases ps, 1nat,
{
    if ps.len() > 0 {
        let pre = ps.drop_last();
        let last = ps.last();
        assert forall|i: int| 0 <= i < pre.len() implies ends(fs, (#[trigger] pre[i]).id, prefix, n) by {
            assert(pre[i] == ps[i]);
        }
        lemma_build_all(fs, id, pre, prefix, n);
        assert(ends(fs, ps[ps.len() - 1].id, prefix, n));
        lemma_build(fs, last, prefix, n);
        let l = links(id, ps, prefix);
        assert(l.drop_last() =~= links(id, pre, prefix));
        lemma_preds_differ(prefix);
        assert(parent_named(l.last(), prefix + "_parent"@, id) == Some(last.id));
    }
}

/// What the links of an entity say of ending, each parent's ending.
proof fn lemma_links_ends(fs: Seq<VFact>, id: Seq<char>, ps: Seq<VEntity>, prefix: Seq<char>, n: nat)
    ensures
        ends_over(fs, links(id, ps, prefix), id, prefix, n) <==> forall|i: int| 0 <= i < ps.len() ==> ends(fs, (#[trigger] ps[i]).id, prefix, n),
    decreases ps.len(),
{
    if ps.len() > 0 {
        let pre = ps.drop_last();
        lemma_links_ends(fs, id, pre, prefix, n);
        let l = links(id, ps, prefix);
        assert(l.drop_last() =~= links(id, pre, prefix));
        lemma_preds_differ(prefix);
        assert(parent_named(l.last(), prefix + "_parent"@, id) == Some(ps.last().id));
        if forall|i: int| 0 <= i < ps.len() ==> ends(fs, (#[trigger] ps[i]).id, prefix, n) {
            assert forall|i: int| 0 <= i < pre.len() implies ends(fs, (#[trigger] pre[i]).id, prefix, n) by {
                assert(pre[i] == ps[i]);
            }
            assert(ends(fs, ps[ps.len() - 1].id, prefix, n));
        }
        if ends_over(fs, l, id, prefix, n) {
            assert forall|i: int| 0 <= i < ps.len() implies ends(fs, (#[trigger] ps[i]).id, prefix, n) by {
                if i < ps.len() - 1 {
                    assert(pre[i] == ps[i]);
                }
            }
        }
    }
}

/// Rebuilding an entity whose facts are placed ends within one level more
/// than its ancestors reach.
proof fn lemma_ends(fs: Seq<VFact>, e: VEntity, prefix: Seq<char>, n: nat)
    requires
        placed(fs, e, prefix),
        n > depth(e),
    ensures
        ends(fs, e.id, prefix, n),
    decreases e, 0nat,
{
    lemma_own_facts(fs, e, prefix, (n - 1) as nat);
    lemma_identity_about(fs, e.id, prefix);
    assert(fs.take(fs.len() as int) =~= fs);
    lemma_parents_about(fs, e.id, prefix, (n - 1) as nat, fs.len() as nat);
    lemma_ends_all(fs, e.parents, prefix, (n - 1) as nat);
    lemma_links_ends(fs, e.id, e.parents, prefix, (n - 1) as nat);
}

proof fn lemma_ends_all(fs: Seq<VFact>, ps: Seq<VEntity>, prefix: Seq<char>, m: nat)
    requires
        placed_all(fs, ps, prefix),
        ps.len() > 0 ==> m > depths(ps),
    ensures
        forall|i: int| 0 <= i < ps.len() ==> ends(fs, (#[trigger] ps[i]).id, prefix, m),
    decreases ps, 1nat,
{
    if ps.len() > 0 {
        let pre = ps.drop_last();
        lemma_ends_all(fs, pre, prefix, m);
        lemma_ends(fs, ps.last(), prefix, m);
        assert forall|i: int| 0 <= i < ps.len() implies ends(fs, (#[trigger] ps[i]).id, prefix, m) by {
            if i < ps.len() - 1 {
                assert(pre[i] == ps[i]);
            }
        }
    }
}

/// Round trip of an entity through facts: rebuilding an entity from the
/// facts that describe it ends, and gives back its type, its id, its
/// attributes and, in order and recursively, its parents, when the entity
/// and its ancestors form a tree with pairwise distinct ids and no attribute
/// key occurs twice in an entity.
pub proof fn law_entity_roundtrip(e: VEntity, prefix: Seq<char>)
    requires
        distinct_tree(e),
        all_keys_distinct(e),
    ensures
        exists|n: nat| ends(entity_facts(e, prefix), e.id, prefix, n),
        rebuild(entity_facts(e, prefix), e.id, prefix) == Some(shape_of(e)),
{
    let fs = entity_facts(e, prefix);
    let empty = Seq::<VFact>::empty();
    assert(fs =~= empty + fs + empty);
    lemma_placed(fs, empty, empty, e, prefix);
    lemma_ends(fs, e, prefix, depth(e) + 1);
    let n = choose|n: nat| ends(fs, e.id, prefix, n);
    lemma_build(fs, e, prefix, n);
}

} // verus!
