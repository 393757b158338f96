//! The Cedar types the policy set holds, and the calls into `cedar_policy`
//! that parse policies, build requests and entities, and authorize.
use vstd::prelude::*;
use cedar_policy::PolicySet as CedarPolicySet;
use cedar_policy::Policy as CedarPolicy;
use cedar_policy::Authorizer as CedarAuthorizer;
use cedar_policy::EntityUid as CedarUid;
use cedar_policy::Entity as CedarEntity;
use cedar_policy::Entities as CedarEntities;
use cedar_policy::Request as CedarRequest;

verus! {

/// A declaration of Cedar's policy set.
#[verifier::external_type_specification]
#[verifier::external_body]
pub struct ExCedarPolicySet(CedarPolicySet);

/// A declaration of Cedar's policy.
#[verifier::external_type_specification]
#[verifier::external_body]
pub struct ExCedarPolicy(CedarPolicy);

/// A declaration of Cedar's authorizer.
#[verifier::external_type_specification]
#[verifier::external_body]
pub struct ExCedarAuthorizer(CedarAuthorizer);

/// A declaration of Cedar's entity identifier.
#[verifier::external_type_specification]
#[verifier::external_body]
pub struct ExCedarUid(CedarUid);

/// A declaration of Cedar's entity.
#[verifier::external_type_specification]
#[verifier::external_body]
pub struct ExCedarEntity(CedarEntity);

/// A declaration of Cedar's entity store.
#[verifier::external_type_specification]
#[verifier::external_body]
pub struct ExCedarEntities(CedarEntities);

/// A declaration of Cedar's request.
#[verifier::external_type_specification]
#[verifier::external_body]
pub struct ExCedarRequest(CedarRequest);

/// The ids of the policies a Cedar policy set holds.
pub uninterp spec fn policy_ids(set: CedarPolicySet) -> Set<Seq<char>>;

/// The ids of the templates with slots a Cedar policy set holds.
pub uninterp spec fn template_ids(set: CedarPolicySet) -> Set<Seq<char>>;

/// The ids of the template-linked policies a Cedar policy set holds (a part
/// of `policy_ids`).
pub uninterp spec fn linked_ids(set: CedarPolicySet) -> Set<Seq<char>>;

/// A request's three identifiers by key: principal, action, resource.
pub type RequestKeys = ((Seq<char>, Seq<char>), (Seq<char>, Seq<char>), (Seq<char>, Seq<char>));

/// An entity store's entries: the key of each entity and its parents' keys.
pub type StoreEntries = Seq<((Seq<char>, Seq<char>), Seq<(Seq<char>, Seq<char>)>)>;

/// What Cedar's authorizer answers for a policy set, a request without
/// context and an entity store without attributes: whether it allows, the
/// ids of the policies behind the decision, and the messages of the errors
/// met (the last two as sets: Cedar gathers them in no fixed order).
pub uninterp spec fn cedar_answer(
    policies: CedarPolicySet,
    request: ((Seq<char>, Seq<char>), (Seq<char>, Seq<char>), (Seq<char>, Seq<char>)),
    entities: Seq<((Seq<char>, Seq<char>), Seq<(Seq<char>, Seq<char>)>)>,
) -> (bool, Set<Seq<char>>, Set<Seq<char>>);

/// What Cedar makes of a text parsed as a policy set: the ids of its
/// policies, or the error's message.
pub uninterp spec fn policy_set_parse(text: Seq<char>) -> Result<Set<Seq<char>>, Seq<char>>;

/// What Cedar's authorizer answers, as its source shows it: with no
/// policies, `Deny` with no reasons and no errors; `Allow` only with a
/// satisfied permit among the reasons; every reason the id of a policy of
/// the set.
pub open spec fn cedar_consistent(ids: Set<Seq<char>>, allow: bool, reasons: Seq<Seq<char>>, errors: Seq<Seq<char>>) -> bool {
    &&& ids == Set::<Seq<char>>::empty() ==> !allow && reasons.len() == 0 && errors.len() == 0
    &&& allow ==> reasons.len() > 0
    &&& forall|i: int| 0 <= i < reasons.len() ==> ids.contains(#[trigger] reasons[i])
}

/// The message of the error Cedar gives when parsing a text as one policy,
/// or `None` where the text parses.
pub uninterp spec fn policy_parse_error(text: Seq<char>) -> Option<Seq<char>>;

/// The message of the error Cedar gives when parsing a text as an entity type
/// name, or `None` where the text is one.
pub uninterp spec fn type_name_error(text: Seq<char>) -> Option<Seq<char>>;

/// `PolicySet::from_str`: the policy set, or the error's message.
#[verifier::external_body]
pub(crate) fn parse_policy_set(text: &str) -> (r: Result<CedarPolicySet, String>)
    ensures
        match r {
            Ok(s) => policy_set_parse(text@) == Ok::<Set<Seq<char>>, Seq<char>>(policy_ids(s)) && policy_ids(s).finite()
                && linked_ids(s) == Set::<Seq<char>>::empty(),
            Err(m) => policy_set_parse(text@) == Err::<Set<Seq<char>>, Seq<char>>(m@),
        },
{
    text.parse::<CedarPolicySet>().map_err(|e| e.to_string())
}

/// A Cedar policy with its id and whether it is static.
pub struct KeyedPolicy {
    policy: CedarPolicy,
    id: String,
    is_static: bool,
}

impl KeyedPolicy {
    /// The policy's id.
    pub closed spec fn pid(&self) -> Seq<char> {
        self.id@
    }

    /// Whether the policy is static (not linked to a template).
    pub closed spec fn static_policy(&self) -> bool {
        self.is_static
    }
}

/// The ids of policies.
pub open spec fn pids(ps: Seq<KeyedPolicy>) -> Set<Seq<char>> {
    ps.map_values(|p: KeyedPolicy| p.pid()).to_set()
}

/// `Policy::parse(None, text)`: the policy, or the error's message. Cedar
/// documents that a policy parsed without an id gets the id `policy0`, and
/// this function parses static policies only.
#[verifier::external_body]
pub(crate) fn parse_policy(text: &str) -> (r: Result<KeyedPolicy, String>)
    ensures
        match r {
            Ok(p) => policy_parse_error(text@) is None && p.pid() == "policy0"@ && p.static_policy(),
            Err(m) => policy_parse_error(text@) == Some(m@),
        },
{
    CedarPolicy::parse(None, text).map(|p| KeyedPolicy { id: p.id().to_string(), is_static: p.is_static(), policy: p }).map_err(|e| e.to_string())
}

/// `PolicySet::new`: an empty policy set.
#[verifier::external_body]
pub(crate) fn empty_policy_set() -> (r: CedarPolicySet)
    ensures
        policy_ids(r) == Set::<Seq<char>>::empty(),
        template_ids(r) == Set::<Seq<char>>::empty(),
        linked_ids(r) == Set::<Seq<char>>::empty(),
{
    CedarPolicySet::new()
}

/// `PolicySet::add`: Cedar checks everything before it changes the set, and
/// refuses a template-linked policy and an id that a policy or a template
/// of the set already has; otherwise the static policy joins the set under
/// its id. The error's message is left unsaid.
#[verifier::external_body]
pub(crate) fn policy_set_add(set: &mut CedarPolicySet, policy: KeyedPolicy) -> (r: Result<(), String>)
    ensures
        r is Ok <==> policy.static_policy() && !policy_ids(*old(set)).contains(policy.pid()) && !template_ids(
            *old(set),
        ).contains(policy.pid()),
        r is Ok ==> policy_ids(*final(set)) == policy_ids(*old(set)).insert(policy.pid()) && template_ids(*final(set))
            == template_ids(*old(set)) && linked_ids(*final(set)) == linked_ids(*old(set)),
        r is Err ==> policy_ids(*final(set)) == policy_ids(*old(set)) && template_ids(*final(set)) == template_ids(
            *old(set),
        ) && linked_ids(*final(set)) == linked_ids(*old(set)),
{
    set.add(policy.policy).map_err(|e| e.to_string())
}

/// `PolicySet::policies`, each cloned with its id and whether it is static:
/// one per id of the set, no id twice.
#[verifier::external_body]
pub(crate) fn policies_of(set: &CedarPolicySet) -> (r: Vec<KeyedPolicy>)
    ensures
        pids(r@) == policy_ids(*set),
        forall|i: int, j: int| 0 <= i < j < r@.len() ==> (#[trigger] r@[i]).pid() != (#[trigger] r@[j]).pid(),
        forall|i: int| 0 <= i < r@.len() ==> ((#[trigger] r@[i]).static_policy() <==> !linked_ids(*set).contains(r@[i].pid())),
{
    set.policies().map(|p| KeyedPolicy { id: p.id().to_string(), is_static: p.is_static(), policy: p.clone() }).collect()
}

/// `Authorizer::new`.
#[verifier::external_body]
pub(crate) fn new_authorizer() -> CedarAuthorizer {
    CedarAuthorizer::new()
}

/// A Cedar entity identifier with the type name and id it was made from.
/// Cedar accepts only normalized type names and takes ids as they are, so
/// two identifiers are equal exactly when their keys are.
pub struct KeyedUid {
    uid: CedarUid,
    ty: String,
    id: String,
}

impl KeyedUid {
    /// The type name and the id.
    pub closed spec fn key(&self) -> (Seq<char>, Seq<char>) {
        (self.ty@, self.id@)
    }
}

/// A Cedar entity with the key of its identifier and those of its parents.
pub struct KeyedEntity {
    entity: CedarEntity,
    ty: String,
    id: String,
    parents: Vec<(String, String)>,
}

impl KeyedEntity {
    /// The key of the entity's identifier.
    pub closed spec fn key(&self) -> (Seq<char>, Seq<char>) {
        (self.ty@, self.id@)
    }

    /// The keys of its parents, in order.
    pub closed spec fn parent_keys(&self) -> Seq<(Seq<char>, Seq<char>)> {
        self.parents@.map_values(|p: (String, String)| (p.0@, p.1@))
    }
}

/// The keys of identifiers, in order.
pub open spec fn uid_keys(us: Seq<KeyedUid>) -> Seq<(Seq<char>, Seq<char>)> {
    us.map_values(|u: KeyedUid| u.key())
}

/// An entity store's entries: the key of each entity and its parents' keys.
pub open spec fn store_entries(es: Seq<KeyedEntity>) -> Seq<((Seq<char>, Seq<char>), Seq<(Seq<char>, Seq<char>)>)> {
    es.map_values(|e: KeyedEntity| (e.key(), e.parent_keys()))
}

/// Entity `j` is a parent of entity `i`.
pub open spec fn parent_of(ents: Seq<((Seq<char>, Seq<char>), Seq<(Seq<char>, Seq<char>)>)>, i: int, j: int) -> bool {
    0 <= i < ents.len() && 0 <= j < ents.len() && ents[i].1.contains(ents[j].0)
}

/// Entity `j` is reached from entity `i` by parent links through entities
/// of the store, in at most `n + 1` links.
pub open spec fn reaches(ents: Seq<((Seq<char>, Seq<char>), Seq<(Seq<char>, Seq<char>)>)>, i: int, j: int, n: nat) -> bool
    decreases n,
{
    parent_of(ents, i, j) || (n > 0 && exists|k: int| #[trigger] parent_of(ents, i, k) && reaches(ents, k, j, (n - 1) as nat))
}

/// Whether Cedar's entity store accepts entities: no two with one
/// identifier, and none its own ancestor through the store's parent links.
pub open spec fn store_ok(ents: Seq<((Seq<char>, Seq<char>), Seq<(Seq<char>, Seq<char>)>)>) -> bool {
    &&& forall|i: int, j: int| 0 <= i < j < ents.len() ==> #[trigger] ents[i].0 != #[trigger] ents[j].0
    &&& forall|i: int| 0 <= i < ents.len() ==> !#[trigger] reaches(ents, i, i, ents.len())
}

/// `EntityUid::from_type_name_and_id` over `EntityTypeName::from_str` and
/// `EntityId::from_str` (which cannot fail): the identifier with its key, or
/// the type name's parse error message.
#[verifier::external_body]
pub(crate) fn entity_uid(type_text: &str, id: &str) -> (r: Result<KeyedUid, String>)
    ensures
        match r {
            Ok(u) => type_name_error(type_text@) is None && u.key() == (type_text@, id@),
            Err(m) => type_name_error(type_text@) == Some(m@),
        },
{
    let t = <cedar_policy::EntityTypeName as std::str::FromStr>::from_str(type_text).map_err(|e| e.to_string())?;
    let i = <cedar_policy::EntityId as std::str::FromStr>::from_str(id).map_err(|e| e.to_string())?;
    Ok(KeyedUid { uid: CedarUid::from_type_name_and_id(t, i), ty: type_text.to_string(), id: id.to_string() })
}

/// A Cedar request with the keys of its three identifiers.
pub struct KeyedRequest {
    request: CedarRequest,
    principal: (String, String),
    action: (String, String),
    resource: (String, String),
}

impl KeyedRequest {
    /// The keys of the principal, the action and the resource.
    pub closed spec fn keys(&self) -> RequestKeys {
        (
            (self.principal.0@, self.principal.1@),
            (self.action.0@, self.action.1@),
            (self.resource.0@, self.resource.1@),
        )
    }
}

/// `Request::new` with the three identifiers, an empty context and no
/// schema: the request, or the error's message.
/// Without a schema `Request::new` validates nothing, so this succeeds.
#[verifier::external_body]
pub(crate) fn cedar_request(principal: KeyedUid, action: KeyedUid, resource: KeyedUid) -> (r: Result<KeyedRequest, String>)
    ensures
        r is Ok,
        r matches Ok(q) ==> q.keys() == (principal.key(), action.key(), resource.key()),
{
    let keys = ((principal.ty, principal.id), (action.ty, action.id), (resource.ty, resource.id));
    let context = cedar_policy::Context::empty();
    CedarRequest::new(Some(principal.uid), Some(action.uid), Some(resource.uid), context, None)
        .map(|request| KeyedRequest { request, principal: keys.0, action: keys.1, resource: keys.2 })
        .map_err(|e| e.to_string())
}

/// `Entity::new` with no attributes: Cedar documents attributes as the only
/// source of its errors, so this succeeds; the entity keeps its key and its
/// parents' keys.
#[verifier::external_body]
pub(crate) fn cedar_entity(uid: KeyedUid, parents: Vec<KeyedUid>) -> (r: Result<KeyedEntity, String>)
    ensures
        r is Ok,
        r matches Ok(e) ==> e.key() == uid.key() && e.parent_keys() == uid_keys(parents@),
{
    let keys: Vec<(String, String)> = parents.iter().map(|p| (p.ty.clone(), p.id.clone())).collect();
    let uids: std::collections::HashSet<CedarUid> = parents.into_iter().map(|p| p.uid).collect();
    CedarEntity::new(uid.uid, std::collections::HashMap::new(), uids)
        .map(|entity| KeyedEntity { entity, ty: uid.ty, id: uid.id, parents: keys })
        .map_err(|e| e.to_string())
}

/// A Cedar entity store with the entries it was made from.
pub struct KeyedEntities {
    store: CedarEntities,
    entries: Vec<((String, String), Vec<(String, String)>)>,
}

impl KeyedEntities {
    /// The key of each entity and its parents' keys.
    pub closed spec fn entries(&self) -> StoreEntries {
        self.entries@.map_values(
            |e: ((String, String), Vec<(String, String)>)|
                ((e.0.0@, e.0.1@), e.1@.map_values(|p: (String, String)| (p.0@, p.1@))),
        )
    }
}

/// `Entities::from_entities` with no schema: the store with its entries, or
/// the error's message. Cedar refuses exactly two entities with one
/// identifier, and an entity that is its own ancestor (`create_entity_map`,
/// `compute_tc`).
#[verifier::external_body]
pub(crate) fn cedar_entities(entities: Vec<KeyedEntity>) -> (r: Result<KeyedEntities, String>)
    ensures
        r matches Ok(_) <==> store_ok(store_entries(entities@)),
        r matches Ok(s) ==> s.entries() == store_entries(entities@),
{
    let entries = entities.iter().map(|e| ((e.ty.clone(), e.id.clone()), e.parents.clone())).collect();
    CedarEntities::from_entities(entities.into_iter().map(|e| e.entity), None)
        .map(|store| KeyedEntities { store, entries })
        .map_err(|e| e.to_string())
}

/// `Authorizer::is_authorized`: whether the decision is `Allow`, the ids of
/// the policies behind it, and the messages of the errors met. Cedar's
/// answer depends only on the policy set, the request and the entity store:
/// it is `cedar_answer` of them (the reasons come from a hash set, so only
/// the set of them is named). Cedar's source shows besides that with no
/// policies the answer is `Deny` with no reasons and no errors, that `Allow`
/// comes only with a satisfied permit among the reasons, and that every
/// reason is a policy of the set (`cedar_consistent`).
#[verifier::external_body]
pub(crate) fn is_authorized(
    authorizer: &CedarAuthorizer,
    request: &KeyedRequest,
    policies: &CedarPolicySet,
    entities: &KeyedEntities,
) -> (r: (bool, Vec<String>, Vec<String>))
    ensures
        cedar_consistent(policy_ids(*policies), r.0, crate::engine::strings_view(r.1@), crate::engine::strings_view(r.2@)),
        r.0 == cedar_answer(*policies, request.keys(), entities.entries()).0,
        crate::engine::strings_view(r.1@).to_set() == cedar_answer(*policies, request.keys(), entities.entries()).1,
        crate::engine::strings_view(r.2@).to_set() == cedar_answer(*policies, request.keys(), entities.entries()).2,
{
    let response = authorizer.is_authorized(&request.request, policies, &entities.store);
    let allow = response.decision() == cedar_policy::Decision::Allow;
    let reasons = response.diagnostics().reason().map(|p| p.to_string()).collect();
    let errors = response.diagnostics().errors().map(|e| e.to_string()).collect();
    (allow, reasons, errors)
}

} // verus!
