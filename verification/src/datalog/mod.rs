//! Datalog: terms, atoms, rules, unification, relation backends, lattices,
//! provenance, semi-naive evaluation, magic sets and leapfrog joins; and the
//! engine that answers requests from derived facts.
pub mod types;
pub mod unification;
pub mod backends;
pub mod order;
pub mod lattice;
pub mod diagnostics;
pub mod bridge;
pub mod incremental;
pub mod aggregation;
pub mod provenance;
pub mod evaluation;
pub mod wcoj;
pub mod semi_naive;
pub mod fixpoint;

use vstd::prelude::*;
use std::sync::Arc;
use crate::datalog::types::{Rule, VRule, render_rule, rules_clone};
use crate::datalog::evaluation::{Evaluator, evaluate_spec};
use crate::engine::{AuthorizationResult, Decision, VResult};
use crate::engine::strings_view;
use crate::error::RUNEError;
use crate::facts::{Fact, FactStore, VFact, facts_view, clock_nanos, share};
use crate::request::Request;
use crate::types::{Value, VValue, values_view};
use crate::text::{models, owned, u64_to_string, decimal};
use crate::debug_text::{values_debug, list_text};

verus! {

broadcast use vstd::std_specs::vec::group_vec_axioms;

/// How a derived fact is listed among the facts used: `pred(args)`.
pub open spec fn fact_used_text(f: VFact) -> Seq<char> {
    f.pred + "("@ + list_text(f.args) + ")"@
}

/// The explanation of a Datalog evaluation.
pub open spec fn datalog_explanation(iterations: nat, derived: nat) -> Seq<char> {
    "Datalog evaluation completed in "@ + decimal(iterations) + " iterations, derived "@ + decimal(derived)
        + " facts"@
}

/// The answer of the Datalog side for rules over a store: permit when
/// evaluation derives any fact, deny otherwise; the explanation gives the
/// rounds and the number of facts, the evaluated rules are the rules
/// rendered, the facts used are the derived facts as `pred(args)`.
pub open spec fn datalog_model(rules: Seq<VRule>, store: Seq<VFact>, evaluation_time_ns: u64) -> VResult {
    let (derived, rounds) = evaluate_spec(rules, store);
    VResult {
        decision: if derived.len() == 0 { Decision::Deny } else { Decision::Permit },
        explanation: datalog_explanation(rounds, derived.len()),
        evaluated_rules: rules.map_values(|r: VRule| render_rule(r)),
        facts_used: derived.map_values(|f: VFact| fact_used_text(f)),
        evaluation_time_ns,
        cached: false,
    }
}

/// Datalog evaluation engine: rules over a fact store.
pub struct DatalogEngine {
    rules: Arc<Vec<Rule>>,
    fact_store: Arc<FactStore>,
}

/// Model of a Datalog engine.
pub struct VDatalogEngine {
    /// Its rules
    pub rules: Seq<VRule>,
    /// The facts of its store
    pub store: Seq<VFact>,
}

impl View for DatalogEngine {
    type V = VDatalogEngine;

    closed spec fn view(&self) -> VDatalogEngine {
        VDatalogEngine { rules: models((*self.rules)@), store: (*self.fact_store)@.facts }
    }
}

impl DatalogEngine {
    /// An engine with rules over a store.
    pub fn new(rules: Vec<Rule>, fact_store: Arc<FactStore>) -> (r: Self)
        ensures
            r@ == (VDatalogEngine { rules: models(rules@), store: (*fact_store)@.facts }),
    {
        DatalogEngine { rules: Arc::new(rules), fact_store }
    }

    /// An engine without rules.
    pub fn empty(fact_store: Arc<FactStore>) -> (r: Self)
        ensures
            r@ == (VDatalogEngine { rules: Seq::empty(), store: (*fact_store)@.facts }),
    {
        let v: Vec<Rule> = Vec::new();
        assert(models(v@) =~= Seq::<VRule>::empty());
        Self::new(v, fact_store)
    }

    /// Answer a request from the facts the rules derive over the store.
    pub fn evaluate(&self, _request: &Request, _facts: &FactStore) -> (r: Result<AuthorizationResult, RUNEError>)
        requires
            self@.rules.len() < usize::MAX - 10002,
        ensures
            r matches Ok(res) && res@ == datalog_model(self@.rules, self@.store, res.evaluation_time_ns),
    {
        let start = clock_nanos();
        let rules = rules_clone(&*self.rules);
        assert(models(rules@) =~= self@.rules);
        let evaluator = Evaluator::new(rules, share(&self.fact_store));
        let result = evaluator.evaluate();
        let decision = if result.facts.len() == 0 { Decision::Deny } else { Decision::Permit };
        let mut explanation = owned("Datalog evaluation completed in ");
        let its = u64_to_string(result.iterations as u64);
        explanation.append(its.as_str());
        explanation.append(" iterations, derived ");
        let n = u64_to_string(result.facts.len() as u64);
        explanation.append(n.as_str());
        explanation.append(" facts");
        let mut evaluated_rules: Vec<String> = Vec::new();
        let mut i: usize = 0;
        while i < self.rules.len()
            invariant
                i <= (*self.rules)@.len(),
                evaluated_rules@.len() == i,
                forall|j: int| 0 <= j < i ==> #[trigger] evaluated_rules@[j]@ == render_rule((*self.rules)@[j]@),
            decreases self.rules.len() - i,
        {
            evaluated_rules.push(self.rules[i].render());
            i = i + 1;
        }
        assert(strings_view(evaluated_rules@) =~= self@.rules.map_values(|r: VRule| render_rule(r)));
        let mut facts_used: Vec<String> = Vec::new();
        let mut k: usize = 0;
        while k < result.facts.len()
            invariant
                k <= result.facts@.len(),
                facts_used@.len() == k,
                forall|j: int| 0 <= j < k ==> #[trigger] facts_used@[j]@ == fact_used_text(result.facts@[j]@),
            decreases result.facts.len() - k,
        {
            let f = &result.facts[k];
            let mut line = f.predicate.clone();
            line.append("(");
            let args = values_debug(&f.args);
            line.append(args.as_str());
            line.append(")");
            facts_used.push(line);
            k = k + 1;
        }
        assert(strings_view(facts_used@) =~= facts_view(result.facts@).map_values(|f: VFact| fact_used_text(f)));
        let now = clock_nanos();
        Ok(AuthorizationResult {
            decision,
            explanation,
            evaluated_rules,
            facts_used,
            evaluation_time_ns: if now >= start { now - start } else { 0 },
            cached: false,
        })
    }

    /// Replace the rules.
    pub fn update_rules(&mut self, rules: Vec<Rule>)
        ensures
            final(self)@ == (VDatalogEngine { rules: models(rules@), store: old(self)@.store }),
    {
        self.rules = Arc::new(rules);
    }

    /// The current rules.
    pub fn rules(&self) -> (r: &[Rule])
        ensures
            models(r@) == self@.rules,
    {
        self.rules.as_slice()
    }

    /// The facts evaluation derives.
    pub fn derive_facts(&self) -> (r: Result<Vec<Fact>, RUNEError>)
        requires
            self@.rules.len() < usize::MAX - 10002,
        ensures
            r matches Ok(fs) && facts_view(fs@) == evaluate_spec(self@.rules, self@.store).0,
    {
        let rules = rules_clone(&*self.rules);
        assert(models(rules@) =~= self@.rules);
        let evaluator = Evaluator::new(rules, share(&self.fact_store));
        let result = evaluator.evaluate();
        Ok(result.facts)
    }
}

} // verus!
pub mod magic_sets;
