//! The provisioning orchestrator: the decision part of realizing a create
//! request. It inserts the record (the registry assigns the id), derives
//! the deterministic instance name, assembles the variable mapping, and
//! renders the configuration template. The container-runtime call itself
//! and the disk write are the surrounding service's work; their outcome is
//! reported back through `launch_result`, which fixes what the caller is
//! told for each way the launch can end.

use crate::errors::ServiceError;
use crate::registry::{
    assigned_id, has_id, is_assigned_id, lemma_assigned_id_exists, lemma_by_id_finds,
    lemma_wf_push, record_of, spec_by_id, spec_insert, wf, NewServer, NewServerModel, Registry,
    ServerModel,
};
use crate::render::{replace_vars, spec_render};
use crate::storage::{hex_char_of, hex_digit};
use crate::text::{chars_to_string, str_to_chars};
use crate::vars::VarMap;
use vstd::prelude::*;

verus! {

/// `n` in decimal, most significant digit first, no leading zeros.
pub open spec fn dec_of(n: nat) -> Seq<char>
    decreases n,
{
    if n < 10 {
        seq![hex_digit(n)]
    } else {
        dec_of(n / 10).push(hex_digit(n % 10))
    }
}

/// Appends `n` in decimal.
fn push_dec(out: &mut Vec<char>, n: u64)
    ensures
        final(out)@ == old(out)@ + dec_of(n as nat),
    decreases n,
{
    if n < 10 {
        out.push(hex_char_of(n));
        proof {
            assert(out@ =~= old(out)@ + dec_of(n as nat));
        }
    } else {
        push_dec(out, n / 10);
        out.push(hex_char_of(n % 10));
        proof {
            assert(n as nat / 10 == (n / 10) as nat);
            assert(n as nat % 10 == (n % 10) as nat);
            assert(out@ =~= old(out)@ + dec_of(n as nat));
        }
    }
}

/// The decimal rendering of an id.
pub fn u64_to_dec(n: u64) -> (s: String)
    ensures
        s@ == dec_of(n as nat),
{
    let mut v: Vec<char> = Vec::new();
    push_dec(&mut v, n);
    proof {
        assert(Seq::<char>::empty() + dec_of(n as nat) =~= dec_of(n as nat));
    }
    chars_to_string(&v)
}

/// The deterministic instance name derived for a workload: the
/// application name, an underscore, and the id in decimal.
pub open spec fn spec_instance_name(app: Seq<char>, id: u64) -> Seq<char> {
    app + seq!['_'] + dec_of(id as nat)
}

/// Derives the container instance name for a workload id.
pub fn instance_name(app_name: &str, id: u64) -> (r: String)
    ensures
        r@ == spec_instance_name(app_name@, id),
{
    let mut v = str_to_chars(app_name);
    v.push('_');
    proof {
        assert(v@ =~= app_name@ + seq!['_']);
    }
    push_dec(&mut v, id);
    chars_to_string(&v)
}

/// The variable mapping a render sees: the process environment overlaid
/// with the call-specific `app`, `id` and `name` bindings, which take
/// precedence over same-named environment entries.
pub open spec fn render_vars(
    env: Map<Seq<char>, Seq<char>>,
    app: Seq<char>,
    id: u64,
    name: Seq<char>,
) -> Map<Seq<char>, Seq<char>> {
    env.insert("app"@, app).insert("id"@, dec_of(id as nat)).insert("name"@, name)
}

/// Assembles the variable mapping for one create call.
pub fn create_vars(env: VarMap, app_name: &str, id: u64, name: &str) -> (v: VarMap)
    ensures
        v@ == render_vars(env@, app_name@, id, name@),
{
    let mut vars = env;
    vars.insert("app", app_name);
    let id_text = u64_to_dec(id);
    vars.insert("id", id_text.as_str());
    vars.insert("name", name);
    vars
}

/// What the create sequence has decided by the time the container runtime
/// must act: the assigned id, the derived instance name, and the rendered
/// configuration text.
pub struct LaunchPlan {
    pub id: u64,
    pub instance_name: String,
    pub rendered: String,
}

impl NewServer {
    /// The decision part of a create request, in order: insert the record
    /// under a registry-assigned id; derive the instance name; assemble
    /// the variable mapping; render the template. The surrounding service
    /// then persists the registry, parses the rendered text and calls the
    /// container runtime, and reports what happened via `launch_result`.
    /// If insertion could not happen, nothing else would: no container is
    /// created for a request whose record was not accepted.
    pub fn create(
        self,
        app_name: &str,
        registry: &mut Registry,
        template: &str,
        env: VarMap,
    ) -> (plan: LaunchPlan)
        requires
            wf(old(registry)@),
        ensures
            wf(final(registry)@),
            is_assigned_id(old(registry)@, plan.id),
            plan.id == assigned_id(old(registry)@),
            final(registry)@ == old(registry)@.push(record_of(plan.id, self@)),
            final(registry)@ == spec_insert(old(registry)@, self@),
            plan.instance_name@ == spec_instance_name(app_name@, plan.id),
            plan.rendered@ == spec_render(
                template@,
                render_vars(env@, app_name@, plan.id, spec_instance_name(app_name@, plan.id)),
            ),
    {
        let id = registry.insert(self);
        let name = instance_name(app_name, id);
        let vars = create_vars(env, app_name, id, name.as_str());
        let rendered = replace_vars(template, &vars);
        LaunchPlan { id: id, instance_name: name, rendered: rendered }
    }
}

/// How the steps after the plan ended.
#[derive(Clone, Copy, Debug, PartialEq, Eq, Structural)]
pub enum LaunchOutcome {
    /// The runtime created and started the instance.
    Started,
    /// The rendered configuration did not parse into a specification.
    ConfigRejected,
    /// Persisting the registry failed.
    StoreFailed,
    /// The runtime failed to create or start the instance.
    RuntimeFailed,
}

/// The result a create call reports for each launch outcome.
pub open spec fn spec_launch_result(id: u64, outcome: LaunchOutcome) -> Result<u64, ServiceError> {
    match outcome {
        LaunchOutcome::Started => Ok(id),
        LaunchOutcome::ConfigRejected => Err(ServiceError::Template),
        LaunchOutcome::StoreFailed => Err(ServiceError::Storage),
        LaunchOutcome::RuntimeFailed => Err(ServiceError::Runtime),
    }
}

/// Maps the launch outcome to what the create call reports: the assigned
/// id only after a successful start, the failing step's tag otherwise.
/// The registry record persists in every case: a failed launch leaves an
/// orphaned record behind, visible to the caller only through the tag.
pub fn launch_result(plan_id: u64, outcome: LaunchOutcome) -> (r: Result<u64, ServiceError>)
    ensures
        r == spec_launch_result(plan_id, outcome),
{
    match outcome {
        LaunchOutcome::Started => Ok(plan_id),
        LaunchOutcome::ConfigRejected => Err(ServiceError::Template),
        LaunchOutcome::StoreFailed => Err(ServiceError::Storage),
        LaunchOutcome::RuntimeFailed => Err(ServiceError::Runtime),
    }
}

/// When the container runtime fails after a create inserted its record,
/// the record stays in the registry — the acknowledged orphan window —
/// and the call reports the runtime failure.
pub proof fn lemma_orphan_on_runtime_failure(m: Seq<ServerModel>, n: NewServerModel)
    requires
        wf(m),
        m.len() < u64::MAX,
    ensures
        ({
            let id = assigned_id(m);
            let m1 = spec_insert(m, n);
            &&& wf(m1)
            &&& has_id(m1, id)
            &&& spec_by_id(m1, id) == Some(record_of(id, n))
            &&& spec_launch_result(id, LaunchOutcome::RuntimeFailed) == Err::<u64, ServiceError>(
                ServiceError::Runtime,
            )
        }),
{
    lemma_assigned_id_exists(m);
    let id = assigned_id(m);
    let m1 = spec_insert(m, n);
    lemma_wf_push(m, record_of(id, n));
    assert(m1[m.len() as int] == record_of(id, n));
    assert(has_id(m1, id));
    lemma_by_id_finds(m1, m.len() as int);
}

} // verus!
