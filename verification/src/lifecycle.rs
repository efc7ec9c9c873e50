//! Lifecycle operations: fixed step sequences for install, stop, upgrade and
//! reconfigure, composed from the validator, the sequence runner and the
//! output extractor.

use vstd::prelude::*;
use vstd::string::StringExecFns;

use crate::config::{
    batch_ok, error_matches, first_failure, validate_batch, ConfigUpdate, PathFacts,
    ValidationError,
};
use crate::extract::{extract, extract_ok, some_line_matches, ExtractionFailure};
use crate::runner::{run_sequence, ProcessRunner};
use crate::step::{lemma_step_view_at, lookup, steps_view, Step, StepOutput};
use crate::text::strings_view;

verus! {

/// A lifecycle operation's outcome: every step's captured output, in
/// execution order, and any derived fields (such as the node's public URL)
/// extracted from them afterwards.
#[derive(Debug)]
pub struct LifecycleResult {
    pub outputs: StepOutput,
    pub derived: StepOutput,
}

/// Why a lifecycle operation failed. Every error is terminal for the call.
#[derive(Debug)]
pub enum LifecycleError {
    /// A step's external command failed; later steps never ran.
    ProcessExecution { step_name: String, diagnostic: String },
    /// Every command succeeded but the derived value was not found in the
    /// named step's output.
    Extraction { step_name: String, required: Vec<String> },
    /// The update batch was rejected before any command was built.
    Validation(ValidationError),
}

/// The steps of an install, in execution order.
pub open spec fn install_step_list() -> Seq<(Seq<char>, Seq<char>)> {
    seq![
        (
            "install-binary"@,
            "curl -sSfL 'https://github.com/GaiaNet-AI/gaianet-node/releases/latest/download/install.sh' | bash"@,
        ),
        ("profile reload"@, "source ~/.bashrc"@),
        ("initialize"@, "gaianet init"@),
        ("start"@, "gaianet start"@),
    ]
}

/// The steps of a stop.
pub open spec fn stop_step_list() -> Seq<(Seq<char>, Seq<char>)> {
    seq![("stop"@, "gaianet stop"@)]
}

/// The steps of an upgrade: stop, reinstall with the upgrade flag, then
/// initialize and start again.
pub open spec fn upgrade_step_list() -> Seq<(Seq<char>, Seq<char>)> {
    seq![
        ("stop"@, "gaianet stop"@),
        (
            "reinstall-with-upgrade-flag"@,
            "curl -sSfL 'https://github.com/GaiaNet-AI/gaianet-node/releases/latest/download/install.sh' | bash -s -- --upgrade"@,
        ),
        ("initialize"@, "gaianet init"@),
        ("start"@, "gaianet start"@),
    ]
}

/// The step applying one accepted update: named after its key, invoking the
/// node tool's config subcommand with that single key/value flag.
pub open spec fn update_step_pair(k: Seq<char>, v: Seq<char>) -> (Seq<char>, Seq<char>) {
    ("update_"@ + k, "gaianet config --"@ + k + " "@ + v)
}

/// The steps of a reconfigure: one step per accepted update, in batch order,
/// then `initialize` and `start`.
pub open spec fn configure_step_list(updates: Seq<ConfigUpdate>) -> Seq<(Seq<char>, Seq<char>)> {
    Seq::new(
        updates.len() + 2,
        |i: int|
            if i < updates.len() {
                update_step_pair(updates[i].key@, updates[i].value@)
            } else if i == updates.len() {
                ("initialize"@, "gaianet init"@)
            } else {
                ("start"@, "gaianet start"@)
            },
    )
}

pub fn install_steps() -> (r: Vec<Step>)
    ensures
        steps_view(r@) == install_step_list(),
{
    let mut r: Vec<Step> = Vec::new();
    r.push(
        Step::new(
            "install-binary".to_owned(),
            "curl -sSfL 'https://github.com/GaiaNet-AI/gaianet-node/releases/latest/download/install.sh' | bash".to_owned(),
        ),
    );
    r.push(Step::new("profile reload".to_owned(), "source ~/.bashrc".to_owned()));
    r.push(Step::new("initialize".to_owned(), "gaianet init".to_owned()));
    r.push(Step::new("start".to_owned(), "gaianet start".to_owned()));
    proof {
        assert(steps_view(r@) =~= install_step_list());
    }
    r
}

pub fn stop_steps() -> (r: Vec<Step>)
    ensures
        steps_view(r@) == stop_step_list(),
{
    let mut r: Vec<Step> = Vec::new();
    r.push(Step::new("stop".to_owned(), "gaianet stop".to_owned()));
    proof {
        assert(steps_view(r@) =~= stop_step_list());
    }
    r
}

pub fn upgrade_steps() -> (r: Vec<Step>)
    ensures
        steps_view(r@) == upgrade_step_list(),
{
    let mut r: Vec<Step> = Vec::new();
    r.push(Step::new("stop".to_owned(), "gaianet stop".to_owned()));
    r.push(
        Step::new(
            "reinstall-with-upgrade-flag".to_owned(),
            "curl -sSfL 'https://github.com/GaiaNet-AI/gaianet-node/releases/latest/download/install.sh' | bash -s -- --upgrade".to_owned(),
        ),
    );
    r.push(Step::new("initialize".to_owned(), "gaianet init".to_owned()));
    r.push(Step::new("start".to_owned(), "gaianet start".to_owned()));
    proof {
        assert(steps_view(r@) =~= upgrade_step_list());
    }
    r
}

/// Builds the reconfigure step list for a batch, after validating it
/// all-or-nothing: on any rejection, no step is built at all.
pub fn configure_steps(updates: &Vec<ConfigUpdate>, facts: &Vec<PathFacts>) -> (r: Result<
    Vec<Step>,
    ValidationError,
>)
    requires
        updates@.len() == facts@.len(),
    ensures
        r is Ok <==> batch_ok(updates@, facts@),
        r matches Ok(steps) ==> steps_view(steps@) == configure_step_list(updates@),
        r matches Err(e) ==> exists|i: int|
            #[trigger] first_failure(updates@, facts@, i) && error_matches(
                e,
                updates@[i].key@,
                updates@[i].value@,
                facts@[i],
            ),
{
    match validate_batch(updates, facts) {
        Err(e) => {
            return Err(e);
        },
        Ok(_) => {},
    }
    let n = updates.len();
    let mut steps: Vec<Step> = Vec::new();
    let mut i: usize = 0;
    while i < n
        invariant
            i <= n,
            n == updates@.len(),
            steps@.len() == i,
            forall|j: int|
                0 <= j < i ==> (#[trigger] steps@[j]).name@ == update_step_pair(
                    updates@[j].key@,
                    updates@[j].value@,
                ).0 && steps@[j].command@ == update_step_pair(
                    updates@[j].key@,
                    updates@[j].value@,
                ).1,
        decreases n - i,
    {
        let mut name = "update_".to_owned();
        name.append(updates[i].key.as_str());
        let mut command = "gaianet config --".to_owned();
        command.append(updates[i].key.as_str());
        command.append(" ");
        command.append(updates[i].value.as_str());
        steps.push(Step::new(name, command));
        i = i + 1;
    }
    steps.push(Step::new("initialize".to_owned(), "gaianet init".to_owned()));
    steps.push(Step::new("start".to_owned(), "gaianet start".to_owned()));
    proof {
        assert forall|idx: int| 0 <= idx < steps@.len() implies steps_view(steps@)[idx]
            == configure_step_list(updates@)[idx] by {
            lemma_step_view_at(steps@, idx);
        }
        assert(steps_view(steps@) =~= configure_step_list(updates@));
    }
    Ok(steps)
}

/// The substrings a public-URL line must contain.
pub open spec fn url_requirements() -> Seq<Seq<char>> {
    seq!["https://"@, ".gaianet.xyz"@]
}

pub fn url_requirement_strings() -> (r: Vec<String>)
    ensures
        strings_view(r@) == url_requirements(),
{
    let mut r: Vec<String> = Vec::new();
    r.push("https://".to_owned());
    r.push(".gaianet.xyz".to_owned());
    proof {
        assert(strings_view(r@) =~= url_requirements());
    }
    r
}

/// `u` is the public URL derived from a run's outputs: the first line of the
/// `start` step's output that contains every required substring, trimmed.
pub open spec fn derived_url_ok(outs: Seq<(Seq<char>, Seq<char>)>, u: Seq<char>) -> bool {
    match lookup(outs, "start"@) {
        Some(text) => extract_ok(text, url_requirements(), u),
        None => false,
    }
}

/// A public URL can be derived from these outputs at all.
pub open spec fn url_derivable(outs: Seq<(Seq<char>, Seq<char>)>) -> bool {
    match lookup(outs, "start"@) {
        Some(text) => some_line_matches(text, url_requirements()),
        None => false,
    }
}

/// Derives the node's public URL from a run's outputs by searching the
/// `start` step's captured text.
pub fn derive_public_url(outputs: &StepOutput) -> (r: Result<String, ExtractionFailure>)
    ensures
        r is Ok <==> url_derivable(outputs@),
        r matches Ok(u) ==> derived_url_ok(outputs@, u@),
        r matches Err(f) ==> strings_view(f.required@) == url_requirements(),
{
    let required = url_requirement_strings();
    match outputs.get("start") {
        Some(text) => extract(text.as_str(), &required),
        None => Err(ExtractionFailure { required }),
    }
}

/// Attaches the derived public URL to a finished run's outputs. Succeeds
/// exactly when some line of the `start` output qualifies; extraction
/// failure is a hard failure of the whole operation even though every
/// command succeeded.
fn complete_with_url(outputs: StepOutput) -> (r: Result<LifecycleResult, LifecycleError>)
    ensures
        r is Ok <==> url_derivable(outputs@),
        r matches Ok(res) ==> {
            &&& res.outputs@ == outputs@
            &&& res.derived@.len() == 1
            &&& res.derived@[0].0 == "public_url"@
            &&& derived_url_ok(res.outputs@, res.derived@[0].1)
        },
        r matches Err(e) ==> e matches LifecycleError::Extraction { step_name, required }
            && step_name@ == "start"@ && strings_view(required@) == url_requirements(),
{
    match derive_public_url(&outputs) {
        Ok(url) => {
            let mut derived = StepOutput::new();
            derived.push("public_url".to_owned(), url);
            Ok(LifecycleResult { outputs, derived })
        },
        Err(f) => Err(
            LifecycleError::Extraction { step_name: "start".to_owned(), required: f.required },
        ),
    }
}

/// Installs the node and starts it: runs the install steps in order, then
/// derives the public URL from the `start` step's output.
pub fn run_gaia_node<R: ProcessRunner>(manager: &mut R) -> (r: Result<
    LifecycleResult,
    LifecycleError,
>)
    ensures
        r matches Ok(res) ==> {
            &&& res.outputs@.len() == install_step_list().len()
            &&& forall|i: int|
                0 <= i < install_step_list().len() ==> #[trigger] res.outputs@[i].0
                    == install_step_list()[i].0
            &&& res.derived@.len() == 1
            &&& res.derived@[0].0 == "public_url"@
            &&& derived_url_ok(res.outputs@, res.derived@[0].1)
        },
        r matches Err(e) ==> match e {
            LifecycleError::ProcessExecution { step_name, .. } => exists|i: int|
                0 <= i < install_step_list().len() && #[trigger] install_step_list()[i].0
                    == step_name@,
            LifecycleError::Extraction { step_name, required } => step_name@ == "start"@
                && strings_view(required@) == url_requirements(),
            LifecycleError::Validation(..) => false,
        },
{
    let steps = install_steps();
    match run_sequence(manager, &steps) {
        Err(f) => {
            proof {
                let i = choose|i: int|
                    0 <= i < steps@.len() && #[trigger] steps@[i].name@ == f.step_name@;
                lemma_step_view_at(steps@, i);
                assert(install_step_list()[i].0 == f.step_name@);
            }
            Err(
                LifecycleError::ProcessExecution {
                    step_name: f.step_name,
                    diagnostic: f.diagnostic,
                },
            )
        },
        Ok(outputs) => {
            proof {
                assert forall|i: int| 0 <= i < install_step_list().len() implies outputs@[i].0
                    == install_step_list()[i].0 by {
                    lemma_step_view_at(steps@, i);
                }
            }
            complete_with_url(outputs)
        },
    }
}

/// Stops the node. No derived fields.
pub fn stop_gaia_node<R: ProcessRunner>(manager: &mut R) -> (r: Result<
    LifecycleResult,
    LifecycleError,
>)
    ensures
        r matches Ok(res) ==> {
            &&& res.outputs@.len() == stop_step_list().len()
            &&& forall|i: int|
                0 <= i < stop_step_list().len() ==> #[trigger] res.outputs@[i].0
                    == stop_step_list()[i].0
            &&& res.derived@.len() == 0
        },
        r matches Err(e) ==> match e {
            LifecycleError::ProcessExecution { step_name, .. } => exists|i: int|
                0 <= i < stop_step_list().len() && #[trigger] stop_step_list()[i].0 == step_name@,
            LifecycleError::Extraction { .. } => false,
            LifecycleError::Validation(..) => false,
        },
{
    let steps = stop_steps();
    match run_sequence(manager, &steps) {
        Err(f) => {
            proof {
                let i = choose|i: int|
                    0 <= i < steps@.len() && #[trigger] steps@[i].name@ == f.step_name@;
                lemma_step_view_at(steps@, i);
                assert(stop_step_list()[i].0 == f.step_name@);
            }
            Err(
                LifecycleError::ProcessExecution {
                    step_name: f.step_name,
                    diagnostic: f.diagnostic,
                },
            )
        },
        Ok(outputs) => {
            proof {
                assert forall|i: int| 0 <= i < stop_step_list().len() implies outputs@[i].0
                    == stop_step_list()[i].0 by {
                    lemma_step_view_at(steps@, i);
                }
            }
            Ok(LifecycleResult { outputs, derived: StepOutput::new() })
        },
    }
}

/// Upgrades the node: stop, reinstall with the upgrade flag, initialize and
/// start, then derive the public URL as an install does.
pub fn upgrade_gaia_node<R: ProcessRunner>(manager: &mut R) -> (r: Result<
    LifecycleResult,
    LifecycleError,
>)
    ensures
        r matches Ok(res) ==> {
            &&& res.outputs@.len() == upgrade_step_list().len()
            &&& forall|i: int|
                0 <= i < upgrade_step_list().len() ==> #[trigger] res.outputs@[i].0
                    == upgrade_step_list()[i].0
            &&& res.derived@.len() == 1
            &&& res.derived@[0].0 == "public_url"@
            &&& derived_url_ok(res.outputs@, res.derived@[0].1)
        },
        r matches Err(e) ==> match e {
            LifecycleError::ProcessExecution { step_name, .. } => exists|i: int|
                0 <= i < upgrade_step_list().len() && #[trigger] upgrade_step_list()[i].0
                    == step_name@,
            LifecycleError::Extraction { step_name, required } => step_name@ == "start"@
                && strings_view(required@) == url_requirements(),
            LifecycleError::Validation(..) => false,
        },
{
    let steps = upgrade_steps();
    match run_sequence(manager, &steps) {
        Err(f) => {
            proof {
                let i = choose|i: int|
                    0 <= i < steps@.len() && #[trigger] steps@[i].name@ == f.step_name@;
                lemma_step_view_at(steps@, i);
                assert(upgrade_step_list()[i].0 == f.step_name@);
            }
            Err(
                LifecycleError::ProcessExecution {
                    step_name: f.step_name,
                    diagnostic: f.diagnostic,
                },
            )
        },
        Ok(outputs) => {
            proof {
                assert forall|i: int| 0 <= i < upgrade_step_list().len() implies outputs@[i].0
                    == upgrade_step_list()[i].0 by {
                    lemma_step_view_at(steps@, i);
                }
            }
            complete_with_url(outputs)
        },
    }
}

/// Reconfigures the node: validates the whole batch first — on any rejection
/// no command is built, let alone run — then applies one update step per
/// pair, in input order, and reinitializes and restarts the node.
pub fn update_gaia_config<R: ProcessRunner>(
    manager: &mut R,
    updates: &Vec<ConfigUpdate>,
    facts: &Vec<PathFacts>,
) -> (r: Result<LifecycleResult, LifecycleError>)
    requires
        updates@.len() == facts@.len(),
    ensures
        r matches Ok(res) ==> {
            &&& batch_ok(updates@, facts@)
            &&& res.outputs@.len() == configure_step_list(updates@).len()
            &&& forall|i: int|
                0 <= i < configure_step_list(updates@).len() ==> #[trigger] res.outputs@[i].0
                    == configure_step_list(updates@)[i].0
            &&& res.derived@.len() == 0
        },
        r matches Err(e) ==> match e {
            LifecycleError::ProcessExecution { step_name, .. } => batch_ok(updates@, facts@)
                && exists|i: int|
                0 <= i < configure_step_list(updates@).len()
                    && #[trigger] configure_step_list(updates@)[i].0 == step_name@,
            LifecycleError::Extraction { .. } => false,
            LifecycleError::Validation(err) => !batch_ok(updates@, facts@) && exists|i: int|
                #[trigger] first_failure(updates@, facts@, i) && error_matches(
                    err,
                    updates@[i].key@,
                    updates@[i].value@,
                    facts@[i],
                ),
        },
{
    let steps = match configure_steps(updates, facts) {
        Err(e) => {
            return Err(LifecycleError::Validation(e));
        },
        Ok(steps) => steps,
    };
    match run_sequence(manager, &steps) {
        Err(f) => {
            proof {
                let i = choose|i: int|
                    0 <= i < steps@.len() && #[trigger] steps@[i].name@ == f.step_name@;
                lemma_step_view_at(steps@, i);
                assert(configure_step_list(updates@)[i].0 == f.step_name@);
            }
            Err(
                LifecycleError::ProcessExecution {
                    step_name: f.step_name,
                    diagnostic: f.diagnostic,
                },
            )
        },
        Ok(outputs) => {
            proof {
                assert forall|i: int|
                    0 <= i < configure_step_list(updates@).len() implies outputs@[i].0
                    == configure_step_list(updates@)[i].0 by {
                    lemma_step_view_at(steps@, i);
                }
            }
            Ok(LifecycleResult { outputs, derived: StepOutput::new() })
        },
    }
}

/// For a batch in which every pair satisfies its rule, the reconfigure
/// sequence holds exactly one step per pair plus two: each update step in
/// input order, then `initialize`, then `start`, last and in that order.
pub proof fn lemma_valid_batch_configures(updates: Seq<ConfigUpdate>, facts: Seq<PathFacts>)
    requires
        updates.len() == facts.len(),
        batch_ok(updates, facts),
    ensures
        configure_step_list(updates).len() == updates.len() + 2,
        forall|i: int|
            0 <= i < updates.len() ==> #[trigger] configure_step_list(updates)[i]
                == update_step_pair(updates[i].key@, updates[i].value@),
        configure_step_list(updates)[updates.len() as int] == ("initialize"@, "gaianet init"@),
        configure_step_list(updates)[updates.len() as int + 1] == ("start"@, "gaianet start"@),
{
}

/// A batch containing an unknown key is never accepted, so no reconfigure
/// command is ever built from it.
pub proof fn lemma_unknown_key_rejects_batch(
    updates: Seq<ConfigUpdate>,
    facts: Seq<PathFacts>,
    i: int,
)
    requires
        updates.len() == facts.len(),
        0 <= i < updates.len(),
        !crate::config::known_key(updates[i].key@),
    ensures
        !batch_ok(updates, facts),
{
    assert(!crate::config::update_ok(updates[i].key@, updates[i].value@, facts[i]));
}

/// Reconfiguring twice from the same batch builds structurally identical
/// step sequences: the step list is a function of the batch alone.
pub proof fn lemma_configure_deterministic(
    updates: Seq<ConfigUpdate>,
    first_run: Seq<Step>,
    second_run: Seq<Step>,
)
    requires
        steps_view(first_run) == configure_step_list(updates),
        steps_view(second_run) == configure_step_list(updates),
    ensures
        steps_view(first_run) == steps_view(second_run),
{
}

} // verus!
