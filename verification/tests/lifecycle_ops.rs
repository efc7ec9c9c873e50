use gaia_ai_agent_template::config::{ConfigUpdate, PathFacts};
use gaia_ai_agent_template::lifecycle::{
    configure_steps, derive_public_url, run_gaia_node, stop_gaia_node, update_gaia_config,
    upgrade_gaia_node, LifecycleError,
};
use gaia_ai_agent_template::runner::run_sequence;
use gaia_ai_agent_template::{GaiaNodeClient, ProcessRunner, Step, StepOutput};

/// A scripted process runner: answers each step by name and records every
/// invocation.
struct MockRunner {
    /// `(step name, scripted result)`; steps not listed succeed with "ok".
    script: Vec<(String, Result<String, String>)>,
    calls: Vec<String>,
}

impl MockRunner {
    fn new(script: Vec<(String, Result<String, String>)>) -> MockRunner {
        MockRunner { script, calls: Vec::new() }
    }

    fn count(&self, name: &str) -> usize {
        self.calls.iter().filter(|c| c.as_str() == name).count()
    }
}

impl ProcessRunner for MockRunner {
    fn run_step(&mut self, name: &str, _command: &str) -> Result<String, String> {
        self.calls.push(name.to_string());
        for (step, result) in &self.script {
            if step == name {
                return result.clone();
            }
        }
        Ok("ok".to_string())
    }
}

fn no_fs() -> PathFacts {
    PathFacts { file_exists: false, under_base_dir: false }
}

fn update(key: &str, value: &str) -> ConfigUpdate {
    ConfigUpdate::new(key.to_string(), value.to_string())
}

const START_TEXT: &str = "line1\nPlease visit https://foo.example.gaianet.xyz/chat now\nline3";

#[test]
fn runner_stops_at_the_first_failure() {
    let steps = vec![
        Step::new("A".to_string(), "cmd-a".to_string()),
        Step::new("B".to_string(), "cmd-b".to_string()),
        Step::new("C".to_string(), "cmd-c".to_string()),
    ];
    let mut mock = MockRunner::new(vec![("B".to_string(), Err("boom".to_string()))]);
    let failure = run_sequence(&mut mock, &steps).unwrap_err();
    assert_eq!(failure.step_name, "B");
    assert_eq!(failure.diagnostic, "boom");
    assert_eq!(mock.count("A"), 1);
    assert_eq!(mock.count("B"), 1);
    assert_eq!(mock.count("C"), 0);
}

#[test]
fn runner_collects_outputs_in_order() {
    let steps = vec![
        Step::new("A".to_string(), "cmd-a".to_string()),
        Step::new("B".to_string(), "cmd-b".to_string()),
    ];
    let mut mock = MockRunner::new(vec![
        ("A".to_string(), Ok("out-a".to_string())),
        ("B".to_string(), Ok("out-b".to_string())),
    ]);
    let outputs = run_sequence(&mut mock, &steps).unwrap();
    assert_eq!(outputs.len(), 2);
    assert_eq!(outputs.name_at(0), "A");
    assert_eq!(outputs.output_at(0), "out-a");
    assert_eq!(outputs.name_at(1), "B");
    assert_eq!(outputs.output_at(1), "out-b");
    assert_eq!(outputs.get("B").unwrap(), "out-b");
    assert!(outputs.get("C").is_none());
}

#[test]
fn install_collects_four_outputs_and_the_public_url() {
    let mut mock = MockRunner::new(vec![("start".to_string(), Ok(START_TEXT.to_string()))]);
    let result = run_gaia_node(&mut mock).unwrap();
    assert_eq!(result.outputs.len(), 4);
    assert_eq!(result.outputs.name_at(0), "install-binary");
    assert_eq!(result.outputs.name_at(1), "profile reload");
    assert_eq!(result.outputs.name_at(2), "initialize");
    assert_eq!(result.outputs.name_at(3), "start");
    assert_eq!(result.derived.len(), 1);
    assert_eq!(result.derived.name_at(0), "public_url");
    assert_eq!(
        result.derived.output_at(0),
        "Please visit https://foo.example.gaianet.xyz/chat now"
    );
}

#[test]
fn install_fails_fast_when_a_step_fails() {
    let mut mock =
        MockRunner::new(vec![("install-binary".to_string(), Err("no network".to_string()))]);
    match run_gaia_node(&mut mock).unwrap_err() {
        LifecycleError::ProcessExecution { step_name, diagnostic } => {
            assert_eq!(step_name, "install-binary");
            assert_eq!(diagnostic, "no network");
        }
        other => panic!("expected ProcessExecution, got {:?}", other),
    }
    assert_eq!(mock.calls, vec!["install-binary".to_string()]);
}

#[test]
fn install_fails_when_no_url_line_exists() {
    let mut mock = MockRunner::new(vec![(
        "start".to_string(),
        Ok("started, but no address printed".to_string()),
    )]);
    match run_gaia_node(&mut mock).unwrap_err() {
        LifecycleError::Extraction { step_name, required } => {
            assert_eq!(step_name, "start");
            assert_eq!(required, vec!["https://".to_string(), ".gaianet.xyz".to_string()]);
        }
        other => panic!("expected Extraction, got {:?}", other),
    }
    // All four commands did run; extraction failed afterwards.
    assert_eq!(mock.calls.len(), 4);
}

#[test]
fn stop_runs_a_single_step() {
    let mut mock = MockRunner::new(vec![("stop".to_string(), Ok("stopped".to_string()))]);
    let result = stop_gaia_node(&mut mock).unwrap();
    assert_eq!(result.outputs.len(), 1);
    assert_eq!(result.outputs.name_at(0), "stop");
    assert_eq!(result.outputs.output_at(0), "stopped");
    assert_eq!(result.derived.len(), 0);
    assert_eq!(mock.calls, vec!["stop".to_string()]);
}

#[test]
fn upgrade_runs_stop_reinstall_init_start() {
    let mut mock = MockRunner::new(vec![("start".to_string(), Ok(START_TEXT.to_string()))]);
    let result = upgrade_gaia_node(&mut mock).unwrap();
    assert_eq!(
        mock.calls,
        vec![
            "stop".to_string(),
            "reinstall-with-upgrade-flag".to_string(),
            "initialize".to_string(),
            "start".to_string(),
        ]
    );
    assert_eq!(result.derived.name_at(0), "public_url");
}

#[test]
fn configure_builds_one_step_per_update_plus_init_and_start() {
    let updates = vec![update("port", "8080"), update("rag-policy", "system-message")];
    let facts = vec![no_fs(), no_fs()];
    let steps = configure_steps(&updates, &facts).unwrap();
    assert_eq!(steps.len(), 4);
    assert_eq!(steps[0].name, "update_port");
    assert_eq!(steps[0].command, "gaianet config --port 8080");
    assert_eq!(steps[1].name, "update_rag-policy");
    assert_eq!(steps[1].command, "gaianet config --rag-policy system-message");
    assert_eq!(steps[2].name, "initialize");
    assert_eq!(steps[2].command, "gaianet init");
    assert_eq!(steps[3].name, "start");
    assert_eq!(steps[3].command, "gaianet start");
}

#[test]
fn configure_is_deterministic_for_the_same_batch() {
    let updates = vec![update("port", "8080"), update("qdrant-limit", "3")];
    let facts = vec![no_fs(), no_fs()];
    let first = configure_steps(&updates, &facts).unwrap();
    let second = configure_steps(&updates, &facts).unwrap();
    assert_eq!(first.len(), second.len());
    for (a, b) in first.iter().zip(second.iter()) {
        assert_eq!(a.name, b.name);
        assert_eq!(a.command, b.command);
    }
}

#[test]
fn configure_twice_runs_identical_command_sequences() {
    let updates = vec![update("port", "8080"), update("system-prompt", "hello")];
    let facts = vec![no_fs(), no_fs()];
    let mut first = MockRunner::new(Vec::new());
    let mut second = MockRunner::new(Vec::new());
    update_gaia_config(&mut first, &updates, &facts).unwrap();
    update_gaia_config(&mut second, &updates, &facts).unwrap();
    assert_eq!(first.calls, second.calls);
}

#[test]
fn configure_with_unknown_key_runs_no_command() {
    let updates = vec![update("port", "8080"), update("frobnicate", "1")];
    let facts = vec![no_fs(), no_fs()];
    let mut mock = MockRunner::new(Vec::new());
    match update_gaia_config(&mut mock, &updates, &facts).unwrap_err() {
        LifecycleError::Validation(_) => {}
        other => panic!("expected Validation, got {:?}", other),
    }
    assert_eq!(mock.calls.len(), 0);
}

#[test]
fn configure_applies_updates_then_restarts() {
    let updates = vec![update("system-prompt", "be kind"), update("port", "8080")];
    let facts = vec![no_fs(), no_fs()];
    let mut mock = MockRunner::new(Vec::new());
    let result = update_gaia_config(&mut mock, &updates, &facts).unwrap();
    assert_eq!(
        mock.calls,
        vec![
            "update_system-prompt".to_string(),
            "update_port".to_string(),
            "initialize".to_string(),
            "start".to_string(),
        ]
    );
    assert_eq!(result.outputs.len(), 4);
    assert_eq!(result.derived.len(), 0);
}

#[test]
fn derive_public_url_reads_the_start_output() {
    let mut outputs = StepOutput::new();
    outputs.push("start".to_string(), START_TEXT.to_string());
    let url = derive_public_url(&outputs).unwrap();
    assert_eq!(url, "Please visit https://foo.example.gaianet.xyz/chat now");

    let empty = StepOutput::new();
    assert!(derive_public_url(&empty).is_err());
}

#[test]
fn client_settings_are_kept_as_given() {
    let client = GaiaNodeClient::new(
        "https://node.example/v1".to_string(),
        "test-key".to_string(),
        "llama".to_string(),
    );
    assert_eq!(client.base_url, "https://node.example/v1");
    assert_eq!(client.api_key, "test-key");
    assert_eq!(client.current_model, "llama");
}
