use ion_win::execution::{
    begin_foreground_external, external_ended, launch_failed, launched, ExecutionContext,
    ExecutionError, ExecutionManager, ExecutionMode, ExecutionResult, ExecutionSpec, ExecutionState,
    ExecutionTarget, ProcessRecord, SecretValue, WaitOutcome,
};
use ion_win::names::Names;

fn fixture() -> (ExecutionSpec, ExecutionContext) {
    let cwd = r"C:\work".to_string();
    (
        ExecutionSpec::new(
            ExecutionTarget::External {
                program: "tool.exe".to_string(),
                args: vec!["--run".into()],
            },
            cwd.clone(),
            ExecutionMode::Foreground,
        ),
        ExecutionContext::new(cwd, Names::new())
            .with_secret("token".to_string(), SecretValue::new("never-persist-me".to_string())),
    )
}

#[test]
fn successful_lifecycle_moves_execution_to_sanitized_history() {
    let mut manager = ExecutionManager::new(10);
    let (spec, context) = fixture();
    let id = manager.create(spec, context, 1).unwrap();
    assert_eq!(manager.get(id).unwrap().state(), ExecutionState::Created);
    manager
        .transition(id, ExecutionState::Starting, None, 2)
        .unwrap();
    manager
        .transition(id, ExecutionState::Running, None, 2)
        .unwrap();
    manager.get_mut(id).unwrap().set_root_pid(42);
    let record = manager
        .transition(
            id,
            ExecutionState::Completed,
            Some(ExecutionResult::new(Some(0), None)), 3)
        .unwrap()
        .unwrap();
    assert_eq!(record.display, "tool.exe --run");
    assert_eq!(record.root_pid, Some(42));
    assert!(manager.get(id).is_none());
    assert_eq!(manager.history().len(), 1);
    assert!(!format!("{record:?}").contains("never-persist-me"));
}

#[test]
fn launch_failure_is_reported_from_starting() {
    let mut manager = ExecutionManager::new(10);
    let (spec, context) = fixture();
    let id = manager.create(spec, context, 1).unwrap();
    manager
        .transition(id, ExecutionState::Starting, None, 2)
        .unwrap();
    let record = manager
        .transition(
            id,
            ExecutionState::Failed,
            Some(ExecutionResult::new(None, Some("spawn failed".into()))), 3,
        )
        .unwrap()
        .unwrap();
    assert_eq!(record.state, ExecutionState::Failed);
    assert_eq!(
        record.result.as_ref().unwrap().message.as_deref(),
        Some("spawn failed")
    );
}

#[test]
fn one_execution_tracks_multiple_pipeline_processes() {
    let mut manager = ExecutionManager::new(10);
    let cwd = r"C:\work".to_string();
    let spec = ExecutionSpec::new(
        ExecutionTarget::Pipeline {
            display: "producer | consumer".into(),
        },
        cwd.clone(),
        ExecutionMode::Foreground,
    );
    let id = manager
        .create(spec, ExecutionContext::new(cwd, Names::new()), 1)
        .unwrap();
    manager
        .transition(id, ExecutionState::Starting, None, 2)
        .unwrap();
    manager
        .transition(id, ExecutionState::Running, None, 2)
        .unwrap();
    let execution = manager.get_mut(id).unwrap();
    execution.add_process(101);
    execution.add_process(202);
    execution.set_process_exit(101, Some(3));
    execution.set_process_exit(202, Some(0));

    let record = manager
        .transition(
            id,
            ExecutionState::Completed,
            Some(ExecutionResult::new(Some(0), None)), 3)
        .unwrap()
        .unwrap();
    assert_eq!(record.root_pid, Some(101));
    assert_eq!(
        record.processes,
        vec![
            ProcessRecord {
                pid: 101,
                exit_code: Some(3)
            },
            ProcessRecord {
                pid: 202,
                exit_code: Some(0)
            }
        ]
    );
    assert_eq!(record.state, ExecutionState::Completed);
}

#[test]
fn cancellation_uses_validated_intermediate_state() {
    let mut manager = ExecutionManager::new(10);
    let (spec, context) = fixture();
    let id = manager.create(spec, context, 1).unwrap();
    manager
        .transition(id, ExecutionState::Starting, None, 2)
        .unwrap();
    manager
        .transition(id, ExecutionState::Running, None, 2)
        .unwrap();
    manager
        .transition(id, ExecutionState::Cancelling, None, 2)
        .unwrap();
    let record = manager
        .transition(
            id,
            ExecutionState::Cancelled,
            Some(ExecutionResult::new(None, Some("cancelled".into()))), 3,
        )
        .unwrap()
        .unwrap();
    assert_eq!(record.state, ExecutionState::Cancelled);
}

#[test]
fn invalid_transition_does_not_mutate_execution() {
    let mut manager = ExecutionManager::new(10);
    let (spec, context) = fixture();
    let id = manager.create(spec, context, 1).unwrap();
    assert!(matches!(
        manager.transition(
            id,
            ExecutionState::Completed,
            Some(ExecutionResult::new(Some(0), None)), 3),
        Err(ExecutionError::InvalidTransition {
            from: ExecutionState::Created,
            to: ExecutionState::Completed
        })
    ));
    assert_eq!(manager.get(id).unwrap().state(), ExecutionState::Created);
}

#[test]
fn history_is_bounded_and_zero_disables_retention() {
    let mut manager = ExecutionManager::new(1);
    for _ in 0..2 {
        let (spec, context) = fixture();
        let id = manager.create(spec, context, 1).unwrap();
        manager
            .transition(id, ExecutionState::Starting, None, 2)
            .unwrap();
        manager
            .transition(
                id,
                ExecutionState::Failed,
                Some(ExecutionResult::new(None, Some("failed".into()))), 3,
            )
            .unwrap();
    }
    assert_eq!(manager.history().len(), 1);
    assert_eq!(manager.history()[0].id.get(), 2);

    let mut manager = ExecutionManager::new(0);
    let (spec, context) = fixture();
    let id = manager.create(spec, context, 1).unwrap();
    manager
        .transition(id, ExecutionState::Starting, None, 2)
        .unwrap();
    assert!(manager
        .transition(
            id,
            ExecutionState::Failed,
            Some(ExecutionResult::new(None, None)), 3)
        .unwrap()
        .is_none());
    assert_eq!(manager.history().len(), 0);
}

#[test]
fn an_execution_that_is_not_there_is_reported() {
    let mut manager = ExecutionManager::new(10);
    let (spec, context) = fixture();
    let id = manager.create(spec, context, 1).unwrap();
    manager.transition(id, ExecutionState::Starting, None, 2).unwrap();
    manager
        .transition(id, ExecutionState::Failed, Some(ExecutionResult::new(None, None)), 3)
        .unwrap();
    assert!(matches!(
        manager.transition(id, ExecutionState::Running, None, 4),
        Err(ExecutionError::NotFound(_))
    ));
}

#[test]
fn a_failed_launch_is_recorded() {
    let mut manager = ExecutionManager::new(10);
    let args = vec!["--run".to_string()];
    let id =
        begin_foreground_external(&mut manager, "tool.exe", &args, "/work".to_string(), Names::new(), 1)
            .unwrap();
    launch_failed(&mut manager, id, "no such program".to_string(), 2).unwrap();
    assert!(manager.get(id).is_none());
    let record = &manager.history()[0];
    assert_eq!(record.state, ExecutionState::Failed);
    assert_eq!(record.result.as_ref().unwrap().message.as_deref(), Some("no such program"));
}

#[test]
fn a_program_that_ran_is_recorded_with_its_process() {
    let mut manager = ExecutionManager::new(10);
    let args = vec!["--run".to_string()];
    let id =
        begin_foreground_external(&mut manager, "tool.exe", &args, "/work".to_string(), Names::new(), 1)
            .unwrap();
    launched(&mut manager, id, 77, 2).unwrap();
    let outcome = WaitOutcome::Exited { success: false, code: Some(3) };
    external_ended(&mut manager, id, 77, &outcome, 4).unwrap();
    let record = &manager.history()[0];
    assert_eq!(record.root_pid, Some(77));
    assert_eq!(record.result.as_ref().unwrap().exit_code, Some(3));
}

#[test]
fn a_secret_is_shown_as_a_stand_in() {
    let secret = SecretValue::new("hidden".to_string());
    assert_eq!(secret.expose(), "hidden");
    assert!(!secret.redacted().contains("hidden"));
}

#[test]
fn registries_that_differ_in_contexts_keep_the_same_records() {
    let (mut one, mut two) = (ExecutionManager::new(10), ExecutionManager::new(10));
    let (spec, context) = fixture();
    let other = ExecutionContext::new("elsewhere".to_string(), Names::new());
    let id = one.create(spec, context, 1).unwrap();
    assert_eq!(two.create(fixture().0, other, 1).unwrap(), id);
    for manager in [&mut one, &mut two] {
        manager.transition(id, ExecutionState::Starting, None, 2).unwrap();
        manager.transition(id, ExecutionState::Running, None, 3).unwrap();
        let result = ExecutionResult::new(Some(0), None);
        manager.transition(id, ExecutionState::Completed, Some(result), 4).unwrap();
    }
    assert_eq!(one.history(), two.history());
    assert_eq!(one.history().len(), 1);
}

#[test]
fn records_tell_nothing_of_contexts_over_a_whole_run() {
    let (mut one, mut two) = (ExecutionManager::new(10), ExecutionManager::new(10));
    let other = ExecutionContext::new("elsewhere".to_string(), Names::new());
    let (spec, context) = fixture();
    let id = one.create(spec, context, 1).unwrap();
    two.create(fixture().0, other, 100).unwrap();
    for (manager, now) in [(&mut one, 2), (&mut two, 200)] {
        manager.transition(id, ExecutionState::Starting, None, now).unwrap();
        manager.get_mut(id).unwrap().add_process(7);
        manager.get_mut(id).unwrap().set_root_pid(8);
        manager.transition(id, ExecutionState::Running, None, now + 1).unwrap();
        manager.get_mut(id).unwrap().set_process_exit(7, Some(3));
        let result = ExecutionResult::new(Some(3), None);
        manager.transition(id, ExecutionState::Failed, Some(result), now + 2).unwrap();
    }
    let mut first = one.history()[0].clone();
    let second = &two.history()[0];
    assert_ne!(first.finished_at, second.finished_at);
    first.created_at = second.created_at;
    first.started_at = second.started_at;
    first.finished_at = second.finished_at;
    assert_eq!(&first, second);
}

#[test]
fn numbers_count_the_executions() {
    let mut manager = ExecutionManager::new(0);
    for n in 1..=5u64 {
        let (spec, context) = fixture();
        let id = manager.create(spec, context, n).unwrap();
        assert_eq!(id.get(), n);
        assert_eq!(manager.get(id).unwrap().state(), ExecutionState::Created);
        assert!(manager.get(id).unwrap().processes().is_empty());
        if n % 2 == 0 {
            manager.transition(id, ExecutionState::Starting, None, n).unwrap();
            let result = ExecutionResult::new(None, Some("gone".to_string()));
            manager.transition(id, ExecutionState::Failed, Some(result), n).unwrap();
        }
    }
    assert_eq!(manager.active().len(), 3);
}
