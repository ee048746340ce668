use ion_win::execution::ExecutionId;
use ion_win::jobctl::{
    cancel_execution, interrupt_requested, request_interrupt, take_interrupt, CancelStep, Cancellation,
    Interrupts,
};

#[test]
fn interrupt_flag_behaves() {
    let mut flag = Interrupts::default();
    take_interrupt(&mut flag);
    assert!(!take_interrupt(&mut flag), "flag should start clear");
    request_interrupt(&mut flag, nothing());
    assert!(
        interrupt_requested(&flag),
        "non-consuming check should see the flag"
    );
    assert!(
        interrupt_requested(&flag),
        "non-consuming check must leave the flag set"
    );
    assert!(take_interrupt(&mut flag), "request_interrupt should set the flag");
    assert!(
        !take_interrupt(&mut flag),
        "flag should be consumed by the first take"
    );
}

fn nothing() -> Cancellation {
    Cancellation { process_ids: Vec::new(), execution_ids: Vec::new() }
}

#[test]
fn processes_are_signalled_before_they_are_terminated() {
    let found = Cancellation { process_ids: vec![5, 6], execution_ids: vec![ExecutionId(1)] };
    assert_eq!(
        cancel_execution(Ok(found)).unwrap(),
        [
            CancelStep::Signal(5),
            CancelStep::Signal(6),
            CancelStep::TerminateAfter(750, vec![ExecutionId(1)]),
        ]
    );
    assert!(cancel_execution(Ok(nothing())).unwrap().is_empty());
    assert_eq!(cancel_execution(Err("gone".to_string())), Err("gone".to_string()));
}
