use relay::startup::startup_action;
use relay::startup::StartupAction;

#[test]
fn no_argument_means_usage_and_no_bind() {
    let action = startup_action(None);
    assert!(matches!(action, StartupAction::Usage));
}

#[test]
fn the_argument_is_the_bind_address() {
    let action = startup_action(Some("0.0.0.0:9000".to_string()));
    match action {
        StartupAction::Bind(bind) => assert_eq!(bind, "0.0.0.0:9000"),
        StartupAction::Usage => panic!("an argument must lead to a bind"),
    }
}
