use saba::clustering::{ApplicationCluster, ClusteringError};
use saba::controller_config::{CliSettings, Commands, Config, FileSettings};
use saba::protocol::{
    check_settings, parse_connection_action, parse_register_action, status_code, ConnectionAction,
    RegisterAction, StatusCode,
};
use saba::profiler_config::{
    CliSettings as PCliSettings, Commands as PCommands, Config as PConfig,
    FileSettings as PFileSettings,
};
use saba::first_profiler_config::{
    CliSettings as FirstCli, Config as FirstConfig, FileSettings as FirstFile,
};
use saba::registry::{ControllerError, Registry};

fn registry() -> Registry {
    Registry::new(vec!["app_a".to_string(), "app_b".to_string()])
}

#[test]
fn registration_of_known_applications() {
    let mut r = registry();
    assert_eq!(r.register("app_a"), Ok(()));
    assert_eq!(r.priority_of("app_a"), 0);
    assert_eq!(r.register("app_a"), Ok(()));
    assert_eq!(r.registered_names(), vec!["app_a".to_string()]);
    assert_eq!(
        r.register("app_c"),
        Err(ControllerError::UnknownApplication("app_c".to_string()))
    );
    assert_eq!(r.register("app_b"), Ok(()));
    assert_eq!(r.registered_names().len(), 2);
}

#[test]
fn deregistration_forgets_owned_connections() {
    let mut r = registry();
    r.register("app_a").unwrap();
    r.register("app_b").unwrap();
    r.add_connection("app_a", "n1", "n2").unwrap();
    r.add_connection("app_b", "n3", "n4").unwrap();
    assert_eq!(r.deregister("app_a"), Ok(()));
    assert_eq!(
        r.remove_connection("app_a", "n1", "n2"),
        Err(ControllerError::UnknownApplication("app_a".to_string()))
    );
    assert_eq!(r.remove_connection("app_b", "n3", "n4"), Ok(()));
    assert_eq!(
        r.deregister("app_a"),
        Err(ControllerError::NotRegistered("app_a".to_string()))
    );
}

#[test]
fn connections_need_a_registered_owner() {
    let mut r = registry();
    assert_eq!(
        r.add_connection("app_a", "n1", "n2"),
        Err(ControllerError::NotRegistered("app_a".to_string()))
    );
    r.register("app_a").unwrap();
    assert_eq!(r.add_connection("app_a", "n1", "n2"), Ok(()));
    // the same endpoints again replace the record
    assert_eq!(r.add_connection("app_a", "n1", "n2"), Ok(()));
    assert_eq!(r.remove_connection("x", "n1", "n2"), Ok(()));
    assert!(r.remove_connection("x", "n1", "n2").is_err());
}

#[test]
fn priority_levels_follow_the_last_listing_cluster() {
    let mut r = registry();
    r.register("app_a").unwrap();
    r.register("app_b").unwrap();
    let clusters = vec![
        ApplicationCluster { priority_level: 3, applications: vec!["app_a".to_string(), "ghost".to_string()], centroid: () },
        ApplicationCluster { priority_level: 5, applications: vec!["app_a".to_string()], centroid: () },
    ];
    r.apply_levels(&clusters);
    assert_eq!(r.priority_of("app_a"), 5);
    assert_eq!(r.priority_of("app_b"), 0);
    assert_eq!(r.priority_of("ghost"), 0);
}

#[test]
fn actions_in_any_case() {
    assert_eq!(parse_register_action("Register"), Some(RegisterAction::Register));
    assert_eq!(parse_register_action("DEREGISTER"), Some(RegisterAction::Deregister));
    assert_eq!(parse_register_action("join"), None);
    assert_eq!(parse_connection_action("Create"), Some(ConnectionAction::Create));
    assert_eq!(parse_connection_action("destroy"), Some(ConnectionAction::Destroy));
    assert_eq!(parse_connection_action("create "), None);
}

#[test]
fn error_statuses() {
    assert_eq!(status_code(&ControllerError::UnknownApplication("a".into())), StatusCode::NotFound);
    assert_eq!(status_code(&ControllerError::NotRegistered("a".into())), StatusCode::FailedPrecondition);
    assert_eq!(
        status_code(&ControllerError::Clustering(ClusteringError::EmptyInput)),
        StatusCode::ResourceExhausted
    );
    assert_eq!(status_code(&ControllerError::InvalidSettings("x")), StatusCode::FailedPrecondition);
}

#[test]
fn settings_checks_in_order() {
    assert_eq!(check_settings(4, 8), Ok(()));
    assert_eq!(
        check_settings(0, 0),
        Err(ControllerError::InvalidSettings("queue budget must be greater than zero"))
    );
    assert_eq!(
        check_settings(1, 0),
        Err(ControllerError::InvalidSettings("max priority levels must be greater than zero"))
    );
}

fn no_cli() -> CliSettings<String, f32> {
    CliSettings {
        topology_file: None,
        sensitivity_table: None,
        queue_budget: None,
        saba_capacity: None,
        max_priority_levels: None,
        min_share: None,
        verbose: 0,
        ip: None,
        port: None,
        command: None,
    }
}

#[test]
fn configuration_precedence() {
    let defaults: Config<String, f32> = Config::resolve("/tmp/topology".to_string(), 0.9, 0.0, None, no_cli());
    assert_eq!(defaults.ip, "127.0.0.1");
    assert_eq!(defaults.port, 8080);
    assert_eq!(defaults.queue_budget, 4);
    assert_eq!(defaults.max_priority_levels, 8);
    assert_eq!(defaults.command, Commands::Nop);
    assert_eq!(defaults.topology_file, "/tmp/topology");
    assert!(defaults.sensitivity_table.is_none());
    let file = FileSettings {
        ip: Some("10.0.0.1".to_string()),
        port: Some(9000),
        sensitivity_table: Some("table.json".to_string()),
        queue_budget: Some(2),
        saba_capacity: Some(0.5),
        max_priority_levels: None,
        min_share: None,
    };
    let mut cli = no_cli();
    cli.port = Some(9100);
    cli.command = Some(Commands::Start);
    cli.verbose = 2;
    let c = Config::resolve("/tmp/topology".to_string(), 0.9, 0.0, Some(file), cli);
    assert_eq!(c.ip, "10.0.0.1");
    assert_eq!(c.port, 9100);
    assert_eq!(c.queue_budget, 2);
    assert_eq!(c.saba_capacity, 0.5);
    assert_eq!(c.max_priority_levels, 8);
    assert_eq!(c.sensitivity_table.as_deref(), Some("table.json"));
    assert_eq!(c.command, Commands::Start);
    assert_eq!(c.verbose, 2);
}

#[test]
fn profiler_configuration_precedence() {
    let file = PFileSettings { profile_csv: Some("p.csv".to_string()), output: None, degree_of_polynomial: Some(3) };
    let cli = PCliSettings { verbose: 1, profile_csv: None, output: Some("o.json".to_string()), degree: None, command: Some(PCommands::Profile) };
    let c = PConfig::resolve(Some(file), cli);
    assert_eq!(c.profile_csv.as_deref(), Some("p.csv"));
    assert_eq!(c.output_path.as_deref(), Some("o.json"));
    assert_eq!(c.degree_of_polynomial, 3);
    assert_eq!(c.command, PCommands::Profile);
    let d: PConfig<String> = PConfig::resolve(None, PCliSettings { verbose: 0, profile_csv: None, output: None, degree: None, command: None });
    assert_eq!(d.degree_of_polynomial, 2);
    assert_eq!(d.command, PCommands::Nop);
}

#[test]
fn first_profiler_configuration() {
    let config = FirstConfig::resolve(None, FirstCli { verbose: 2, command: None });
    assert_eq!(config.application, "");
    assert_eq!(config.number_of_nodes, 0);
    assert_eq!(config.degree_of_polynomial, 0);
    assert_eq!(config.command, PCommands::Nop);
    assert_eq!(config.verbose, 2);
    let config = FirstConfig::resolve(
        Some(FirstFile { number_of_nodes: Some(8), degree_of_polynomial: None }),
        FirstCli { verbose: 0, command: Some(PCommands::Profile) },
    );
    assert_eq!(config.number_of_nodes, 8);
    assert_eq!(config.degree_of_polynomial, 0);
    assert_eq!(config.command, PCommands::Profile);
}
