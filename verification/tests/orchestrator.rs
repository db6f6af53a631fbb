use servery::api::{response_status, ApiStatus};
use servery::config::{merge_host_defaults, HostSettings, RestartPolicy};
use servery::errors::ServiceError;
use servery::orchestrator::{instance_name, launch_result, u64_to_dec, LaunchOutcome};
use servery::registry::{NewServer, Registry};
use servery::vars::VarMap;
use servery::AppState;

fn request(name: &str) -> NewServer {
    NewServer {
        name: name.to_string(),
        version: None,
        mods: Vec::new(),
    }
}

#[test]
fn instance_names_are_deterministic() {
    assert_eq!(instance_name("servery", 0), "servery_0");
    assert_eq!(instance_name("servery", 12345), "servery_12345");
    assert_eq!(u64_to_dec(0), "0");
    assert_eq!(u64_to_dec(18446744073709551615), "18446744073709551615");
}

#[test]
fn create_renders_the_template_with_call_bindings() {
    let state = AppState {
        name: "servery".to_string(),
    };
    let mut reg = Registry::new();
    let mut env = VarMap::new();
    env.insert("HOME", "/srv");
    // A call-specific binding must beat a same-named environment entry.
    env.insert("name", "wrong");
    let template = "Main = { image = \"{app}:latest\" } \nHost = { Binds = [\"{name}_data:/data\"], Home = \"{HOME}\" }";
    let plan = request("factory").create(&state.name, &mut reg, template, env);
    assert_eq!(plan.id, 0);
    assert_eq!(plan.instance_name, "servery_0");
    assert_eq!(
        plan.rendered,
        "Main = { image = \"servery:latest\" } \nHost = { Binds = [\"servery_0_data:/data\"], Home = \"/srv\" }"
    );
    assert_eq!(reg.all().len(), 1);
    assert_eq!(reg.all()[0].name, "factory");
}

#[test]
fn runtime_failure_leaves_the_orphan_record() {
    let state = AppState {
        name: "servery".to_string(),
    };
    let mut reg = Registry::new();
    let plan = request("doomed").create(&state.name, &mut reg, "Main = {}", VarMap::new());
    // The container runtime is made to fail deterministically.
    let reported = launch_result(plan.id, LaunchOutcome::RuntimeFailed);
    assert_eq!(reported, Err(ServiceError::Runtime));
    let orphan = reg.by_id(plan.id).expect("record must persist");
    assert_eq!(orphan.name, "doomed");
}

#[test]
fn launch_outcomes_map_to_their_tags() {
    assert_eq!(launch_result(3, LaunchOutcome::Started), Ok(3));
    assert_eq!(
        launch_result(3, LaunchOutcome::ConfigRejected),
        Err(ServiceError::Template)
    );
    assert_eq!(
        launch_result(3, LaunchOutcome::StoreFailed),
        Err(ServiceError::Storage)
    );
    assert_eq!(
        launch_result(3, LaunchOutcome::RuntimeFailed),
        Err(ServiceError::Runtime)
    );
}

#[test]
fn response_statuses_follow_the_taxonomy() {
    assert_eq!(response_status(&Ok(9)), ApiStatus::Created);
    assert_eq!(
        response_status(&Err(ServiceError::DuplicateIdentity(9))),
        ApiStatus::Conflict
    );
    assert_eq!(response_status(&Err(ServiceError::Storage)), ApiStatus::Internal);
    assert_eq!(response_status(&Err(ServiceError::Template)), ApiStatus::Internal);
    assert_eq!(response_status(&Err(ServiceError::Runtime)), ApiStatus::Internal);
}

#[test]
fn explicit_restart_policy_is_never_overridden() {
    let kept = merge_host_defaults(Some(HostSettings {
        restart_policy: Some(RestartPolicy::Always),
    }));
    assert_eq!(kept.restart_policy, Some(RestartPolicy::Always));

    let filled = merge_host_defaults(Some(HostSettings {
        restart_policy: None,
    }));
    assert_eq!(filled.restart_policy, Some(RestartPolicy::UnlessStopped));

    let synthesized = merge_host_defaults(None);
    assert_eq!(synthesized.restart_policy, Some(RestartPolicy::UnlessStopped));
}
