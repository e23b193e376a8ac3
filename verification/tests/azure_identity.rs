use dataflow_extensions::azure_identity_auth::auth::{Auth, Credential, CredentialRequest};
use dataflow_extensions::azure_identity_auth::config::{default_scope, AuthMethod, Config};
use dataflow_extensions::azure_identity_auth::error::AuthError;
use dataflow_extensions::azure_identity_auth::extension::{
    AccessToken, AzureIdentityAuthExtension, LoopAction, RefreshEvent, RefreshLoop,
    AZURE_IDENTITY_AUTH_URN,
};
use dataflow_extensions::azure_identity_auth::metrics::{
    AzureIdentityAuthMetrics, AzureIdentityAuthMetricsTracker,
};
use dataflow_extensions::azure_identity_auth::refresh::{
    fresh, get_next_token_refresh, refresh_in, retry_after_failure, unix_secs_to_instant,
    NANOS_PER_SEC,
};
use dataflow_extensions::azure_identity_auth_extension as node;
use dataflow_extensions::azure_identity_auth_extension::{
    azure_identity_auth_extension, retry_delay_secs, AZURE_IDENTITY_AUTH_EXTENSION_URN,
};
use dataflow_extensions::capability::bearer_token_provider::{BearerToken, Secret};
use dataflow_extensions::config::extension::ConfigValue;
use dataflow_extensions::extension::control::{ExtensionControlMsg, RecvError};
use dataflow_extensions::extensions::bearer_token_provider as plain;

fn at(seconds: u128) -> u128 {
    seconds * NANOS_PER_SEC
}

fn expiring(seconds: u128) -> BearerToken {
    BearerToken::new(Secret::new("t".to_string()), at(seconds))
}

fn config(method: AuthMethod, client_id: Option<&str>) -> Config {
    Config { method, client_id: client_id.map(|c| c.to_string()), scope: "scope".to_string() }
}

#[test]
fn default_config_uses_managed_identity_and_monitor_scope() {
    let cfg = Config::default();
    assert_eq!(cfg.method, AuthMethod::ManagedIdentity);
    assert!(cfg.client_id.is_none());
    assert_eq!(cfg.scope, "https://monitor.azure.com/.default");
    assert!(cfg.validate().is_ok());
    assert_eq!(AuthMethod::default(), AuthMethod::ManagedIdentity);
    assert_eq!(default_scope(), cfg.scope);
}

#[test]
fn empty_scope_fails_validation() {
    let cfg = Config { scope: "   ".to_string(), ..Config::default() };
    assert!(cfg.validate().is_err());
    match cfg.validate() {
        Err(AuthError::InvalidConfig { message }) => {
            assert_eq!(message, "oauth scope cannot be empty")
        }
        _ => panic!("an empty scope must be refused"),
    }
    let cfg = Config { scope: " x ".to_string(), ..Config::default() };
    assert!(cfg.validate().is_ok());
}

#[test]
fn auth_method_aliases_deserialize() {
    assert_eq!(AuthMethod::from_name("msi"), Some(AuthMethod::ManagedIdentity));
    assert_eq!(AuthMethod::from_name("cli"), Some(AuthMethod::Development));
    assert_eq!(AuthMethod::from_name("managedidentity"), Some(AuthMethod::ManagedIdentity));
    assert_eq!(AuthMethod::from_name("managed_identity"), Some(AuthMethod::ManagedIdentity));
    assert_eq!(AuthMethod::from_name("development"), Some(AuthMethod::Development));
    assert_eq!(AuthMethod::from_name("dev"), Some(AuthMethod::Development));
    assert_eq!(AuthMethod::from_name("developer"), Some(AuthMethod::Development));
    assert_eq!(AuthMethod::from_name("MSI"), None);
    assert_eq!(AuthMethod::ManagedIdentity.label(), "managed_identity");
    assert_eq!(AuthMethod::Development.label(), "development");
}

#[test]
fn a_configuration_asks_for_its_credential() {
    assert!(matches!(
        Auth::credential_request(&config(AuthMethod::ManagedIdentity, Some("me"))),
        CredentialRequest::ManagedIdentity { client_id: Some(c) } if c == "me"
    ));
    assert!(matches!(
        Auth::credential_request(&config(AuthMethod::ManagedIdentity, None)),
        CredentialRequest::ManagedIdentity { client_id: None }
    ));
    assert!(matches!(
        Auth::credential_request(&config(AuthMethod::Development, Some("me"))),
        CredentialRequest::DeveloperTools
    ));
}

#[test]
fn developer_tools_give_a_credential() {
    let auth = Auth::new(&config(AuthMethod::Development, None)).ok().unwrap();
    assert!(matches!(auth.credential(), Credential::DeveloperTools(_)));
    assert_eq!(auth.scope(), "scope");
    assert_eq!(auth.credential_type(), "developer_tools");
}

#[test]
fn managed_identities_give_a_credential_or_its_error() {
    for (client, flow) in [
        (None, "system_assigned_managed_identity"),
        (Some("client"), "user_assigned_managed_identity"),
    ] {
        match Auth::new(&config(AuthMethod::ManagedIdentity, client)) {
            Ok(auth) => {
                assert!(matches!(auth.credential(), Credential::ManagedIdentity(_)));
                assert_eq!(auth.credential_type(), flow);
            }
            Err(AuthError::CreateCredential { method, .. }) => {
                assert_eq!(method, AuthMethod::ManagedIdentity)
            }
            Err(_) => panic!("no other error is possible"),
        }
    }
}

#[test]
fn tokens_are_fresh_until_the_buffer() {
    assert!(fresh(&expiring(1300), at(1000)));
    assert!(!fresh(&expiring(1299), at(1000)));
    assert!(fresh(&BearerToken::non_expiring(Secret::new("t".to_string())), at(1000)));
}

#[test]
fn refreshes_come_at_the_buffer_but_not_in_a_rush() {
    assert_eq!(get_next_token_refresh(&expiring(5000), at(1000)), at(4701));
    assert_eq!(get_next_token_refresh(&expiring(1309), at(1000)), at(1010));
    assert_eq!(get_next_token_refresh(&expiring(1310), at(1000)), at(1011));
    assert_eq!(get_next_token_refresh(&expiring(900), at(1000)), at(1010));
    assert_eq!(get_next_token_refresh(&expiring(0), 0), at(10));
    let forever = BearerToken::non_expiring(Secret::new("t".to_string()));
    assert_eq!(get_next_token_refresh(&forever, at(1)), at(31_536_001));
    assert_eq!(retry_after_failure(at(1000)), at(1010));
}

#[test]
fn refresh_and_staleness_meet() {
    let token = expiring(5000);
    let next = get_next_token_refresh(&token, at(1000));
    assert!(fresh(&token, next - 1));
    assert!(!fresh(&token, next));
}

#[test]
fn unix_times_map_to_the_monotonic_clock() {
    assert_eq!(unix_secs_to_instant(1_700_000_100, 1_700_000_000, at(5)), at(105));
    assert_eq!(unix_secs_to_instant(1_699_999_999, 1_700_000_000, at(5)), at(5));
    assert_eq!(unix_secs_to_instant(i64::MAX, -1, 0), at(i64::MAX as u128));
}

#[test]
fn the_time_to_the_refresh_is_shown() {
    assert_eq!(refresh_in(at(3725) + 999, 0), "1h 2m 5s");
    assert_eq!(refresh_in(at(1), at(2)), "0h 0m 0s");
}

fn extension() -> AzureIdentityAuthExtension {
    let metrics = AzureIdentityAuthMetrics {
        auth_successes: 0,
        auth_failures: 0,
        auth_token_publish: 0,
    };
    AzureIdentityAuthExtension::new(
        "azure".to_string(),
        Auth::new(&config(AuthMethod::Development, None)).ok().unwrap(),
        AzureIdentityAuthMetricsTracker::new(metrics),
    )
}

#[test]
fn a_token_that_azure_gives_is_kept_at_hand() {
    let mut ext = extension();
    assert_eq!(ext.name(), "azure");
    assert_eq!(ext.auth().scope(), "scope");
    assert!(ext.fresh_cached(at(1000)).is_none());
    let answer = AccessToken { secret: "secret".to_string(), expires_on: 9000 };
    let token = ext.fetch_and_publish(Ok(answer), 8000, at(1000)).ok().unwrap();
    assert_eq!(token.token.secret(), "secret");
    assert_eq!(token.expires_on, Some(at(2000)));
    assert_eq!(ext.fresh_cached(at(1000)).unwrap().token.secret(), "secret");
    assert!(ext.fresh_cached(at(1701)).is_none());
    let counters = ext.metrics();
    assert_eq!(counters.auth_successes, 1);
    assert_eq!(counters.auth_failures, 0);
    assert_eq!(counters.auth_token_publish, 1);
}

#[test]
fn a_refusal_is_counted_and_keeps_the_token() {
    let mut ext = extension();
    let answer = AccessToken { secret: "secret".to_string(), expires_on: 9000 };
    assert!(ext.fetch_and_publish(Ok(answer), 8000, at(1000)).is_ok());
    let refusal = AuthError::InvalidConfig { message: "no".to_string() };
    match ext.fetch_and_publish(Err(refusal), 8000, at(1000)) {
        Err(AuthError::InvalidConfig { message }) => assert_eq!(message, "no"),
        _ => panic!("the refusal must come back"),
    }
    assert!(ext.fresh_cached(at(1000)).is_some());
    assert_eq!(ext.metrics().auth_failures, 1);
    assert_eq!(ext.metrics().auth_successes, 1);
}

#[test]
fn errors_name_the_extension_and_its_capability() {
    let error = extension().capability_error("refused".to_string());
    assert_eq!(
        error.message(&error.source),
        "capability `bearer_token_provider` on extension `azure` failed: refused"
    );
    assert_eq!(AZURE_IDENTITY_AUTH_URN, "urn:microsoft:extension:azure_identity_auth");
}

#[test]
fn the_refresh_loop_goes_on_until_it_is_stopped() {
    let mut refresh_loop = RefreshLoop::new(at(7));
    assert_eq!(refresh_loop.next_refresh, at(7));
    assert_eq!(refresh_loop.start(RefreshEvent::Refreshed(None), at(100)), LoopAction::Wait);
    assert_eq!(refresh_loop.next_refresh, at(110));
    let token = expiring(1000);
    let refreshed = RefreshEvent::Refreshed(Some(&token));
    assert_eq!(refresh_loop.start(refreshed, at(100)), LoopAction::Wait);
    assert_eq!(refresh_loop.next_refresh, at(701));
    let mut control = |message| refresh_loop.start(RefreshEvent::Control(message), at(200));
    let shutdown = ExtensionControlMsg::Shutdown { deadline: 0, reason: String::new() };
    assert_eq!(control(Ok(shutdown)), LoopAction::Stop);
    let change = ExtensionControlMsg::Config { config: ConfigValue::Null };
    assert_eq!(control(Ok(change)), LoopAction::Wait);
    assert_eq!(control(Ok(ExtensionControlMsg::CollectTelemetry)), LoopAction::ReportMetrics);
    assert_eq!(control(Err(RecvError::Closed)), LoopAction::Stop);
    assert_eq!(refresh_loop.next_refresh, at(701));
}

#[test]
fn test_extension_urn() {
    assert_eq!(
        AZURE_IDENTITY_AUTH_EXTENSION_URN,
        "urn:microsoft:extension:azure_identity_auth"
    );
}

#[test]
fn test_factory_name_matches_urn() {
    assert_eq!(azure_identity_auth_extension().name, AZURE_IDENTITY_AUTH_EXTENSION_URN);
}

#[test]
fn retry_delays_double_up_to_the_longest() {
    let delays: Vec<u64> = (1..=6).map(retry_delay_secs).collect();
    assert_eq!(delays, vec![5, 10, 20, 30, 30, 30]);
    assert_eq!(retry_delay_secs(u32::MAX), 30);
}

fn access(secret: &str, expires_on: i64) -> AccessToken {
    AccessToken { secret: secret.to_string(), expires_on }
}

fn refused() -> AuthError {
    AuthError::InvalidConfig { message: "no".to_string() }
}

#[test]
fn attempts_go_on_until_there_is_a_token() {
    match node::get_token_with_retry(3, Ok(access("t", 9000))) {
        node::RetryStep::Done(token) => assert_eq!(token.secret, "t"),
        node::RetryStep::Retry { .. } => panic!("there is a token"),
    }
    for (attempt, delay) in [(1, 5), (2, 10), (3, 20), (4, 30)] {
        assert!(matches!(
            node::get_token_with_retry(attempt, Err(refused())),
            node::RetryStep::Retry { delay_secs } if delay_secs == delay
        ));
    }
    let token = node::get_token(access("t", 9000));
    assert_eq!(token.token.secret(), "t");
    assert_eq!(token.expires_on, 9000);
}

#[test]
fn the_event_loop_hands_tokens_on() {
    let mut events = node::EventLoop::start(at(1));
    assert_eq!(events.next_token_refresh, at(1));
    let token = plain::BearerToken::new(Secret::new("t".to_string()), 9000);
    assert_eq!(node::get_next_token_refresh(&token, 8000, at(100)), at(801));
    assert_eq!(node::get_next_token_refresh(&token, 8691, at(100)), at(110));
    assert_eq!(node::get_next_token_refresh(&token, 8690, at(100)), at(111));
    assert_eq!(node::get_next_token_refresh(&token, 9999, at(100)), at(110));
    match events.run_event_loop(node::LoopEvent::Refreshed(Ok(access("s", 9000))), 8000, at(100)) {
        node::LoopAction::Broadcast(token) => assert_eq!(token.token.secret(), "s"),
        _ => panic!("the token should be handed on"),
    }
    assert_eq!(events.next_token_refresh, at(801));
    let action = events.run_event_loop(node::LoopEvent::Refreshed(Err(refused())), 8000, at(100));
    assert!(matches!(action, node::LoopAction::Wait));
    assert_eq!(events.next_token_refresh, at(110));
    let mut control = |message| {
        events.run_event_loop(node::LoopEvent::Control(message), 8000, at(100))
    };
    let shutdown = ExtensionControlMsg::Shutdown { deadline: 0, reason: String::new() };
    assert!(matches!(control(Ok(shutdown)), node::LoopAction::Stop));
    assert!(matches!(
        control(Ok(ExtensionControlMsg::CollectTelemetry)),
        node::LoopAction::Wait
    ));
    assert!(matches!(
        control(Err(RecvError::Closed)),
        node::LoopAction::Fail(RecvError::Closed)
    ));
    assert_eq!(events.next_token_refresh, at(110));
}

#[test]
fn non_expiring_token_constructor() {
    let t = BearerToken::non_expiring(Secret::new("static-key".to_string()));
    assert!(t.expires_on.is_none());
    assert_eq!(t.token.secret(), "static-key");
}

#[test]
fn secrets_are_equal_when_their_texts_are() {
    let secret = |s: &str| Secret::new(s.to_string());
    assert!(secret("aé") == secret("aé"));
    assert!(secret("ab") != secret("ac"));
    assert!(secret("ab") != secret("abc"));
    assert!(Secret::from("x".to_string()) == secret("x").clone());
}
