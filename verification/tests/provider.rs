use sha2::Digest;

use summeriq::cache::AnalysisQuery;
use summeriq::cache::CacheMap;
use summeriq::cache::compute_cache_key;
use summeriq::cache::detect_language;
use summeriq::cache::finish_analysis;
use summeriq::cache::parse_dependencies;
use summeriq::cache::prepare_analysis;
use summeriq::client::client_step;
use summeriq::client::parse_wait_hint;
use summeriq::client::ClientEvent;
use summeriq::client::ClientState;
use summeriq::client::ClientStep;
use summeriq::errors::ProviderError;
use summeriq::prompts::deps_prompt;
use summeriq::prompts::purpose_prompt;
use summeriq::respond::sanitize_response;

#[test]
fn sanitize_strips_thinking_and_fillers() {
    let raw = "<think>reasoning</think>\nAlright, here is the answer.\nThis file configures the server.";
    assert_eq!(sanitize_response(raw), "This file configures the server.");
}

#[test]
fn sanitize_trims_and_drops_empty_lines() {
    let raw = "  first  \n\n   \nsecond\nI'll do something\nphrase with thinking process inside";
    assert_eq!(sanitize_response(raw), "first\nsecond");
}

#[test]
fn wait_hint_parses_both_units() {
    assert_eq!(parse_wait_hint("please try again in 250ms later"), Some(250));
    assert_eq!(parse_wait_hint("try again in 2.5s"), Some(2500));
    assert_eq!(parse_wait_hint("try again in 2s"), Some(2000));
    assert_eq!(parse_wait_hint("try again in 0.1234s"), Some(123));
    assert_eq!(parse_wait_hint("try again in .5s"), Some(500));
    assert_eq!(parse_wait_hint("try again in soon"), None);
    assert_eq!(parse_wait_hint("no hint at all"), None);
    // a captured numeral that does not parse defaults to one unit
    assert_eq!(parse_wait_hint("try again in 1.2.3ms"), Some(1));
    assert_eq!(parse_wait_hint("try again in 1.2.3s"), Some(1000));
    assert_eq!(parse_wait_hint("try again in .ms"), Some(1));
    // the first well-formed hint wins
    assert_eq!(parse_wait_hint("try again in x, or try again in 7ms"), Some(7));
    // absurdly large hints saturate instead of overflowing
    assert_eq!(
        parse_wait_hint("try again in 99999999999999999999999999ms"),
        Some(u64::MAX)
    );
}

#[test]
fn sanitize_handles_windows_line_endings() {
    let raw = "<think>plan</think>\r\nkept line\r\n";
    assert_eq!(sanitize_response(raw), "kept line");
}

#[test]
fn rate_limit_sleeps_then_retries_once() {
    let mut state = ClientState { attempts: 0, cooldown_ms: 7 };
    let first = client_step(
        &mut state,
        ClientEvent::Response {
            status: 429,
            body: "try again in 250ms".to_string(),
            completion: None,
        },
    );
    match first {
        ClientStep::RetryAfter { wait_ms } => assert_eq!(wait_ms, 250),
        _ => panic!("expected a retry"),
    }
    assert_eq!(state.attempts, 1);
    let second = client_step(
        &mut state,
        ClientEvent::Response {
            status: 200,
            body: String::new(),
            completion: Some("the answer".to_string()),
        },
    );
    match second {
        ClientStep::Succeed { text, cooldown_ms } => {
            assert_eq!(text, "the answer");
            assert_eq!(cooldown_ms, 7);
        },
        _ => panic!("expected success on the second attempt"),
    }
    // exactly one retry was observed
    assert_eq!(state.attempts, 1);
}

#[test]
fn rate_limit_gives_up_at_the_ceiling() {
    let mut state = ClientState { attempts: 0, cooldown_ms: 0 };
    let mut retries = 0;
    loop {
        let step = client_step(
            &mut state,
            ClientEvent::Response {
                status: 429,
                body: "try again in 1ms".to_string(),
                completion: None,
            },
        );
        match step {
            ClientStep::RetryAfter { .. } => retries += 1,
            ClientStep::Fail { error } => {
                assert!(matches!(error, ProviderError::RateLimited));
                break;
            },
            _ => panic!("unexpected step"),
        }
    }
    assert_eq!(retries, 4);
}

#[test]
fn statuses_map_to_their_categories() {
    let mut state = ClientState { attempts: 0, cooldown_ms: 0 };
    let unavailable = client_step(
        &mut state,
        ClientEvent::Response { status: 503, body: String::new(), completion: None },
    );
    assert!(matches!(
        unavailable,
        ClientStep::Fail { error: ProviderError::Unavailable }
    ));
    let auth = client_step(
        &mut state,
        ClientEvent::Response { status: 401, body: String::new(), completion: None },
    );
    assert!(matches!(auth, ClientStep::Fail { error: ProviderError::AuthFailure }));
    let malformed = client_step(
        &mut state,
        ClientEvent::Response { status: 200, body: String::new(), completion: None },
    );
    assert!(matches!(
        malformed,
        ClientStep::Fail { error: ProviderError::MalformedResponse }
    ));
    let too_large = client_step(
        &mut state,
        ClientEvent::Response { status: 413, body: String::new(), completion: None },
    );
    match too_large {
        ClientStep::Fail { error: ProviderError::Other(m) } => {
            assert_eq!(m, "AI request too large. Please reduce the size of your request.");
        },
        _ => panic!("expected an oversized-request failure"),
    }
    let other = client_step(
        &mut state,
        ClientEvent::Response { status: 500, body: "boom".to_string(), completion: None },
    );
    match other {
        ClientStep::Fail { error: ProviderError::Other(m) } => {
            assert_eq!(m, "AI service error: 500 - boom");
        },
        _ => panic!("expected a generic failure"),
    }
    let send_failed = client_step(
        &mut state,
        ClientEvent::SendFailed { message: "refused".to_string() },
    );
    match send_failed {
        ClientStep::Fail { error: ProviderError::Other(m) } => {
            assert_eq!(m, "Failed to connect to AI service: refused");
        },
        _ => panic!("expected a connection failure"),
    }
    // rate limit without a parsable hint fails straight away
    let no_hint = client_step(
        &mut state,
        ClientEvent::Response { status: 429, body: "slow down".to_string(), completion: None },
    );
    assert!(matches!(no_hint, ClientStep::Fail { error: ProviderError::RateLimited }));
    assert_eq!(state.attempts, 0);
}

#[test]
fn cache_key_matches_the_digest() {
    let key = compute_cache_key("a", "b");
    let mut h = sha2::Sha256::new();
    h.update("a".as_bytes());
    h.update("b".as_bytes());
    let digest = h.finalize();
    let mut expected = String::new();
    for byte in digest.iter() {
        expected.push_str(&format!("{:02x}", byte));
    }
    assert_eq!(key, expected);
    assert_eq!(key.len(), 64);
    assert_ne!(key, compute_cache_key("a", "c"));
}

#[test]
fn analyze_twice_calls_the_provider_once() {
    let mut cache = CacheMap::new();
    let mut provider_calls = 0;
    let mut analyze = |cache: &mut CacheMap, path: &str, content: &str, calls: &mut u32| {
        match prepare_analysis(cache, path, content) {
            AnalysisQuery::Cached(rec) => rec,
            AnalysisQuery::Needs { key } => {
                *calls += 1;  // one invocation covers both prompts of the stub
                let _p1 = purpose_prompt(content);
                let _p2 = deps_prompt(content);
                let purpose = "<think>x</think>\nIt runs the app.";
                let deps = "- serde: data\n- tokio";
                finish_analysis(cache, key, path, content, purpose, deps)
            },
        }
    };
    let first = analyze(&mut cache, "src/main.rs", "fn main() {}", &mut provider_calls);
    assert_eq!(provider_calls, 1);
    assert_eq!(first.language, "rs");
    assert_eq!(first.file_purpose, "It runs the app.");
    assert_eq!(first.dependencies, vec!["serde: data", "tokio"]);
    assert_eq!(first.contents, "fn main() {}");
    let second = analyze(&mut cache, "src/main.rs", "fn main() {}", &mut provider_calls);
    assert_eq!(provider_calls, 1);
    assert_eq!(second.file_purpose, first.file_purpose);
    // a different pair is a distinct identity and triggers a fresh call
    let _third = analyze(&mut cache, "src/main.rs", "fn main() { /* new */ }", &mut provider_calls);
    assert_eq!(provider_calls, 2);
}

#[test]
fn language_comes_from_the_extension() {
    assert_eq!(detect_language("src/main.rs"), "rs");
    assert_eq!(detect_language("README"), "unknown");
    assert_eq!(detect_language(".env"), "unknown");
    assert_eq!(detect_language("a/b/c.tar.gz"), "gz");
}

#[test]
fn dependencies_parse_from_dash_lines() {
    let reply = "Here they are:\n- serde: serialization\n- tokio\nNo more.";
    assert_eq!(parse_dependencies(reply), vec!["serde: serialization", "tokio"]);
    assert_eq!(parse_dependencies("No dependencies found."), Vec::<String>::new());
}
