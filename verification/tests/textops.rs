use summeriq::api::build_chat_prompt;
use summeriq::api::decode_path;
use summeriq::api::parse_request_path;
use summeriq::api::password_long_enough;
use summeriq::api::strip_bearer;
use summeriq::api::ChatRequest;
use summeriq::config::ErrorResponse;
use summeriq::manifest::cargo_toml_dependencies;
use summeriq::manifest::package_json_dependencies;
use summeriq::markdown::extract_markdown_section;
use summeriq::markdown::normalize_name;
use summeriq::storage::project_id_prefix;
use summeriq::storage::Storage;
use summeriq::synth::assemble_summaries;
use summeriq::synth::dedup_strings;
use summeriq::synth::find_readme;
use summeriq::synth::render_structure;
use summeriq::synth::DocSession;
use summeriq::synth::FileOutcome;
use summeriq::synth::SynthStage;
use summeriq::prompts::file_prompt;
use summeriq::prompts::final_prompt;
use summeriq::prompts::structure_prompt;

#[test]
fn markdown_section_is_extracted_by_heading() {
    let content = "# Intro\nhi\n\n## Setup\ninstall things\nrun things\n\n## Usage\nuse it";
    let section = extract_markdown_section(content, &["setup", "installation"]);
    assert_eq!(section, Some("install things\nrun things".to_string()));
    // a heading of the same level ends the section; a missing heading yields nothing
    assert_eq!(extract_markdown_section(content, &["deploy"]), None);
    // deeper headings stay inside the section
    let nested = "# Getting Started\nfirst\n### Detail\nsecond\n# Other\nthird";
    assert_eq!(
        extract_markdown_section(nested, &["getting started"]),
        Some("first\n### Detail\nsecond".to_string())
    );
}

#[test]
fn names_normalize_to_ascii_alphanumerics() {
    assert_eq!(normalize_name("My-App_1"), "myapp1");
    assert_eq!(normalize_name("  Hello World!  "), "helloworld");
}

#[test]
fn cargo_manifest_dependencies_are_read() {
    let toml = "[package]\nname = \"x\"\n\n[dependencies]\nserde = \"1\"\ntokio = { version = \"1\" }\n\n[dev-dependencies]\nother = \"1\"\n";
    assert_eq!(cargo_toml_dependencies(toml), vec!["serde", "tokio"]);
    assert_eq!(cargo_toml_dependencies("no deps here"), Vec::<String>::new());
}

#[test]
fn package_manifest_dependencies_are_read() {
    let json = "{\n  \"name\": \"x\",\n  \"dependencies\": {\n    \"react\": \"^18\",\n    \"express\": \"^4\"\n  },\n  \"devDependencies\": {}\n}";
    assert_eq!(package_json_dependencies(json), vec!["react", "express"]);
}

#[test]
fn storage_builds_keys_and_reads_prefixes() {
    let s = Storage::new("base/dir".to_string());
    assert_eq!(s.get_file_path("file.zip"), "base/dir/file.zip");
    assert_eq!(project_id_prefix("abcd_project"), Some("abcd".to_string()));
    assert_eq!(project_id_prefix("project"), None);
    let e = ErrorResponse::new("broken".to_string());
    assert_eq!(e.error, "broken");
}

#[test]
fn request_paths_decode_and_split() {
    assert_eq!(decode_path("a%20b"), "a b");
    assert_eq!(decode_path("plain"), "plain");
    let (project, inner) = parse_request_path("/myproj/src/main.rs");
    assert_eq!(project, "myproj");
    assert_eq!(inner, "src/main.rs");
    let (p2, i2) = parse_request_path("bare");
    assert_eq!(p2, "bare");
    assert_eq!(i2, "");
}

#[test]
fn bearer_tokens_are_stripped() {
    assert_eq!(strip_bearer("Bearer abc.def"), Some("abc.def".to_string()));
    assert_eq!(strip_bearer("Basic abc"), None);
    assert!(password_long_enough("12345678"));
    assert!(!password_long_enough("1234567"));
}

#[test]
fn chat_prompts_follow_the_context() {
    let with_file = ChatRequest {
        message: "what is this?".to_string(),
        project_name: Some("proj".to_string()),
        selected_file_name: Some("main.rs".to_string()),
        selected_file_path: Some("src/main.rs".to_string()),
    };
    let p = build_chat_prompt(&with_file);
    assert!(p.contains("'proj' project"));
    assert!(p.contains("viewing the file 'main.rs'"));
    assert!(p.contains("located at 'src/main.rs'"));
    let project_only = ChatRequest {
        message: "hello".to_string(),
        project_name: Some("proj".to_string()),
        selected_file_name: None,
        selected_file_path: None,
    };
    assert!(build_chat_prompt(&project_only).contains("helping with the 'proj' project"));
    let plain = ChatRequest {
        message: "hello".to_string(),
        project_name: None,
        selected_file_name: None,
        selected_file_path: None,
    };
    assert!(build_chat_prompt(&plain).starts_with("User question: hello"));
}

#[test]
fn structure_rendering_marks_directories() {
    let flat: Vec<(String, bool)> = vec![
        ("src".to_string(), true),
        ("src/main.rs".to_string(), false),
    ];
    assert_eq!(render_structure(&flat), "[DIR] src\n      src/main.rs\n");
    let prompt = structure_prompt("[DIR] src\n");
    assert!(prompt.contains("[DIR] src\n"));
    assert!(prompt.contains("expert technical writer and software architect"));
}

#[test]
fn readmes_are_found_case_insensitively() {
    let flat: Vec<(String, bool)> = vec![
        ("src".to_string(), true),
        ("docs/ReadMe.MD".to_string(), false),
        ("README.md".to_string(), false),
    ];
    assert_eq!(find_readme(&flat), Some("docs/ReadMe.MD".to_string()));
    assert_eq!(find_readme(&Vec::new()), None);
}

#[test]
fn dedup_keeps_first_occurrences() {
    let v: Vec<String> = vec![
        "serde".to_string(),
        "tokio".to_string(),
        "serde".to_string(),
        "axum".to_string(),
        "tokio".to_string(),
    ];
    assert_eq!(dedup_strings(&v), vec!["serde", "tokio", "axum"]);
}

#[test]
fn session_runs_its_stages_in_order() {
    let flat: Vec<(String, bool)> = vec![
        ("Cargo.toml".to_string(), false),
        ("src".to_string(), true),
        ("src/main.rs".to_string(), false),
    ];
    let mut session = DocSession::new("proj".to_string(), flat);
    assert!(matches!(session.stage, SynthStage::Structure));
    let mut provider_calls = 0;
    // structure stage: one prompt, answered
    provider_calls += 1;
    session.advance_structure(Some("overview text".to_string()));
    assert!(matches!(session.stage, SynthStage::PerFile));
    assert_eq!(session.key_files.len(), 2);
    // per-file stage: the manifest also yields dependency names
    while matches!(session.stage, SynthStage::PerFile) {
        let path = session.current_file().unwrap();
        provider_calls += 1;
        let outcome = if path == "Cargo.toml" {
            FileOutcome::Read {
                content: "[dependencies]\nserde = \"1\"\n".to_string(),
                summary: Some("the manifest".to_string()),
            }
        } else {
            FileOutcome::Read { content: "fn main() {}".to_string(), summary: None }
        };
        session.record_file(outcome);
    }
    assert!(matches!(session.stage, SynthStage::Final));
    assert_eq!(provider_calls, 3);
    let (all_summaries, omitted) = assemble_summaries(
        &session.structure_summary,
        &session.file_analyses,
    );
    assert_eq!(omitted, 0);
    assert!(all_summaries.starts_with("# Project Structure Overview\n\noverview text"));
    assert!(all_summaries.contains("## `Cargo.toml`\nthe manifest\n\n"));
    assert!(all_summaries.contains("No summary available for src/main.rs"));
    let fp = final_prompt(&all_summaries);
    assert!(fp.contains(&all_summaries));
    let doc = session.finish(None, "run cargo".to_string());
    assert_eq!(doc.project_name, "proj");
    assert_eq!(doc.description, "No documentation available.");
    assert_eq!(doc.architecture, "overview text");
    assert_eq!(doc.dependencies, vec!["serde"]);
    assert_eq!(doc.setup_instructions, "run cargo");
    assert_eq!(doc.file_analyses.len(), 2);
}

#[test]
fn omitted_summaries_are_counted_in_the_note() {
    let flat: Vec<(String, bool)> = vec![
        ("a.txt".to_string(), false),
        ("b.txt".to_string(), false),
    ];
    let mut session = DocSession::new("p".to_string(), flat);
    session.advance_structure(Some("x".repeat(9_990)));
    while matches!(session.stage, SynthStage::PerFile) {
        let _ = session.current_file().unwrap();
        session.record_file(FileOutcome::Read {
            content: "data".to_string(),
            summary: Some("y".repeat(50)),
        });
    }
    // the base already nearly fills the cumulative cap, so both entries drop
    let (text, omitted) = assemble_summaries(&session.structure_summary, &session.file_analyses);
    assert_eq!(omitted, 2);
    assert!(text.ends_with(
        "\n--- Some file summaries omitted due to size limits (2 omitted). ---\n"
    ));
}

#[test]
fn empty_projects_reach_the_final_stage_directly() {
    let mut session = DocSession::new("p".to_string(), Vec::new());
    session.advance_structure(None);
    assert!(matches!(session.stage, SynthStage::Final));
    assert!(session.key_files.is_empty());
    let doc = session.finish(None, String::new());
    assert_eq!(doc.description, "No documentation available.");
    assert!(doc.file_analyses.is_empty());
    assert!(doc.dependencies.is_empty());
}

#[test]
fn unreadable_files_keep_an_empty_description() {
    let flat: Vec<(String, bool)> = vec![("main.rs".to_string(), false)];
    let mut session = DocSession::new("p".to_string(), flat);
    session.advance_structure(None);
    assert_eq!(session.structure_summary, "");
    session.record_file(FileOutcome::Unreadable);
    assert!(matches!(session.stage, SynthStage::Final));
    assert_eq!(session.file_analyses[0].description, "");
    assert_eq!(session.file_analyses[0].name, "main.rs");
    let p = file_prompt("main.rs", "fn main");
    assert!(p.contains("`main.rs`"));
    assert!(p.contains("---\nfn main\n---"));
}
