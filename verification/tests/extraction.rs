use contexthub::llm::{
    build_prompt, decode_fields, decode_reply, extract_context, extraction_from_reply, find_first,
    find_last, frame_json, get_models, join, parse_response, read_impact, without_repeats, ExtractError, ExtractedContext, RawContext,
};
use contexthub::text::{from_chars, to_chars};

fn strings(items: &[&str]) -> Vec<String> {
    items.iter().map(|s| s.to_string()).collect()
}

#[test]
fn empty_reply_gives_the_sentinel_record() {
    let c = parse_response("");
    assert_eq!(c.summary, "Empty response from LLM");
    assert!(c.files_changed.is_empty());
    assert!(c.key_details.is_empty());
    assert!(c.technologies.is_empty());
    assert_eq!(c.impact, "low");
}

#[test]
fn non_json_reply_falls_back() {
    let c = parse_response("I cannot help with that");
    assert_eq!(c.impact, "low");
    assert!(c.files_changed.is_empty());
    assert!(c.key_details.is_empty());
    assert!(c.technologies.is_empty());
    assert!(c.summary.contains("I cannot help with that"));
    assert_eq!(c.summary, "Raw LLM response: I cannot help with that");
}

#[test]
fn fallback_keeps_the_first_200_characters() {
    let long: String = std::iter::repeat('x').take(450).collect();
    let c = parse_response(&long);
    let expected: String = std::iter::repeat('x').take(200).collect();
    assert_eq!(c.summary, format!("Raw LLM response: {}", expected));
    assert_eq!(c.impact, "low");
}

#[test]
fn fallback_counts_characters_not_bytes() {
    let long: String = std::iter::repeat('é').take(300).collect();
    let c = parse_response(&long);
    let expected: String = std::iter::repeat('é').take(200).collect();
    assert_eq!(c.summary, format!("Raw LLM response: {}", expected));
}

#[test]
fn full_object_is_read() {
    let reply = "{\"summary\":\"Adds login\",\"files_changed\":[\"src/auth.rs\",\"src/main.rs\"],\"key_details\":[\"uses tokens\"],\"technologies\":[\"rust\"],\"impact\":\"high\"}";
    let c = parse_response(reply);
    assert_eq!(c.summary, "Adds login");
    assert_eq!(c.files_changed, strings(&["src/auth.rs", "src/main.rs"]));
    assert_eq!(c.key_details, strings(&["uses tokens"]));
    assert_eq!(c.technologies, strings(&["rust"]));
    assert_eq!(c.impact, "high");
}

#[test]
fn object_is_found_inside_surrounding_text() {
    let reply = "Sure! Here it is:\n```json\n{\"summary\": \"Fix bug\", \"impact\": \"low\"}\n```\nHope that helps.";
    let c = parse_response(reply);
    assert_eq!(c.summary, "Fix bug");
    assert!(c.files_changed.is_empty());
    assert!(c.key_details.is_empty());
    assert!(c.technologies.is_empty());
    assert_eq!(c.impact, "low");
}

#[test]
fn missing_impact_reads_as_medium() {
    let c = parse_response("{\"summary\":\"s\"}");
    assert_eq!(c.summary, "s");
    assert_eq!(c.impact, "medium");
}

#[test]
fn empty_impact_reads_as_medium() {
    let c = parse_response("{\"summary\":\"s\",\"impact\":\"\"}");
    assert_eq!(c.impact, "medium");
}

#[test]
fn missing_summary_falls_back() {
    let reply = "{\"impact\":\"high\"}";
    let c = parse_response(reply);
    assert_eq!(c.summary, format!("Raw LLM response: {}", reply));
    assert_eq!(c.impact, "low");
}

#[test]
fn wrong_shape_falls_back() {
    let reply = "{\"summary\":\"s\",\"files_changed\":\"not a list\"}";
    let c = parse_response(reply);
    assert_eq!(c.summary, format!("Raw LLM response: {}", reply));
    let reply = "{\"summary\":\"s\",\"key_details\":[1,2]}";
    let c = parse_response(reply);
    assert_eq!(c.summary, format!("Raw LLM response: {}", reply));
    let reply = "{\"summary\":7}";
    let c = parse_response(reply);
    assert_eq!(c.summary, format!("Raw LLM response: {}", reply));
}

#[test]
fn closing_brace_before_opening_brace_falls_back() {
    let c = parse_response("} nothing {");
    assert_eq!(c.summary, "Raw LLM response: } nothing {");
    assert_eq!(c.impact, "low");
}

#[test]
fn unknown_members_are_ignored() {
    let c = parse_response("{\"summary\":\"s\",\"extra\":{\"a\":[1,2,3]},\"impact\":\"low\"}");
    assert_eq!(c.summary, "s");
    assert_eq!(c.impact, "low");
}

#[test]
fn frame_runs_from_first_open_to_last_close() {
    assert_eq!(frame_json("ab{c}d}e"), Some("{c}d}".to_string()));
    assert_eq!(frame_json("{}"), Some("{}".to_string()));
    assert_eq!(frame_json("no braces"), None);
    assert_eq!(frame_json("only { open"), None);
    assert_eq!(frame_json("only } close"), None);
    assert_eq!(frame_json("}{"), None);
    assert_eq!(frame_json(""), None);
}

#[test]
fn characters_are_found_from_both_ends() {
    let chars = to_chars("a{b{c}d}e");
    assert_eq!(find_first(&chars, '{'), Some(1));
    assert_eq!(find_last(&chars, '}'), Some(7));
    assert_eq!(find_first(&chars, 'z'), None);
    assert_eq!(find_last(&chars, 'z'), None);
    assert_eq!(from_chars(&chars, 1, 8), "{b{c}d}");
    assert_eq!(to_chars("héllo"), vec!['h', 'é', 'l', 'l', 'o']);
}

#[test]
fn fields_are_decoded_from_a_document() {
    let raw = decode_fields("{\"summary\":\"s\",\"technologies\":[\"a\",\"b\"]}").unwrap();
    assert_eq!(raw.summary, "s");
    assert_eq!(raw.technologies, strings(&["a", "b"]));
    assert!(raw.files_changed.is_empty());
    assert_eq!(raw.impact, "");
    assert!(decode_fields("{\"summary\":").is_none());
    assert!(decode_fields("[\"summary\"]").is_none());
    assert!(decode_fields("{\"summary\":\"s\",\"impact\":null}").is_none());
}

#[test]
fn record_is_built_from_decoded_fields() {
    let raw = RawContext {
        summary: "s".to_string(),
        files_changed: strings(&["f"]),
        key_details: strings(&["k"]),
        technologies: strings(&["t"]),
        impact: String::new(),
    };
    let c: ExtractedContext = ExtractedContext::from_raw("anything", Some(raw));
    assert_eq!(c.summary, "s");
    assert_eq!(c.files_changed, strings(&["f"]));
    assert_eq!(c.key_details, strings(&["k"]));
    assert_eq!(c.technologies, strings(&["t"]));
    assert_eq!(c.impact, "medium");

    let raw = RawContext {
        summary: "s".to_string(),
        files_changed: vec![],
        key_details: vec![],
        technologies: vec![],
        impact: "high".to_string(),
    };
    let c = ExtractedContext::from_raw("", Some(raw));
    assert_eq!(c.summary, "Empty response from LLM");
    assert_eq!(c.impact, "low");

    let c = ExtractedContext::from_raw("oops", None);
    assert_eq!(c.summary, "Raw LLM response: oops");
    assert_eq!(c.impact, "low");
}

#[test]
fn prompt_without_previous_summary() {
    let prompt = build_prompt("Add parser", "+fn parse() {}", &strings(&["src/a.rs", "src/b.rs"]), None);
    let expected = "You are a code context analyzer. Given a git commit diff, extract structured information about what was changed.\n\nCommit Message: Add parser\n\nFiles Changed: src/a.rs, src/b.rs\n\nDiff:\n+fn parse() {}\n\nRespond ONLY with valid JSON (no other text):\n{\n  \"summary\": \"1-2 sentence description of what this commit does\",\n  \"files_changed\": [\"list of key files that were modified\"],\n  \"key_details\": [\"2-4 important technical details about this change\"],\n  \"technologies\": [\"technologies/libraries used\"],\n  \"impact\": \"high|medium|low - how significant is this change\"\n}";
    assert_eq!(prompt, expected);
}

#[test]
fn prompt_with_previous_summary() {
    let prompt = build_prompt("m", "d", &vec![], Some("Earlier work"));
    assert!(prompt.starts_with("You are a code context analyzer. Given a git commit diff, extract structured information about what was changed.\n\nPrevious Context (from the last processed commit):\nEarlier work\n\nUse this to understand the evolving codebase and build incremental knowledge.\n\nCommit Message: m\n\nFiles Changed: \n\nDiff:\nd\n\nRespond ONLY with valid JSON"));
}

#[test]
fn join_puts_the_separator_between_items() {
    assert_eq!(join(&vec![], ", "), "");
    assert_eq!(join(&strings(&["a"]), ", "), "a");
    assert_eq!(join(&strings(&["a", "b", "c"]), ", "), "a, b, c");
}

#[test]
fn reply_text_is_read_from_the_body() {
    assert_eq!(decode_reply("{\"response\":\"hello\",\"done\":true}"), Some("hello".to_string()));
    assert_eq!(decode_reply("{\"done\":true}"), None);
    assert_eq!(decode_reply("{\"response\":5}"), None);
    assert_eq!(decode_reply("not json"), None);
}

#[test]
fn non_success_status_is_a_backend_error() {
    assert_eq!(
        extract_context(500, "{\"response\":\"{}\"}").unwrap_err(),
        ExtractError::Backend { status: 500 }
    );
    assert_eq!(extract_context(404, "").unwrap_err(), ExtractError::Backend { status: 404 });
    assert_eq!(extract_context(199, "").unwrap_err(), ExtractError::Backend { status: 199 });
    assert_eq!(extract_context(300, "").unwrap_err(), ExtractError::Backend { status: 300 });
    assert_eq!(
        extraction_from_reply(503, Some("text")).unwrap_err(),
        ExtractError::Backend { status: 503 }
    );
}

#[test]
fn success_without_reply_text_is_malformed() {
    assert_eq!(extract_context(200, "garbage").unwrap_err(), ExtractError::MalformedReply);
    assert_eq!(extraction_from_reply(200, None).unwrap_err(), ExtractError::MalformedReply);
}

#[test]
fn success_with_any_reply_text_gives_a_record() {
    let c = extract_context(200, "{\"response\":\"I cannot help with that\"}").unwrap();
    assert_eq!(c.summary, "Raw LLM response: I cannot help with that");
    assert_eq!(c.impact, "low");
    let c = extract_context(299, "{\"response\":\"{\\\"summary\\\":\\\"ok\\\"}\"}").unwrap();
    assert_eq!(c.summary, "ok");
    assert_eq!(c.impact, "medium");
    let c = extract_context(204, "{\"response\":\"\"}").unwrap();
    assert_eq!(c.summary, "Empty response from LLM");
}

#[test]
fn offered_models() {
    assert_eq!(get_models(), strings(&["llama3.2", "llama3.1", "mistral", "codellama", "phi3"]));
}

#[test]
fn impact_is_held_to_its_three_values() {
    for (given, expected) in [
        ("high", "high"),
        ("medium", "medium"),
        ("low", "low"),
        ("critical", "medium"),
        ("High", "medium"),
        ("high - big change", "medium"),
        (" low", "medium"),
        ("", "medium"),
    ] {
        let reply = format!("{{\"summary\":\"s\",\"impact\":\"{}\"}}", given);
        assert_eq!(parse_response(&reply).impact, expected);
        let raw = RawContext {
            summary: "s".to_string(),
            files_changed: vec![],
            key_details: vec![],
            technologies: vec![],
            impact: given.to_string(),
        };
        assert_eq!(ExtractedContext::from_raw("x", Some(raw)).impact, expected);
    }
}

#[test]
fn files_and_technologies_are_sets() {
    let reply = "{\"summary\":\"s\",\"files_changed\":[\"b\",\"a\",\"b\",\"c\",\"a\"],\"key_details\":[\"k\",\"k\"],\"technologies\":[\"rust\",\"rust\"]}";
    let c = parse_response(reply);
    assert_eq!(c.files_changed, strings(&["b", "a", "c"]));
    assert_eq!(c.key_details, strings(&["k", "k"]));
    assert_eq!(c.technologies, strings(&["rust"]));
    assert_eq!(without_repeats(strings(&["x", "y", "x", "x", "z", "y"])), strings(&["x", "y", "z"]));
    assert!(without_repeats(vec![]).is_empty());
    assert_eq!(read_impact("low".to_string()), "low");
    assert_eq!(read_impact("none".to_string()), "medium");
}

#[test]
fn a_record_can_be_copied() {
    let c = parse_response("{\"summary\":\"s\",\"files_changed\":[\"a\"],\"impact\":\"high\"}");
    assert_eq!(c.clone(), c);
}
