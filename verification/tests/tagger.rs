//! Prompts and replies of the language model.

use temporal::tagger::{
    capability_prompt, clean_tag_result, find_list, find_object, label_prompt, parse_capabilities,
    parse_labels, prompt_chunks, reply_text, strings_from_json, strings_to_json, tag_prompt,
    unparseable_labels, unparseable_output, wants_logits, Reply, TagResult, MAX_CONTEXT_CHARS,
    MAX_GENERATED_TAGS, MAX_GENERATED_TOKENS, MAX_GROUP_CONTEXT_CHARS,
};

const VOCAB: &[&str] = &["design", "editor", "browser", "terminal"];

/// Decodes the object of a reply and cleans it.
fn parse_tag_result(raw: &str) -> Option<TagResult> {
    let json = find_object(raw)?;
    let value: serde_json::Value = serde_json::from_str(&json).ok()?;
    let summary = value.get("summary")?.as_str()?.to_string();
    let mut tags = Vec::new();
    for tag in value.get("tags")?.as_array()? {
        tags.push(tag.as_str()?.to_string());
    }
    Some(clean_tag_result(&TagResult { summary, tags }))
}

#[test]
fn capabilities_filtered_to_vocabulary_and_deduped() {
    let raw = "<think>\n</think>\n[\"Design\", \"editor\", \"editor\", \"telepathy\"]";
    assert_eq!(parse_capabilities(raw, VOCAB), vec!["design", "editor"]);
}

#[test]
fn capabilities_empty_on_junk_or_missing_array() {
    assert!(parse_capabilities("no array here", VOCAB).is_empty());
    assert!(parse_capabilities("[]", VOCAB).is_empty());
    assert!(parse_capabilities("[\"nonsense\"]", VOCAB).is_empty());
}

#[test]
fn parses_labels_wrapped_in_think_block_and_prose() {
    let raw = "<think>\n</think>\nHere: {\"2\": \"apartment hunting\", \"1\": \" temporal rust daemon \"} ok";
    let labels = parse_labels(raw, 2).unwrap();
    assert_eq!(labels, vec!["temporal rust daemon", "apartment hunting"]);
}

#[test]
fn rejects_missing_keys_and_empties() {
    assert!(parse_labels("{\"1\": \"one\", \"2\": \"two\"}", 3).is_none());
    assert!(parse_labels("{\"1\": \"one\", \"3\": \"three\"}", 2).is_none());
    assert!(parse_labels("{\"1\": \"one\", \"2\": \"  \"}", 2).is_none());
    assert!(parse_labels("no json", 1).is_none());
}

#[test]
fn parses_json_wrapped_in_think_block_and_prose() {
    let raw = "<think>\n</think>\nSure! {\"summary\": \" Rust daemon work \", \"tags\": [\"Rust\", \" ipc \", \"\"]} done";
    let result = parse_tag_result(raw).unwrap();
    assert_eq!(result.summary, "Rust daemon work");
    assert_eq!(result.tags, vec!["rust", "ipc"]);
}

#[test]
fn rejects_output_without_json() {
    assert!(parse_tag_result("no json here").is_none());
}

#[test]
fn replies_that_are_not_the_expected_json_are_refused() {
    assert!(parse_labels("{\"1\": 2}", 1).is_none());
    assert!(parse_labels("{broken}", 1).is_none());
    assert!(parse_capabilities("[1, 2]", VOCAB).is_empty());
    assert!(parse_capabilities("[\"design\"", VOCAB).is_empty());
    // Of members with one key the last counts.
    assert_eq!(parse_labels("{\"1\": \"a\", \"1\": \"b\"}", 1).unwrap(), vec!["b"]);
    assert_eq!(parse_labels("{}", 0).unwrap(), Vec::<String>::new());
}

#[test]
fn json_parts_are_found_in_prose() {
    assert_eq!(find_object("a {b} c } d").as_deref(), Some("{b}"));
    assert_eq!(find_object("{1} {2}").as_deref(), Some("{1}"));
    assert_eq!(find_object("x {a {b} {c}} }").as_deref(), Some("{a {b} {c}}"));
    // Brackets in strings don't count, nor do escaped quotes end one.
    assert_eq!(find_object(r#"{"}\"}": 1} {}"#).as_deref(), Some(r#"{"}\"}": 1}"#));
    assert_eq!(find_object(r#"{"a\\"}"#).as_deref(), Some(r#"{"a\\"}"#));
    assert_eq!(find_object(r#"{"a}"#), None);
    assert_eq!(find_object("} {"), None);
    assert_eq!(find_object("{"), None);
    assert_eq!(find_list("] x [1] [2]").as_deref(), Some("[1]"));
    assert_eq!(find_list("[1"), None);
    assert_eq!(find_list("[[1], [2]] ]").as_deref(), Some("[[1], [2]]"));
}

#[test]
fn the_first_value_of_a_reply_is_taken() {
    let raw = r#"{"summary": "Rust work", "tags": ["Rust"]} {"note": 1}"#;
    let expected = TagResult { summary: "Rust work".into(), tags: vec!["rust".into()] };
    assert_eq!(parse_tag_result(raw), Some(expected));
    assert_eq!(parse_labels(r#"{"1": "a {b}"} or {"1": "c"}"#, 1).unwrap(), vec!["a {b}"]);
    assert_eq!(parse_capabilities(r#"["a]b", "design"] ["editor"]"#, VOCAB), vec!["design"]);
}

#[test]
fn runaway_replies_are_cut_down() {
    let words = |n: usize| vec!["w"; n].join("  ");
    let clean = |summary: &str, tags: Vec<String>| {
        clean_tag_result(&TagResult { summary: summary.into(), tags })
    };
    assert_eq!(clean(&words(24), vec![]).summary, vec!["w"; 24].join(" "));
    assert_eq!(clean(&words(25), vec![]).summary, "");
    assert_eq!(clean(" \n ", vec![]).summary, "");
    let many: Vec<String> = (0..20).map(|i| format!("T{i}")).collect();
    let kept = clean("s", many).tags;
    assert_eq!(kept.len(), MAX_GENERATED_TAGS);
    assert_eq!(kept[11], "t11");
}

#[test]
fn lists_of_strings_survive_json() {
    let v: Vec<String> = vec!["a\"b".into(), "日本語".into(), "".into()];
    assert_eq!(strings_to_json(&v), "[\"a\\\"b\",\"日本語\",\"\"]");
    assert_eq!(strings_from_json(&strings_to_json(&v)), v);
    assert!(strings_from_json("not json").is_empty());
}

#[test]
fn tag_prompt_is_framed_and_cut() {
    let prompt = tag_prompt("temporal\nGitHub");
    assert!(prompt.starts_with("<|im_start|>system\nYou label snapshots of a user's desktop."));
    assert!(prompt.ends_with(
        "/no_think<|im_end|>\n<|im_start|>user\ntemporal\nGitHub<|im_end|>\n<|im_start|>assistant\n"
    ));
    let long = "é".repeat(MAX_CONTEXT_CHARS + 5);
    assert_eq!(tag_prompt(&long).matches('é').count(), MAX_CONTEXT_CHARS);
}

#[test]
fn label_prompt_numbers_groups_within_their_budget() {
    let prompt = label_prompt(&vec!["a\nb".into(), "c".into()]);
    assert!(prompt.contains("Label all 2 groups.\nExample reply: {\"1\": \"temporal rust daemon\""));
    assert!(prompt.contains("user\nGroup 1:\na\nb\n\nGroup 2:\nc\n<|im_end|>"));
    let long = "é".repeat(2000);
    assert_eq!(label_prompt(&vec![long.clone()]).matches('é').count(), MAX_GROUP_CONTEXT_CHARS);
    assert_eq!(label_prompt(&vec![long; 20]).matches('é').count(), 20 * 450);
}

#[test]
fn capability_prompt_lists_the_vocabulary() {
    let prompt = capability_prompt("work on the UI", VOCAB);
    assert!(prompt.contains("from this list: [design, editor, browser, terminal]. Include only"));
    assert!(prompt.contains("user\nwork on the UI<|im_end|>"));
}

#[test]
fn unusable_replies_are_quoted_in_errors() {
    assert_eq!(unparseable_output("x"), "model returned unparseable output: x");
    assert_eq!(unparseable_labels("x"), "model returned unparseable labels: x");
}

#[test]
fn prompts_are_fed_in_batches() {
    assert_eq!(prompt_chunks(5, 2), vec![(0, 2), (2, 4), (4, 5)]);
    assert_eq!(prompt_chunks(4, 2), vec![(0, 2), (2, 4)]);
    assert_eq!(prompt_chunks(1, 8), vec![(0, 1)]);
    assert!(prompt_chunks(0, 8).is_empty());
    assert!(wants_logits(4, 5));
    assert!(!wants_logits(3, 5));
}

#[test]
fn split_characters_decode_whole() {
    assert_eq!(reply_text(&"日本".as_bytes().to_vec()), "日本");
    assert_eq!(reply_text(&vec![b'a', 0xff]), "a\u{fffd}");
}

#[test]
fn replies_collect_pieces_until_their_end() {
    let mut reply = Reply::new();
    assert!(reply.wants_token());
    // One character in two pieces.
    reply.take_sample(Some(vec![b'a', 0xc3]));
    assert_eq!(reply.position(10), 10);
    reply.take_sample(Some(vec![0xa9]));
    assert_eq!(reply.position(10), 11);
    reply.take_sample(None);
    assert!(!reply.wants_token());
    assert_eq!(reply_text(&reply.bytes), "a\u{e9}");
}

#[test]
fn replies_that_never_end_are_cut_off() {
    let mut reply = Reply::new();
    while reply.wants_token() {
        reply.take_sample(Some(vec![b'x']));
    }
    assert_eq!(reply.bytes.len(), MAX_GENERATED_TOKENS);
    assert_eq!(MAX_GENERATED_TOKENS, 320);
}
