use json_cdb::{
    from_text, join, load, load_from_reader, save, save_into_writer, split, to_text, validate,
    Entries, Entry, Error, Fault, Format, Json, DEFAULT_FILE_NAME,
};

fn sample_entry() -> Entry {
    Entry {
        directory: "/work".to_string(),
        file: "main.c".to_string(),
        arguments: vec!["cc".to_string(), "-c".to_string(), "main.c".to_string()],
        output: Some("main.o".to_string()),
    }
}

#[test]
fn default_format_uses_arrays_and_keeps_output() {
    let format = Format::default();
    assert!(format.command_as_array);
    assert!(!format.drop_output_field);
}

#[test]
fn default_file_name_is_conventional() {
    assert_eq!(DEFAULT_FILE_NAME, "compile_commands.json");
}

#[test]
fn round_trip_all_formats() {
    let entries = vec![sample_entry()];
    for command_as_array in [false, true] {
        for drop_output_field in [false, true] {
            let format = Format { command_as_array, drop_output_field };
            let text = save_into_writer(&entries, &format).unwrap();
            let back = load_from_reader(text.as_str()).unwrap();
            assert_eq!(entries, back);
            assert_eq!(
                back[0].output,
                if drop_output_field { None } else { Some("main.o".to_string()) }
            );
        }
    }
}

#[test]
fn both_shapes_decode_identically() {
    let with_arguments = load_from_reader(
        r#"[{"directory": "/w", "file": "a.c",
             "arguments": ["cc", "-c", "a.c", "-o", "a.o"]}]"#,
    )
    .unwrap();
    let with_command = load_from_reader(
        r#"[{"directory": "/w", "file": "a.c",
             "command": "cc -c a.c -o a.o"}]"#,
    )
    .unwrap();
    assert_eq!(with_arguments, with_command);
    assert_eq!(with_arguments[0].arguments, with_command[0].arguments);
}

#[test]
fn arguments_win_over_command() {
    let entries = load_from_reader(
        r#"[{"directory": "/w", "file": "a.c",
             "arguments": ["from-array"],
             "command": "from-string"}]"#,
    )
    .unwrap();
    assert_eq!(entries[0].arguments, vec!["from-array".to_string()]);
}

#[test]
fn missing_directory_is_semantic_error() {
    let result = load_from_reader(r#"[{"file": "a.c", "command": "cc a.c"}]"#);
    match result {
        Err(Error::SemanticError(faults)) => {
            assert_eq!(faults.len(), 1);
            assert_eq!(faults[0].index, 0);
            assert!(matches!(&faults[0].fault, Fault::MissingField(f) if f == "directory"));
        }
        other => panic!("expected a semantic error, got {:?}", other),
    }
}

#[test]
fn missing_file_is_semantic_error() {
    let result = load_from_reader(r#"[{"directory": "/w", "command": "cc a.c"}]"#);
    match result {
        Err(Error::SemanticError(faults)) => {
            assert!(matches!(&faults[0].fault, Fault::MissingField(f) if f == "file"));
        }
        other => panic!("expected a semantic error, got {:?}", other),
    }
}

#[test]
fn neither_command_nor_arguments_is_semantic_error() {
    let result = load_from_reader(r#"[{"directory": "/w", "file": "a.c"}]"#);
    match result {
        Err(Error::SemanticError(faults)) => {
            assert!(matches!(faults[0].fault, Fault::NoCommand));
        }
        other => panic!("expected a semantic error, got {:?}", other),
    }
}

#[test]
fn wrong_type_is_semantic_error() {
    let result = load_from_reader(r#"[{"directory": 42, "file": "a.c", "command": "cc"}]"#);
    match result {
        Err(Error::SemanticError(faults)) => {
            assert!(matches!(&faults[0].fault, Fault::WrongFieldType(f) if f == "directory"));
        }
        other => panic!("expected a semantic error, got {:?}", other),
    }
}

#[test]
fn duplicate_key_is_semantic_error() {
    let result = load_from_reader(
        r#"[{"directory": "/a", "directory": "/b", "file": "a.c", "command": "cc"}]"#,
    );
    match result {
        Err(Error::SemanticError(faults)) => {
            assert!(matches!(&faults[0].fault, Fault::DuplicateField(f) if f == "directory"));
        }
        other => panic!("expected a semantic error, got {:?}", other),
    }
}

#[test]
fn mismatched_quotes_is_semantic_error() {
    let result = load_from_reader(
        r#"[{"directory": "/w", "file": "a.c", "command": "cc -Dvalue=\"this"}]"#,
    );
    match result {
        Err(Error::SemanticError(faults)) => {
            assert!(
                matches!(&faults[0].fault, Fault::BadQuoting(c) if c == "cc -Dvalue=\"this")
            );
        }
        other => panic!("expected a semantic error, got {:?}", other),
    }
}

#[test]
fn empty_arguments_is_semantic_error_on_load() {
    let result = load_from_reader(r#"[{"directory": "/w", "file": "a.c", "arguments": []}]"#);
    match result {
        Err(Error::SemanticError(faults)) => {
            assert!(matches!(faults[0].fault, Fault::EmptyArguments));
        }
        other => panic!("expected a semantic error, got {:?}", other),
    }
}

#[test]
fn empty_arguments_is_semantic_error_on_save() {
    let mut entry = sample_entry();
    entry.arguments = Vec::new();
    let entries = vec![entry];
    let result = save_into_writer(&entries, &Format::default());
    match result {
        Err(Error::SemanticError(faults)) => {
            assert!(matches!(faults[0].fault, Fault::EmptyArguments));
        }
        other => panic!("expected a semantic error, got {:?}", other),
    }
}

#[test]
fn faults_are_aggregated_across_entries() {
    let result = load_from_reader(
        r#"[
            {"file": "a.c", "command": "cc"},
            {"directory": "/w", "file": "b.c", "command": "cc b.c"},
            {"directory": "/w", "file": "c.c"}
        ]"#,
    );
    match result {
        Err(Error::SemanticError(faults)) => {
            assert_eq!(faults.len(), 2);
            assert_eq!(faults[0].index, 0);
            assert_eq!(faults[1].index, 2);
        }
        other => panic!("expected a semantic error, got {:?}", other),
    }
}

#[test]
fn non_array_top_level_is_syntax_error() {
    assert!(matches!(
        load_from_reader(r#"{"file": "string"}"#),
        Err(Error::SyntaxError(_))
    ));
    assert!(matches!(load_from_reader(r#"17"#), Err(Error::SyntaxError(_))));
    assert!(matches!(load_from_reader(r#""text""#), Err(Error::SyntaxError(_))));
}

#[test]
fn non_object_element_is_syntax_error() {
    assert!(matches!(
        load_from_reader(r#"[17]"#),
        Err(Error::SyntaxError(_))
    ));
}

#[test]
fn trailing_garbage_is_syntax_error() {
    assert!(matches!(load_from_reader(r#"[] []"#), Err(Error::SyntaxError(_))));
}

#[test]
fn output_omission_on_save() {
    let entries = vec![sample_entry()];
    let format = Format { command_as_array: true, drop_output_field: true };
    let text = save_into_writer(&entries, &format).unwrap();
    let value: serde_json::Value = serde_json::from_str(text.as_str()).unwrap();
    assert!(value[0].get("output").is_none());
}

#[test]
fn absent_output_decodes_to_none() {
    let entries =
        load_from_reader(r#"[{"directory": "/w", "file": "a.c", "command": "cc a.c"}]"#).unwrap();
    assert_eq!(entries[0].output, None);
}

#[test]
fn unknown_keys_are_ignored() {
    let entries = load_from_reader(
        r#"[{"directory": "/w", "file": "a.c", "command": "cc a.c", "extra": [1, {"x": null}]}]"#,
    )
    .unwrap();
    assert_eq!(entries.len(), 1);
    assert_eq!(entries[0].file, "a.c");
}

#[test]
fn quoted_argument_survives_round_trip() {
    let token = "name=\\\"me\\\"".to_string();
    let joined = join(&vec![token.clone()]);
    assert_eq!(split(joined.as_str()).unwrap(), vec![token.clone()]);

    let entries = vec![Entry {
        directory: "/w".to_string(),
        file: "a.c".to_string(),
        arguments: vec!["cc".to_string(), token.clone()],
        output: None,
    }];
    let format = Format { command_as_array: false, drop_output_field: false };
    let text = save_into_writer(&entries, &format).unwrap();
    let back = load_from_reader(text.as_str()).unwrap();
    assert_eq!(back[0].arguments, vec!["cc".to_string(), token]);
}

#[test]
fn validate_reports_every_offender() {
    let good = sample_entry();
    let mut bad = sample_entry();
    bad.arguments = Vec::new();
    let entries = vec![bad.clone(), good, bad];
    match validate(&entries) {
        Err(Error::SemanticError(faults)) => {
            assert_eq!(faults.len(), 2);
            assert_eq!(faults[0].index, 0);
            assert_eq!(faults[1].index, 2);
        }
        other => panic!("expected a semantic error, got {:?}", other),
    }
    assert!(validate(&vec![sample_entry()]).is_ok());
}

#[test]
fn load_and_save_work_on_documents() {
    let entries = vec![sample_entry()];
    let doc: Json = save(&entries, &Format::default()).unwrap();
    let back = load(&doc).unwrap();
    assert_eq!(entries, back);
}

#[test]
fn json_text_agrees_with_serde_json() {
    let inputs = [
        r#"[]"#,
        r#"{"a": 1.5e3, "b": [true, false, null], "c": "\u0041\n"}"#,
        r#"  [ {"k" : "v"} , [ ] ]  "#,
        "\"\\ud83d\\ude00\"",
    ];
    for input in inputs {
        let mine = from_text(input);
        let theirs: Result<serde_json::Value, serde_json::Error> = serde_json::from_str(input);
        let theirs = theirs.unwrap();
        let mine = mine.unwrap_or_else(|| panic!("rejected {:?}", input));
        let printed = to_text(&mine);
        let reparsed: serde_json::Value = serde_json::from_str(printed.as_str()).unwrap();
        assert_eq!(theirs, reparsed, "through {:?}", input);
    }
    for bad in [r#"{"#, r#"[1,]"#, r#"tru"#, r#"01"#, r#""\x""#, "\"\\ud800\"", r#"[] extra"#] {
        assert!(from_text(bad).is_none(), "accepted {:?}", bad);
        assert!(serde_json::from_str::<serde_json::Value>(bad).is_err(), "serde accepted {:?}", bad);
    }
}
