use json_cdb::{load_from_reader, save_into_writer, Entries, Entry, Error, Format};

fn expected_values() -> Entries {
    vec![
        Entry {
            directory: "/home/user".to_string(),
            file: "./file_a.c".to_string(),
            arguments: vec![
                "cc".to_string(),
                "-c".to_string(),
                "./file_a.c".to_string(),
                "-o".to_string(),
                "./file_a.o".to_string(),
            ],
            output: None,
        },
        Entry {
            directory: "/home/user".to_string(),
            file: "./file_b.c".to_string(),
            arguments: vec![
                "cc".to_string(),
                "-c".to_string(),
                "./file_b.c".to_string(),
                "-o".to_string(),
                "./file_b.o".to_string(),
            ],
            output: Some("./file_b.o".to_string()),
        },
    ]
}

#[test]
#[should_panic]
fn test_load_json_failed() {
    load_from_reader(r#"this is not json"#).unwrap();
}

#[test]
#[should_panic]
fn test_load_not_expected_json_failed() {
    load_from_reader(r#"{ "file": "string" }"#).unwrap();
}

#[test]
#[should_panic]
fn test_load_path_problem() {
    load_from_reader(
        r#"[
            {
                "directory": " ",
                "file": "./file_a.c",
                "command": "cc -Dvalue=\"this"
            }
        ]"#,
    )
    .unwrap();
}

#[test]
fn test_load_empty() -> Result<(), Error> {
    let entries = load_from_reader(r#"[]"#)?;

    let expected = Entries::new();
    assert_eq!(expected, entries);
    Ok(())
}

#[test]
fn test_load_string_command() -> Result<(), Error> {
    let entries = load_from_reader(
        r#"[
            {
                "directory": "/home/user",
                "file": "./file_a.c",
                "command": "cc -c ./file_a.c -o ./file_a.o"
            },
            {
                "directory": "/home/user",
                "file": "./file_b.c",
                "output": "./file_b.o",
                "command": "cc -c ./file_b.c -o ./file_b.o"
            }
        ]"#,
    )?;

    let expected = expected_values();
    assert_eq!(expected, entries);
    Ok(())
}

#[test]
fn test_load_array_command() -> Result<(), Error> {
    let entries = load_from_reader(
        r#"[
            {
                "directory": "/home/user",
                "file": "./file_a.c",
                "arguments": ["cc", "-c", "./file_a.c", "-o", "./file_a.o"]
            },
            {
                "directory": "/home/user",
                "file": "./file_b.c",
                "output": "./file_b.o",
                "arguments": ["cc", "-c", "./file_b.c", "-o", "./file_b.o"]
            }
        ]"#,
    )?;

    let expected = expected_values();
    assert_eq!(expected, entries);
    Ok(())
}

#[test]
fn test_save_string_command() -> Result<(), Error> {
    let input = expected_values();
    let format = Format { command_as_array: false, ..Format::default() };

    let content = save_into_writer(&input, &format)?;

    let entries = load_from_reader(content.as_str())?;

    let expected = expected_values();
    assert_eq!(expected, entries);

    println!("{}", content);

    Ok(())
}

#[test]
fn test_save_array_command() -> Result<(), Error> {
    let input = expected_values();
    let format = Format { command_as_array: true, ..Format::default() };

    let content = save_into_writer(&input, &format)?;

    let entries = load_from_reader(content.as_str())?;

    let expected = expected_values();
    assert_eq!(expected, entries);

    println!("{}", content);

    Ok(())
}

#[test]
fn load_non_json_content() -> Result<(), Error> {
    let result = load_from_reader(r#"this is not json"#);

    assert!(matches!(result, Err(Error::SyntaxError(_))));

    Ok(())
}

#[test]
fn load_not_expected_json_content() -> Result<(), Error> {
    let result = load_from_reader(r#"{ "file": "string" }"#);

    assert!(matches!(result, Err(Error::SyntaxError(_))));

    Ok(())
}

#[test]
fn load_on_semantic_problem() -> Result<(), Error> {
    let result = load_from_reader(
        r#"[
            {
                "directory": " ",
                "file": "./file_a.c",
                "command": "cc -Dvalue=\"this"
            }
        ]"#,
    );

    assert!(matches!(result, Err(Error::SemanticError(_))));

    Ok(())
}

#[test]
fn load_empty_array() -> Result<(), Error> {
    let entries = load_from_reader(r#"[]"#)?;

    let expected = Entries::new();
    assert_eq!(expected, entries);

    Ok(())
}

#[test]
fn load_content_with_string_command_syntax() -> Result<(), Error> {
    let entries = load_from_reader(
        r#"[
            {
                "directory": "/home/user",
                "file": "./file_a.c",
                "command": "cc -c ./file_a.c -o ./file_a.o"
            },
            {
                "directory": "/home/user",
                "file": "./file_b.c",
                "output": "./file_b.o",
                "command": "cc -c ./file_b.c -o ./file_b.o"
            }
        ]"#,
    )?;

    let expected = expected_values();
    assert_eq!(expected, entries);

    Ok(())
}

#[test]
fn load_content_with_array_command_syntax() -> Result<(), Error> {
    let entries = load_from_reader(
        r#"[
            {
                "directory": "/home/user",
                "file": "./file_a.c",
                "arguments": ["cc", "-c", "./file_a.c", "-o", "./file_a.o"]
            },
            {
                "directory": "/home/user",
                "file": "./file_b.c",
                "output": "./file_b.o",
                "arguments": ["cc", "-c", "./file_b.c", "-o", "./file_b.o"]
            }
        ]"#,
    )?;

    let expected = expected_values();
    assert_eq!(expected, entries);

    Ok(())
}

#[test]
fn save_with_string_command_syntax() -> Result<(), Error> {
    let input = expected_values();
    let format = Format { command_as_array: false, drop_output_field: false };

    let text = save_into_writer(&input, &format)?;

    let content: serde_json::Value = serde_json::from_str(text.as_str()).unwrap();
    let expected: serde_json::Value = serde_json::from_str(
        r#"[
            {
                "directory": "/home/user",
                "file": "./file_a.c",
                "command": "cc -c ./file_a.c -o ./file_a.o"
            },
            {
                "directory": "/home/user",
                "file": "./file_b.c",
                "output": "./file_b.o",
                "command": "cc -c ./file_b.c -o ./file_b.o"
            }
        ]"#,
    )
    .unwrap();
    assert_eq!(expected, content);

    Ok(())
}

#[test]
fn save_with_array_command_syntax() -> Result<(), Error> {
    let input = expected_values();
    let format = Format { command_as_array: true, drop_output_field: false };

    let text = save_into_writer(&input, &format)?;

    let content: serde_json::Value = serde_json::from_str(text.as_str()).unwrap();
    let expected: serde_json::Value = serde_json::from_str(
        r#"[
            {
                "directory": "/home/user",
                "file": "./file_a.c",
                "arguments": ["cc", "-c", "./file_a.c", "-o", "./file_a.o"]
            },
            {
                "directory": "/home/user",
                "file": "./file_b.c",
                "output": "./file_b.o",
                "arguments": ["cc", "-c", "./file_b.c", "-o", "./file_b.o"]
            }
        ]"#,
    )
    .unwrap();
    assert_eq!(expected, content);

    Ok(())
}

fn quoted_expected_values() -> Entries {
    vec![
        Entry {
            directory: "/home/user".to_string(),
            file: "./file_a.c".to_string(),
            arguments: vec![
                "cc".to_string(),
                "-c".to_string(),
                "-D".to_string(),
                "name=\\\"me\\\"".to_string(),
                "./file_a.c".to_string(),
                "-o".to_string(),
                "./file_a.o".to_string(),
            ],
            output: None,
        },
        Entry {
            directory: "/home/user".to_string(),
            file: "./file_b.c".to_string(),
            arguments: vec![
                "cc".to_string(),
                "-c".to_string(),
                "-D".to_string(),
                "name=\"me\"".to_string(),
                "./file_b.c".to_string(),
                "-o".to_string(),
                "./file_b.o".to_string(),
            ],
            output: None,
        },
    ]
}

#[test]
fn test_load_content_with_string_command_syntax() -> Result<(), Error> {
    let entries = load_from_reader(
        r#"[
            {
                "directory": "/home/user",
                "file": "./file_a.c",
                "command": "cc -c -D name\\=\\\\\\\"me\\\\\\\" ./file_a.c -o ./file_a.o"
            },
            {
                "directory": "/home/user",
                "file": "./file_b.c",
                "command": "cc -c -D name\\=\\\"me\\\" ./file_b.c -o ./file_b.o"
            }
        ]"#,
    )?;

    let expected = quoted_expected_values();
    assert_eq!(expected, entries);

    Ok(())
}

#[test]
fn test_load_content_with_array_command_syntax() -> Result<(), Error> {
    let entries = load_from_reader(
        r#"[
            {
                "directory": "/home/user",
                "file": "./file_a.c",
                "arguments": ["cc", "-c", "-D", "name=\\\"me\\\"", "./file_a.c", "-o", "./file_a.o"]
            },
            {
                "directory": "/home/user",
                "file": "./file_b.c",
                "arguments": ["cc", "-c", "-D", "name=\"me\"", "./file_b.c", "-o", "./file_b.o"]
            }
        ]"#,
    )?;

    let expected = quoted_expected_values();
    assert_eq!(expected, entries);

    Ok(())
}

#[test]
fn test_save_with_string_command_syntax() -> Result<(), Error> {
    let input = quoted_expected_values();
    let format = Format { command_as_array: false, drop_output_field: false };

    let text = save_into_writer(&input, &format)?;

    let content: serde_json::Value = serde_json::from_str(text.as_str()).unwrap();
    let expected: serde_json::Value = serde_json::from_str(
        r#"[
            {
                "directory": "/home/user",
                "file": "./file_a.c",
                "command": "cc -c -D name\\=\\\\\\\"me\\\\\\\" ./file_a.c -o ./file_a.o"
            },
            {
                "directory": "/home/user",
                "file": "./file_b.c",
                "command": "cc -c -D name\\=\\\"me\\\" ./file_b.c -o ./file_b.o"
            }
        ]"#,
    )
    .unwrap();
    assert_eq!(expected, content);

    Ok(())
}

#[test]
fn test_save_with_array_command_syntax() -> Result<(), Error> {
    let input = quoted_expected_values();
    let format = Format { command_as_array: true, drop_output_field: false };

    let text = save_into_writer(&input, &format)?;

    let content: serde_json::Value = serde_json::from_str(text.as_str()).unwrap();
    let expected: serde_json::Value = serde_json::from_str(
        r#"[
            {
                "directory": "/home/user",
                "file": "./file_a.c",
                "arguments": ["cc", "-c", "-D", "name=\\\"me\\\"", "./file_a.c", "-o", "./file_a.o"]
            },
            {
                "directory": "/home/user",
                "file": "./file_b.c",
                "arguments": ["cc", "-c", "-D", "name=\"me\"", "./file_b.c", "-o", "./file_b.o"]
            }
        ]"#,
    )
    .unwrap();
    assert_eq!(expected, content);

    Ok(())
}
