#![allow(non_snake_case)]

use port_snippet::scanner::{capture_meta, trim_code, TrimError};
use port_snippet::snippet::make;

#[test]
fn regexSearch_randomSpacing_valid() {
    let line = String::from("//   name:         \"just_a_mock\"    ");
    let result = capture_meta(&line, "name");

    assert_ne!(result, None);
    let result = result.unwrap();
    assert_eq!(result, String::from("just_a_mock"));
}

#[test]
fn trimCode_oneCode_valid() {
    let text = String::from("//#PORT#\n//name:\"just_a_mock\"\n//prefix:\"test_prefix\"\n//description:\"test_desc\"\nfn test() {} \n//#PORT_END#");

    if let Ok(result) = trim_code(&text) {
        assert_eq!(result.entries.len(), 1);
        assert_eq!(result.entries[0].name, "just_a_mock");
        let snippet = &result.entries[0].data;

        assert_eq!(snippet.prefix, "test_prefix");
        assert_eq!(snippet.description, "test_desc");
        assert_eq!(snippet.body, "fn test() {} \n");
    } else {
        panic!("failed to trim codes");
    }
}

#[test]
fn trimCode_someCode_valid() {
    let text = String::from("//#PORT#\n//name:\"just_a_mock\"\n//prefix:\"test_prefix\"\n//description:\"test_desc\"\nfn test() {\nprinln!(\"test!\")\n\nprinln!(\"test2!\")\n} \n//#PORT_END#");

    if let Ok(result) = trim_code(&text) {
        assert_eq!(result.entries.len(), 1);
        assert_eq!(result.entries[0].name, "just_a_mock");
        let snippet = &result.entries[0].data;

        assert_eq!(snippet.prefix, "test_prefix");
        assert_eq!(snippet.description, "test_desc");
        assert_eq!(
            snippet.body,
            "fn test() {\nprinln!(\"test!\")\n\nprinln!(\"test2!\")\n} \n"
        );
    } else {
        panic!("failed to trim codes");
    }
}

#[test]
fn trimCode_asteriskComment_valid() {
    let text = String::from("/*#PORT#*/\n/*name:\"just_a_mock\"*/\n/*prefix:\"test_prefix\"*/\n/*description:\"test_desc\"*/\nfn test() {\nprinln!(\"test!\")\n\nprinln!(\"test2!\")\n} \n/*#PORT_END#*/");

    if let Ok(result) = trim_code(&text) {
        assert_eq!(result.entries.len(), 1);
        assert_eq!(result.entries[0].name, "just_a_mock");
        let snippet = &result.entries[0].data;

        assert_eq!(snippet.prefix, "test_prefix");
        assert_eq!(snippet.description, "test_desc");
        assert_eq!(
            snippet.body,
            "fn test() {\nprinln!(\"test!\")\n\nprinln!(\"test2!\")\n} \n"
        );
    } else {
        panic!("failed to trim codes");
    }
}

#[test]
fn trimCode_sharpComment_valid() {
    let text = String::from("##PORT##\n#name:\"just_a_mock\"#\n#prefix:\"test_prefix\"#\n#description:\"test_desc\"#\nfn test() {\nprinln!(\"test!\")\n\nprinln!(\"test2!\")\n} \n##PORT_END##");

    if let Ok(result) = trim_code(&text) {
        assert_eq!(result.entries.len(), 1);
        assert_eq!(result.entries[0].name, "just_a_mock");
        let snippet = &result.entries[0].data;

        assert_eq!(snippet.prefix, "test_prefix");
        assert_eq!(snippet.description, "test_desc");
        assert_eq!(
            snippet.body,
            "fn test() {\nprinln!(\"test!\")\n\nprinln!(\"test2!\")\n} \n"
        );
    } else {
        panic!("failed to trim codes");
    }
}

#[test]
fn trimCode_withoutName_invalid() {
    let text = String::from("//#PORT#\n//prefix:\"test_prefix\"\n//description:\"test_desc\"\nfn test() {} \n//#PORT_END#");
    let result = trim_code(&text);
    match result {
        Ok(_) => panic!("failed"),
        Err(e) => {
            assert_eq!(e, TrimError::InvalidMeta);
        }
    }
}

#[test]
fn trimCode_withoutNameAndPrefix_invalid() {
    let text =
        String::from("//#PORT#\n//description:\"test_desc\"\nfn test() {} \n//#PORT_END#");
    let result = trim_code(&text);
    match result {
        Ok(_) => panic!("failed"),
        Err(e) => {
            assert_eq!(e, TrimError::InvalidMeta);
        }
    }
}

#[test]
fn trimCode_withoutPrefix_invalid() {
    let text = String::from("//#PORT#\n//name:\"just_a_mock\"\n//description:\"test_desc\"\nfn test() {} \n//#PORT_END#");
    let result = trim_code(&text);
    match result {
        Ok(_) => panic!("failed"),
        Err(e) => {
            assert_eq!(e, TrimError::InvalidMeta);
        }
    }
}

#[test]
fn trimCode_WithoutEndTag_invalid() {
    let text = String::from("//#PORT#\n//name:\"just_a_mock\"\n//prefix:\"test_prefix\"\n//description:\"test_desc\"\nfn test() {} \n");
    let result = trim_code(&text);
    match result {
        Ok(_) => panic!("failed"),
        Err(e) => {
            assert_eq!(e, TrimError::InvalidMeta);
        }
    }
}

#[test]
fn addCode_fromScratch_valid() {
    let snippet_text = String::from("//#PORT#\n//name:\"just_a_mock\"\n//prefix:\"test_prefix\"\n//description:\"test_desc\"\nfn test() {\nprinln!(\"test!\")\n\nprinln!(\"test2!\")\n} \n//#PORT_END#");

    let namelist_text = String::from("{\"MOCK_PATH\":[\"just_a_mock\"]}");

    let mock_filename = String::from("MOCK_PATH");
    let snippet_json = String::from("");

    let result = make(&snippet_text, &snippet_json, &namelist_text, mock_filename);
    assert_ne!(result, None);

    let result = result.unwrap();
    let expected_json = String::from("{\n////////// [[Generated By PortSnippet]] (DON\'T REMOVE) //////////\n\"just_a_mock\":{\"prefix\":\"test_prefix\",\"body\":\"fn test() {\\nprinln!(\\\"test!\\\")\\n\\nprinln!(\\\"test2!\\\")\\n} \\n\",\"description\":\"test_desc\"},\n////////// [[PortSnippet End]] (DON\'T REMOVE) //////////\n\n\n}");
    assert_eq!(result.json, expected_json);

    assert_eq!(result.name_list.entries.len(), 1);
    assert_eq!(result.name_list.entries[0].path, "MOCK_PATH");
    assert_eq!(result.name_list.entries[0].names.len(), 1);
    assert_eq!(result.name_list.entries[0].names[0], "just_a_mock");
}

#[test]
fn updateName_someCode_valid() {
    let snippet_text = String::from("//#PORT#\n//name:\"modified_name\"\n//prefix:\"test_prefix\"\n//description:\"test_desc\"\nfn test() {\nprinln!(\"test!\")\n\nprinln!(\"test2!\")\n} \n//#PORT_END#");

    let namelist_text = String::from("{\"MOCK_PATH\":[\"just_a_mock\"]}");

    let mock_filename = String::from("MOCK_PATH");
    let snippet_json = String::from("{\n////////// [[Generated By PortSnippet]] (DON\'T REMOVE) //////////\n\"just_a_mock\":{\"prefix\":\"test_prefix\",\"body\":\"fn test() {\\nprinln!(\\\"test!\\\")\\n\\nprinln!(\\\"test2!\\\")\\n} \\n\",\"description\":\"test_desc\"},\n////////// [[PortSnippet End]] (DON\'T REMOVE) //////////\n\n\n}");

    let result = make(&snippet_text, &snippet_json, &namelist_text, mock_filename);
    assert_ne!(result, None);

    let result = result.unwrap();
    let expected_json = String::from("{\n////////// [[Generated By PortSnippet]] (DON\'T REMOVE) //////////\n\"modified_name\":{\"prefix\":\"test_prefix\",\"body\":\"fn test() {\\nprinln!(\\\"test!\\\")\\n\\nprinln!(\\\"test2!\\\")\\n} \\n\",\"description\":\"test_desc\"},\n////////// [[PortSnippet End]] (DON\'T REMOVE) //////////\n\n\n}\n");
    assert_eq!(result.json, expected_json);

    assert_eq!(result.name_list.entries.len(), 1);
    assert_eq!(result.name_list.entries[0].path, "MOCK_PATH");
    assert_eq!(result.name_list.entries[0].names.len(), 1);
    assert_eq!(result.name_list.entries[0].names[0], "modified_name");
}

#[test]
fn updatePrefix_someCode_valid() {
    let snippet_text = String::from("//#PORT#\n//name:\"just_a_mock\"\n//prefix:\"modified_prefix\"\n//description:\"test_desc\"\nfn test() {\nprinln!(\"test!\")\n\nprinln!(\"test2!\")\n} \n//#PORT_END#");

    let namelist_text = String::from("{\"MOCK_PATH\":[\"just_a_mock\"]}");

    let mock_filename = String::from("MOCK_PATH");
    let snippet_json = String::from("{\n////////// [[Generated By PortSnippet]] (DON\'T REMOVE) //////////\n\"just_a_mock\":{\"prefix\":\"test_prefix\",\"body\":\"fn test() {\\nprinln!(\\\"test!\\\")\\n\\nprinln!(\\\"test2!\\\")\\n} \\n\",\"description\":\"test_desc\"},\n////////// [[PortSnippet End]] (DON\'T REMOVE) //////////\n\n\n}");

    let result = make(&snippet_text, &snippet_json, &namelist_text, mock_filename);
    assert_ne!(result, None);

    let result = result.unwrap();
    let expected_json = String::from("{\n////////// [[Generated By PortSnippet]] (DON\'T REMOVE) //////////\n\"just_a_mock\":{\"prefix\":\"modified_prefix\",\"body\":\"fn test() {\\nprinln!(\\\"test!\\\")\\n\\nprinln!(\\\"test2!\\\")\\n} \\n\",\"description\":\"test_desc\"},\n////////// [[PortSnippet End]] (DON\'T REMOVE) //////////\n\n\n}\n");
    assert_eq!(result.json, expected_json);

    assert_eq!(result.name_list.entries.len(), 1);
    assert_eq!(result.name_list.entries[0].path, "MOCK_PATH");
    assert_eq!(result.name_list.entries[0].names.len(), 1);
    assert_eq!(result.name_list.entries[0].names[0], "just_a_mock");
}

#[test]
fn addCode_someCode_valid() {
    let snippet_text1 = String::from("//#PORT#\n//name:\"just_a_mock\"\n//prefix:\"test_prefix\"\n//description:\"test_desc\"\nfn test() {\nprinln!(\"test!\")\n\nprinln!(\"test2!\")\n} \n//#PORT_END#");
    let snippet_text2 = String::from("//#PORT#\n//name:\"mock2\"\n//prefix:\"prefix2\"\n//description:\"desc2\"\nfn second() {\ntest()}\n//#PORT_END#");

    let snippet_text = format!("{}\n{}", snippet_text1, snippet_text2);

    let namelist_text = String::from("{\"MOCK_PATH\":[\"just_a_mock\"]}");

    let mock_filename = String::from("MOCK_PATH");
    let snippet_json = String::from("{\n////////// [[Generated By PortSnippet]] (DON\'T REMOVE) //////////\n\"just_a_mock\":{\"prefix\":\"test_prefix\",\"body\":\"fn test() {\\nprinln!(\\\"test!\\\")\\n\\nprinln!(\\\"test2!\\\")\\n} \\n\",\"description\":\"test_desc\"},\n////////// [[PortSnippet End]] (DON\'T REMOVE) //////////\n\n\n}");

    let result = make(&snippet_text, &snippet_json, &namelist_text, mock_filename);
    assert_ne!(result, None);

    let result = result.unwrap();
    let expected_json = String::from("{\n////////// [[Generated By PortSnippet]] (DON\'T REMOVE) //////////\n\"just_a_mock\":{\"prefix\":\"test_prefix\",\"body\":\"fn test() {\\nprinln!(\\\"test!\\\")\\n\\nprinln!(\\\"test2!\\\")\\n} \\n\",\"description\":\"test_desc\"},\"mock2\":{\"prefix\":\"prefix2\",\"body\":\"fn second() {\\ntest()}\\n\",\"description\":\"desc2\"},\n////////// [[PortSnippet End]] (DON\'T REMOVE) //////////\n\n\n}\n");
    assert_eq!(result.json, expected_json);

    assert_eq!(result.name_list.entries.len(), 1);
    assert_eq!(result.name_list.entries[0].path, "MOCK_PATH");
    assert_eq!(result.name_list.entries[0].names.len(), 2);
    assert_eq!(
        result.name_list.entries[0].names.contains(&"just_a_mock".to_string()),
        true
    );
    assert_eq!(
        result.name_list.entries[0].names.contains(&"mock2".to_string()),
        true
    );
}

#[test]
fn deleteCode_someCode_valid() {
    let snippet_text = String::from("//#PORT#\n//name:\"just_a_mock\"\n//prefix:\"test_prefix\"\n//description:\"test_desc\"\nfn test() {\nprinln!(\"test!\")\n\nprinln!(\"test2!\")\n} \n//#PORT_END#");

    let namelist_text = String::from("{\"MOCK_PATH\":[\"just_a_mock\",\"mock2\"]}");

    let mock_filename = String::from("MOCK_PATH");
    let snippet_json = String::from("{\n////////// [[Generated By PortSnippet]] (DON\'T REMOVE) //////////\n\"just_a_mock\":{\"prefix\":\"test_prefix\",\"body\":\"fn test() {\\nprinln!(\\\"test!\\\")\\n\\nprinln!(\\\"test2!\\\")\\n} \\n\",\"description\":\"test_desc\"},\"mock2\":{\"prefix\":\"prefix2\",\"body\":\"fn second() {\\ntest()}\\n\",\"description\":\"desc2\"},\n////////// [[PortSnippet End]] (DON\'T REMOVE) //////////\n\n\n}");

    let result = make(&snippet_text, &snippet_json, &namelist_text, mock_filename);
    assert_ne!(result, None);

    let result = result.unwrap();
    let expected_json = String::from("{\n////////// [[Generated By PortSnippet]] (DON\'T REMOVE) //////////\n\"just_a_mock\":{\"prefix\":\"test_prefix\",\"body\":\"fn test() {\\nprinln!(\\\"test!\\\")\\n\\nprinln!(\\\"test2!\\\")\\n} \\n\",\"description\":\"test_desc\"},\n////////// [[PortSnippet End]] (DON\'T REMOVE) //////////\n\n\n}\n");
    assert_eq!(result.json, expected_json);

    assert_eq!(result.name_list.entries.len(), 1);
    assert_eq!(result.name_list.entries[0].path, "MOCK_PATH");
    assert_eq!(result.name_list.entries[0].names.len(), 1);
    assert_eq!(
        result.name_list.entries[0].names.contains(&"just_a_mock".to_string()),
        true
    );
    assert_eq!(
        result.name_list.entries[0].names.contains(&"mock2".to_string()),
        false
    );
}
