use port_snippet::debounce::{Debouncer, SafeFileDebouncer};
use port_snippet::file::get_extension;
use port_snippet::index::{get_deleted_list, get_snippet_namelist, serialize_keylist};
use port_snippet::lang::{get_lang, Language, Languages};
use port_snippet::merge::{add_tag, format_tag, reconcile, MergeError};
use port_snippet::scanner::trim_code;
use port_snippet::snippet::make;

const START_LINE: &str = "////////// [[Generated By PortSnippet]] (DON'T REMOVE) //////////";
const END_LINE: &str = "////////// [[PortSnippet End]] (DON'T REMOVE) //////////";

// ---- debounce timing: three calls inside one interval run once,
// ---- and the trailing re-check after the interval runs once more

#[test]
fn debounce_burst_runs_first_and_trailing_only() {
    let mut d = Debouncer::new(100);
    assert_eq!(d.debounce(0), true); // immediate
    assert_eq!(d.debounce(30), false); // suppressed
    assert_eq!(d.debounce(60), false); // suppressed
    assert_eq!(d.debounce(101), true); // trailing re-check
}

#[test]
fn debounce_boundary_is_exclusive() {
    let mut d = Debouncer::new(100);
    assert_eq!(d.debounce(0), true);
    assert_eq!(d.debounce(100), false); // exactly the interval: still inside
    assert_eq!(d.debounce(201), true);
}

#[test]
fn debounce_per_key_is_independent() {
    let mut c = SafeFileDebouncer::new(100);
    assert_eq!(c.debounce("a.rs", 0), true);
    assert_eq!(c.debounce("b.rs", 10), true); // other key: its own first run
    assert_eq!(c.debounce("a.rs", 50), false);
    assert_eq!(c.debounce("b.rs", 50), false);
    assert_eq!(c.debounce("a.rs", 101), true);
}

#[test]
fn debouncer_get_caches_one_per_key() {
    let mut c = SafeFileDebouncer::new(250);
    let d = c.get("x.rs");
    assert_eq!(d.interval_ms, 250);
    assert_eq!(d.last_run, None);
    assert_eq!(c.debounce("x.rs", 7), true);
    let d = c.get("x.rs");
    assert_eq!(d.last_run, Some(7));
}

// ---- scan failure: a block without a name fails the whole scan and
// ---- leaves artifact and index untouched

#[test]
fn scan_missing_name_is_invalid_meta_and_mutates_nothing() {
    let text = "#PORT#\n//prefix:\"p\"\n//description:\"d\"\ncode\n#PORT_END#";
    assert!(trim_code(text).is_err());

    let artifact = String::from("{}");
    let namelist = String::from("{\"f.rs\":[\"a\"]}");
    let result = make(text, &artifact, &namelist, String::from("f.rs"));
    assert_eq!(result, None);
}

#[test]
fn scan_nested_start_marker_fails() {
    let text = "//#PORT#\n//#PORT#\n//name:\"a\"\n//prefix:\"p\"\nbody\n//#PORT_END#";
    assert!(trim_code(text).is_err());
}

#[test]
fn scan_empty_text_is_empty_set() {
    let set = trim_code("").unwrap();
    assert_eq!(set.entries.len(), 0);
}

#[test]
fn scan_description_is_optional() {
    let text = "//#PORT#\n//name:\"a\"\n//prefix:\"p\"\nbody\n//#PORT_END#";
    let set = trim_code(text).unwrap();
    assert_eq!(set.entries.len(), 1);
    assert_eq!(set.entries[0].data.description, "");
    assert_eq!(set.entries[0].data.body, "body\n");
}

#[test]
fn scan_duplicate_name_keeps_last_block() {
    let text = "//#PORT#\n//name:\"a\"\n//prefix:\"p1\"\none\n//#PORT_END#\n//#PORT#\n//name:\"a\"\n//prefix:\"p2\"\ntwo\n//#PORT_END#";
    let set = trim_code(text).unwrap();
    assert_eq!(set.entries.len(), 1);
    assert_eq!(set.entries[0].data.prefix, "p2");
    assert_eq!(set.entries[0].data.body, "two\n");
}

// ---- idempotence: reconciling the artifact produced by a reconciliation,
// ---- with the same snippets and nothing newly deleted, is byte-identical

#[test]
fn reconcile_twice_is_byte_identical() {
    let set = trim_code(
        "//#PORT#\n//name:\"a\"\n//prefix:\"p\"\n//description:\"d\"\nfn a() {}\n//#PORT_END#",
    )
    .unwrap();
    let prev = format!("{{\n{}\n\"old\":{{\"prefix\":\"q\",\"body\":\"b\",\"description\":\"e\"}},\n{}\n}}", START_LINE, END_LINE);
    let deleted: Vec<String> = vec![];
    let once = reconcile(&prev, &set, &deleted).unwrap();
    let twice = reconcile(&once, &set, &deleted).unwrap();
    assert_eq!(once, twice);
}

// ---- round trip: a scanned set written into an empty artifact and
// ---- reconciled again reads back unchanged, escapes included

#[test]
fn round_trip_preserves_escaped_bodies() {
    let text = "//#PORT#\n//name:\"q\"\n//prefix:\"p\"\n//description:\"says hi\"\nlet s = \"a\\tb\";\n//#PORT_END#";
    let set = trim_code(text).unwrap();
    assert_eq!(set.entries[0].data.body, "let s = \"a\\tb\";\n");
    let deleted: Vec<String> = vec![];
    let first = reconcile("", &set, &deleted).unwrap();
    // the artifact now carries the region; a second run must reproduce it
    let second = reconcile(&first, &set, &deleted).unwrap();
    let third = reconcile(&second, &set, &deleted).unwrap();
    assert_eq!(second, third);
    // quotes and backslashes of the body stand escaped in the region
    assert!(second.contains("\"body\":\"let s = \\\"a\\\\tb\\\";\\n\""));
}

// ---- deletion: a name the file stopped owning leaves the artifact and
// ---- the index; unrelated names stay

#[test]
fn deleted_names_are_previous_minus_current() {
    let set = trim_code("//#PORT#\n//name:\"a\"\n//prefix:\"p\"\nx\n//#PORT_END#").unwrap();
    let previous = vec![String::from("a"), String::from("b")];
    let deleted = get_deleted_list(&set, &previous);
    assert_eq!(deleted, vec![String::from("b")]);
}

#[test]
fn deletion_removes_owned_name_and_keeps_others() {
    let artifact = format!(
        "{{\n{}\n\"a\":{{\"prefix\":\"pa\",\"body\":\"ba\",\"description\":\"da\"}},\"b\":{{\"prefix\":\"pb\",\"body\":\"bb\",\"description\":\"db\"}},\"other\":{{\"prefix\":\"po\",\"body\":\"bo\",\"description\":\"do\"}},\n{}\n}}",
        START_LINE, END_LINE
    );
    let namelist = String::from("{\"f.rs\":[\"a\",\"b\"],\"g.rs\":[\"other\"]}");
    let scan = "//#PORT#\n//name:\"a\"\n//prefix:\"pa\"\nba\n//#PORT_END#";
    let result = make(scan, &artifact, &namelist, String::from("f.rs")).unwrap();
    assert!(!result.json.contains("\"b\":"));
    assert!(result.json.contains("\"other\":{\"prefix\":\"po\",\"body\":\"bo\",\"description\":\"do\"}"));
    assert_eq!(result.name_list.entries.len(), 2);
    assert_eq!(result.name_list.entries[0].path, "f.rs");
    assert_eq!(result.name_list.entries[0].names, vec![String::from("a")]);
    assert_eq!(result.name_list.entries[1].path, "g.rs");
    assert_eq!(result.name_list.entries[1].names, vec![String::from("other")]);
}

// ---- cross-file isolation: an update from one file leaves entries owned
// ---- by another byte-identical

#[test]
fn update_from_one_file_leaves_other_entries_untouched() {
    let other_entry = "\"other\":{\"prefix\":\"po\",\"body\":\"bo \\u0041\",\"description\":\"do\"}";
    let artifact = format!(
        "{{\n{}\n\"mine\":{{\"prefix\":\"p\",\"body\":\"b\",\"description\":\"d\"}},{},\n{}\n}}",
        START_LINE, other_entry, END_LINE
    );
    let namelist = String::from("{\"f.rs\":[\"mine\"]}");
    let scan = "//#PORT#\n//name:\"mine\"\n//prefix:\"p2\"\nnew body\n//#PORT_END#";
    let result = make(scan, &artifact, &namelist, String::from("f.rs")).unwrap();
    // the other file's entry survives; its \u0041 was read as 'A' and is
    // re-serialized as the bare character
    assert!(result.json.contains("\"other\":{\"prefix\":\"po\",\"body\":\"bo A\",\"description\":\"do\"}"));
    assert!(result.json.contains("\"mine\":{\"prefix\":\"p2\",\"body\":\"new body\\n\",\"description\":\"\"}"));
}

// ---- malformed fallback: a region whose fragment is not JSON still
// ---- reconciles, to exactly the new snippets

#[test]
fn malformed_region_falls_back_to_new_snippets() {
    let artifact = format!("{{\n{}\nthis is (not) JSON!!\n{}\n}}", START_LINE, END_LINE);
    let namelist = String::from("{}");
    let scan = "//#PORT#\n//name:\"n\"\n//prefix:\"p\"\nbody\n//#PORT_END#";
    let result = make(scan, &artifact, &namelist, String::from("f.rs")).unwrap();
    let expected = format!(
        "{{\n{}\n\"n\":{{\"prefix\":\"p\",\"body\":\"body\\n\",\"description\":\"\"}},\n{}\n}}\n",
        START_LINE, END_LINE
    );
    assert_eq!(result.json, expected);
}

// ---- merge errors and region creation

#[test]
fn unterminated_region_is_a_merge_error() {
    let set = trim_code("").unwrap();
    let prev = format!("{{\n{}\nno end marker follows\n", START_LINE);
    let deleted: Vec<String> = vec![];
    assert_eq!(
        reconcile(&prev, &set, &deleted),
        Err(MergeError::UnterminatedRegion)
    );
}

#[test]
fn region_is_inserted_after_first_brace() {
    let set = trim_code("//#PORT#\n//name:\"a\"\n//prefix:\"p\"\nx\n//#PORT_END#").unwrap();
    let deleted: Vec<String> = vec![];
    let out = reconcile("{\"keep\": 1}", &set, &deleted).unwrap();
    let expected = format!(
        "{{\n{}\n\"a\":{{\"prefix\":\"p\",\"body\":\"x\\n\",\"description\":\"\"}},\n{}\n\"keep\": 1}}\n",
        START_LINE, END_LINE
    );
    assert_eq!(out, expected);
}

#[test]
fn format_tag_and_add_tag_decorate_exactly() {
    assert_eq!(format_tag("[[Generated By PortSnippet]]"), START_LINE);
    let wrapped = add_tag(&String::from("FRAGMENT"));
    assert_eq!(wrapped, format!("{}\nFRAGMENT\n{}\n", START_LINE, END_LINE));
}

// ---- the name index survives its own serialization

#[test]
fn namelist_serialization_round_trips() {
    let namelist = String::from("{\"f.rs\":[\"a\",\"b\"],\"g.rs\":[],\"h.rs\":[\"c\"]}");
    let kl = get_snippet_namelist(&namelist);
    assert_eq!(kl.entries.len(), 3);
    assert_eq!(serialize_keylist(&kl), namelist);
}

#[test]
fn corrupt_namelist_reads_as_empty() {
    let kl = get_snippet_namelist("][ bogus");
    assert_eq!(kl.entries.len(), 0);
    let kl = get_snippet_namelist("");
    assert_eq!(kl.entries.len(), 0);
}

// ---- extension and language lookup

#[test]
fn extension_of_plain_paths() {
    assert_eq!(get_extension("src/main.rs"), Some(String::from("rs")));
    assert_eq!(get_extension("a/b/archive.tar.gz"), Some(String::from("gz")));
    assert_eq!(get_extension("noext"), Some(String::from("noext")));
    assert_eq!(get_extension("dir/"), None);
    assert_eq!(get_extension("a/.."), None);
}

#[test]
fn language_lookup_first_match_wins() {
    let langs = Languages {
        lang: vec![
            Language {
                name: String::from("Rust"),
                identifier: String::from("rust"),
                extension: String::from("rs"),
            },
            Language {
                name: String::from("Rust again"),
                identifier: String::from("rust2"),
                extension: String::from("rs"),
            },
        ],
    };
    assert_eq!(get_lang(&langs, String::from("rs")), Some(String::from("rust")));
    assert_eq!(get_lang(&langs, String::from("py")), None);
}

// ---- daemon completion messages

#[test]
fn daemon_messages_are_fixed() {
    let mac = port_snippet::daemon_macos::get_complete_messages();
    assert!(mac.starts_with("Daemon setup is now completed!\n"));
    assert!(mac.contains("launch-port-snippet.plist"));
    let win = port_snippet::daemon_windows::get_complete_messages();
    assert!(win.starts_with("Daemon setup is now completed!\n\n"));
    assert!(win.ends_with("(Ctrl + C)"));
}
