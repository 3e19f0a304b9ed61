use memo_store::MemoError;
use memo_store::config::{merge_config, update_config, AppConfig};
use memo_store::listing::list_memos;
use memo_store::notes::{
    create_memo_with_title, delete_memo, extract_title, import_memo_from_content,
    import_single_file, resolve_unique_filename, sanitize_filename, save_memo, title_of_filename,
    NoteFile,
};
use memo_store::sidecar::{parse_order_doc, parse_pins_doc, update_memo_order, AssocList, PinEntry};

fn nf(name: &str, content: &str, created: &str, updated: &str) -> NoteFile {
    NoteFile {
        filename: name.to_string(),
        content: content.to_string(),
        created_at: created.to_string(),
        updated_at: updated.to_string(),
    }
}

fn names(listing: &[memo_store::notes::MemoMetadata]) -> Vec<String> {
    listing.iter().map(|m| m.filename.clone()).collect()
}

#[test]
fn test_sanitize_filename() {
    assert_eq!(sanitize_filename("test/file"), "testfile");
    assert_eq!(sanitize_filename("test:file"), "testfile");
    assert_eq!(sanitize_filename("  test  "), "test");
}

#[test]
fn sanitize_strips_all_forbidden_characters() {
    assert_eq!(sanitize_filename("a/b:c"), "abc");
    assert_eq!(sanitize_filename("a\\b*c?d\"e<f>g|h"), "abcdefgh");
}

#[test]
fn sanitize_of_whitespace_gives_timestamped_placeholder() {
    let r = sanitize_filename("   ");
    assert!(!r.is_empty());
    assert!(r.starts_with("\u{7121}\u{984c}\u{306e}\u{30e1}\u{30e2}_"));
    let suffix = &r["\u{7121}\u{984c}\u{306e}\u{30e1}\u{30e2}_".len()..];
    assert!(!suffix.is_empty());
    assert!(suffix.chars().all(|c| c.is_ascii_digit() || c == '-'));
}

#[test]
fn sanitize_truncates_to_two_hundred_characters() {
    let long: String = "x".repeat(300);
    assert_eq!(sanitize_filename(&long).chars().count(), 200);
}

#[test]
fn title_strips_one_extension_only() {
    assert_eq!(title_of_filename("note.md"), "note");
    assert_eq!(title_of_filename("note.txt"), "note");
    assert_eq!(title_of_filename("a.md.txt"), "a.md");
    assert_eq!(title_of_filename("plain"), "plain");
    assert_eq!(title_of_filename("dots.in.name.md"), "dots.in.name");
}

#[test]
fn extract_title_takes_first_line_without_heading() {
    assert_eq!(extract_title("# Hello\nbody"), "Hello");
    assert_eq!(extract_title("## Two\r\nmore"), "Two");
    assert_eq!(extract_title("plain text"), "plain text");
    assert_eq!(extract_title(""), "");
}

#[test]
fn listing_filters_to_note_files_and_builds_records() {
    let files = vec![
        nf("a.md", "alpha", "2024-01-01T00:00:00+00:00", "2024-01-02T00:00:00+00:00"),
        nf(".pins.json", "{}", "2024-01-01T00:00:00+00:00", "2024-01-01T00:00:00+00:00"),
        nf("b.txt", "beta", "2024-01-01T00:00:00+00:00", "2024-01-03T00:00:00+00:00"),
        nf("c.pdf", "nope", "2024-01-01T00:00:00+00:00", "2024-01-01T00:00:00+00:00"),
        nf(".md", "hidden", "2024-01-01T00:00:00+00:00", "2024-01-01T00:00:00+00:00"),
    ];
    let pins = AssocList::<PinEntry>::new();
    let order = AssocList::<usize>::new();
    let (listing, healed) = list_memos(files, &pins, &order);
    assert_eq!(names(&listing), vec!["b.txt", "a.md"]); // updated_at descending
    assert_eq!(listing[1].title, "a");
    assert_eq!(listing[1].content, "alpha");
    assert!(!listing[0].pinned);
    assert!(healed.is_some());
}

#[test]
fn pinned_notes_precede_unpinned_in_every_listing() {
    let files = vec![
        nf("a.md", "", "2024-01-01T00:00:00+00:00", "2024-01-09T00:00:00+00:00"),
        nf("b.md", "", "2024-01-01T00:00:00+00:00", "2024-01-08T00:00:00+00:00"),
        nf("c.md", "", "2024-01-01T00:00:00+00:00", "2024-01-07T00:00:00+00:00"),
    ];
    let mut pins = AssocList::<PinEntry>::new();
    pins.toggle_pin(&"c.md".to_string(), "2024-01-05T00:00:00+00:00".to_string());
    let order = AssocList::<usize>::new();
    let (listing, _) = list_memos(files, &pins, &order);
    assert_eq!(names(&listing), vec!["c.md", "a.md", "b.md"]);
    assert!(listing[0].pinned);
    assert_eq!(
        listing[0].pinned_at.as_deref(),
        Some("2024-01-05T00:00:00+00:00")
    );
}

#[test]
fn listing_twice_is_idempotent_after_self_heal() {
    let mk = || {
        vec![
            nf("a.md", "", "2024-01-01T00:00:00+00:00", "2024-01-09T00:00:00+00:00"),
            nf("b.md", "", "2024-01-01T00:00:00+00:00", "2024-01-08T00:00:00+00:00"),
            nf("c.md", "", "2024-01-01T00:00:00+00:00", "2024-01-10T00:00:00+00:00"),
        ]
    };
    let pins = AssocList::<PinEntry>::new();
    let order = AssocList::<usize>::new();
    let (first, healed) = list_memos(mk(), &pins, &order);
    let healed = healed.expect("first listing must heal an empty order store");
    let (second, healed_again) = list_memos(mk(), &pins, &healed);
    assert_eq!(names(&first), names(&second));
    assert!(healed_again.is_none());
}

#[test]
fn explicit_reorder_is_respected_by_listing() {
    let filenames = vec!["b.md".to_string(), "c.md".to_string(), "a.md".to_string()];
    let order = update_memo_order(&filenames);
    let files = vec![
        nf("a.md", "", "2024-01-01T00:00:00+00:00", "2024-01-09T00:00:00+00:00"),
        nf("b.md", "", "2024-01-01T00:00:00+00:00", "2024-01-08T00:00:00+00:00"),
        nf("c.md", "", "2024-01-01T00:00:00+00:00", "2024-01-10T00:00:00+00:00"),
    ];
    let pins = AssocList::<PinEntry>::new();
    let (listing, healed) = list_memos(files, &pins, &order);
    assert_eq!(names(&listing), vec!["b.md", "c.md", "a.md"]);
    assert!(healed.is_none());
}

#[test]
fn rank_beats_tiebreak_and_missing_rank_sorts_last() {
    let order = update_memo_order(&vec!["old.md".to_string()]);
    let files = vec![
        nf("new.md", "", "2024-01-01T00:00:00+00:00", "2024-12-31T00:00:00+00:00"),
        nf("old.md", "", "2024-01-01T00:00:00+00:00", "2024-01-01T00:00:00+00:00"),
    ];
    let pins = AssocList::<PinEntry>::new();
    let (listing, _) = list_memos(files, &pins, &order);
    assert_eq!(names(&listing), vec!["old.md", "new.md"]);
}

#[test]
fn rename_preserves_order_rank() {
    let filenames = vec!["a.md".to_string(), "x.md".to_string(), "c.md".to_string()];
    let mut order = update_memo_order(&filenames);
    let outcome = save_memo("y", Some(&"x.md".to_string()), &mut order);
    assert_eq!(outcome.filename, "y.md");
    assert!(outcome.delete_old);
    assert!(outcome.order_changed);
    let files = vec![
        nf("a.md", "", "2024-01-01T00:00:00+00:00", "2024-01-01T00:00:00+00:00"),
        nf("y.md", "", "2024-01-01T00:00:00+00:00", "2024-01-05T00:00:00+00:00"),
        nf("c.md", "", "2024-01-01T00:00:00+00:00", "2024-01-09T00:00:00+00:00"),
    ];
    let pins = AssocList::<PinEntry>::new();
    let (listing, _) = list_memos(files, &pins, &order);
    assert_eq!(names(&listing), vec!["a.md", "y.md", "c.md"]);
}

#[test]
fn save_without_rename_leaves_order_alone() {
    let mut order = update_memo_order(&vec!["y.md".to_string()]);
    let outcome = save_memo("y", Some(&"y.md".to_string()), &mut order);
    assert_eq!(outcome.filename, "y.md");
    assert!(!outcome.delete_old);
    assert!(!outcome.order_changed);
}

#[test]
fn save_keeps_previous_extension_and_defaults_to_md() {
    let mut order = AssocList::<usize>::new();
    let o1 = save_memo("new name", Some(&"old.txt".to_string()), &mut order);
    assert_eq!(o1.filename, "new name.txt");
    let o2 = save_memo("fresh", None, &mut order);
    assert_eq!(o2.filename, "fresh.md");
}

#[test]
fn toggle_pin_twice_returns_to_unpinned_without_timestamp() {
    let mut pins = AssocList::<PinEntry>::new();
    let f = "a.md".to_string();
    let first = pins.toggle_pin(&f, "2024-01-01T00:00:00+00:00".to_string());
    assert!(first);
    let second = pins.toggle_pin(&f, "2024-01-02T00:00:00+00:00".to_string());
    assert!(!second);
    let entry = pins.get(&f).expect("entry is kept after unpinning");
    assert!(!entry.pinned);
    assert!(entry.pinned_at.is_none());
}

#[test]
fn creating_twice_in_same_minute_appends_suffix_to_title() {
    let title = "memo_2024-01-01_0900".to_string();
    let mut existing: Vec<String> = Vec::new();
    let (f1, t1) = create_memo_with_title(&existing, &title, "md").unwrap();
    assert_eq!(f1, "memo_2024-01-01_0900.md");
    assert_eq!(t1, "memo_2024-01-01_0900");
    existing.push(f1);
    let (f2, t2) = create_memo_with_title(&existing, &title, "md").unwrap();
    assert_eq!(f2, "memo_2024-01-01_0900_2.md");
    assert_eq!(t2, "memo_2024-01-01_0900_2");
    assert_ne!(existing[0], f2);
}

#[test]
fn importing_two_drafts_into_directory_with_draft_yields_numbered_names() {
    let mut existing = vec!["draft.md".to_string()];
    let first = import_memo_from_content("draft.md", &existing).unwrap();
    assert_eq!(first, "draft_1.md");
    existing.push(first);
    let second = import_memo_from_content("some/dir/draft.md", &existing).unwrap();
    assert_eq!(second, "draft_2.md");
}

#[test]
fn import_rejects_unsupported_extension() {
    let existing: Vec<String> = Vec::new();
    assert_eq!(
        import_single_file("notes/slides.pdf", &existing),
        Err(MemoError::UnsupportedType)
    );
    assert_eq!(
        import_single_file("no_extension", &existing),
        Err(MemoError::UnsupportedType)
    );
    assert!(import_single_file("dir/note.txt", &existing).is_ok());
}

#[test]
fn content_import_rejects_unsupported_extension() {
    let existing: Vec<String> = Vec::new();
    assert_eq!(
        import_memo_from_content("slides.pdf", &existing),
        Err(MemoError::UnsupportedType)
    );
    assert_eq!(
        import_memo_from_content("no_extension", &existing),
        Err(MemoError::UnsupportedType)
    );
    assert_eq!(import_memo_from_content("note.txt", &existing), Ok("note.txt".to_string()));
}

#[test]
fn collision_resolution_exhausts_at_thousand_names() {
    let mut existing = vec!["draft.md".to_string()];
    for i in 1..=999 {
        existing.push(format!("draft_{}.md", i));
    }
    assert_eq!(
        resolve_unique_filename(&existing, "draft", "md"),
        Err(MemoError::CapacityExceeded)
    );
    assert_eq!(MemoError::CapacityExceeded.message(), "too many files with this name");
}

#[test]
fn deleting_a_nonexistent_filename_succeeds() {
    let existing = vec!["a.md".to_string()];
    assert!(!delete_memo(&existing, &"missing.md".to_string()));
    assert!(delete_memo(&existing, &"a.md".to_string()));
}

#[test]
fn malformed_pins_document_reads_as_nothing_pinned() {
    let pins = parse_pins_doc("{ not valid json !!");
    let files = vec![nf(
        "a.md",
        "",
        "2024-01-01T00:00:00+00:00",
        "2024-01-01T00:00:00+00:00",
    )];
    let order = AssocList::<usize>::new();
    let (listing, _) = list_memos(files, &pins, &order);
    assert_eq!(listing.len(), 1);
    assert!(!listing[0].pinned);
    assert!(listing[0].pinned_at.is_none());
}

#[test]
fn wrong_shaped_pin_entry_discards_whole_document() {
    let pins = parse_pins_doc("{\"a.md\": {\"pinned\": \"yes\"}}");
    assert!(pins.get(&"a.md".to_string()).is_none());
}

#[test]
fn well_formed_pins_document_is_honoured() {
    let doc = "{\"a.md\": {\"pinned\": true, \"pinnedAt\": \"2024-01-01T00:00:00+00:00\"}, \
               \"b.md\": {\"pinned\": false, \"pinnedAt\": null}}";
    let pins = parse_pins_doc(doc);
    let a = pins.get(&"a.md".to_string()).unwrap();
    assert!(a.pinned);
    assert_eq!(a.pinned_at.as_deref(), Some("2024-01-01T00:00:00+00:00"));
    let b = pins.get(&"b.md".to_string()).unwrap();
    assert!(!b.pinned);
    assert!(b.pinned_at.is_none());
}

#[test]
fn order_document_round_trips_through_listing() {
    let order = parse_order_doc("{\"a.md\": 1, \"b.md\": 0}");
    let files = vec![
        nf("a.md", "", "2024-01-01T00:00:00+00:00", "2024-12-31T00:00:00+00:00"),
        nf("b.md", "", "2024-01-01T00:00:00+00:00", "2024-01-01T00:00:00+00:00"),
    ];
    let pins = AssocList::<PinEntry>::new();
    let (listing, healed) = list_memos(files, &pins, &order);
    assert_eq!(names(&listing), vec!["b.md", "a.md"]);
    assert!(healed.is_none());
}

#[test]
fn malformed_order_document_reads_as_empty() {
    let order = parse_order_doc("[1, 2, 3]");
    assert!(order.get(&"a.md".to_string()).is_none());
    let order2 = parse_order_doc("{\"a.md\": -1}");
    assert!(order2.get(&"a.md".to_string()).is_none());
}

#[test]
fn config_merge_updates_only_recognized_present_fields() {
    let base = AppConfig { memo_directory: "/tmp/memos".to_string(), auto_save_delay: 1000 };
    let merged = merge_config(base, None, Some(250));
    assert_eq!(merged.memo_directory, "/tmp/memos");
    assert_eq!(merged.auto_save_delay, 250);
    let partial: serde_json::Value =
        serde_json::from_str("{\"memoDirectory\": \"/elsewhere\", \"unknown\": 1}").unwrap();
    let (updated, md, asd) = update_config(merged, &partial);
    assert_eq!(md.as_deref(), Some("/elsewhere"));
    assert_eq!(asd, None);
    assert_eq!(updated.memo_directory, "/elsewhere");
    assert_eq!(updated.auto_save_delay, 250);
}

#[test]
fn default_config_has_one_second_autosave() {
    let c = AppConfig::default();
    assert_eq!(c.auto_save_delay, 1000);
    assert!(c.memo_directory.ends_with("/Documents/Memos"));
}

#[test]
fn create_memo_yields_fresh_clock_named_file() {
    let existing = vec!["memo.md".to_string()];
    let (filename, title) = memo_store::notes::create_memo(&existing, None).unwrap();
    assert!(filename.ends_with(".md"));
    assert!(!filename.is_empty());
    assert!(!title.is_empty());
    assert!(!existing.contains(&filename));
}

#[test]
fn config_paths_live_under_the_config_directory() {
    let dir = memo_store::config::get_config_dir().unwrap();
    assert!(dir.ends_with("/.memo-app"));
    let file = memo_store::config::get_config_file().unwrap();
    assert!(file.ends_with("/.memo-app/config.json"));
    assert_eq!(memo_store::config::get_pins_file("/tmp/m"), "/tmp/m/.pins.json");
    assert_eq!(memo_store::config::get_order_file("/tmp/m"), "/tmp/m/.order.json");
}

#[test]
fn save_defaults_to_md_when_old_filename_has_no_extension() {
    let mut order = AssocList::<usize>::new();
    let o1 = save_memo("t", Some(&"go".to_string()), &mut order);
    assert_eq!(o1.filename, "t.md");
    let o2 = save_memo("t", Some(&".md".to_string()), &mut order);
    assert_eq!(o2.filename, "t.md");
}

#[test]
fn create_in_empty_directory_always_succeeds() {
    let existing: Vec<String> = Vec::new();
    let (filename, title) = create_memo_with_title(&existing, &"note".to_string(), "md").unwrap();
    assert_eq!(filename, "note.md");
    assert_eq!(title, "note");
    assert!(memo_store::notes::create_memo(&existing, None).is_ok());
}
