use menuvroom::cache::{decode_catalog, decode_line, encode_catalog, should_invalidate_cache, CacheLineError};
use menuvroom::catalog::{build_catalog, classify_entry, is_desktop_file_name, parse_desktop_entry, EntryKind};
use menuvroom::dirs::{candidate_directories, get_binary_dirs, split_search_path};
use menuvroom::executable;
use menuvroom::executables::Executable;
use menuvroom::launch::{candidate_paths, split_command};
use menuvroom::search::{hotkey_index, rank, AppState, Key, Outcome, MAX_RANKED};
use menuvroom::window_options::WindowAttributes;

fn binary(name: &str) -> Executable {
    Executable::new_binary(name.to_string())
}

fn desktop(command: &str, name: &str) -> Executable {
    Executable::new_desktop_file(command.to_string(), name.to_string())
}

fn chars(s: &str) -> Vec<char> {
    s.chars().collect()
}

fn type_text(state: &mut AppState, s: &str) {
    assert_eq!(state.handle_key(Key::Text(s.to_string())), Outcome::Continue);
}

fn strings(v: &[&str]) -> Vec<String> {
    v.iter().map(|s| s.to_string()).collect()
}

#[test]
fn empty_catalog_ranks_nothing() {
    let found: Vec<Executable> = Vec::new();
    let catalog = build_catalog(&found);
    assert!(catalog.is_empty());
    let mut state = AppState::new(catalog);
    for q in ["a", "fire", " "] {
        state.append_to_search(q);
        assert!(state.ranked_display_texts().is_empty());
        assert_eq!(state.get_selected_executable(), None);
    }
}

#[test]
fn non_executable_files_give_empty_catalog() {
    let mut found = Vec::new();
    for (name, is_file, mode) in [("readme.txt", true, 0o644u32), ("notes", true, 0o600), ("sub", false, 0o755)] {
        if classify_entry(name, is_file, mode, true, true) == EntryKind::Binary {
            found.push(binary(name));
        }
    }
    let catalog = build_catalog(&found);
    assert!(catalog.is_empty());
    let mut state = AppState::new(catalog);
    type_text(&mut state, "no");
    assert!(state.ranked_display_texts().is_empty());
}

#[test]
fn containment_keeps_catalog_order() {
    let catalog = build_catalog(&vec![binary("vim"), binary("firefox-esr"), binary("firefox")]);
    let texts: Vec<&str> = catalog.iter().map(|e| e.get_display_text()).collect();
    assert_eq!(texts, vec!["firefox", "firefox-esr", "vim"]);
    let mut state = AppState::new(catalog);
    type_text(&mut state, "fire");
    assert_eq!(state.ranked_display_texts(), strings(&["firefox", "firefox-esr"]));
}

#[test]
fn exact_match_comes_first() {
    let catalog = build_catalog(&vec![binary("gvim"), binary("vim"), binary("vimdiff")]);
    let mut state = AppState::new(catalog);
    type_text(&mut state, "vim");
    assert_eq!(state.ranked_display_texts(), strings(&["vim", "gvim", "vimdiff"]));
}

#[test]
fn rank_orders_exact_before_containment() {
    let texts = vec![chars("ab"), chars("b"), chars("cb"), chars("x")];
    assert_eq!(rank(&texts, &chars("b")), vec![1, 0, 2]);
    assert_eq!(rank(&texts, &chars("")), Vec::<usize>::new());
    assert_eq!(rank(&texts, &chars("zz")), Vec::<usize>::new());
}

#[test]
fn ranked_list_is_capped() {
    let found: Vec<Executable> = (0..20).map(|i| binary(&format!("tool{:02}", i))).collect();
    let mut state = AppState::new(build_catalog(&found));
    type_text(&mut state, "tool");
    let ranked = state.ranked_display_texts();
    assert_eq!(ranked.len(), MAX_RANKED);
    assert_eq!(ranked[0], "tool00");
    assert_eq!(ranked[7], "tool07");
}

#[test]
fn every_ranked_entry_matches_query() {
    let catalog = build_catalog(&vec![binary("alpha"), binary("beta"), binary("gamma"), binary("ma")]);
    let mut state = AppState::new(catalog);
    type_text(&mut state, "ma");
    let ranked = state.ranked_display_texts();
    assert_eq!(ranked, strings(&["ma", "gamma"]));
    for t in ranked {
        assert!(t.contains("ma"));
    }
}

#[test]
fn selection_moves_and_clamps() {
    let catalog = build_catalog(&vec![binary("aa"), binary("ab"), binary("ac")]);
    let mut state = AppState::new(catalog);
    type_text(&mut state, "a");
    assert_eq!(state.selected_position(), 0);
    assert_eq!(state.handle_key(Key::ArrowUp), Outcome::Continue);
    assert_eq!(state.selected_position(), 0);
    state.increment_selected_index();
    state.increment_selected_index();
    assert_eq!(state.selected_position(), 2);
    state.increment_selected_index();
    assert_eq!(state.selected_position(), 2);
    state.decrement_selected_index();
    assert_eq!(state.selected_position(), 1);
    assert_eq!(state.get_selected_executable().unwrap().get_display_text(), "ab");
    type_text(&mut state, "b");
    assert_eq!(state.selected_position(), 0);
    state.increment_selected_index();
    assert_eq!(state.selected_position(), 0);
    state.search_backspace();
    assert_eq!(state.search_text(), "a");
    assert_eq!(state.selected_position(), 0);
}

#[test]
fn arrows_on_empty_list_stay_at_zero() {
    let mut state = AppState::new(build_catalog(&vec![binary("x")]));
    state.increment_selected_index();
    state.decrement_selected_index();
    assert_eq!(state.selected_position(), 0);
    assert_eq!(state.handle_key(Key::Enter), Outcome::Continue);
}

#[test]
fn enter_commits_selected_entry() {
    let catalog = build_catalog(&vec![binary("aa"), binary("ab")]);
    let mut state = AppState::new(catalog);
    type_text(&mut state, "a");
    assert_eq!(state.handle_key(Key::ArrowDown), Outcome::Continue);
    match state.handle_key(Key::Enter) {
        Outcome::Commit(i) => assert_eq!(state.executable_at(i).command, "ab"),
        other => panic!("unexpected {:?}", other),
    }
}

#[test]
fn hotkeys_address_ranked_positions() {
    assert_eq!(hotkey_index("1"), Some(0));
    assert_eq!(hotkey_index("9"), Some(8));
    assert_eq!(hotkey_index("0"), Some(9));
    assert_eq!(hotkey_index("x"), None);
    assert_eq!(hotkey_index("12"), None);
    let catalog = build_catalog(&vec![binary("aa"), binary("ab")]);
    let mut state = AppState::new(catalog);
    type_text(&mut state, "a");
    assert_eq!(state.handle_key(Key::ControlPressed), Outcome::Continue);
    assert_eq!(state.handle_key(Key::Text("3".to_string())), Outcome::Continue);
    assert_eq!(state.handle_key(Key::Text("0".to_string())), Outcome::Continue);
    assert_eq!(state.search_text(), "a");
    match state.handle_key(Key::Text("2".to_string())) {
        Outcome::Commit(i) => assert_eq!(state.executable_at(i).command, "ab"),
        other => panic!("unexpected {:?}", other),
    }
    assert_eq!(state.handle_key(Key::ControlReleased), Outcome::Continue);
    type_text(&mut state, "2");
    assert_eq!(state.search_text(), "a2");
}

#[test]
fn escape_and_close_cancel() {
    let mut state = AppState::new(Vec::new());
    assert_eq!(state.handle_key(Key::Escape), Outcome::Cancel);
    assert_eq!(state.handle_key(Key::CloseRequested), Outcome::Cancel);
    assert_eq!(state.handle_key(Key::Backspace), Outcome::Continue);
    assert_eq!(state.search_text(), "");
}

#[test]
fn desktop_entry_strips_field_codes_and_round_trips() {
    let contents = "[Desktop Entry]\nType=Application\nName=GIMP\nExec=gimp %U\nName=Other\n";
    let entry = parse_desktop_entry(contents).unwrap();
    assert_eq!(entry.command, "gimp ");
    assert_eq!(entry.display_name.as_deref(), Some("GIMP"));
    assert!(entry.is_desktop_file());
    let line = entry.to_string();
    assert_eq!(line, "D:GIMP - gimp ");
    let (decoded, rejected) = decode_catalog(&encode_catalog(&vec![entry]));
    assert_eq!(rejected, 0);
    assert_eq!(decoded.len(), 1);
    assert_eq!(decoded[0].command, "gimp ");
    assert_eq!(decoded[0].display_name.as_deref(), Some("GIMP"));
}

#[test]
fn desktop_entry_strips_every_field_code() {
    let entry = parse_desktop_entry("Exec=app %f --x %i\nName=App").unwrap();
    assert_eq!(entry.command, "app  --x ");
    let plain = parse_desktop_entry("Name=Plain\nExec=plain --flag").unwrap();
    assert_eq!(plain.command, "plain --flag");
}

#[test]
fn desktop_entry_needs_name_and_exec() {
    assert!(parse_desktop_entry("Name=Only").is_none());
    assert!(parse_desktop_entry("Exec=only").is_none());
    assert!(parse_desktop_entry("").is_none());
    assert!(parse_desktop_entry("Name[de]=X\nExec=y").is_none());
    let first = parse_desktop_entry("Name=First\nName=Second\nExec=a\nExec=b").unwrap();
    assert_eq!(first.get_display_text(), "First");
    assert_eq!(first.command, "a");
}

#[test]
fn cache_round_trip_drops_spaced_binaries() {
    let catalog = vec![binary("ls"), desktop("firefox ", "Firefox"), binary("bad name"), binary("vim")];
    let text = encode_catalog(&catalog);
    assert_eq!(text, "ls\nD:Firefox - firefox \nbad name\nvim");
    let (decoded, rejected) = decode_catalog(&text);
    assert_eq!(rejected, 1);
    let lines: Vec<String> = decoded.iter().map(|e| e.to_string()).collect();
    assert_eq!(lines, strings(&["ls", "D:Firefox - firefox ", "vim"]));
}

#[test]
fn empty_catalog_encodes_to_empty_text() {
    assert_eq!(encode_catalog(&Vec::new()), "");
    let (decoded, rejected) = decode_catalog("");
    assert!(decoded.is_empty());
    assert_eq!(rejected, 0);
    let (decoded, _) = decode_catalog("ls\n");
    assert_eq!(decoded.len(), 1);
}

#[test]
fn corrupt_cache_lines_are_reported() {
    assert_eq!(decode_line(&chars("a b")).err(), Some(CacheLineError::SpaceInCommand));
    assert_eq!(decode_line(&chars("D:nothing")).err(), Some(CacheLineError::MalformedDesktopEntry));
    assert_eq!(decode_line(&chars("D:a - b - c")).err(), Some(CacheLineError::MalformedDesktopEntry));
    let e = decode_line(&chars("D:a - - x")).unwrap();
    assert_eq!(e.display_name.as_deref(), Some("a"));
    assert_eq!(e.command, "- x");
    let b = decode_line(&chars("htop")).unwrap();
    assert_eq!(b.command, "htop");
    assert!(!b.is_desktop_file());
}

#[test]
fn stale_cache_is_rebuilt() {
    assert!(should_invalidate_cache(None, &vec![]));
    assert!(should_invalidate_cache(Some(100), &vec![Some(50), Some(101)]));
    assert!(!should_invalidate_cache(Some(100), &vec![Some(50), Some(100), None]));
    assert!(!should_invalidate_cache(Some(100), &vec![]));
}

#[test]
fn resolved_directories_are_sorted_unique_and_filtered() {
    let candidates = candidate_directories("/usr/bin:/bin:/gone:/usr/bin:/skip", &strings(&["/opt/bin", "/bin"]));
    assert_eq!(candidates, strings(&["/usr/bin", "/bin", "/gone", "/usr/bin", "/skip", "/opt/bin", "/bin"]));
    let exists = vec![true, true, false, true, true, true, true];
    let dirs = get_binary_dirs(&candidates, &exists, &strings(&["/skip"]));
    assert_eq!(dirs, strings(&["/bin", "/opt/bin", "/usr/bin"]));
}

#[test]
fn search_path_splits_at_colons() {
    assert_eq!(split_search_path("/bin::/usr/bin"), strings(&["/bin", "", "/usr/bin"]));
    assert_eq!(split_search_path(""), strings(&[""]));
}

#[test]
fn catalog_sorts_and_keeps_first_of_each_text() {
    let found = vec![binary("zsh"), desktop("code", "Code"), binary("Code"), binary("bash")];
    let catalog = build_catalog(&found);
    let texts: Vec<&str> = catalog.iter().map(|e| e.get_display_text()).collect();
    assert_eq!(texts, vec!["Code", "bash", "zsh"]);
    assert!(catalog[0].is_desktop_file());
    assert_eq!(catalog[0], binary("Code"));
}

#[test]
fn entries_are_classified() {
    assert!(is_desktop_file_name("firefox.desktop"));
    assert!(!is_desktop_file_name(".desktop"));
    assert!(!is_desktop_file_name("desktop"));
    assert!(!is_desktop_file_name("a.desktop.bak"));
    assert_eq!(classify_entry("a.desktop", true, 0o644, true, true), EntryKind::DesktopFile);
    assert_eq!(classify_entry("a.desktop", true, 0o755, true, false), EntryKind::Binary);
    assert_eq!(classify_entry("a.desktop", true, 0o755, false, false), EntryKind::Skip);
    assert_eq!(classify_entry("tool", true, 0o001, true, true), EntryKind::Binary);
    assert_eq!(classify_entry("tool", true, 0o644, true, true), EntryKind::Skip);
    assert_eq!(classify_entry("tool", false, 0o755, true, true), EntryKind::Skip);
    assert_eq!(classify_entry("tool", true, 0o755, false, true), EntryKind::Skip);
}

#[test]
fn path_entry_shows_last_component() {
    let e = executable::Executable::new("/usr/bin/firefox".to_string());
    assert_eq!(e.get_display_name(), "firefox");
    assert_eq!(e.file_path, "/usr/bin/firefox");
    let root = executable::Executable::new("/".to_string());
    assert_eq!(root.get_display_name(), "");
}

#[test]
fn window_covers_three_quarters_centred() {
    let w = WindowAttributes::new(1920, 1080);
    assert_eq!(w, WindowAttributes { width: 1440, height: 810, pos_x: 240, pos_y: 135 });
    let odd = WindowAttributes::new(1001, 3);
    assert_eq!(odd, WindowAttributes { width: 750, height: 2, pos_x: 125, pos_y: 0 });
}

#[test]
fn commands_split_into_words() {
    assert_eq!(split_command("gimp "), strings(&["gimp"]));
    assert_eq!(split_command("  env  A=1 app --x"), strings(&["env", "A=1", "app", "--x"]));
    assert!(split_command("").is_empty());
}

#[test]
fn program_paths_follow_directory_order() {
    let dirs = strings(&["/usr/local/bin", "/usr/bin"]);
    assert_eq!(candidate_paths(&dirs, "vim"), strings(&["/usr/local/bin/vim", "/usr/bin/vim"]));
}
