use gacha_url::steam::{library_folders_in, parse_library_paths};

#[test]
fn parse_library_paths_extracts_paths() {
    let vdf = r#"
"libraryfolders"
{
    "0"
    {
        "path"		"/home/user/.local/share/Steam"
        "label"		""
    }
    "1"
    {
        "path"		"/mnt/games/SteamLibrary"
        "label"		"Games"
    }
}
"#;
    let paths = parse_library_paths(vdf);
    assert_eq!(paths.len(), 2);
    assert_eq!(paths[0], "/home/user/.local/share/Steam");
    assert_eq!(paths[1], "/mnt/games/SteamLibrary");
}

#[test]
fn parse_library_paths_empty_on_invalid_input() {
    assert!(parse_library_paths("").is_empty());
    assert!(parse_library_paths("not a vdf file").is_empty());
}

#[test]
fn parse_library_paths_handles_windows_paths() {
    let vdf = r#"
"libraryfolders"
{
    "0"
    {
        "path"		"C:\Program Files (x86)\Steam"
    }
    "1"
    {
        "path"		"D:\SteamLibrary"
    }
}
"#;
    let paths = parse_library_paths(vdf);
    assert_eq!(paths.len(), 2);
    assert_eq!(paths[0], r"C:\Program Files (x86)\Steam");
    assert_eq!(paths[1], r"D:\SteamLibrary");
}

#[test]
fn parse_library_paths_handles_crlf_and_unterminated_value() {
    let vdf = "\"path\" \"/a/b\"\r\n\t\"path\"\t\"/c d\r\n";
    let paths = parse_library_paths(vdf);
    assert_eq!(paths, vec!["/a/b".to_string(), "/c d".to_string()]);
}

#[test]
fn parse_library_paths_ignores_other_keys() {
    let vdf = "\"label\" \"x\"\n\"Path\" \"/y\"\n\"path\"\n\"path\" \"\"";
    let paths = parse_library_paths(vdf);
    assert_eq!(paths, vec![String::new()]);
}

#[test]
fn parse_library_paths_of_joined_texts() {
    let a = "\"path\" \"/a\"\n\"label\" \"x\"";
    let b = "  \"path\"\t\"/b\"\n\"path\" \"/c\"";
    let joined = format!("{a}\n{b}");
    let mut expected = parse_library_paths(a);
    expected.extend(parse_library_paths(b));
    assert_eq!(parse_library_paths(&joined), expected);
    assert_eq!(expected, vec!["/a".to_string(), "/b".to_string(), "/c".to_string()]);
}

#[test]
fn library_folders_in_needs_a_path() {
    assert!(library_folders_in("\"label\" \"x\"").is_none());
    assert_eq!(library_folders_in("\"path\" \"/a\""), Some(vec!["/a".to_string()]));
}
