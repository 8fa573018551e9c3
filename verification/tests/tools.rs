use flipperclipper::tools::{dedupe_dirs, expand_env_vars, split_path_list};

#[test]
fn a_path_string_splits_on_semicolons() {
    let dirs = split_path_list(
        "C:\\Windows;;  C:\\Program Files\\ffmpeg\\bin  ;\"C:\\quoted dir\";",
    );
    assert_eq!(
        dirs,
        vec![
            "C:\\Windows".to_string(),
            "C:\\Program Files\\ffmpeg\\bin".to_string(),
            "C:\\quoted dir".to_string(),
        ]
    );
    assert!(split_path_list("").is_empty());
    assert!(split_path_list(" ; ; ").is_empty());
}

#[test]
fn env_expansion_substitutes_known_names_and_keeps_the_rest_literal() {
    let lookup = |name: &str| match name {
        "LOCALAPPDATA" => Some("C:\\Users\\Kiera\\AppData\\Local".to_string()),
        "SystemRoot" => Some("C:\\Windows".to_string()),
        _ => None,
    };
    assert_eq!(
        expand_env_vars("%LOCALAPPDATA%\\Microsoft\\WinGet\\Links", lookup),
        "C:\\Users\\Kiera\\AppData\\Local\\Microsoft\\WinGet\\Links"
    );
    assert_eq!(
        expand_env_vars("%SystemRoot%\\system32;%NOPE%\\bin", lookup),
        "C:\\Windows\\system32;%NOPE%\\bin"
    );
    // An unpaired % is data, not the start of a reference.
    assert_eq!(expand_env_vars("C:\\100% done", lookup), "C:\\100% done");
    assert_eq!(expand_env_vars("plain", lookup), "plain");
}

#[test]
fn candidate_directories_dedupe_without_losing_priority_order() {
    let dirs: Vec<String> = dedupe_dirs(
        vec![
            "C:\\Windows".to_string(),
            "C:\\ffmpeg\\bin".to_string(),
            // Same folder, three spellings Windows treats as one.
            "c:\\windows".to_string(),
            "C:\\Windows\\".to_string(),
            "C:\\choco\\bin".to_string(),
        ],
    );
    assert_eq!(
        dirs,
        vec![
            "C:\\Windows".to_string(),
            "C:\\ffmpeg\\bin".to_string(),
            "C:\\choco\\bin".to_string(),
        ]
    );
}

#[test]
fn each_reference_is_looked_up_in_its_turn() {
    let asked = std::cell::RefCell::new(Vec::new());
    let lookup = |name: &str| {
        asked.borrow_mut().push(name.to_string());
        let n = asked.borrow().len();
        if name == "GONE" {
            None
        } else {
            Some(format!("<{n}>"))
        }
    };
    assert_eq!(expand_env_vars("%A%;%A%;%GONE%;%%;%B%%", lookup), "<1>;<2>;%GONE%;%%;<5>%");
    assert_eq!(asked.into_inner(), vec!["A", "A", "GONE", "", "B"]);
}

#[test]
fn a_text_without_a_pair_of_percent_signs_asks_nothing() {
    let lookup = |name: &str| -> Option<String> { panic!("asked for {name}") };
    assert_eq!(expand_env_vars("50% off", lookup), "50% off");
    assert_eq!(expand_env_vars("", lookup), "");
}
