use ibase::index::{
    chars_of, export_line, index_file_path, index_update, match_fragment, text_contains,
    IndexUpdate,
};
use ibase::path::{find_last_dot, split_path, trim_dir};
use ibase::plan::{
    calc_back_paths, decompose, plan_invocation, plan_updates, BacktrackStep, BarrelError,
};

fn plan(target: &str, base: &str) -> Vec<BacktrackStep> {
    match plan_invocation(Some(target), Some(base), true, true) {
        Ok(steps) => steps,
        Err(e) => panic!("unexpected error {:?}", e),
    }
}

fn appended(contents: &str, step: &BacktrackStep) -> Option<String> {
    match index_update(contents, step) {
        IndexUpdate::Skip => None,
        IndexUpdate::Append(text) => Some(text),
    }
}

#[test]
fn one_folder_below_base() {
    let steps = plan("/proj/src/utils/math.ts", "/proj/src");
    assert_eq!(steps.len(), 1);
    assert_eq!(steps[0].directory, "/proj/src/utils");
    assert_eq!(steps[0].export_name, "math");
    assert!(steps[0].is_leaf);
    assert_eq!(export_line(&steps[0]), "export { default as math } from \"./math\"");
    assert_eq!(index_file_path(&steps[0].directory), "/proj/src/utils/index.ts");
}

#[test]
fn two_folders_below_base() {
    let steps = plan("/proj/src/a/b/thing.ts", "/proj/src");
    assert_eq!(steps.len(), 2);
    assert_eq!(steps[0].directory, "/proj/src/a");
    assert!(!steps[0].is_leaf);
    assert_eq!(export_line(&steps[0]), "export * from \"./b\"");
    assert_eq!(index_file_path(&steps[0].directory), "/proj/src/a/index.ts");
    assert_eq!(steps[1].directory, "/proj/src/a/b");
    assert!(steps[1].is_leaf);
    assert_eq!(export_line(&steps[1]), "export { default as thing } from \"./thing\"");
    assert_eq!(index_file_path(&steps[1].directory), "/proj/src/a/b/index.ts");
}

#[test]
fn three_folders_name_the_next_folder() {
    let steps = plan("/proj/src/a/b/c/x.tsx", "/proj/src");
    assert_eq!(steps.len(), 3);
    assert_eq!(steps[0].directory, "/proj/src/a");
    assert_eq!(export_line(&steps[0]), "export * from \"./b\"");
    assert_eq!(steps[1].directory, "/proj/src/a/b");
    assert_eq!(export_line(&steps[1]), "export * from \"./c\"");
    assert_eq!(steps[2].directory, "/proj/src/a/b/c");
    assert_eq!(export_line(&steps[2]), "export { default as x } from \"./x\"");
}

#[test]
fn target_directly_in_base_has_no_steps() {
    let steps = plan("/proj/src/file.ts", "/proj/src");
    assert!(steps.is_empty());
}

#[test]
fn trailing_separator_on_base_is_ignored() {
    let steps = plan("/proj/src/utils/math.ts", "/proj/src/");
    assert_eq!(steps.len(), 1);
    assert_eq!(steps[0].directory, "/proj/src/utils");
}

#[test]
fn missing_extension_is_fatal() {
    let r = plan_invocation(Some("/proj/src/file"), Some("/proj/src"), true, true);
    assert_eq!(r.err(), Some(BarrelError::NoExtension));
}

#[test]
fn base_that_is_no_directory_is_fatal() {
    let r = plan_invocation(Some("/proj/src/a/x.ts"), Some("/nowhere"), false, true);
    assert_eq!(r.err(), Some(BarrelError::InvalidBase));
    let r = plan_invocation(None, None, false, false);
    assert_eq!(r.err(), Some(BarrelError::InvalidBase));
}

#[test]
fn target_that_is_no_file_is_fatal() {
    let r = plan_invocation(Some("/proj/src/a"), Some("/proj/src"), true, false);
    assert_eq!(r.err(), Some(BarrelError::InvalidTarget));
}

#[test]
fn path_that_is_no_text_is_fatal() {
    let r = plan_invocation(None, Some("/proj/src"), true, true);
    assert_eq!(r.err(), Some(BarrelError::PathEncoding));
    let r = plan_invocation(Some("/proj/src/a/x.ts"), None, true, true);
    assert_eq!(r.err(), Some(BarrelError::PathEncoding));
}

#[test]
fn target_above_base_is_refused() {
    assert_eq!(plan_updates("/proj", "/proj/src").err(), Some(BarrelError::NotBelowBase));
    assert_eq!(plan_updates("/proj/src", "/proj/src").err(), Some(BarrelError::NotBelowBase));
}

#[test]
fn decompose_gives_folders_and_name() {
    let d = match decompose("/proj/src/a/b/thing.test.ts", "/proj/src") {
        Ok(d) => d,
        Err(e) => panic!("unexpected error {:?}", e),
    };
    assert_eq!(d.parent_folders, vec!["a".to_string(), "b".to_string()]);
    assert_eq!(d.export_name, "thing.test");
}

#[test]
fn calc_back_paths_builds_cumulative_directories() {
    let folders = vec!["a".to_string(), "b".to_string()];
    let steps = calc_back_paths(&folders, "/root", "leaf");
    assert_eq!(steps.len(), 2);
    assert_eq!(steps[0].directory, "/root/a");
    assert_eq!(steps[0].export_name, "b");
    assert!(!steps[0].is_leaf);
    assert_eq!(steps[1].directory, "/root/a/b");
    assert_eq!(steps[1].export_name, "leaf");
    assert!(steps[1].is_leaf);
    assert!(calc_back_paths(&Vec::new(), "/root", "leaf").is_empty());
}

#[test]
fn split_path_keeps_empty_segments() {
    assert_eq!(split_path("/a//b"), vec!["", "a", "", "b"]);
    assert_eq!(split_path(""), vec![""]);
    assert_eq!(split_path("dir/"), vec!["dir", ""]);
}

#[test]
fn path_helpers() {
    assert_eq!(find_last_dot("a.b.c"), Some(3));
    assert_eq!(find_last_dot("abc"), None);
    assert_eq!(find_last_dot(".ts"), Some(0));
    assert_eq!(trim_dir("/proj/src/"), "/proj/src");
    assert_eq!(trim_dir("/proj/src"), "/proj/src");
    assert_eq!(chars_of("añb"), vec!['a', 'ñ', 'b']);
}

#[test]
fn substring_search() {
    assert!(text_contains("export * from \"./b\"\n", "from \"./b\""));
    assert!(text_contains("abc", ""));
    assert!(text_contains("", ""));
    assert!(!text_contains("ab", "abc"));
    assert!(!text_contains("from './b'", "from \"./b\""));
    assert!(text_contains("xxabab", "abab"));
    assert_eq!(match_fragment("math"), "from \"./math\"");
}

#[test]
fn new_index_file_gets_the_line() {
    let steps = plan("/proj/src/utils/math.ts", "/proj/src");
    assert_eq!(
        appended("", &steps[0]),
        Some("export { default as math } from \"./math\"\n".to_string())
    );
}

#[test]
fn second_run_skips_every_step() {
    let steps = plan("/proj/src/a/b/thing.ts", "/proj/src");
    let mut files: Vec<String> = vec![String::new(), "export * from \"./other\"\n".to_string()];
    for (i, step) in steps.iter().enumerate() {
        if let Some(text) = appended(&files[i], step) {
            files[i].push_str(&text);
        }
    }
    assert_eq!(files[0], "export * from \"./b\"\n");
    assert_eq!(
        files[1],
        "export * from \"./other\"\nexport { default as thing } from \"./thing\"\n"
    );
    let first = files.clone();
    for (i, step) in steps.iter().enumerate() {
        assert_eq!(appended(&files[i], step), None);
        if let Some(text) = appended(&files[i], step) {
            files[i].push_str(&text);
        }
    }
    assert_eq!(files, first);
}

#[test]
fn fragment_in_another_line_counts_as_present() {
    let steps = plan("/proj/src/utils/math.ts", "/proj/src");
    assert_eq!(appended("import m from \"./math\"; // note\n", &steps[0]), None);
    assert_eq!(appended("export * from \"./math\"\n", &steps[0]), None);
}

#[test]
fn fragment_with_other_quotes_does_not_count() {
    let steps = plan("/proj/src/utils/math.ts", "/proj/src");
    assert_eq!(
        appended("export { default as math } from './math'\n", &steps[0]),
        Some("export { default as math } from \"./math\"\n".to_string())
    );
    assert_eq!(
        appended("export * from \"./mathematics\"\n", &steps[0]),
        Some("export { default as math } from \"./math\"\n".to_string())
    );
}
