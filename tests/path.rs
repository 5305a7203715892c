use bytecache::path::{construct, construct_def, replace_invalid_path_chars, PathGen, RelPath};

fn text(p: Option<RelPath>) -> Option<String> {
    p.map(|p| p.to_path_string())
}

fn some(s: &str) -> Option<String> {
    Some(s.to_string())
}

#[test]
fn empty_key_has_no_path() {
    assert_eq!(text(construct_def("")), None);
}

#[test]
fn no_subdirs_are_generated_if_short_path() {
    assert_eq!(text(construct_def("a")), some("a"));
}

#[test]
fn single_subdir_is_generated() {
    assert_eq!(text(construct_def("aa")), some("aa/aa"));
}

#[test]
fn single_subdir_is_generated_if_short() {
    assert_eq!(text(construct_def("aab")), some("aa/aab"));
}

#[test]
fn two_subdirs_are_generated() {
    assert_eq!(text(construct_def("aabb")), some("aa/bb/aabb"));
}

#[test]
fn two_subdirs_are_generated_if_short() {
    assert_eq!(text(construct_def("aabbc")), some("aa/bb/aabbc"));
}

#[test]
fn three_subdirs_are_generated() {
    assert_eq!(text(construct_def("aabbcc")), some("aa/bb/cc/aabbcc"));
}

#[test]
fn three_subdirs_are_generated_if_short() {
    assert_eq!(text(construct_def("aabbccd")), some("aa/bb/cc/aabbccd"));
}

#[test]
fn only_three_subdirs_should_be_generated() {
    assert_eq!(text(construct_def("aabbccdd")), some("aa/bb/cc/aabbccdd"));
    assert_eq!(text(construct_def("aabbccddee")), some("aa/bb/cc/aabbccddee"));
}

#[test]
fn different_subdir_len_works() {
    assert_eq!(text(construct("aabbccdd", 1, 4)), some("aabb/aabbccdd"));
    assert_eq!(text(construct("aabbccdd", 4, 1)), some("a/a/b/b/aabbccdd"));
    assert_eq!(text(construct("aabbccdd", 0, 0)), some("aabbccdd"));
    assert_eq!(text(construct("a", 0, 0)), some("a"));
    assert_eq!(text(construct("aabbccdd", 0, 1)), some("aabbccdd"));
    assert_eq!(text(construct("aabbccdd", 1, 0)), some("aabbccdd"));
    assert_eq!(text(construct("aabbccdd", 2, 3)), some("aab/bcc/aabbccdd"));
}

#[test]
fn should_replace_invalid_path_chars() {
    assert_eq!("valid", &replace_invalid_path_chars("valid"));
    assert_eq!("invalid_file_name", &replace_invalid_path_chars("invalid/file/name"));
}

#[test]
fn invalid_path_chars_should_be_replaced() {
    assert_eq!(text(construct_def("aab/ccdd")), some("aa/b_/cc/aab_ccdd"));
}

#[test]
fn path_gen_should_have_correct_file_path() {
    assert_eq!(text(PathGen::default("aab").file_path()), some("aa/aab"));
    assert_eq!(text(PathGen::default("aabbcc").file_path()), some("aa/bb/cc/aabbcc"));
}

#[test]
fn path_gen_should_have_correct_meta_path() {
    assert_eq!(text(PathGen::default("aab").meta_path()), some("aa/aab.meta"));
    assert_eq!(text(PathGen::default("aabbcc").meta_path()), some("aa/bb/cc/aabbcc.meta"));
}

#[test]
fn parts_are_the_components() {
    let p = construct("abcde", 2, 2).unwrap();
    assert_eq!(&vec!["ab".to_string(), "cd".to_string(), "abcde".to_string()], p.parts());
}

#[test]
fn dot_names_have_no_meta_path() {
    assert_eq!(text(PathGen::default("..").meta_path()), None);
    assert_eq!(text(PathGen::new(".", 0, 0).meta_path()), None);
    assert_eq!(text(PathGen::new("", 3, 2).file_path()), None);
    assert_eq!(text(PathGen::new("...", 1, 2).meta_path()), some("../....meta"));
}

#[test]
fn non_ascii_keys_are_cut_by_characters() {
    assert_eq!(text(construct("äöüß", 2, 1)), some("ä/ö/äöüß"));
}
