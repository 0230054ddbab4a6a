use csd::lcsre::longest_repeated_substring;

#[test]
fn test_lcsre() {
    let cstr = "+-00+-00+-00+-0";
    let res = longest_repeated_substring(cstr);
    assert_eq!(res, "+-00+-0");
    let cstr = "abcdefgh";
    let res = longest_repeated_substring(cstr);
    assert_eq!(res, "");
    let cstr = "banana";
    let res = longest_repeated_substring(cstr);
    assert_eq!(res, "an");
}

#[test]
fn test_lcsre_edges() {
    assert_eq!(longest_repeated_substring(""), "");
    assert_eq!(longest_repeated_substring("a"), "");
    assert_eq!(longest_repeated_substring("aa"), "a");
    // The copies may touch but not overlap.
    assert_eq!(longest_repeated_substring("aaaa"), "aa");
    assert_eq!(longest_repeated_substring("aaaaa"), "aa");
    assert_eq!(longest_repeated_substring("abab"), "ab");
}

#[test]
fn test_lcsre_first_copy_wins() {
    // "ab" and "cd" are both repeated; the first copy of "ab" ends first.
    assert_eq!(longest_repeated_substring("abcdxabycd"), "ab");
    assert_eq!(longest_repeated_substring("cdabxcdyab"), "cd");
}

#[test]
fn test_lcsre_counts_characters() {
    assert_eq!(longest_repeated_substring("äöäö"), "äö");
}
