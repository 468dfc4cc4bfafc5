use git_message_parser::GitMessageParser;

#[test]
fn should_success_parse_one_line_log() {
    let input = "[828fe39523] Rossen Stoyanchev 1575388800 Consistently use releaseBody in DefaultWebClient
5       3       spring-webflux/core/main/java/org/springframework/web/reactive/function/client/ClientResponse.java
1       1       spring-webflux/core/main/java/org/springframework/web/reactive/function/client/DefaultWebClient.java
9       3       spring-webflux/core/main/java/org/springframework/web/reactive/function/client/WebClient.java
6       11      core/docs/asciidoc/web/webflux-webclient.adoc
";

    let commits = GitMessageParser::to_commit_message(input);
    assert_eq!(1, commits.len());
    assert_eq!("828fe39523", commits[0].rev);
    assert_eq!("Rossen Stoyanchev", commits[0].author);
    assert_eq!(1575388800, commits[0].date);
    assert_eq!(
        "Consistently use releaseBody in DefaultWebClient",
        commits[0].message
    );
    assert_eq!(4, commits[0].changes.len())
}

#[test]
fn should_success_parse_multiple_line_log() {
    let input = "[d00f0124d] Phodal Huang 1575388800 update files
0       0       core/domain/bs/BadSmellApp.go

[1d00f0124b] Phodal Huang 1575388800 update files
1       1       cmd/bs.go
0       0       core/domain/bs/BadSmellApp.go

[d00f04111b] Phodal Huang 1575388800 refactor: move bs to adapter
1       1       cmd/bs.go
5       5       core/{domain => adapter}/bs/BadSmellApp.go

[d00f01214b] Phodal Huang 1575388800 update files
1       1       cmd/bs.go
0       0       core/adapter/bs/BadSmellApp.go
";

    let commits = GitMessageParser::to_commit_message(input);
    assert_eq!(4, commits.len());
}

#[test]
fn parses_tab_separated_single_commit() {
    let input = "[828fe39523] Rossen Stoyanchev 1575388800 Consistently use releaseBody in DefaultWebClient\n5\t3\tfileA.java\n1\t1\tfileB.java\n9\t3\tfileC.java\n6\t11\tfileD.adoc\n";

    let commits = GitMessageParser::to_commit_message(input);
    assert_eq!(1, commits.len());
    assert_eq!("828fe39523", commits[0].rev);
    assert_eq!("Rossen Stoyanchev", commits[0].author);
    assert_eq!(1575388800, commits[0].date);
    assert_eq!(
        "Consistently use releaseBody in DefaultWebClient",
        commits[0].message
    );
    assert_eq!(4, commits[0].changes.len());
    assert_eq!("fileA.java", commits[0].changes[0].file);
    assert_eq!(3, commits[0].changes[0].added);
    assert_eq!(5, commits[0].changes[0].deleted);
    assert_eq!("", commits[0].changes[0].mode);
    assert_eq!("fileD.adoc", commits[0].changes[3].file);
    assert_eq!(11, commits[0].changes[3].added);
    assert_eq!(6, commits[0].changes[3].deleted);
    assert_eq!("", commits[0].committer);
    assert_eq!("", commits[0].branch);
}

#[test]
fn four_blocks_in_input_order() {
    let input = "[aaaaa1] One Author 1575388801 first\n1\t2\ta.go\n\n[bbbbb2] Two Author 1575388802 second\n3\t4\tb.go\n\n[ccccc3] Three Author 1575388803 third\n5\t6\tc.go\n\n[ddddd4] Four Author 1575388804 fourth\n7\t8\td.go\n\n";

    let commits = GitMessageParser::to_commit_message(input);
    assert_eq!(4, commits.len());
    assert_eq!("aaaaa1", commits[0].rev);
    assert_eq!("bbbbb2", commits[1].rev);
    assert_eq!("ccccc3", commits[2].rev);
    assert_eq!("ddddd4", commits[3].rev);
    assert_eq!(1575388801, commits[0].date);
    assert_eq!("fourth", commits[3].message);
}

#[test]
fn binary_sentinel_line() {
    let input = "[abc123def] Some Author 1575388800 add an image\n-\t-\tbinary.png\n\n";

    let commits = GitMessageParser::to_commit_message(input);
    assert_eq!(1, commits.len());
    assert_eq!(1, commits[0].changes.len());
    assert_eq!("binary.png", commits[0].changes[0].file);
    assert_eq!(-1, commits[0].changes[0].added);
    assert_eq!(-1, commits[0].changes[0].deleted);
}

#[test]
fn reparse_is_idempotent() {
    let input = "[d00f0124d] Phodal Huang 1575388800 update files\n0\t0\tcore/domain/bs/BadSmellApp.go\n\n[1d00f0124b] Phodal Huang 1575388800 update files\n1\t1\tcmd/bs.go\n\n";

    let first = GitMessageParser::to_commit_message(input);
    let second = GitMessageParser::to_commit_message(input);
    assert_eq!(first, second);
}

#[test]
fn final_block_without_blank_line_dropped() {
    let one_block = "[abcde12345] An Author 1575388800 message\n1\t2\tsome/file.rs";
    assert_eq!(0, GitMessageParser::to_commit_message(one_block).len());

    let two_blocks = "[abcde12345] An Author 1575388800 message\n1\t2\tsome/file.rs\n\n[fedcba98] An Author 1575388801 later\n3\t4\tother/file.rs";
    let commits = GitMessageParser::to_commit_message(two_blocks);
    assert_eq!(1, commits.len());
    assert_eq!("abcde12345", commits[0].rev);
}

#[test]
fn empty_input_yields_no_commits() {
    assert_eq!(0, GitMessageParser::to_commit_message("").len());
    assert_eq!(0, GitMessageParser::to_commit_message("\n\n").len());
}

#[test]
fn duplicate_path_overwrites_in_place() {
    let input = "[abcde12345] An Author 1575388800 message\n1\t2\tdup.go\n9\t9\tother.go\n3\t4\tdup.go\n\n";

    let commits = GitMessageParser::to_commit_message(input);
    assert_eq!(1, commits.len());
    assert_eq!(2, commits[0].changes.len());
    assert_eq!("dup.go", commits[0].changes[0].file);
    assert_eq!(4, commits[0].changes[0].added);
    assert_eq!(3, commits[0].changes[0].deleted);
    assert_eq!("other.go", commits[0].changes[1].file);
}

#[test]
fn oversized_count_line_skipped() {
    let input = "[abcde12345] An Author 1575388800 message\n99999999999\t1\thuge.go\n\n";

    let commits = GitMessageParser::to_commit_message(input);
    assert_eq!(1, commits.len());
    assert_eq!(0, commits[0].changes.len());
}

#[test]
fn negative_count_parsed() {
    let input = "[abcde12345] An Author 1575388800 message\n-5\t3\todd.go\n\n";

    let commits = GitMessageParser::to_commit_message(input);
    assert_eq!(1, commits.len());
    assert_eq!(1, commits[0].changes.len());
    assert_eq!(3, commits[0].changes[0].added);
    assert_eq!(-5, commits[0].changes[0].deleted);
}

#[test]
fn noise_before_first_header_ignored() {
    let input = "###\n\n[abcd12345] An Author 1575388800 message\n1\t2\ta.txt\n\n";

    let commits = GitMessageParser::to_commit_message(input);
    assert_eq!(1, commits.len());
    assert_eq!("abcd12345", commits[0].rev);
}

#[test]
fn second_header_replaces_unflushed_commit() {
    let input = "[aaaaa1] First Author 1575388801 first\n[bbbbb2] Second Author 1575388802 second\n1\t2\ta.go\n\n";

    let commits = GitMessageParser::to_commit_message(input);
    assert_eq!(1, commits.len());
    assert_eq!("bbbbb2", commits[0].rev);
    assert_eq!(1, commits[0].changes.len());
}

#[test]
fn empty_message_after_trailing_space() {
    let input = "[abc12] An Author 1575388800 \n\n";

    let commits = GitMessageParser::to_commit_message(input);
    assert_eq!(1, commits.len());
    assert_eq!("abc12", commits[0].rev);
    assert_eq!("An Author", commits[0].author);
    assert_eq!("", commits[0].message);
}

#[test]
fn consecutive_blank_lines_emit_no_duplicates() {
    let input = "[aaaaa1] An Author 1575388801 first\n1\t2\ta.go\n\n\n\n[bbbbb2] An Author 1575388802 second\n3\t4\tb.go\n\n";

    let commits = GitMessageParser::to_commit_message(input);
    assert_eq!(2, commits.len());
    assert_eq!("aaaaa1", commits[0].rev);
    assert_eq!("bbbbb2", commits[1].rev);
    assert_eq!(1, commits[0].changes.len());
    assert_eq!(1, commits[1].changes.len());
}

#[test]
fn malformed_header_line_skipped() {
    // The revision marker matches but no `[<rev>] ` follows, so header
    // extraction fails and the line is skipped without opening a commit.
    let input = "[abcde12345]broken\n\n";
    assert_eq!(0, GitMessageParser::to_commit_message(input).len());

    // A skipped header does not close the commit that is already open.
    let input2 = "[abcde12345] An Author 1575388800 ok\n[fedcb98765]broken\n1\t2\ta.go\n\n";
    let commits = GitMessageParser::to_commit_message(input2);
    assert_eq!(1, commits.len());
    assert_eq!("abcde12345", commits[0].rev);
    assert_eq!(1, commits[0].changes.len());
}

#[test]
fn revision_length_bounds() {
    // Fewer than five or more than twelve hexadecimal digits is no
    // revision marker, so no commit is opened.
    let short = "[abcd] An Author 1575388800 msg\n1\t2\ta.go\n\n";
    assert_eq!(0, GitMessageParser::to_commit_message(short).len());
    let long = "[0123456789abcdef] An Author 1575388800 msg\n1\t2\ta.go\n\n";
    assert_eq!(0, GitMessageParser::to_commit_message(long).len());

    let twelve = "[0123456789ab] An Author 1575388800 msg\n1\t2\ta.go\n\n";
    let commits = GitMessageParser::to_commit_message(twelve);
    assert_eq!(1, commits.len());
    assert_eq!("0123456789ab", commits[0].rev);
}

#[test]
fn change_mode_line_is_not_a_boundary() {
    let input = "[abcde12345] An Author 1575388800 rename things\n rename foo (100%)\n5\t5\tmoved.go\n\n";

    let commits = GitMessageParser::to_commit_message(input);
    assert_eq!(1, commits.len());
    assert_eq!(1, commits[0].changes.len());
    assert_eq!("moved.go", commits[0].changes[0].file);
}
