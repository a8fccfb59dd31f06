use std::collections::HashMap;

use chunking_core::package_deps::{
    append_git_status, get_package_deps, git_hash_object, git_ls_tree, hash, non_space,
    parse_ls_tree, parse_status, space1, ErrorKind, GitHashes, ParseError,
};

/// The grammar of a record of the status, written with the combinators of nom.
fn nom_status(i: &[u8]) -> nom::IResult<&[u8], (&[u8], u8, u8)> {
    let (i, x) = nom::bytes::complete::take(1usize)(i)?;
    let (i, y) = nom::bytes::complete::take(1usize)(i)?;
    let (i, _) = nom::character::complete::space1(i)?;
    let (i, filename) = nom_non_space(i)?;
    Ok((i, (filename, x[0], y[0])))
}

/// The grammar of a record of the tree listing, written with the combinators of nom.
fn nom_ls_tree(i: &[u8]) -> nom::IResult<&[u8], (&[u8], &[u8])> {
    let (i, _) = nom_non_space(i)?;
    let (i, _) = nom::character::complete::space1(i)?;
    let (i, _) = nom_non_space(i)?;
    let (i, _) = nom::character::complete::space1(i)?;
    let (i, hash) = nom::bytes::complete::take(40usize)(i)?;
    let (i, _) = nom::character::complete::space1(i)?;
    let (i, filename) = nom_non_space(i)?;
    Ok((i, (filename, hash)))
}

fn nom_non_space(i: &[u8]) -> nom::IResult<&[u8], &[u8]> {
    nom::bytes::complete::is_not(" \0")(i)
}

fn nom_error(input: &[u8], error: nom::Err<nom::error::Error<&[u8]>>) -> ParseError {
    let nom::Err::Error(error) = error else {
        panic!("a complete parser fails with an error");
    };
    let kind = match error.code {
        nom::error::ErrorKind::Eof => ErrorKind::Eof,
        nom::error::ErrorKind::Space => ErrorKind::Space,
        nom::error::ErrorKind::IsNot => ErrorKind::IsNot,
        other => panic!("unexpected kind {other:?}"),
    };
    ParseError { kind, at: input.len() - error.input.len() }
}

const HASH: &str = "3a29e62ea9ba15c4a4009d1f605d391cdd262033";

fn samples() -> Vec<Vec<u8>> {
    let texts = [
        "",
        " ",
        "M",
        " M",
        "??",
        " M ",
        " M  ",
        " M\t",
        " M file",
        " M file\0",
        "?? my-pkg/uncommitted-file\0",
        " D my-pkg/deleted-file\0",
        "D  gone\0",
        "MM\t \tboth kinds of blank\0",
        " M file name with blanks\0",
        "AMfile\0",
        " M \0",
        " M \0file",
        "   file\0",
        "\0\0 x",
        "M\0 x\ty",
        "100644 blob 3a29e62ea9ba15c4a4009d1f605d391cdd262033\tcommitted-file\0",
        "100644 blob 3a29e62ea9ba15c4a4009d1f605d391cdd262033\tdir/nested-file\0",
        "100644 blob 3a29e62ea9ba15c4a4009d1f605d391cdd262033 a b\0",
        "100644 blob 3a29e62ea9ba15c4a4009d1f605d391cdd262033\t",
        "100644 blob 3a29e62ea9ba15c4a4009d1f605d391cdd262033",
        "100644 blob 3a29e62ea9ba15c4a4009d1f605d391cdd26203\tshort",
        "100644 blob 3a29e62ea9ba15c4a4009d1f605d391cdd2620333\tlong",
        "100644 blob 3a29 e62ea9ba15c4a4009d1f605d391cdd2620 33 \tname\0",
        "100644 blob \0a29e62ea9ba15c4a4009d1f605d391cdd262033 zero\0",
        "100644 blob",
        "100644 blob ",
        "100644 ",
        "100644",
        "100644\0blob",
        " 100644 blob",
        "\t100644 blob 3a29e62ea9ba15c4a4009d1f605d391cdd262033\tname",
        "160000 commit 3a29e62ea9ba15c4a4009d1f605d391cdd262033\tsub\tmodule\0",
        "a\tb\t0123456789012345678901234567890123456789\tc",
    ];
    let mut samples: Vec<Vec<u8>> = texts.iter().map(|text| text.as_bytes().to_vec()).collect();
    samples.push(vec![0xff, 0xfe, b' ', 0x80, b'\0']);
    samples.push(vec![b'x', b' ', 0xc3, b'\t', 0xa9]);
    samples
}

#[test]
fn parse_status_agrees_with_the_grammar() {
    for sample in samples() {
        let expected = match nom_status(&sample) {
            Ok((_, (filename, x, y))) => Ok((filename.to_vec(), x, y)),
            Err(error) => Err(nom_error(&sample, error)),
        };
        assert_eq!(parse_status(&sample), expected, "{:?}", String::from_utf8_lossy(&sample));
    }
}

#[test]
fn parse_ls_tree_agrees_with_the_grammar() {
    for sample in samples() {
        let expected = match nom_ls_tree(&sample) {
            Ok((_, (filename, hash))) => Ok((filename.to_vec(), hash.to_vec())),
            Err(error) => Err(nom_error(&sample, error)),
        };
        assert_eq!(parse_ls_tree(&sample), expected, "{:?}", String::from_utf8_lossy(&sample));
    }
}

#[test]
fn parse_status_reads_the_status_and_the_name() {
    assert_eq!(parse_status(b" M my-pkg/file\0"), Ok((b"my-pkg/file".to_vec(), b' ', b'M')));
    assert_eq!(parse_status(b"?? new file\0"), Ok((b"new".to_vec(), b'?', b'?')));
    assert_eq!(parse_status(b"D \t x"), Ok((b"x".to_vec(), b'D', b' ')));
}

#[test]
fn parse_status_tells_what_it_missed() {
    assert_eq!(parse_status(b""), Err(ParseError { kind: ErrorKind::Eof, at: 0 }));
    assert_eq!(parse_status(b"M"), Err(ParseError { kind: ErrorKind::Eof, at: 1 }));
    assert_eq!(parse_status(b"MM"), Err(ParseError { kind: ErrorKind::Space, at: 2 }));
    assert_eq!(parse_status(b"MMx"), Err(ParseError { kind: ErrorKind::Space, at: 2 }));
    assert_eq!(parse_status(b"MM  "), Err(ParseError { kind: ErrorKind::IsNot, at: 4 }));
    assert_eq!(parse_status(b"MM \0"), Err(ParseError { kind: ErrorKind::IsNot, at: 3 }));
}

#[test]
fn parse_ls_tree_reads_the_name_and_the_hash() {
    let record = format!("100644 blob {HASH}\tdir/nested-file\0");
    assert_eq!(
        parse_ls_tree(record.as_bytes()),
        Ok((b"dir/nested-file".to_vec(), HASH.as_bytes().to_vec()))
    );
}

#[test]
fn parse_ls_tree_tells_what_it_missed() {
    let error = |kind, at| Err(ParseError { kind, at });
    assert_eq!(parse_ls_tree(b""), error(ErrorKind::IsNot, 0));
    assert_eq!(parse_ls_tree(b" x"), error(ErrorKind::IsNot, 0));
    assert_eq!(parse_ls_tree(b"100644"), error(ErrorKind::Space, 6));
    assert_eq!(parse_ls_tree(b"100644 "), error(ErrorKind::IsNot, 7));
    assert_eq!(parse_ls_tree(b"100644 blob"), error(ErrorKind::Space, 11));
    assert_eq!(parse_ls_tree(b"100644 blob 3a29"), error(ErrorKind::Eof, 12));
    let record = format!("100644 blob {HASH}");
    assert_eq!(parse_ls_tree(record.as_bytes()), error(ErrorKind::Space, 52));
    let record = format!("100644 blob {HASH}x");
    assert_eq!(parse_ls_tree(record.as_bytes()), error(ErrorKind::Space, 52));
    let record = format!("100644 blob {HASH}\t");
    assert_eq!(parse_ls_tree(record.as_bytes()), error(ErrorKind::IsNot, 53));
}

#[test]
fn fields_end_where_the_scanners_say() {
    assert_eq!(space1(b"ab \t cd", 2), 5);
    assert_eq!(space1(b"ab \t cd", 0), 0);
    assert_eq!(space1(b"  ", 0), 2);
    assert_eq!(space1(b"  ", 2), 2);
    assert_eq!(non_space(b"ab\tc d", 0), 4);
    assert_eq!(non_space(b"ab\0c", 0), 2);
    assert_eq!(non_space(b"ab", 0), 2);
    assert_eq!(non_space(b" ab", 0), 0);
    assert_eq!(hash(&[7u8; 45], 5), Some(45));
    assert_eq!(hash(&[7u8; 45], 6), None);
    assert_eq!(hash(&[7u8; 45], 45), None);
}

#[test]
fn git_hashes_keep_the_last_hash_of_a_path() {
    let mut hashes = GitHashes::new();
    assert_eq!(hashes.get(b"a"), None);
    hashes.insert(b"a".to_vec(), b"1".to_vec());
    hashes.insert(b"b".to_vec(), b"2".to_vec());
    hashes.insert(b"a".to_vec(), b"3".to_vec());
    assert_eq!(hashes.get(b"a"), Some(&b"3".to_vec()));
    assert_eq!(hashes.get(b"b"), Some(&b"2".to_vec()));
    hashes.remove(b"a");
    assert_eq!(hashes.get(b"a"), None);
    assert_eq!(hashes.get(b"b"), Some(&b"2".to_vec()));
    hashes.remove(b"c");
    assert_eq!(hashes.get(b"b"), Some(&b"2".to_vec()));
    assert_eq!(hashes.get(b""), None);
}

#[test]
fn git_ls_tree_reads_each_record() {
    let output = format!("100644 blob {HASH}\ta\0100755 blob {HASH}\tb/c\0");
    let hashes = git_ls_tree(output.as_bytes()).unwrap();
    assert_eq!(hashes.get(b"a"), Some(&HASH.as_bytes().to_vec()));
    assert_eq!(hashes.get(b"b/c"), Some(&HASH.as_bytes().to_vec()));
    assert_eq!(hashes.entries.len(), 2);
    assert_eq!(git_ls_tree(b"").unwrap().entries.len(), 0);
}

#[test]
fn git_ls_tree_reads_a_last_record_without_zero_byte() {
    let output = format!("100644 blob {HASH}\ta\0100755 blob {HASH}\tb");
    let hashes = git_ls_tree(output.as_bytes()).unwrap();
    assert_eq!(hashes.get(b"b"), Some(&HASH.as_bytes().to_vec()));
}

#[test]
fn git_ls_tree_stops_at_a_record_it_cannot_parse() {
    let output = format!("100644 blob {HASH}\ta\0\0100755 blob {HASH}\tb\0");
    let error = git_ls_tree(output.as_bytes()).unwrap_err();
    assert_eq!(error, ParseError { kind: ErrorKind::IsNot, at: 0 });
    let output = format!("100644 blob {HASH}\ta\0100755 blob\0");
    let error = git_ls_tree(output.as_bytes()).unwrap_err();
    assert_eq!(error, ParseError { kind: ErrorKind::Space, at: 11 });
}

#[test]
fn append_git_status_forgets_deleted_files() {
    let mut hashes = GitHashes::new();
    hashes.insert(b"kept".to_vec(), b"1".to_vec());
    hashes.insert(b"staged-delete".to_vec(), b"2".to_vec());
    hashes.insert(b"deleted".to_vec(), b"3".to_vec());
    let status = b" M kept\0D  staged-delete\0 D deleted\0?? new\0AD added-and-deleted\0";
    let to_hash = append_git_status(status, b"", &mut hashes).unwrap();
    assert_eq!(to_hash, vec![b"kept".to_vec(), b"new".to_vec()]);
    assert_eq!(hashes.get(b"kept"), Some(&b"1".to_vec()));
    assert_eq!(hashes.get(b"staged-delete"), None);
    assert_eq!(hashes.get(b"deleted"), None);
    assert_eq!(hashes.entries.len(), 1);
}

#[test]
fn append_git_status_stops_at_a_record_it_cannot_parse() {
    let mut hashes = GitHashes::new();
    hashes.insert(b"a".to_vec(), b"1".to_vec());
    hashes.insert(b"b".to_vec(), b"2".to_vec());
    let status = b" D a\0??\0 D b\0";
    let error = append_git_status(status, b"", &mut hashes).unwrap_err();
    assert_eq!(error, ParseError { kind: ErrorKind::Space, at: 2 });
    assert_eq!(hashes.get(b"a"), None);
    assert_eq!(hashes.get(b"b"), Some(&b"2".to_vec()));
}

#[test]
fn append_git_status_keeps_to_the_package() {
    let mut hashes = GitHashes::new();
    hashes.insert(b"a".to_vec(), b"1".to_vec());
    hashes.insert(b"pkg/a".to_vec(), b"2".to_vec());
    hashes.insert(b"b".to_vec(), b"3".to_vec());
    let status = b" D pkg/a\0 D other/b\0?? pkg/new\0?? root-file\0 M pkg\0?? pkg/\0 M pkg/dir/c\0";
    let to_hash = append_git_status(status, b"pkg/", &mut hashes).unwrap();
    assert_eq!(to_hash, vec![b"new".to_vec(), b"".to_vec(), b"dir/c".to_vec()]);
    assert_eq!(hashes.get(b"a"), None);
    assert_eq!(hashes.get(b"pkg/a"), Some(&b"2".to_vec()));
    assert_eq!(hashes.get(b"b"), Some(&b"3".to_vec()));
}

#[test]
fn git_hash_object_pairs_the_files_with_the_lines() {
    let one = "3a29e62ea9ba15c4a4009d1f605d391cdd262033";
    let two = "4e56ad89387e6379e4e91ddfe9872cf6a72c9976";
    let files = vec![b"a".to_vec(), b"dir/b".to_vec()];
    let mut hashes = GitHashes::new();
    hashes.insert(b"a".to_vec(), b"old".to_vec());
    let output = format!("{one}\n{two}\n");
    assert_eq!(git_hash_object(&files, output.as_bytes(), &mut hashes), Ok(()));
    assert_eq!(hashes.get(b"a"), Some(&one.as_bytes().to_vec()));
    assert_eq!(hashes.get(b"dir/b"), Some(&two.as_bytes().to_vec()));
    let mut hashes = GitHashes::new();
    let output = format!("{one}\n{two}");
    assert_eq!(git_hash_object(&files, output.as_bytes(), &mut hashes), Ok(()));
    assert_eq!(hashes.get(b"dir/b"), Some(&two.as_bytes().to_vec()));
    let mut hashes = GitHashes::new();
    assert_eq!(git_hash_object(&vec![], b"whatever", &mut hashes), Ok(()));
    assert_eq!(hashes.entries.len(), 0);
}

#[test]
fn git_hash_object_misses_a_hash() {
    let one = "3a29e62ea9ba15c4a4009d1f605d391cdd262033";
    let files = vec![b"a".to_vec(), b"b".to_vec()];
    let error = Err(ParseError { kind: ErrorKind::Eof, at: 0 });
    let mut hashes = GitHashes::new();
    let output = format!("{one}\n");
    assert_eq!(git_hash_object(&files, output.as_bytes(), &mut hashes), error);
    assert_eq!(hashes.get(b"a"), Some(&one.as_bytes().to_vec()));
    assert_eq!(hashes.get(b"b"), None);
    let mut hashes = GitHashes::new();
    let output = format!("{}\n{one}\n", &one[..39]);
    assert_eq!(git_hash_object(&files, output.as_bytes(), &mut hashes), error);
    assert_eq!(hashes.entries.len(), 0);
    let mut hashes = GitHashes::new();
    assert_eq!(git_hash_object(&files, b"", &mut hashes), error);
}

#[test]
fn get_package_deps_gives_the_first_error() {
    let ls_tree = format!("100644 blob {HASH}\ta\0");
    assert_eq!(
        get_package_deps(b"100644", b"", b"", b"", &[]).unwrap_err(),
        ParseError { kind: ErrorKind::Space, at: 6 }
    );
    assert_eq!(
        get_package_deps(ls_tree.as_bytes(), b"x", b"", b"", &[]).unwrap_err(),
        ParseError { kind: ErrorKind::Eof, at: 1 }
    );
    assert_eq!(
        get_package_deps(b"100644", b"x", b"", b"", &[]).unwrap_err(),
        ParseError { kind: ErrorKind::Space, at: 6 }
    );
    assert_eq!(
        get_package_deps(ls_tree.as_bytes(), b"?? new\0", b"", b"short\n", &[]).unwrap_err(),
        ParseError { kind: ErrorKind::Eof, at: 0 }
    );
}

#[test]
fn test_get_package_deps() {
    // Directory structure:
    // <root>/
    //   new-root-file <- new file not added to git
    //   my-pkg/
    //     committed-file
    //     deleted-file
    //     uncommitted-file <- new file not added to git
    //     dir/
    //       nested-file
    //     package.json
    //
    // What git prints for it: the tree of the package, the status of the
    // repository, and the hash of the file that the status reports as new.
    let committed = [
        ("committed-file", "3a29e62ea9ba15c4a4009d1f605d391cdd262033"),
        ("deleted-file", "0a6bfea8856b13bfc2f9df5687aed08afaf9500b"),
        ("dir/nested-file", "bfe53d766e64d78f80050b73cd1c88095bc70abb"),
        ("package.json", "9e26dfeeb6e641a33dae4961196235bdb965b21b"),
    ];
    let mut ls_tree = String::new();
    for (path, hash) in committed {
        ls_tree.push_str(&format!("100644 blob {hash}\t{path}\0"));
    }
    let status = " D my-pkg/deleted-file\0?? my-pkg/uncommitted-file\0?? new-root-file\0";
    let objects = "4e56ad89387e6379e4e91ddfe9872cf6a72c9976\n";

    let expected = to_hash_map(&[
        ("committed-file", "3a29e62ea9ba15c4a4009d1f605d391cdd262033"),
        (
            "uncommitted-file",
            "4e56ad89387e6379e4e91ddfe9872cf6a72c9976",
        ),
        ("package.json", "9e26dfeeb6e641a33dae4961196235bdb965b21b"),
        (
            "dir/nested-file",
            "bfe53d766e64d78f80050b73cd1c88095bc70abb",
        ),
    ]);
    let hashes = get_package_deps(
        ls_tree.as_bytes(),
        status.as_bytes(),
        b"my-pkg/",
        objects.as_bytes(),
        &[],
    )
    .unwrap();
    assert_eq!(as_hash_map(&hashes), expected);
}

fn to_hash_map(pairs: &[(&str, &str)]) -> HashMap<String, String> {
    HashMap::from_iter(pairs.iter().map(|(path, hash)| (path.to_string(), hash.to_string())))
}

fn as_hash_map(hashes: &GitHashes) -> HashMap<String, String> {
    let text = |bytes: &Vec<u8>| String::from_utf8(bytes.clone()).unwrap();
    HashMap::from_iter(hashes.entries.iter().map(|entry| (text(&entry.path), text(&entry.hash))))
}
