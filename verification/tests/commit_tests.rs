use git_objects::commit::GitCommit;
use git_objects::errors::GitObjectError;
use git_objects::identity::{GitCommitAuthor, GitUser};
use git_objects::store::GitObjectStore;
use std::io::Read;

fn compress(data: &[u8]) -> Vec<u8> {
    let mut zlib = flate2::bufread::ZlibEncoder::new(data, flate2::Compression::default());
    let mut out = Vec::new();
    zlib.read_to_end(&mut out).unwrap();
    out
}

fn mock_git_commit_author() -> GitCommitAuthor {
    GitCommitAuthor::new(
        GitUser {
            name: "Test User".to_string(),
            email: "test@example.com".to_string(),
        },
        1234567890,
        "+0000".to_string(),
    )
}

fn create_encoded_commit_file(
    author: GitCommitAuthor,
    commiter: GitCommitAuthor,
    tree: Option<&str>,
    parent_commits: Vec<&str>,
    message: &str,
) -> Result<Vec<u8>, GitObjectError> {
    let tree_line = match tree {
        Some(tree) => format!("tree {}\n", tree),
        None => "".to_string(),
    };
    let parent_lines = parent_commits
        .iter()
        .map(|parent_commit| format!("parent {}\n", parent_commit))
        .collect::<Vec<String>>()
        .join("");
    let author_line = format!(
        "author {} <{}> {} {}\n",
        author.get_user().name,
        author.get_user().email,
        author.date_seconds,
        author.timezone
    );
    let commiter_line = format!(
        "committer {} <{}> {} {}\n",
        commiter.get_user().name,
        commiter.get_user().email,
        commiter.date_seconds,
        commiter.timezone
    );

    let file_content = format!(
        "{}{}{}{}\n{}",
        tree_line, parent_lines, author_line, commiter_line, message
    );
    let file_content_to_encode = format!("commit {}\0{}", file_content.len(), file_content);

    Ok(compress(file_content_to_encode.as_bytes()))
}

#[test]
fn test_from_string() {
    let commiter = mock_git_commit_author();

    let commit_hash = "ae575432e84a11c11b8dc3e357806f65c50f4619".to_string();
    let encoded_file_content = create_encoded_commit_file(
        commiter.clone(),
        commiter.clone(),
        Some("50c8353444afbef3172c999ef6cff8d31309ac3e"),
        Vec::new(),
        "test commit",
    )
    .unwrap();

    let git_commit =
        GitCommit::from_encoded_data(commit_hash.clone(), &encoded_file_content).unwrap();
    assert_eq!(*git_commit.get_hash(), commit_hash);
    assert_eq!(*git_commit.get_parent_hashes(), Vec::<String>::new());
    assert_eq!(
        git_commit.get_tree_hash(),
        "50c8353444afbef3172c999ef6cff8d31309ac3e"
    );
    assert_eq!(git_commit.get_message(), "test commit");
    assert_eq!(*git_commit.get_author(), commiter);
    assert_eq!(*git_commit.get_committer(), commiter);
}

#[test]
fn test_from_string_invalid() {
    let commit_hash = "50c8353444afbef3172c999ef6cff8d31309ac3e";
    let encoded_file_content = "invalid content".as_bytes();

    let git_commit = GitCommit::from_encoded_data(commit_hash.to_string(), encoded_file_content);
    assert!(git_commit.is_err());
}

#[test]
fn test_to_string_no_parent() {
    let commiter = mock_git_commit_author();

    let commit_hash = "ae575432e84a11c11b8dc3e357806f65c50f4619".to_string();
    let encoded_file_content = create_encoded_commit_file(
        commiter.clone(),
        commiter.clone(),
        Some("50c8353444afbef3172c999ef6cff8d31309ac3e"),
        Vec::new(),
        "test commit",
    );

    let git_commit =
        GitCommit::from_encoded_data(commit_hash.clone(), encoded_file_content.as_ref().unwrap())
            .unwrap();

    let encoded_git_commit = compress(git_commit.encode().as_bytes());
    assert_eq!(encoded_git_commit, encoded_file_content.unwrap());
}

#[test]
fn test_to_string_with_parents() {
    let commiter = mock_git_commit_author();

    let commit_hash = "ae575432e84a11c11b8dc3e357806f65c50f4619".to_string();
    let parent_commit_hash = Vec::from([
        "50c8353444afbef3172c999ef6cff8d31309ac3e",
        "50c8353444afbef3172c999ef6cff8d31309ac33",
    ]);
    let encoded_file_content = create_encoded_commit_file(
        commiter.clone(),
        commiter.clone(),
        Some("50c8353444afbef3172c999ef6cff8d31309ac3e"),
        parent_commit_hash.clone(),
        "test commit",
    );

    let git_commit =
        GitCommit::from_encoded_data(commit_hash.clone(), encoded_file_content.as_ref().unwrap())
            .unwrap();

    let encoded_git_commit = compress(git_commit.encode().as_bytes());
    assert_eq!(encoded_git_commit, encoded_file_content.unwrap());
}

#[test]
fn test_from_string_with_parents() {
    let commiter = mock_git_commit_author();

    let commit_hash = "ae575432e84a11c11b8dc3e357806f65c50f4619".to_string();
    let parent_commit_hash = Vec::from([
        "50c8353444afbef3172c999ef6cff8d31309ac3e",
        "50c8353444afbef3172c999ef6cff8d31309ac33",
    ]);
    let encoded_file_content = create_encoded_commit_file(
        commiter.clone(),
        commiter.clone(),
        Some(&commit_hash),
        parent_commit_hash.clone(),
        "test commit",
    );

    let git_commit =
        GitCommit::from_encoded_data(commit_hash.clone(), encoded_file_content.as_ref().unwrap())
            .unwrap();
    assert_eq!(git_commit.hash, commit_hash);
    assert_eq!(git_commit.parent_hashes, parent_commit_hash);
    assert_eq!(git_commit.tree_hash, commit_hash);
    assert_eq!(git_commit.message, "test commit");
    assert_eq!(git_commit.author, commiter);
}

#[test]
fn test_new() {
    let name = "name".to_string();
    let email = "email".to_string();
    let git_user = GitUser::new(name.clone(), email.clone());
    let timezone = "timezone".to_string();
    let git_commit_author = GitCommitAuthor::new(git_user, 1, timezone.clone());
    let hash = "hash";
    let parent_hash = Vec::new();
    let message = "message";
    let git_commit = GitCommit::new(
        hash,
        hash,
        parent_hash.as_slice(),
        git_commit_author.clone(),
        git_commit_author.clone(),
        message,
    );
    assert_eq!(git_commit.hash, hash);
    assert_eq!(git_commit.tree_hash, hash);
    assert_eq!(git_commit.parent_hashes, parent_hash);
    assert_eq!(git_commit.author.get_user().name, name);
    assert_eq!(git_commit.author.get_user().email, email);
    assert_eq!(git_commit.committer.get_user().name, name);
    assert_eq!(git_commit.committer.get_user().email, email);
    assert_eq!(git_commit.message, message);
}

#[test]
fn test_round_trip_scenario() {
    let author = mock_git_commit_author();
    let original = GitCommit::new(
        "ae575432e84a11c11b8dc3e357806f65c50f4619",
        "50c8353444afbef3172c999ef6cff8d31309ac3e",
        &[],
        author.clone(),
        author.clone(),
        "test commit",
    );

    let bytes = compress(original.encode().as_bytes());
    let decoded = GitCommit::from_encoded_data(
        "ae575432e84a11c11b8dc3e357806f65c50f4619".to_string(),
        &bytes,
    )
    .unwrap();

    assert_eq!(decoded.tree_hash, "50c8353444afbef3172c999ef6cff8d31309ac3e");
    assert_eq!(decoded.parent_hashes, Vec::<String>::new());
    assert_eq!(decoded.message, "test commit");
    assert_eq!(decoded.author, author);
    assert_eq!(decoded.committer, author);
    assert_eq!(decoded, original);
}

#[test]
fn test_encode_exact_bytes() {
    let author = mock_git_commit_author();
    let commit = GitCommit::new(
        "ae575432e84a11c11b8dc3e357806f65c50f4619",
        "50c8353444afbef3172c999ef6cff8d31309ac3e",
        &[],
        author.clone(),
        author,
        "test commit",
    );

    let content = "tree 50c8353444afbef3172c999ef6cff8d31309ac3e\n\
                   author Test User <test@example.com> 1234567890 +0000\n\
                   committer Test User <test@example.com> 1234567890 +0000\n\ntest commit";
    let expected = format!("commit {}\0{}", content.len(), content);
    assert_eq!(commit.encode(), expected);
}

#[test]
fn test_parent_order_preserved() {
    let author = mock_git_commit_author();
    let parents = [
        "1111111111111111111111111111111111111111".to_string(),
        "2222222222222222222222222222222222222222".to_string(),
    ];
    let commit = GitCommit::new(
        "ae575432e84a11c11b8dc3e357806f65c50f4619",
        "50c8353444afbef3172c999ef6cff8d31309ac3e",
        &parents,
        author.clone(),
        author,
        "merge",
    );

    let bytes = compress(commit.encode().as_bytes());
    let decoded = GitCommit::from_encoded_data(
        "ae575432e84a11c11b8dc3e357806f65c50f4619".to_string(),
        &bytes,
    )
    .unwrap();
    assert_eq!(decoded.parent_hashes, parents.to_vec());
}

#[test]
fn test_identity_line_formatting() {
    let author = mock_git_commit_author();
    assert_eq!(
        author.to_string(true),
        "Test User <test@example.com> 1234567890 +0000\n"
    );
    assert_eq!(
        author.to_string(false),
        "Test User <test@example.com> 1234567890 +0000"
    );
}

#[test]
fn test_identity_line_parsing() {
    let author =
        GitCommitAuthor::from_string("author Test User <test@example.com> 1234567890 +0000")
            .unwrap();
    assert_eq!(author.get_user().name, "Test User");
    assert_eq!(author.get_user().email, "test@example.com");
    assert_eq!(author.date_seconds, 1234567890);
    assert_eq!(author.timezone, "+0000");

    let negative = GitCommitAuthor::from_string("author A <a@b> -5 +0100").unwrap();
    assert_eq!(negative.date_seconds, -5);

    assert!(GitCommitAuthor::from_string("no identity here").is_err());
    assert!(GitCommitAuthor::from_string("author A <a@b> notanumber +0000").is_err());
}

#[test]
fn test_decompression_error() {
    let result = GitCommit::from_encoded_data("hash".to_string(), b"not zlib at all");
    assert_eq!(result.unwrap_err(), GitObjectError::DecompressionError);
}

#[test]
fn test_grammar_violation_rejected() {
    // valid DEFLATE output of the literal text "invalid content"
    let bytes = compress(b"invalid content");
    let result = GitCommit::from_encoded_data("hash".to_string(), &bytes);
    assert_eq!(result.unwrap_err(), GitObjectError::InvalidCommitFile);
}

#[test]
fn test_from_hash_missing_object() {
    let store = GitObjectStore::new();
    let result = GitCommit::from_hash(&store, "0000000000000000000000000000000000000000");
    assert_eq!(result.unwrap_err(), GitObjectError::FileReadError);
}

#[test]
fn test_get_parent_commits() {
    let author = mock_git_commit_author();
    let p1_hash = "1111111111111111111111111111111111111111";
    let p2_hash = "2222222222222222222222222222222222222222";

    let p1 = GitCommit::new(
        p1_hash,
        "50c8353444afbef3172c999ef6cff8d31309ac3e",
        &[],
        author.clone(),
        author.clone(),
        "first parent",
    );
    let p2 = GitCommit::new(
        p2_hash,
        "50c8353444afbef3172c999ef6cff8d31309ac3e",
        &[],
        author.clone(),
        author.clone(),
        "second parent",
    );

    let mut store = GitObjectStore::new();
    store.add_object(p1_hash.to_string(), compress(p1.encode().as_bytes()));
    store.add_object(p2_hash.to_string(), compress(p2.encode().as_bytes()));

    let child = GitCommit::new(
        "ae575432e84a11c11b8dc3e357806f65c50f4619",
        "50c8353444afbef3172c999ef6cff8d31309ac3e",
        &[p1_hash.to_string(), p2_hash.to_string()],
        author.clone(),
        author,
        "child",
    );

    let parents = child.get_parent_commits(&store).unwrap();
    assert_eq!(parents.len(), 2);
    assert_eq!(parents[0].message, "first parent");
    assert_eq!(parents[1].message, "second parent");
}

#[test]
fn test_fail_fast_parent_loading() {
    let author = mock_git_commit_author();
    let p1_hash = "1111111111111111111111111111111111111111";
    let p2_hash = "2222222222222222222222222222222222222222";

    let p1 = GitCommit::new(
        p1_hash,
        "50c8353444afbef3172c999ef6cff8d31309ac3e",
        &[],
        author.clone(),
        author.clone(),
        "first parent",
    );

    // the second parent has no corresponding object
    let mut store = GitObjectStore::new();
    store.add_object(p1_hash.to_string(), compress(p1.encode().as_bytes()));

    let child = GitCommit::new(
        "ae575432e84a11c11b8dc3e357806f65c50f4619",
        "50c8353444afbef3172c999ef6cff8d31309ac3e",
        &[p1_hash.to_string(), p2_hash.to_string()],
        author.clone(),
        author,
        "child",
    );

    let result = child.get_parent_commits(&store);
    assert_eq!(result.unwrap_err(), GitObjectError::FileReadError);
}

#[test]
fn test_empty_message_round_trip() {
    let author = mock_git_commit_author();
    let commit = GitCommit::new(
        "ae575432e84a11c11b8dc3e357806f65c50f4619",
        "50c8353444afbef3172c999ef6cff8d31309ac3e",
        &[],
        author.clone(),
        author,
        "",
    );
    let bytes = compress(commit.encode().as_bytes());
    let decoded = GitCommit::from_encoded_data(
        "ae575432e84a11c11b8dc3e357806f65c50f4619".to_string(),
        &bytes,
    )
    .unwrap();
    assert_eq!(decoded.message, "");
}

#[test]
fn test_multiline_message_round_trip() {
    let author = mock_git_commit_author();
    let commit = GitCommit::new(
        "ae575432e84a11c11b8dc3e357806f65c50f4619",
        "50c8353444afbef3172c999ef6cff8d31309ac3e",
        &[],
        author.clone(),
        author,
        "subject line\n\nbody paragraph",
    );
    let bytes = compress(commit.encode().as_bytes());
    let decoded = GitCommit::from_encoded_data(
        "ae575432e84a11c11b8dc3e357806f65c50f4619".to_string(),
        &bytes,
    )
    .unwrap();
    assert_eq!(decoded.message, "subject line\n\nbody paragraph");
}
