use git_objects::errors::GitObjectError;
use git_objects::store::GitObjectStore;
use git_objects::tree::{GitTree, GitTreeEntry, GitTreeMode};
use std::io::Read;

fn compress(data: &[u8]) -> Vec<u8> {
    let mut zlib = flate2::bufread::ZlibEncoder::new(data, flate2::Compression::default());
    let mut out = Vec::new();
    zlib.read_to_end(&mut out).unwrap();
    out
}

fn create_encoded_tree_file(entries: Vec<GitTreeEntry>) -> Result<Vec<u8>, GitObjectError> {
    let mut file_content = String::new();
    for entry in entries {
        file_content.push_str(&format!(
            "{} {}\0{}",
            entry.mode.to_mode_str(),
            entry.name,
            entry.hash,
        ));
    }

    let file_content_to_encode = format!("tree {}\0{}", file_content.len(), file_content);
    Ok(compress(file_content_to_encode.as_bytes()))
}

#[test]
fn test_git_tree_from_encoded_data() {
    let entries = vec![
        GitTreeEntry {
            mode: GitTreeMode::File,
            hash: "df6773ea47ed3fce3b3bb14e3d1101963e77ef08".to_string(),
            name: "file1".to_string(),
        },
        GitTreeEntry {
            mode: GitTreeMode::Tree,
            hash: "df6773ea47ed3fce3b3bb14e3d1101963e77ef09".to_string(),
            name: "tree1".to_string(),
        },
    ];
    let encoded_data = create_encoded_tree_file(entries).unwrap();

    let tree = GitTree::from_encoded_data(encoded_data.as_slice()).unwrap();

    assert_eq!(tree.entries().len(), 2);
    assert_eq!(tree.get_blobs().len(), 1);
    assert_eq!(tree.get_trees().len(), 1);
    assert_eq!(
        tree.get_entry_by_name("file1").unwrap().hash,
        "df6773ea47ed3fce3b3bb14e3d1101963e77ef08"
    );
    assert_eq!(
        tree.get_entry_by_name("tree1").unwrap().hash,
        "df6773ea47ed3fce3b3bb14e3d1101963e77ef09"
    );
    assert_eq!(
        tree.get_entry_by_hash("df6773ea47ed3fce3b3bb14e3d1101963e77ef08")
            .unwrap()
            .name,
        "file1"
    );
}

#[test]
fn test_git_tree_mode_from_mode_str() {
    assert_eq!(GitTreeMode::from_mode_str("100644"), GitTreeMode::File);
    assert_eq!(
        GitTreeMode::from_mode_str("100755"),
        GitTreeMode::Executable
    );
    assert_eq!(GitTreeMode::from_mode_str("120000"), GitTreeMode::Symlink);
    assert_eq!(GitTreeMode::from_mode_str("040000"), GitTreeMode::Tree);
    assert_eq!(GitTreeMode::from_mode_str("160000"), GitTreeMode::Submodule);
}

#[test]
fn test_git_tree_mode_to_mode_str() {
    assert_eq!(GitTreeMode::File.to_mode_str(), "100644");
    assert_eq!(GitTreeMode::Executable.to_mode_str(), "100755");
    assert_eq!(GitTreeMode::Symlink.to_mode_str(), "120000");
    assert_eq!(GitTreeMode::Tree.to_mode_str(), "040000");
    assert_eq!(GitTreeMode::Submodule.to_mode_str(), "160000");
}

#[test]
fn test_git_tree_mode_display() {
    assert_eq!(GitTreeMode::File.kind_str(), "blob");
    assert_eq!(GitTreeMode::Submodule.kind_str(), "blob");
    assert_eq!(GitTreeMode::Tree.kind_str(), "tree");
}

#[test]
fn test_mode_round_trip() {
    for token in ["100644", "100755", "120000", "040000", "160000"] {
        assert_eq!(GitTreeMode::from_mode_str(token).to_mode_str(), token);
    }
}

#[test]
fn test_unknown_mode_is_typed_error() {
    assert_eq!(GitTreeMode::try_from_mode_str("999999"), None);

    // a tree whose single entry carries an unrecognized mode token
    let body = "999999 file1\0df6773ea47ed3fce3b3bb14e3d1101963e77ef08";
    let encoded = compress(format!("tree {}\0{}", body.len(), body).as_bytes());
    let result = GitTree::from_encoded_data(&encoded);
    assert_eq!(result.unwrap_err(), GitObjectError::InvalidTreeFile);
}

#[test]
fn test_tree_entry_count_invariant() {
    let entries = vec![
        GitTreeEntry {
            mode: GitTreeMode::File,
            hash: "df6773ea47ed3fce3b3bb14e3d1101963e77ef01".to_string(),
            name: "a".to_string(),
        },
        GitTreeEntry {
            mode: GitTreeMode::Tree,
            hash: "df6773ea47ed3fce3b3bb14e3d1101963e77ef02".to_string(),
            name: "b".to_string(),
        },
        GitTreeEntry {
            mode: GitTreeMode::Symlink,
            hash: "df6773ea47ed3fce3b3bb14e3d1101963e77ef03".to_string(),
            name: "c".to_string(),
        },
        GitTreeEntry {
            mode: GitTreeMode::Submodule,
            hash: "df6773ea47ed3fce3b3bb14e3d1101963e77ef04".to_string(),
            name: "d".to_string(),
        },
    ];
    let encoded = create_encoded_tree_file(entries).unwrap();
    let tree = GitTree::from_encoded_data(&encoded).unwrap();
    assert_eq!(tree.entries().len(), 4);
    assert_eq!(tree.get_trees().len() + tree.get_blobs().len(), 4);
}

#[test]
fn test_tree_grammar_violation_rejected() {
    let bytes = compress(b"invalid content");
    let result = GitTree::from_encoded_data(&bytes);
    assert_eq!(result.unwrap_err(), GitObjectError::InvalidTreeFile);
}

#[test]
fn test_tree_decompression_error() {
    let result = GitTree::from_encoded_data(b"not zlib at all");
    assert_eq!(result.unwrap_err(), GitObjectError::DecompressionError);
}

#[test]
fn test_tree_truncated_hash_rejected() {
    // fewer than 40 characters remain for the hash field
    let body = "100644 file1\0deadbeef";
    let encoded = compress(format!("tree {}\0{}", body.len(), body).as_bytes());
    let result = GitTree::from_encoded_data(&encoded);
    assert_eq!(result.unwrap_err(), GitObjectError::InvalidTreeFile);
}

#[test]
fn test_tree_add_entry_and_lookup() {
    let mut tree = GitTree::new();
    tree.add_entry(
        GitTreeMode::File,
        "df6773ea47ed3fce3b3bb14e3d1101963e77ef08".to_string(),
        "readme".to_string(),
    );
    assert_eq!(tree.entries().len(), 1);
    assert_eq!(tree.get_entry_by_name("readme").unwrap().mode, GitTreeMode::File);
    assert!(tree.get_entry_by_name("missing").is_none());
    assert!(tree
        .get_entry_by_hash("df6773ea47ed3fce3b3bb14e3d1101963e77ef08")
        .is_some());
    assert!(tree
        .get_entry_by_hash("0000000000000000000000000000000000000000")
        .is_none());
}

#[test]
fn test_tree_duplicate_names_first_wins() {
    let entries = vec![
        GitTreeEntry {
            mode: GitTreeMode::File,
            hash: "df6773ea47ed3fce3b3bb14e3d1101963e77ef01".to_string(),
            name: "dup".to_string(),
        },
        GitTreeEntry {
            mode: GitTreeMode::File,
            hash: "df6773ea47ed3fce3b3bb14e3d1101963e77ef02".to_string(),
            name: "dup".to_string(),
        },
    ];
    let encoded = create_encoded_tree_file(entries).unwrap();
    let tree = GitTree::from_encoded_data(&encoded).unwrap();
    assert_eq!(
        tree.get_entry_by_name("dup").unwrap().hash,
        "df6773ea47ed3fce3b3bb14e3d1101963e77ef01"
    );
}

#[test]
fn test_tree_from_hash() {
    let entries = vec![GitTreeEntry {
        mode: GitTreeMode::File,
        hash: "df6773ea47ed3fce3b3bb14e3d1101963e77ef08".to_string(),
        name: "file1".to_string(),
    }];
    let encoded = create_encoded_tree_file(entries).unwrap();
    let tree_hash = "50c8353444afbef3172c999ef6cff8d31309ac3e";

    let mut store = GitObjectStore::new();
    store.add_object(tree_hash.to_string(), encoded);

    let tree = GitTree::from_hash(&store, tree_hash).unwrap();
    assert_eq!(tree.entries().len(), 1);

    let missing = GitTree::from_hash(&store, "0000000000000000000000000000000000000000");
    assert_eq!(missing.unwrap_err(), GitObjectError::FileReadError);
}
