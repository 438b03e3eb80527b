use bund_blobstore::vfs::{VfsError, VfsNodeType, VirtualFilesystem};
use bund_blobstore::vpath::{split_parts, split_path};

fn stamps(n: usize) -> Vec<String> {
    (0..n).map(|i| format!("{}", 1000 + i)).collect()
}

#[test]
fn path_parent_and_name() {
    assert_eq!(split_path("/a/b"), (Some("/a".to_string()), Some("b".to_string())));
    assert_eq!(split_path("/a"), (Some("/".to_string()), Some("a".to_string())));
    assert_eq!(split_path("/"), (None, None));
    assert_eq!(split_path("/a//b"), (Some("/a".to_string()), Some("b".to_string())));
    assert_eq!(split_path("/a/b/."), (Some("/a".to_string()), Some("b".to_string())));
    assert_eq!(split_path("/a/.."), (Some("/a".to_string()), None));
    assert_eq!(split_path("rel/x"), (Some("rel".to_string()), Some("x".to_string())));
    assert_eq!(split_path(""), (None, None));
    assert_eq!(split_parts("//a//b/"), vec!["a", "b"]);
}

#[test]
fn mkdir_resolve_ls() {
    let mut fs = VirtualFilesystem::new(0);
    assert_eq!(fs.resolve_path("/").unwrap(), Some("root".to_string()));
    fs.mkdir("/docs", "11", 1).unwrap();
    assert_eq!(fs.resolve_path("/docs").unwrap(), Some("folder_docs_11".to_string()));
    fs.mkdir("/docs/inner", "12", 2).unwrap();
    assert_eq!(fs.resolve_path("/docs/inner").unwrap(), Some("folder_inner_12".to_string()));
    assert!(matches!(fs.mkdir("/docs", "13", 3), Err(VfsError::AlreadyExists)));
    assert!(matches!(fs.mkdir("/none/x", "14", 3), Err(VfsError::ParentDoesNotExist(p)) if p == "/none"));
    assert!(matches!(fs.resolve_path("docs"), Err(VfsError::NotAbsolute)));
    assert!(matches!(fs.resolve_path("/docs/"), Err(VfsError::TrailingSlash)));
    assert_eq!(fs.resolve_path("/missing").unwrap(), None);
    let names = fs.ls("/docs").unwrap();
    assert_eq!(names, vec!["inner"]);
    assert!(matches!(fs.ls("/missing"), Err(VfsError::NotFound)));
    let root = fs.get_node("root").unwrap();
    assert_eq!(root.modified_at, 1);
}

#[test]
fn files_make_parent_folders() {
    let mut fs = VirtualFilesystem::new(0);
    fs.mkfile("/a/b/c.txt", b"hello", "text/plain", "blob-1", "node-1", &stamps(20), 5).unwrap();
    let a = fs.resolve_path("/a").unwrap().unwrap();
    assert_eq!(a, "folder_a_1000");
    let b = fs.resolve_path("/a/b").unwrap().unwrap();
    assert_eq!(b, "folder_b_1001");
    assert_eq!(fs.resolve_path("/a/b/c.txt").unwrap(), Some("node-1".to_string()));
    let n = fs.get_node_by_path("/a/b/c.txt").unwrap();
    match &n.node_type {
        VfsNodeType::BlobReference { blob_key, size, mime_type } => {
            assert_eq!(blob_key, "blob-1");
            assert_eq!(*size, 5);
            assert_eq!(mime_type, "text/plain");
        }
        _ => panic!("wrong type"),
    }
    assert_eq!(n.parent_id.as_deref(), Some("folder_b_1001"));
    assert!(matches!(fs.mkdir("/a/b/c.txt/d", "1", 6), Err(VfsError::InsideFile)));
    // A file cannot be used as a directory, last in the parent path or not.
    assert!(matches!(
        fs.mkfile("/a/b/c.txt/d", b"", "x", "k", "node-2", &stamps(20), 6),
        Err(VfsError::SegmentIsFile(name)) if name == "c.txt"
    ));
    assert!(!matches!(fs.resolve_path("/a/b/c.txt/d"), Ok(Some(_))));
    assert!(matches!(
        fs.mkfile("/a/b/c.txt/d/e", b"", "x", "k", "node-6", &stamps(20), 6),
        Err(VfsError::SegmentIsFile(name)) if name == "c.txt"
    ));
    assert!(matches!(fs.mkfile("rel", b"", "x", "k", "node-3", &stamps(20), 6), Err(VfsError::NotAbsolute)));
    assert!(matches!(fs.mkfile("/", b"", "x", "k", "node-4", &stamps(20), 6), Err(VfsError::InvalidPathStructure)));
    assert!(matches!(fs.mkfile("/a/..", b"", "x", "k", "node-5", &stamps(20), 6), Err(VfsError::MissingFilename)));
}

#[test]
fn text_json_code_and_links() {
    let mut fs = VirtualFilesystem::new(0);
    fs.mktext("/t/readme", "one two  three", "en", "doc-1", "n1", &stamps(20), 1).unwrap();
    match &fs.get_node_by_path("/t/readme").unwrap().node_type {
        VfsNodeType::TextDocument { word_count, chunk_count, language, document_id } => {
            assert_eq!(*word_count, 3);
            assert_eq!(*chunk_count, 0);
            assert_eq!(language, "en");
            assert_eq!(document_id, "doc-1");
        }
        _ => panic!("wrong type"),
    }
    fs.mkjson("/j/data.json", "doc-2", "fp", "v1", 42, "n2", &stamps(20), 2).unwrap();
    fs.script("/s/main.rs", "fn main() {\n}\n", "rust", "blob-3", "n3", &stamps(20), 3).unwrap();
    match &fs.get_node_by_path("/s/main.rs").unwrap().node_type {
        VfsNodeType::CodeDocument { lines, functions, imports, .. } => {
            assert_eq!(*lines, 2);
            assert_eq!(functions, &vec!["main {".to_string()]);
            assert!(imports.is_empty());
        }
        _ => panic!("wrong type"),
    }
    fs.mklink("/t/link", "n2", "n4", 4).unwrap();
    let l = fs.get_node_by_path("/t/link").unwrap();
    assert_eq!(l.target_id.as_deref(), Some("n2"));
    assert!(matches!(fs.mklink("/nowhere/link", "n2", "n5", 5), Err(VfsError::ParentNotFound)));
}

#[test]
fn rm_rules() {
    let mut fs = VirtualFilesystem::new(0);
    fs.mkdir("/d", "1", 1).unwrap();
    fs.mkdir("/d/e", "2", 2).unwrap();
    assert!(matches!(fs.rm("/"), Err(VfsError::CannotRemoveRoot)));
    assert!(matches!(fs.rm("/d"), Err(VfsError::DirectoryNotEmpty)));
    assert!(matches!(fs.rm("/x"), Err(VfsError::PathNotFound)));
    fs.rm("/d/e").unwrap();
    assert_eq!(fs.resolve_path("/d/e").unwrap(), None);
    assert!(matches!(fs.get_node("folder_e_2"), Err(VfsError::NodeNotFound(id)) if id == "folder_e_2"));
    fs.rm("/d").unwrap();
    assert!(fs.ls("/").unwrap().is_empty());
}
