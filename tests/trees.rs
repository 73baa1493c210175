use mush::index::{Index, IndexEntry, RepoRelativeFilename};
use mush::object::{Object, ObjectType};
use mush::tree::{FileData, FilenameTree, DIRECTORY_MODE};

fn blob_hash(content: &str) -> String {
    Object::Blob(content.as_bytes().to_vec()).hash().as_str().to_string()
}

fn staged(files: &[(&str, &str)]) -> (FilenameTree, Vec<FileData>) {
    let mut index = Index::empty();
    for (path, content) in files {
        index.add(IndexEntry {
            metadata_change_time: (0, 0),
            data_change_time: (0, 0),
            device: 0,
            inode: 0,
            mode: 0o100644,
            uid: 0,
            gid: 0,
            size: content.len() as u32,
            hash: mush::hash::Hash::from_str(&blob_hash(content)).unwrap(),
            assume_valid: false,
            file_name: RepoRelativeFilename(path.to_string()),
        });
    }
    let tree = FilenameTree::from_index(index);
    let data = tree
        .paths()
        .iter()
        .map(|p| {
            let content = files.iter().find(|(q, _)| q == p).unwrap().1;
            FileData { content: content.as_bytes().to_vec(), mode: 0o100644 }
        })
        .collect();
    (tree, data)
}

fn root_hash(files: &[(&str, &str)]) -> String {
    let (tree, data) = staged(files);
    tree.into_object_tree(data).root().hash().as_str().to_string()
}

#[test]
fn once_nested() {
    let (tree, data) = staged(&[("y/xyz.txt", "abc\n")]);
    let objects = tree.into_object_tree(data);
    assert_eq!(objects.root().hash().as_str(), "f48f697b8d1ff3a07132fb982912499cf26d0f68");
    let expected_contents: &[u8] = &[
        0x78, 0x01, 0x01, 0x24, 0x00, 0xdb, 0xff, 0x74, 0x72, 0x65, 0x65, 0x20,
        0x32, 0x38, 0x00, 0x34, 0x30, 0x30, 0x30, 0x30, 0x20, 0x79, 0x00, 0x89,
        0x2b, 0x8c, 0x36, 0xb1, 0x57, 0x9b, 0x89, 0x3c, 0x2e, 0xb0, 0x56, 0x41,
        0xd4, 0x36, 0x1b, 0xd2, 0x5f, 0xfd, 0xe9, 0xcb, 0xaf, 0x0d, 0x57,
    ];
    assert_eq!(objects.root().compressed(), expected_contents.to_vec());
    assert_eq!(objects.objects().len(), 3);
}

#[test]
fn two_paths_make_a_file_and_a_directory() {
    let (tree, data) = staged(&[("y/xyz.txt", "abc\n"), ("x", "abcd\n")]);
    let objects = tree.into_object_tree(data);
    assert_eq!(objects.root().hash().as_str(), "0742454447b93be8ab983887217db204371a77bd");
    match objects.root() {
        Object::Tree(entries) => {
            assert_eq!(entries.len(), 2);
            assert_eq!(entries[0].filename, "x");
            assert_eq!(entries[0].mode, 0o100644);
            assert_eq!(entries[1].filename, "y");
            assert_eq!(entries[1].mode, DIRECTORY_MODE);
            assert_eq!(entries[1].hash.as_str(), "892b8c36b1579b893c2eb05641d4361bd25ffde9");
        }
        _ => panic!("root is not a tree"),
    }
    let listing = objects.root().pretty_print(&vec![ObjectType::Blob, ObjectType::Tree]);
    assert_eq!(
        String::from_utf8(listing).unwrap(),
        "100644 blob acbe86c7c89586e0912a0a851bacf309c595c308\tx\n 40000 tree 892b8c36b1579b893c2eb05641d4361bd25ffde9\ty\n"
    );
}

#[test]
fn children_come_before_parents() {
    let (tree, data) = staged(&[("y/xyz.txt", "abc\n"), ("x", "abcd\n")]);
    let objects = tree.into_object_tree(data);
    let hashes: Vec<String> = objects.objects().iter().map(|o| o.hash().as_str().to_string()).collect();
    for (i, o) in objects.objects().iter().enumerate() {
        if let Object::Tree(entries) = o {
            for e in entries {
                assert!(hashes[..i].contains(&e.hash.as_str().to_string()));
            }
        }
    }
    assert_eq!(hashes.last().unwrap(), "0742454447b93be8ab983887217db204371a77bd");
}

const NESTED: [(&str, &str); 10] = [
    ("src/l", "10\n"),
    ("src/b/d/g", "3\n"),
    ("src/b/d/h", "4\n"),
    ("src/b/e", "5\n"),
    ("src/b/c", "2\n"),
    ("src/b/f/m/n", "8\n"),
    ("src/b/f/j", "7\n"),
    ("src/b/f/i", "6\n"),
    ("src/b/k", "9\n"),
    ("src/a", "1\n"),
];

#[test]
fn lots_of_nesting() {
    assert_eq!(blob_hash("10\n"), "f599e28b8ab0d8c9c57a486c89c4a5132dcbd3b2");
    assert_eq!(blob_hash("1\n"), "d00491fd7e5bb6fa28c517a0bb32b8b506539d4d");
    assert_eq!(root_hash(&NESTED), "a1eae5b44e6ebf4cef4a3a45bc7d9b70c1a766a1");
    let (tree, data) = staged(&NESTED);
    let objects = tree.into_object_tree(data);
    let hashes: Vec<String> = objects.objects().iter().map(|o| o.hash().as_str().to_string()).collect();
    for h in [
        "22b4a6817b0752f485ade63402ff63969b506a85",
        "f655e01806bdbbd07fecc96e92264dc36fa1f87f",
        "d6916ac80889bef0a904686b948974f3c3684c99",
        "d2d468c6b2356b420d9c1f0a55defcf7f5eac9a9",
    ] {
        assert!(hashes.contains(&h.to_string()));
    }
}

#[test]
fn tree_hash_does_not_depend_on_staging_order() {
    let mut reversed = NESTED;
    reversed.reverse();
    assert_eq!(root_hash(&NESTED), root_hash(&reversed));
    assert_eq!(
        root_hash(&[("x", "abcd\n"), ("y/xyz.txt", "abc\n")]),
        root_hash(&[("y/xyz.txt", "abc\n"), ("x", "abcd\n")])
    );
}

#[test]
fn names_sort_as_names_not_as_paths() {
    let (tree, data) = staged(&[("a-b", "1\n"), ("a/x", "2\n")]);
    let objects = tree.into_object_tree(data);
    match objects.root() {
        Object::Tree(entries) => {
            assert_eq!(entries[0].filename, "a");
            assert_eq!(entries[1].filename, "a-b");
        }
        _ => panic!("root is not a tree"),
    }
}

#[test]
fn empty_index_gives_empty_tree() {
    assert_eq!(root_hash(&[]), "4b825dc642cb6eb9a060e54bf8d69288fbee4904");
}
