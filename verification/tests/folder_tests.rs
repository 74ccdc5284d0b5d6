use varant::folders::{get_tree, FolderRef};

fn folder(id: &str, parent: Option<&str>) -> FolderRef {
    FolderRef {
        id: id.to_string(),
        parent_id: parent.map(|p| p.to_string()),
    }
}

#[test]
fn test_folder_tree() {
    // Parent, a child under it, and a note in the parent
    let folders = vec![folder("parent", None), folder("child", Some("parent"))];
    let notes = vec![Some("parent".to_string())];
    let tree = get_tree(&folders, &notes);

    assert_eq!(tree.len(), 1); // One root
    assert_eq!(folders[tree[0].folder].id, "parent");
    assert_eq!(tree[0].children.len(), 1);
    assert_eq!(folders[tree[0].children[0].folder].id, "child");
    assert_eq!(tree[0].notes.len(), 1);
}

#[test]
fn folder_tree_keeps_list_order_and_drops_orphans() {
    let folders = vec![
        folder("b", Some("a")),
        folder("a", None),
        folder("z", None),
        folder("c", Some("a")),
        folder("d", Some("c")),
        folder("lost", Some("nowhere")),
    ];
    let notes = vec![
        Some("d".to_string()),
        None,
        Some("a".to_string()),
        Some("d".to_string()),
        Some("nowhere".to_string()),
    ];
    let tree = get_tree(&folders, &notes);
    let roots: Vec<usize> = tree.iter().map(|t| t.folder).collect();
    assert_eq!(roots, vec![1, 2]);
    let a = &tree[0];
    assert_eq!(a.notes, vec![2]);
    let kids: Vec<usize> = a.children.iter().map(|t| t.folder).collect();
    assert_eq!(kids, vec![0, 3]);
    let c = &a.children[1];
    assert_eq!(c.children.len(), 1);
    assert_eq!(c.children[0].folder, 4);
    assert_eq!(c.children[0].notes, vec![0, 3]);
    assert!(tree[1].children.is_empty());
    assert!(tree[1].notes.is_empty());
}
