use std::collections::BTreeMap;

use vaultfs::builder::{GroupMetadata, Step, StoreError, TreeBuilder};
use vaultfs::filesystem::{read_content, VaultFilesystem, DIR_PERM, FILE_PERM};
use vaultfs::tree::{FileKind, FsTree, VaultFsTree};
use vaultfs::vault_api::{
    classify_status, group_metadata, group_pairs, listed_names, ReplyStatus, VaultGetData,
    VaultGetDataResponse, VaultGetMetadata, VaultGetMetadataResponse, VaultListMetadata,
    VaultListMetadataResponse,
};

/// A store held in memory: listings, group times and group data by path.
struct Fixture {
    lists: BTreeMap<String, Vec<String>>,
    groups: BTreeMap<String, (String, String, Vec<(String, String)>)>,
    failing: Vec<String>,
}

fn strings(v: &[&str]) -> Vec<String> {
    v.iter().map(|s| s.to_string()).collect()
}

fn sample() -> Fixture {
    let mut lists = BTreeMap::new();
    lists.insert("/".to_string(), strings(&["app/", "db"]));
    lists.insert("/app/".to_string(), strings(&["web"]));
    let mut groups = BTreeMap::new();
    groups.insert(
        "/app/web".to_string(),
        ("t0".to_string(), "t1".to_string(), vec![("port".to_string(), "8080".to_string())]),
    );
    groups.insert(
        "/db".to_string(),
        (
            "c1".to_string(),
            "u1".to_string(),
            vec![
                ("user".to_string(), "alice".to_string()),
                ("pass".to_string(), "s3cr3t".to_string()),
            ],
        ),
    );
    Fixture { lists, groups, failing: Vec::new() }
}

fn fail(path: &str) -> StoreError {
    StoreError { message: format!("no answer for {}", path) }
}

fn run(f: &Fixture) -> TreeBuilder {
    let mut b = TreeBuilder::new();
    while let Some(req) = b.next_request() {
        let failed = f.failing.contains(&req.path);
        match req.step {
            Step::List => {
                let reply = if failed {
                    Err(fail(&req.path))
                } else {
                    Ok(f.lists.get(&req.path).cloned().unwrap_or_default())
                };
                b.on_list(reply);
            }
            Step::Metadata => {
                let reply = match f.groups.get(&req.path) {
                    Some((c, u, _)) if !failed => {
                        Ok(GroupMetadata { created_time: c.clone(), updated_time: u.clone() })
                    }
                    _ => Err(fail(&req.path)),
                };
                b.on_metadata(reply);
            }
            Step::Data => {
                let reply = match f.groups.get(&req.path) {
                    Some((_, _, d)) => Ok(d.clone()),
                    None => Err(fail(&req.path)),
                };
                b.on_data(reply);
            }
        }
    }
    b
}

fn build(f: &Fixture) -> (VaultFsTree, Vec<String>) {
    match VaultFsTree::new(run(f)) {
        Ok((t, errs)) => (t, errs.into_iter().map(|e| e.path).collect()),
        Err(e) => panic!("root listing failed at {}", e.path),
    }
}

fn count(t: &VaultFsTree) -> u64 {
    let mut n = 0;
    while t.find_by_ino(n + 1).is_some() {
        n += 1;
    }
    n
}

#[test]
fn inodes_are_unique_and_one_is_root() {
    let (t, errs) = build(&sample());
    assert!(errs.is_empty());
    let n = count(&t);
    assert_eq!(n, 7);
    for i in 1..=n {
        assert_eq!(t.find_by_ino(i).unwrap().ino(), i);
    }
    let root = t.find_by_ino(1).unwrap();
    assert!(matches!(root, FsTree::Dir(_)));
    assert_eq!(root.name(), "/");
    assert!(t.find_by_ino(0).is_none());
    let mut seen = Vec::new();
    for i in 1..=n {
        for e in t.list_children(i).unwrap_or_default() {
            assert!(!seen.contains(&e.ino));
            assert_ne!(e.ino, 1);
            seen.push(e.ino);
        }
    }
    assert_eq!(seen.len() as u64, n - 1);
}

#[test]
fn root_lists_app_then_db() {
    let (t, _) = build(&sample());
    let root = t.find_by_ino(1).unwrap();
    assert!(matches!(root, FsTree::Dir(_)));
    let kids = t.list_children(1).unwrap();
    assert_eq!(kids.len(), 2);
    assert_eq!(kids[0].name, "app");
    assert_eq!(kids[0].kind, FileKind::Directory);
    assert!(matches!(t.find_by_ino(kids[0].ino).unwrap(), FsTree::Dir(_)));
    assert_eq!(kids[1].name, "db");
    assert!(matches!(t.find_by_ino(kids[1].ino).unwrap(), FsTree::Secrets(_)));
}

#[test]
fn inodes_follow_pre_order() {
    let (t, _) = build(&sample());
    assert_eq!(t.find_by_ino(2).unwrap().name(), "app");
    assert_eq!(t.find_by_ino(3).unwrap().name(), "web");
    assert_eq!(t.find_by_ino(4).unwrap().name(), "port");
    assert_eq!(t.find_by_ino(5).unwrap().name(), "db");
    assert_eq!(t.find_by_ino(6).unwrap().name(), "user");
    assert_eq!(t.find_by_ino(7).unwrap().name(), "pass");
    assert_eq!(t.find_by_ino(7).unwrap().parent(), 5);
    assert!(t.find_by_ino(8).is_none());
}

#[test]
fn lookup_by_name_is_exact() {
    let mut f = sample();
    f.lists.insert("/".to_string(), strings(&["app/", "db", "db_backup"]));
    f.groups.insert("/db_backup".to_string(), ("a".to_string(), "b".to_string(), Vec::new()));
    let (t, _) = build(&f);
    let db = t.find_by_ino_and_name(1, "db".to_string()).unwrap();
    assert!(matches!(db, FsTree::Secrets(_)));
    assert_eq!(db.name(), "db");
    assert!(t.find_by_ino_and_name(1, "d".to_string()).is_none());
    assert_eq!(t.find_by_ino_and_name(1, "db_backup".to_string()).unwrap().name(), "db_backup");
    let pass = t.find_by_ino_and_name(db.ino(), "pass".to_string()).unwrap();
    assert!(t.find_by_ino_and_name(pass.ino(), "x".to_string()).is_none());
    assert!(t.find_by_ino_and_name(99, "db".to_string()).is_none());
}

#[test]
fn read_content_of_pass() {
    let (t, _) = build(&sample());
    let db = t.find_by_ino_and_name(1, "db".to_string()).unwrap();
    let pass = t.find_by_ino_and_name(db.ino(), "pass".to_string()).unwrap();
    let s = match pass {
        FsTree::Secret(s) => s,
        _ => panic!("not a secret"),
    };
    assert_eq!(s.content, "s3cr3t");
    assert_eq!(s.created_time, "c1");
    assert_eq!(s.updated_time, "u1");
    assert_eq!(read_content(s, 0, 100), b"s3cr3t".to_vec());
    assert!(read_content(s, 6, 100).is_empty());
    assert!(read_content(s, 60, 100).is_empty());
    assert_eq!(read_content(s, 2, 3), b"cr3".to_vec());
    assert!(read_content(s, 0, 0).is_empty());
}

#[test]
fn group_children_follow_data_order() {
    let (t, _) = build(&sample());
    let db = t.find_by_ino_and_name(1, "db".to_string()).unwrap();
    let kids = t.list_children(db.ino()).unwrap();
    let names: Vec<&str> = kids.iter().map(|e| e.name.as_str()).collect();
    assert_eq!(names, vec!["user", "pass"]);
    assert!(kids.iter().all(|e| e.kind == FileKind::RegularFile));
    assert_ne!(kids[0].ino, kids[1].ino);
    let pass = t.find_by_ino(kids[1].ino).unwrap();
    assert!(t.list_children(pass.ino()).is_none());
}

#[test]
fn nested_list_failure_keeps_the_rest() {
    let mut f = sample();
    f.failing.push("/app/".to_string());
    let (t, errs) = build(&f);
    assert_eq!(errs, vec!["/app/".to_string()]);
    let kids = t.list_children(1).unwrap();
    assert_eq!(kids.len(), 2);
    assert_eq!(kids[0].name, "app");
    assert!(t.list_children(kids[0].ino).unwrap().is_empty());
    let db = t.find_by_ino_and_name(1, "db".to_string()).unwrap();
    assert_eq!(t.list_children(db.ino()).unwrap().len(), 2);
}

#[test]
fn group_metadata_failure_leaves_group_empty() {
    let mut f = sample();
    f.failing.push("/db".to_string());
    let (t, errs) = build(&f);
    assert_eq!(errs, vec!["/db".to_string()]);
    let db = t.find_by_ino_and_name(1, "db".to_string()).unwrap();
    assert!(t.list_children(db.ino()).unwrap().is_empty());
}

#[test]
fn root_failure_is_fatal() {
    let mut f = sample();
    f.failing.push("/".to_string());
    match VaultFsTree::new(run(&f)) {
        Ok(_) => panic!("a tree without a root listing"),
        Err(e) => assert_eq!(e.path, "/"),
    }
}

#[test]
fn missing_inode_or_name_is_not_found() {
    let (t, _) = build(&sample());
    let fs = VaultFilesystem::new(t);
    assert_eq!(fs.getattr(999).err().unwrap().ino, 999);
    assert!(fs.getattr(0).is_err());
    assert!(fs.lookup(1, "nope".to_string()).is_err());
    assert!(fs.lookup(999, "db".to_string()).is_err());
    assert_eq!(fs.readdir(999, 0).err().unwrap().ino, 999);
    assert_eq!(fs.read(999, 0, 10).err().unwrap().ino, 999);
}

#[test]
fn attributes_of_nodes() {
    let (t, _) = build(&sample());
    let fs = VaultFilesystem::new(t);
    let root = fs.getattr(1).ok().unwrap();
    assert_eq!(root.kind, FileKind::Directory);
    assert_eq!(root.size, 0);
    assert_eq!(root.perm, DIR_PERM);
    let pass = fs.getattr(7).ok().unwrap();
    assert_eq!(pass.kind, FileKind::RegularFile);
    assert_eq!(pass.size, 6);
    assert_eq!(pass.blocks, 1);
    assert_eq!(root.blocks, 0);
    assert_eq!(pass.perm, FILE_PERM);
    assert_eq!(pass.created_time, "c1");
    let db = fs.lookup(1, "db".to_string()).ok().unwrap();
    assert_eq!(db.ino, 5);
    assert_eq!(db.kind, FileKind::Directory);
}

#[test]
fn readdir_has_real_dot_entries() {
    let (t, _) = build(&sample());
    let fs = VaultFilesystem::new(t);
    let all = fs.readdir(5, 0).ok().unwrap();
    let view: Vec<(u64, &str)> = all.iter().map(|e| (e.ino, e.name.as_str())).collect();
    assert_eq!(view, vec![(5, "."), (1, ".."), (6, "user"), (7, "pass")]);
    let rest = fs.readdir(5, 3).ok().unwrap();
    assert_eq!(rest.len(), 1);
    assert_eq!(rest[0].name, "pass");
    assert!(fs.readdir(5, 4).ok().unwrap().is_empty());
    let root = fs.readdir(1, 0).ok().unwrap();
    assert_eq!(root[1].ino, 1);
    assert_eq!(fs.readdir(7, 0).err().unwrap().ino, 7);
}

#[test]
fn read_through_filesystem() {
    let (t, _) = build(&sample());
    let fs = VaultFilesystem::new(t);
    assert_eq!(fs.read(7, 0, 100).ok().unwrap(), b"s3cr3t".to_vec());
    assert_eq!(fs.read(7, 3, 2).ok().unwrap(), b"r3".to_vec());
    assert!(fs.read(7, 6, 100).ok().unwrap().is_empty());
    assert_eq!(fs.read(5, 0, 10).err().unwrap().ino, 5);
    assert!(fs.read(1, 0, 10).is_err());
}

#[test]
fn empty_store_gives_root_only() {
    let f = Fixture { lists: BTreeMap::new(), groups: BTreeMap::new(), failing: Vec::new() };
    let (t, errs) = build(&f);
    assert!(errs.is_empty());
    assert_eq!(count(&t), 1);
    assert!(t.list_children(1).unwrap().is_empty());
}

#[test]
fn builder_asks_in_pre_order() {
    let f = sample();
    let mut b = TreeBuilder::new();
    let mut asked = Vec::new();
    while let Some(req) = b.next_request() {
        asked.push((req.step, req.path.clone()));
        match req.step {
            Step::List => b.on_list(Ok(f.lists.get(&req.path).cloned().unwrap_or_default())),
            Step::Metadata => b.on_metadata(Ok(GroupMetadata {
                created_time: "c".to_string(),
                updated_time: "u".to_string(),
            })),
            Step::Data => b.on_data(Ok(Vec::new())),
        }
    }
    assert!(b.is_done());
    let expect = vec![
        (Step::List, "/".to_string()),
        (Step::List, "/app/".to_string()),
        (Step::Metadata, "/app/web".to_string()),
        (Step::Data, "/app/web".to_string()),
        (Step::Metadata, "/db".to_string()),
        (Step::Data, "/db".to_string()),
    ];
    assert_eq!(asked, expect);
}

#[test]
fn status_classes() {
    assert_eq!(classify_status(200), ReplyStatus::Body);
    assert_eq!(classify_status(204), ReplyStatus::Body);
    assert_eq!(classify_status(404), ReplyStatus::Absent);
    assert_eq!(classify_status(500), ReplyStatus::Failed);
    assert_eq!(classify_status(403), ReplyStatus::Failed);
}

#[test]
fn list_reply_handling() {
    assert!(listed_names(404, None).ok().unwrap().is_empty());
    assert!(listed_names(500, None).is_err());
    assert!(listed_names(200, None).is_err());
    let body = VaultListMetadataResponse {
        data: VaultListMetadata { keys: strings(&["a/", "b"]) },
        request_id: "r".to_string(),
    };
    assert_eq!(listed_names(200, Some(body)).ok().unwrap(), strings(&["a/", "b"]));
}

#[test]
fn group_reply_handling() {
    let meta = VaultGetMetadataResponse {
        data: VaultGetMetadata { created_time: "c".to_string(), updated_time: "u".to_string() },
        request_id: "r".to_string(),
    };
    let m = group_metadata(200, Some(meta)).ok().unwrap();
    assert_eq!(m.created_time, "c");
    assert_eq!(m.updated_time, "u");
    assert!(group_metadata(404, None).is_err());
    let data = VaultGetDataResponse {
        data: VaultGetData { data: vec![("k".to_string(), "v".to_string())] },
        request_id: "r".to_string(),
    };
    assert_eq!(group_pairs(200, Some(data)).ok().unwrap(), vec![("k".to_string(), "v".to_string())]);
    assert!(group_pairs(500, None).is_err());
}

#[test]
fn two_entry_root_numbers_app_then_db() {
    let mut f = sample();
    f.lists.insert("/app/".to_string(), Vec::new());
    let (t, _) = build(&f);
    assert!(matches!(t.find_by_ino(2).unwrap(), FsTree::Dir(_)));
    assert_eq!(t.find_by_ino(2).unwrap().name(), "app");
    assert!(matches!(t.find_by_ino(3).unwrap(), FsTree::Secrets(_)));
    assert_eq!(t.find_by_ino_and_name(1, "db".to_string()).unwrap().ino(), 3);
    assert_eq!(t.find_by_ino(5).unwrap().name(), "pass");
    assert!(t.find_by_ino(6).is_none());
}

#[test]
fn exact_match_picks_db_over_db_backup() {
    let mut f = sample();
    f.lists.insert("/".to_string(), strings(&["db_backup", "db"]));
    f.groups.insert("/db_backup".to_string(), ("a".to_string(), "b".to_string(), Vec::new()));
    let (t, _) = build(&f);
    assert_eq!(t.find_by_ino_and_name(1, "db_backup".to_string()).unwrap().ino(), 2);
    assert_eq!(t.find_by_ino_and_name(1, "db".to_string()).unwrap().ino(), 3);
}

#[test]
fn single_group_secrets_numbered_in_pair_order() {
    let mut f = sample();
    f.lists.insert("/".to_string(), strings(&["db"]));
    let (t, _) = build(&f);
    let pass = t.find_by_ino_and_name(2, "pass".to_string()).unwrap();
    assert_eq!(pass.ino(), 4);
    assert_eq!(t.find_by_ino(3).unwrap().name(), "user");
    assert!(t.find_by_ino_and_name(2, "pas".to_string()).is_none());
    assert!(t.find_by_ino_and_name(4, "pass".to_string()).is_none());
    let fs = VaultFilesystem::new(t);
    assert_eq!(fs.read(4, 0, 100).ok().unwrap(), b"s3cr3t".to_vec());
    assert_eq!(fs.getattr(4).ok().unwrap().size, 6);
}

#[test]
fn missing_group_is_left_empty() {
    let mut f = sample();
    f.groups.remove("/app/web");
    let (t, errs) = build(&f);
    assert_eq!(errs, vec!["/app/web".to_string()]);
    let web = t.find_by_ino(3).unwrap();
    assert_eq!(web.name(), "web");
    assert!(t.list_children(3).unwrap().is_empty());
    assert_eq!(t.find_by_ino(4).unwrap().name(), "db");
}
