use btdu_rs::paths::{RootChase, RootStep, MAX_ROOT_DEPTH};
use btdu_rs::paths::{component_text, data_path, root_backref, split_non_empty, Roots};
use btdu_rs::search_key::SearchHeader;

#[test]
fn split_drops_empty_components() {
    let parts = split_non_empty(b"/a//bc/d/");
    assert_eq!(parts, vec![b"a".to_vec(), b"bc".to_vec(), b"d".to_vec()]);
    assert!(split_non_empty(b"").is_empty());
    assert!(split_non_empty(b"///").is_empty());
    assert_eq!(split_non_empty(b"x"), vec![b"x".to_vec()]);
}

#[test]
fn data_path_joins_root_and_inode_path() {
    let root = vec!["vol".to_string(), "snap".to_string()];
    let p = data_path(&root, b"home/user/");
    assert_eq!(p, vec!["DATA", "vol", "snap", "home", "user"]);
    assert_eq!(data_path(&Vec::new(), b""), vec!["DATA"]);
}

#[test]
fn invalid_utf8_is_replaced() {
    assert_eq!(component_text(b"ok"), "ok");
    assert_eq!(component_text(&[b'a', 0xff, b'b']), "a\u{fffd}b");
}

fn root_ref(name: &[u8]) -> Vec<u8> {
    let mut p = Vec::new();
    p.extend_from_slice(&256u64.to_le_bytes());
    p.extend_from_slice(&3u64.to_le_bytes());
    p.extend_from_slice(&(name.len() as u16).to_le_bytes());
    p.extend_from_slice(name);
    p
}

#[test]
fn root_backref_gives_name_and_parent() {
    let h = SearchHeader { transid: 1, objectid: 257, offset: 5, typ: 144, len: 22 };
    assert_eq!(root_backref(&h, &root_ref(b"home")), Some(("home".to_string(), 5)));
    let other = SearchHeader { typ: 132, ..h };
    assert_eq!(root_backref(&other, &root_ref(b"home")), None);
    let short = root_ref(b"home");
    assert_eq!(root_backref(&h, &short[..20]), None);
}

#[test]
fn roots_resolve_through_parents() {
    let mut r = Roots::new();
    assert_eq!(r.get_root(5), Some(Vec::new()));
    assert!(!r.add_backref(300, "deep".to_string(), 256));
    assert!(r.add_backref(256, "vol".to_string(), 5));
    assert!(r.add_backref(300, "deep".to_string(), 256));
    assert!(!r.add_backref(300, "again".to_string(), 5));
    assert_eq!(r.get_root(300), Some(vec!["vol".to_string(), "deep".to_string()]));
    assert_eq!(r.get_root(256), Some(vec!["vol".to_string()]));
    assert_eq!(r.get_root(7), None);
}

#[test]
fn nul_terminated_name_is_cut() {
    assert_eq!(btdu_rs::paths::until_nul(b"dir/file\0junk"), b"dir/file".to_vec());
    assert_eq!(btdu_rs::paths::until_nul(b"whole"), b"whole".to_vec());
    assert_eq!(btdu_rs::paths::until_nul(b"\0x"), Vec::<u8>::new());
}

#[test]
fn root_chase_walks_up_to_a_known_root() {
    let mut roots = Roots::new();
    let mut chase = RootChase::new(300);
    assert!(matches!(chase.step(&mut roots), RootStep::NeedBackref(300)));
    chase.supply("deep".to_string(), 256);
    assert!(matches!(chase.step(&mut roots), RootStep::NeedBackref(256)));
    chase.supply("vol".to_string(), 5);
    match chase.step(&mut roots) {
        RootStep::Known(p) => assert_eq!(p, vec!["vol".to_string(), "deep".to_string()]),
        other => panic!("unexpected {:?}", other),
    }
    assert_eq!(roots.get_root(256), Some(vec!["vol".to_string()]));
    let again = RootChase::new(300);
    assert!(matches!(again.step(&mut roots), RootStep::Known(_)));
}

#[test]
fn root_chase_gives_up_on_a_loop() {
    let mut roots = Roots::new();
    let mut chase = RootChase::new(400);
    let mut asked = 0;
    loop {
        match chase.step(&mut roots) {
            RootStep::NeedBackref(x) => {
                asked += 1;
                chase.supply("loop".to_string(), if x == 400 { 401 } else { 400 });
            }
            RootStep::TooDeep => break,
            other => panic!("unexpected {:?}", other),
        }
    }
    assert_eq!(asked, MAX_ROOT_DEPTH);
    assert_eq!(roots.get_root(400), None);
}
