use egorec::config::{load_recordings_dir, save_recordings_dir, ConfigFile};
use egorec::recent::{remove, set_alias, touch, RecentFile, RecentWorkspace};

fn entry(path: &str, t: i128) -> RecentWorkspace {
    RecentWorkspace { path: path.to_string(), alias: None, last_opened_at: t }
}

fn paths(f: &RecentFile) -> Vec<String> {
    f.workspaces.iter().map(|w| w.path.clone()).collect()
}

#[test]
fn touch_adds_and_orders_most_recent_first() {
    let mut f = RecentFile::default();
    assert_eq!(f.version, 1);
    touch(&mut f, "/a", 10);
    touch(&mut f, "/b", 20);
    touch(&mut f, "/c", 15);
    assert_eq!(paths(&f), vec!["/b", "/c", "/a"]);
    touch(&mut f, "/a", 30);
    assert_eq!(paths(&f), vec!["/a", "/b", "/c"]);
    assert_eq!(f.workspaces[0].last_opened_at, 30);
    assert!(f.workspaces[0].alias.is_none());
}

#[test]
fn touch_keeps_equal_times_in_order_and_caps_at_twenty() {
    let mut f = RecentFile::default();
    for i in 0..25 {
        f.workspaces.push(entry(&format!("/w{}", i), 100));
    }
    touch(&mut f, "/new", 50);
    assert_eq!(f.workspaces.len(), 20);
    assert_eq!(f.workspaces[0].path, "/w0");
    assert_eq!(f.workspaces[19].path, "/w19");
}

#[test]
fn remove_drops_every_entry_for_the_path() {
    let mut f = RecentFile { version: 1, workspaces: vec![entry("/a", 3), entry("/b", 2), entry("/a", 1)] };
    remove(&mut f, "/a");
    assert_eq!(paths(&f), vec!["/b"]);
    remove(&mut f, "/zzz");
    assert_eq!(paths(&f), vec!["/b"]);
}

#[test]
fn set_alias_sets_and_clears() {
    let mut f = RecentFile { version: 1, workspaces: vec![entry("/a", 3), entry("/b", 2)] };
    set_alias(&mut f, "/b", Some("Kitchen".to_string())).unwrap();
    assert_eq!(f.workspaces[1].alias.as_deref(), Some("Kitchen"));
    set_alias(&mut f, "/b", Some(" \t\u{3000}".to_string())).unwrap();
    assert!(f.workspaces[1].alias.is_none());
    set_alias(&mut f, "/b", Some("x".to_string())).unwrap();
    set_alias(&mut f, "/b", None).unwrap();
    assert!(f.workspaces[1].alias.is_none());
    assert_eq!(set_alias(&mut f, "/nope", Some("y".to_string())).unwrap_err(), "Workspace not found: /nope");
}

#[test]
fn recordings_dir_setting() {
    let mut c = ConfigFile::default();
    assert_eq!(c.version, 1);
    assert_eq!(load_recordings_dir(&c), None);
    save_recordings_dir(&mut c, String::new());
    assert_eq!(load_recordings_dir(&c), None);
    save_recordings_dir(&mut c, "/data/rec".to_string());
    assert_eq!(load_recordings_dir(&c), Some("/data/rec".to_string()));
    assert_eq!(c.version, 1);
}
