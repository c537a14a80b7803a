use shortcut_launcher::combo::KeyCombination;
use shortcut_launcher::discovery::{is_launchable, Discovery, Entry};
use shortcut_launcher::dispatch::{DispatchState, Dispatcher, HotkeyEvent, KeyState};
use shortcut_launcher::error::LauncherError;
use shortcut_launcher::registry::Registry;
use shortcut_launcher::store::StoreKey;

fn combo(text: &str) -> KeyCombination {
    KeyCombination::parse(text).unwrap()
}

fn entry(path: &str, is_dir: bool) -> Entry {
    Entry { path: path.to_string(), is_dir }
}

#[test]
fn parse_reads_modifiers_and_key() {
    let c = combo("control+shift+n");
    assert_eq!(
        c,
        KeyCombination { control: true, shift: true, alt: false, meta: false, key: 'n' }
    );
    let d = combo("meta+alt+7");
    assert!(d.meta && d.alt && !d.control && !d.shift);
    assert_eq!(d.key, '7');
}

#[test]
fn modifier_order_does_not_matter() {
    assert_eq!(combo("shift+control+n"), combo("control+shift+n"));
    assert_eq!(combo("shift+control+n").serialize(), "control+shift+n");
}

#[test]
fn serialize_then_parse_round_trips() {
    for text in ["control+n", "shift+alt+0", "control+shift+alt+meta+z", "meta+q", "k"] {
        let c = combo(text);
        assert_eq!(c.serialize(), text);
        assert_eq!(KeyCombination::parse(&c.serialize()), Ok(c));
    }
    let all = KeyCombination { control: true, shift: false, alt: true, meta: true, key: '5' };
    assert_eq!(all.serialize(), "control+alt+meta+5");
    assert_eq!(KeyCombination::parse(&all.serialize()), Ok(all));
}

#[test]
fn parse_rejects_malformed_text() {
    for text in [
        "",
        "control+",
        "+n",
        "control+control+n",
        "hyper+n",
        "control+N",
        "control+nn",
        "control++n",
        "n+control",
        "Control+n",
    ] {
        assert_eq!(KeyCombination::parse(text), Err(LauncherError::InvalidCombination), "{}", text);
    }
}

#[test]
fn bare_key_is_rejected_on_register() {
    let mut r = Registry::new();
    let bare = combo("n");
    assert_eq!(bare.check_bindable(), Err(LauncherError::InvalidCombination));
    assert_eq!(
        r.register(bare, "/apps/notes.exe".to_string(), true),
        Err(LauncherError::InvalidCombination)
    );
    assert_eq!(r.resolve(&bare), None);
    assert!(r.snapshot().is_empty());
}

#[test]
fn register_twice_last_write_wins() {
    let mut r = Registry::new();
    let c = combo("control+n");
    assert_eq!(r.register(c, "/apps/notes.exe".to_string(), true), Ok(None));
    assert_eq!(
        r.register(c, "/apps/other.exe".to_string(), true),
        Ok(Some("/apps/notes.exe".to_string()))
    );
    assert_eq!(r.resolve(&combo("control+n")), Some("/apps/other.exe".to_string()));
    let snap = r.snapshot();
    assert_eq!(snap, vec![("control+n".to_string(), "/apps/other.exe".to_string())]);
}

#[test]
fn register_uses_canonical_form() {
    let mut r = Registry::new();
    assert!(r.register(combo("shift+control+x"), "/apps/x.exe".to_string(), true).is_ok());
    assert_eq!(r.resolve(&combo("control+shift+x")), Some("/apps/x.exe".to_string()));
}

#[test]
fn refused_registration_changes_nothing() {
    let mut r = Registry::new();
    let c = combo("control+n");
    r.register(c, "/apps/notes.exe".to_string(), true).unwrap();
    assert_eq!(
        r.register(c, "/apps/other.exe".to_string(), false),
        Err(LauncherError::AlreadyClaimed)
    );
    assert_eq!(
        r.register(combo("alt+m"), "/apps/mail.exe".to_string(), false),
        Err(LauncherError::AlreadyClaimed)
    );
    assert_eq!(r.resolve(&c), Some("/apps/notes.exe".to_string()));
    assert_eq!(r.resolve(&combo("alt+m")), None);
    assert_eq!(r.snapshot().len(), 1);
}

#[test]
fn unregister_unbound_is_a_no_op() {
    let mut r = Registry::new();
    r.register(combo("control+n"), "/apps/notes.exe".to_string(), true).unwrap();
    let before = r.snapshot();
    assert_eq!(r.unregister(&combo("alt+q")), None);
    assert_eq!(r.snapshot(), before);
    let mut empty = Registry::new();
    assert_eq!(empty.unregister(&combo("control+n")), None);
    assert!(empty.snapshot().is_empty());
}

#[test]
fn unregister_removes_binding() {
    let mut r = Registry::new();
    r.register(combo("control+n"), "/apps/notes.exe".to_string(), true).unwrap();
    r.register(combo("alt+m"), "/apps/mail.exe".to_string(), true).unwrap();
    assert_eq!(r.unregister(&combo("control+n")), Some("/apps/notes.exe".to_string()));
    assert_eq!(r.resolve(&combo("control+n")), None);
    assert_eq!(r.resolve(&combo("alt+m")), Some("/apps/mail.exe".to_string()));
}

#[test]
fn press_launches_once_release_never() {
    let mut r = Registry::new();
    let c = combo("control+n");
    r.register(c, "/apps/notes.exe".to_string(), true).unwrap();
    let mut d = Dispatcher::new();
    let press = HotkeyEvent { combo: c, state: KeyState::Pressed };
    let release = HotkeyEvent { combo: c, state: KeyState::Released };
    assert_eq!(d.handle(&r, &press), Some("/apps/notes.exe".to_string()));
    assert_eq!(d.state, DispatchState::Pressed(c));
    assert_eq!(d.handle(&r, &press), None);
    assert_eq!(d.handle(&r, &release), None);
    assert_eq!(d.state, DispatchState::Idle);
    assert_eq!(d.handle(&r, &release), None);
    assert_eq!(d.handle(&r, &press), Some("/apps/notes.exe".to_string()));
}

#[test]
fn unbound_events_are_ignored() {
    let r = Registry::new();
    let mut d = Dispatcher::new();
    let c = combo("control+z");
    assert_eq!(d.handle(&r, &HotkeyEvent { combo: c, state: KeyState::Pressed }), None);
    assert_eq!(d.state, DispatchState::Idle);
    assert_eq!(d.handle(&r, &HotkeyEvent { combo: c, state: KeyState::Released }), None);
    assert_eq!(d.state, DispatchState::Idle);
}

#[test]
fn launchable_extensions() {
    assert!(is_launchable("root/a.exe"));
    assert!(is_launchable("C:\\Programs\\b.lnk"));
    assert!(is_launchable("a.exe"));
    assert!(!is_launchable(".exe"));
    assert!(!is_launchable("root/.lnk"));
    assert!(!is_launchable("root/readme.txt"));
    assert!(!is_launchable("root/a.EXE"));
    assert!(!is_launchable("root/exe"));
    assert!(!is_launchable(""));
}

fn walk(listings: &[(&str, Vec<Entry>)]) -> Vec<String> {
    let mut w = Discovery::new("root".to_string());
    while let Some(dir) = w.next_directory() {
        let listing = listings
            .iter()
            .find(|(name, _)| *name == dir)
            .map(|(_, es)| es.clone())
            .unwrap_or_default();
        w.add_listing(&listing);
    }
    w.targets()
}

#[test]
fn discovery_fixture_tree() {
    let listings = vec![
        ("root", vec![entry("root/a.exe", false), entry("root/sub", true)]),
        ("root/sub", vec![entry("root/sub/b.lnk", false), entry("root/sub/readme.txt", false)]),
    ];
    let mut found = walk(&listings);
    found.sort();
    assert_eq!(found, vec!["root/a.exe".to_string(), "root/sub/b.lnk".to_string()]);
}

#[test]
fn discovery_counts_only_launchable_files_at_depth() {
    let listings = vec![
        ("root", vec![entry("root/x.exe", false), entry("root/notes.md", false), entry("root/d1", true)]),
        ("root/d1", vec![entry("root/d1/d2", true), entry("root/d1/y.lnk", false)]),
        (
            "root/d1/d2",
            vec![entry("root/d1/d2/z.exe", false), entry("root/d1/d2/z.dll", false), entry("root/d1/d2/e", true)],
        ),
    ];
    let mut found = walk(&listings);
    found.sort();
    assert_eq!(
        found,
        vec!["root/d1/d2/z.exe".to_string(), "root/d1/y.lnk".to_string(), "root/x.exe".to_string()]
    );
}

#[test]
fn snapshot_reloads_to_same_bindings() {
    let mut r = Registry::new();
    r.register(combo("control+n"), "/apps/notes.exe".to_string(), true).unwrap();
    r.register(combo("alt+shift+m"), "/apps/mail.lnk".to_string(), true).unwrap();
    let loaded = Registry::load(&r.snapshot()).unwrap();
    assert_eq!(loaded.snapshot(), r.snapshot());
    assert_eq!(loaded.resolve(&combo("shift+alt+m")), Some("/apps/mail.lnk".to_string()));
}

#[test]
fn json_round_trip() {
    let mut r = Registry::new();
    r.register(combo("control+n"), "/apps/notes.exe".to_string(), true).unwrap();
    let text = r.to_json().unwrap();
    assert_eq!(text, "[[\"control+n\",\"/apps/notes.exe\"]]");
    let back = Registry::from_json(&text).unwrap();
    assert_eq!(back.resolve(&combo("control+n")), Some("/apps/notes.exe".to_string()));
    assert_eq!(Registry::from_json("[]").unwrap().snapshot(), Vec::<(String, String)>::new());
}

#[test]
fn bad_store_content_is_persistence_failure() {
    assert!(matches!(Registry::from_json("{\"control+n\": 3}"), Err(LauncherError::PersistenceFailure)));
    assert!(matches!(Registry::from_json("not json"), Err(LauncherError::PersistenceFailure)));
    let dup = vec![
        ("control+n".to_string(), "/a.exe".to_string()),
        ("control+n".to_string(), "/b.exe".to_string()),
    ];
    assert!(matches!(Registry::load(&dup), Err(LauncherError::PersistenceFailure)));
    let bare = vec![("n".to_string(), "/a.exe".to_string())];
    assert!(matches!(Registry::load(&bare), Err(LauncherError::PersistenceFailure)));
    let junk = vec![("ctrl+n".to_string(), "/a.exe".to_string())];
    assert!(matches!(Registry::from_json("[[\"ctrl+n\",\"/a.exe\"]]"), Err(LauncherError::PersistenceFailure)));
    assert!(matches!(Registry::load(&junk), Err(LauncherError::PersistenceFailure)));
}

#[test]
fn store_key_name() {
    assert_eq!(StoreKey::Commands.as_str(), "commands");
}
