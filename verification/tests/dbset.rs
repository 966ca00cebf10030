use ipmap::dbset::{same_source, DbSet};
use ipmap::sources::DatabaseSource;

fn file(p: &str) -> DatabaseSource {
    DatabaseSource::File(p.to_string())
}

#[test]
fn insert_selects_and_replaces() {
    let mut set: DbSet<u32> = DbSet::new();
    assert!(set.is_empty());
    assert_eq!(set.selected(), None);
    set.insert(DatabaseSource::DbIpCombined, 1);
    set.insert(file("/a.csv"), 2);
    assert_eq!(set.selected(), Some(&2));
    set.insert(DatabaseSource::DbIpCombined, 3);
    assert_eq!(set.selected(), Some(&3));
    let info = set.info();
    assert_eq!(info.selected, Some(DatabaseSource::DbIpCombined));
    assert_eq!(info.loaded.len(), 2);
    assert!(set.is_loaded(&file("/a.csv")));
    assert!(!set.is_loaded(&file("/b.csv")));
}

#[test]
fn remove_selected_picks_another() {
    let mut set: DbSet<u32> = DbSet::new();
    set.insert(file("/a.csv"), 1);
    set.insert(file("/b.csv"), 2);
    assert_eq!(set.remove(&file("/b.csv")), Some(2));
    assert_eq!(set.selected(), Some(&1));
    assert_eq!(set.remove(&file("/b.csv")), None);
    assert_eq!(set.remove(&file("/a.csv")), Some(1));
    assert_eq!(set.selected(), None);
    assert!(set.is_empty());
}

#[test]
fn remove_other_keeps_selection_and_set_selected() {
    let mut set: DbSet<&str> = DbSet::new();
    set.insert(DatabaseSource::DbIpCombined, "dbip");
    set.insert(DatabaseSource::Geolite2Combined, "geolite");
    set.insert(file("x"), "x");
    set.set_selected(&DatabaseSource::DbIpCombined);
    assert_eq!(set.selected(), Some(&"dbip"));
    set.set_selected(&file("missing"));
    assert_eq!(set.selected(), Some(&"dbip"));
    assert_eq!(set.remove(&DatabaseSource::Geolite2Combined), Some("geolite"));
    assert_eq!(set.selected(), Some(&"dbip"));
    let info = set.info();
    assert_eq!(info.loaded, vec![DatabaseSource::DbIpCombined, file("x")]);
}

#[test]
fn sources_compare() {
    assert!(same_source(&file("a"), &file("a")));
    assert!(!same_source(&file("a"), &file("b")));
    assert!(!same_source(&DatabaseSource::DbIpCombined, &DatabaseSource::Geolite2Combined));
}
