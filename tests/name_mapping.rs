use tsundoku::name_mapping::{NameEntry, NameInfo, NameMappingError, NameMappingStore, NamePart};

fn entry(original: &str, english: &str, part: NamePart) -> NameEntry {
    NameEntry { original: original.to_string(), english: english.to_string(), part }
}

fn new_store() -> NameMappingStore {
    NameMappingStore::new("names", "syosetu", "n1234ab")
}

#[test]
fn test_name_part_from_str() {
    assert_eq!("family".parse::<NamePart>().unwrap(), NamePart::Family);
    assert_eq!("FAMILY".parse::<NamePart>().unwrap(), NamePart::Family);
    assert_eq!("given".parse::<NamePart>().unwrap(), NamePart::Given);
    assert_eq!("unknown".parse::<NamePart>().unwrap(), NamePart::Unknown);
    assert_eq!("invalid".parse::<NamePart>().unwrap(), NamePart::Unknown);
}

#[test]
fn test_record_votes() {
    let mut store = new_store();
    store.record_votes(&[
        entry("田中", "Tanaka", NamePart::Family),
        entry("田中", "Tanaka", NamePart::Family),
        entry("太郎", "Taro", NamePart::Given),
    ]);
    assert_eq!(store.len(), 2);
    let tanaka = store.get("田中").unwrap();
    assert_eq!(tanaka.english, Some("Tanaka".to_string()));
    assert_eq!(tanaka.count, Some(2));
    assert_eq!(tanaka.part, NamePart::Family);
}

#[test]
fn test_bad_original_rejected() {
    let mut store = new_store();
    store.record_votes(&[
        entry("田中 太郎", "TanakaTaro", NamePart::Unknown),
        entry("田中・太郎", "TanakaTaro", NamePart::Unknown),
    ]);
    assert!(store.is_empty());
}

#[test]
fn test_honorific_rejected() {
    let mut store = new_store();
    store.record_votes(&[
        entry("田中さん", "Tanaka", NamePart::Family),
        entry("田中", "Tanaka-san", NamePart::Family),
    ]);
    assert!(store.is_empty());
}

#[test]
fn test_whitespace_in_english_rejected() {
    let mut store = new_store();
    store.record_votes(&[entry("田中", "Tanaka San", NamePart::Family)]);
    assert!(store.is_empty());
}

#[test]
fn test_original_denylist_rejected() {
    let mut store = new_store();
    store.record_votes(&[
        entry("彼女", "Kanojo", NamePart::Unknown),
        entry("俺", "Ore", NamePart::Unknown),
    ]);
    assert!(store.is_empty());
}

#[test]
fn test_apply_to_text() {
    let mut store = new_store();
    store.record_votes(&[
        entry("田中", "Tanaka", NamePart::Family),
        entry("太郎", "Taro", NamePart::Given),
    ]);
    let text = "田中太郎は学校に行った。";
    let result = store.apply_to_text(text);
    assert_eq!(result, "TanakaTaroは学校に行った。");
}

#[test]
fn test_longest_match_first() {
    let mut store = new_store();
    store.record_votes(&[
        entry("田", "Ta", NamePart::Unknown),
        entry("田中", "Tanaka", NamePart::Family),
    ]);
    let text = "田中さんと田さん";
    let result = store.apply_to_text(text);
    assert!(result.contains("Tanaka"));
    assert!(result.contains("Ta"));
    assert_eq!(result, "TanakaさんとTaさん");
}

#[test]
fn test_coverage_tracking() {
    let mut store = new_store();
    assert!(!store.is_chapter_covered(1));
    store.add_coverage(&[1, 3, 5]);
    assert!(store.is_chapter_covered(1));
    assert!(store.is_chapter_covered(3));
    assert!(!store.is_chapter_covered(2));
    store.add_coverage(&[1, 2]);
    assert_eq!(store.coverage(), &[1, 2, 3, 5]);
}

#[test]
fn test_save_and_reload() {
    let mut store = new_store();
    store.record_votes(&[entry("田中", "Tanaka", NamePart::Family)]);
    store.add_coverage(&[1, 2, 3]);
    let saved = store.data().clone();

    let mut store2 = new_store();
    store2.replace_data(saved).unwrap();
    assert_eq!(store2.len(), 1);
    assert!(store2.is_chapter_covered(2));
}

#[test]
fn test_vote_consensus() {
    let mut store = new_store();
    store.record_votes(&[
        entry("優子", "Yuko", NamePart::Given),
        entry("優子", "Yuuko", NamePart::Given),
        entry("優子", "Yuko", NamePart::Given),
    ]);
    let info = store.get("優子").unwrap();
    assert_eq!(info.english, Some("Yuko".to_string()));
    assert_eq!(info.count, Some(2));
}

#[test]
fn filepath_joins_directory_and_work() {
    let store = NameMappingStore::new("names", "syosetu", "n1234ab");
    assert_eq!(store.filepath(), "names/syosetu: n1234ab.json");
    let store = NameMappingStore::new("names/", "kakuyomu", "42");
    assert_eq!(store.filepath(), "names/kakuyomu: 42.json");
}

#[test]
fn tie_keeps_previous_best() {
    let mut store = new_store();
    store.record_votes(&[entry("優子", "Yuuko", NamePart::Given), entry("優子", "Yuko", NamePart::Given)]);
    let info = store.get("優子").unwrap();
    assert_eq!(info.english, Some("Yuuko".to_string()));
    assert_eq!(info.count, Some(1));
    store.record_votes(&[entry("優子", "Yuko", NamePart::Given)]);
    let info = store.get("優子").unwrap();
    assert_eq!(info.english, Some("Yuko".to_string()));
    assert_eq!(info.count, Some(2));
}

#[test]
fn part_upgrades_from_unknown_only() {
    let mut store = new_store();
    store.record_votes(&[entry("田中", "Tanaka", NamePart::Unknown)]);
    assert_eq!(store.get("田中").unwrap().part, NamePart::Unknown);
    store.record_votes(&[entry("田中", "Tanaka", NamePart::Family)]);
    assert_eq!(store.get("田中").unwrap().part, NamePart::Family);
    store.record_votes(&[entry("田中", "Tanaka", NamePart::Given)]);
    assert_eq!(store.get("田中").unwrap().part, NamePart::Family);
}

#[test]
fn recording_twice_doubles_votes() {
    let mut store = new_store();
    let batch = [entry("花子", "Hanako", NamePart::Given)];
    store.record_votes(&batch);
    store.record_votes(&batch);
    assert_eq!(store.get("花子").unwrap().count, Some(2));
}

#[test]
fn empty_fields_and_english_honorific_case_rejected() {
    let mut store = new_store();
    store.record_votes(&[
        entry("", "Tanaka", NamePart::Family),
        entry("田中", "", NamePart::Family),
        entry("田中", "Tanaka-SAN", NamePart::Family),
        entry("田中先生", "Tanaka", NamePart::Family),
        entry("田中:", "Tanaka", NamePart::Family),
        entry("田中", "Tanaka\u{3000}", NamePart::Family),
    ]);
    assert!(store.is_empty());
}

#[test]
fn purge_twice_same_as_once() {
    let mut store = new_store();
    store.record_votes(&[
        entry("田中", "Tanaka", NamePart::Family),
        entry("太郎", "Taro", NamePart::Given),
    ]);
    let mut data = store.data().clone();
    data.names[0].1.votes.push(("Tanaka-kun".to_string(), 5));
    data.names.push(("俺".to_string(), store.get("太郎").unwrap().clone()));
    let mut once = new_store();
    once.replace_data(data).unwrap();
    assert_eq!(once.len(), 2);
    let tanaka = once.get("田中").unwrap();
    assert_eq!(tanaka.votes.len(), 1);
    assert_eq!(tanaka.english, Some("Tanaka".to_string()));
    assert_eq!(tanaka.count, Some(1));
    let before: Vec<(String, Vec<(String, u32)>, Option<String>, Option<u32>)> = once
        .names()
        .iter()
        .map(|(o, i)| (o.clone(), i.votes.clone(), i.english.clone(), i.count))
        .collect();
    once.purge_bad_votes();
    let after: Vec<(String, Vec<(String, u32)>, Option<String>, Option<u32>)> = once
        .names()
        .iter()
        .map(|(o, i)| (o.clone(), i.votes.clone(), i.english.clone(), i.count))
        .collect();
    assert_eq!(before, after);
}

#[test]
fn round_trip_keeps_votes_best_and_coverage() {
    let mut store = new_store();
    store.record_votes(&[
        entry("優子", "Yuko", NamePart::Given),
        entry("優子", "Yuuko", NamePart::Given),
        entry("優子", "Yuko", NamePart::Given),
        entry("田中", "Tanaka", NamePart::Family),
    ]);
    store.add_coverage(&[7, 2, 9]);
    let mut copy = new_store();
    copy.replace_data(store.data().clone()).unwrap();
    assert_eq!(copy.len(), store.len());
    let a = store.get("優子").unwrap();
    let b = copy.get("優子").unwrap();
    assert_eq!(a.votes, b.votes);
    assert_eq!(a.english, b.english);
    assert_eq!(a.count, b.count);
    assert_eq!(copy.coverage(), &[2, 7, 9]);
}

#[test]
fn reload_refuses_duplicate_originals() {
    let mut store = new_store();
    store.record_votes(&[entry("田中", "Tanaka", NamePart::Family)]);
    let mut data = store.data().clone();
    let dup = data.names[0].clone();
    data.names.push(dup);
    let mut target = new_store();
    target.record_votes(&[entry("太郎", "Taro", NamePart::Given)]);
    let r = target.replace_data(data);
    assert!(matches!(r, Err(NameMappingError::InvalidStructure(_))));
    assert_eq!(target.len(), 1);
    assert!(target.get("太郎").is_some());
}

#[test]
fn reload_sorts_and_dedups_coverage() {
    let mut store = new_store();
    let mut data = store.data().clone();
    data.coverage = vec![5, 1, 5, 3];
    store.replace_data(data).unwrap();
    assert_eq!(store.coverage(), &[1, 3, 5]);
}

#[test]
fn apply_leaves_unmapped_text() {
    let store = new_store();
    assert_eq!(store.apply_to_text("田中さん"), "田中さん");
}

#[test]
fn tie_break_ignores_vote_order() {
    let mut a = NameInfo { part: NamePart::Given, votes: vec![("Yuuko".to_string(), 1), ("Yuko".to_string(), 1)], english: None, count: None };
    let mut b = NameInfo { part: NamePart::Given, votes: vec![("Yuko".to_string(), 1), ("Yuuko".to_string(), 1)], english: None, count: None };
    a.recalculate_best();
    b.recalculate_best();
    assert_eq!(a.english, Some("Yuko".to_string()));
    assert_eq!(b.english, Some("Yuko".to_string()));
    assert_eq!(a.count, Some(1));
    assert_eq!(b.count, Some(1));
}

#[test]
fn dropped_best_goes_to_least_max_rendering() {
    let mut info = NameInfo {
        part: NamePart::Family,
        votes: vec![("Zeta".to_string(), 2), ("Alpha".to_string(), 2), ("Mid".to_string(), 1)],
        english: Some("Mid".to_string()),
        count: Some(3),
    };
    info.recalculate_best();
    assert_eq!(info.english, Some("Alpha".to_string()));
    assert_eq!(info.count, Some(2));
}

#[test]
fn record_votes_with_given_lowered_forms() {
    let mut store = new_store();
    let entries = [
        entry("優子", "Yuko", NamePart::Given),
        entry("優子", "Yuuko", NamePart::Given),
        entry("優子", "Yuko", NamePart::Given),
        entry("田中", "Tanaka-SAN", NamePart::Family),
    ];
    let lowered: Vec<String> = vec!["yuko".to_string(), "yuuko".to_string(), "yuko".to_string(), "tanaka-san".to_string()];
    store.record_votes_lowered(&entries, &lowered);
    assert_eq!(store.len(), 1);
    let info = store.get("優子").unwrap();
    assert_eq!(info.english, Some("Yuko".to_string()));
    assert_eq!(info.count, Some(2));
}

#[test]
fn every_mapped_original_is_replaced() {
    let mut store = new_store();
    store.record_votes(&[
        entry("田中", "Tanaka", NamePart::Family),
        entry("田", "Ta", NamePart::Unknown),
        entry("花子", "Hanako", NamePart::Given),
    ]);
    let out = store.apply_to_text("田中花子と田と田中、花子。");
    assert_eq!(out, "TanakaHanakoとTaとTanaka、Hanako。");
    for o in ["田中", "田", "花子"] {
        assert!(!out.contains(o));
    }
    assert_eq!(store.apply_to_text("田中"), "Tanaka");
}
