use michael_visualizer::tabs::missing_kinds;
use michael_visualizer::keys::{
    FileKey, FileKeyGenerator, KeyGenerator, LimitKey, LimitKeyGenerator,
};
use michael_visualizer::lockable_key::LockableLimitKey;
use michael_visualizer::tabs::{SelectionTab, TabId, TabKind};
use michael_visualizer::{
    FileLabel, Incrementable, Language, LimitLabel, LocalizableStr, LocalizableString,
    SimpleFileKey, SimpleLimitKey,
};

#[test]
fn labels_give_back_their_text() {
    let mut file: FileLabel = "FileA".to_string().into();
    assert_eq!(file.as_str(), "FileA");
    file.get_mut().push_str("-1");
    assert_eq!(file.as_str(), "FileA-1");
    let limit: LimitLabel = "LimitLower".to_string().into();
    assert_eq!(limit.as_str(), "LimitLower");
    assert_eq!(limit.clone(), limit);
    let other: LimitLabel = "LimitUpper".to_string().into();
    assert_ne!(limit, other);
}

#[test]
fn key_generators_count_up_from_zero() {
    let mut files = FileKeyGenerator::default();
    assert_eq!(files.next(), FileKey(0));
    assert_eq!(files.next(), FileKey(1));
    let mut limits = LimitKeyGenerator::default();
    assert_eq!(limits.next(), LimitKey(0));
    assert_eq!(limits.next(), LimitKey(1));
    assert_eq!(limits.next(), LimitKey(2));
}

#[test]
fn generic_key_generator_hands_out_the_current_key() {
    let mut generator = KeyGenerator {
        current: SimpleFileKey(5),
    };
    assert_eq!(generator.generate(), SimpleFileKey(5));
    assert_eq!(generator.generate(), SimpleFileKey(6));
    assert_eq!(generator.current, SimpleFileKey(7));
}

#[test]
fn increment_returns_the_next_key_and_keeps_this_one() {
    let mut key = SimpleLimitKey(41);
    assert_eq!(key.increment(), SimpleLimitKey(42));
    assert_eq!(key, SimpleLimitKey(41));
    let mut file_key = SimpleFileKey::default();
    assert_eq!(file_key.increment(), SimpleFileKey(1));
    assert_ne!(file_key.increment(), file_key);
}

#[test]
fn localize_gives_the_english_text() {
    let text = LocalizableString {
        english: "Loading".to_string(),
    };
    assert_eq!(text.as_str().localize(Language::English), "Loading");
    assert_eq!(text.clone().localize(Language::default()), "Loading");
    let borrowed = LocalizableStr { english: "Reset" };
    assert_eq!(borrowed.localize(Language::English), "Reset");
}

#[test]
fn locked_key_reads_its_position() {
    let locked_limits = vec![LimitKey(4), LimitKey(8)];
    let key = LockableLimitKey::Locked(1);
    assert_eq!(key.get(&locked_limits), (Some(1), Some(&LimitKey(8))));
    let key = LockableLimitKey::Locked(2);
    assert_eq!(key.get(&locked_limits), (Some(2), None));
    let key = LockableLimitKey::Single(LimitKey(3));
    assert_eq!(key.get(&locked_limits), (None, Some(&LimitKey(3))));
}

#[test]
fn is_locked_checks_the_position_when_given() {
    let key = LockableLimitKey::default();
    assert!(key.is_locked(None));
    assert!(key.is_locked(Some(&0)));
    assert!(!key.is_locked(Some(&1)));
    let single = LockableLimitKey::Single(LimitKey(0));
    assert!(!single.is_locked(None));
    assert!(!single.is_locked(Some(&0)));
}

#[test]
fn update_of_a_locked_key_fills_the_positions_up_to_it() {
    let mut locked_limits = vec![LimitKey(1)];
    let mut key = LockableLimitKey::Locked(3);
    assert_eq!(key.update(LimitKey(9), &mut locked_limits), Some(3));
    assert_eq!(
        locked_limits,
        vec![LimitKey(1), LimitKey(9), LimitKey(9), LimitKey(9)]
    );
    let mut key = LockableLimitKey::Locked(0);
    assert_eq!(key.update(LimitKey(5), &mut locked_limits), Some(0));
    assert_eq!(locked_limits[0], LimitKey(5));
    assert_eq!(key, LockableLimitKey::Locked(0));
}

#[test]
fn update_of_a_single_key_replaces_it() {
    let mut locked_limits = vec![LimitKey(1)];
    let mut key = LockableLimitKey::Single(LimitKey(2));
    assert_eq!(key.update(LimitKey(6), &mut locked_limits), None);
    assert_eq!(key, LockableLimitKey::Single(LimitKey(6)));
    assert_eq!(locked_limits, vec![LimitKey(1)]);
}

#[test]
fn tab_kinds_name_each_kind_once() {
    let kinds = TabKind::kinds();
    assert_eq!(
        kinds,
        vec![
            TabKind::Dummy,
            TabKind::Limit,
            TabKind::Files,
            TabKind::Heatmap,
            TabKind::Violinplot,
            TabKind::Selection,
        ]
    );
    for (i, a) in kinds.iter().enumerate() {
        for b in &kinds[i + 1..] {
            assert_ne!(a, b);
        }
    }
    assert_eq!(TabId::new(7), TabId(7));
    assert!(!SelectionTab::default().transpose);
}

#[test]
fn missing_kinds_fill_up_the_open_tabs() {
    assert_eq!(missing_kinds(&[]), TabKind::kinds());
    assert_eq!(
        missing_kinds(&[TabKind::Heatmap, TabKind::Dummy, TabKind::Heatmap]),
        vec![
            TabKind::Limit,
            TabKind::Files,
            TabKind::Violinplot,
            TabKind::Selection,
        ]
    );
    assert!(missing_kinds(&TabKind::kinds()).is_empty());
}
