use michael_visualizer::file::FileWrapper;
use michael_visualizer::simple_file::{SimpleFile, SimpleLimit};
use michael_visualizer::{
    DataCenter, DataEvent, FileEvent, FileLabel, HeatmapEvent, HiddenOrShown, LimitEvent,
    LimitLabel, OrderedMap, RedrawSelection, ShowHideEvent, SimpleFileKey, SimpleLimitKey,
    ViolinEvent,
};

type Center = DataCenter<SimpleFileKey, SimpleLimitKey, SimpleFile, SimpleLimit>;
type Event = DataEvent<SimpleFileKey, SimpleLimitKey, SimpleFile, SimpleLimit>;

/// Values are in tenths: 10 stands for 1.0.
fn limit(label: &str, lower: Option<i64>, upper: Option<i64>) -> SimpleLimit {
    SimpleLimit {
        label: label.to_string().into(),
        lower,
        upper,
    }
}

fn column() -> Vec<i64> {
    vec![-10, 0, 5, 10, 15, 20, 25, 30, 35, 40, 45]
}

fn file(suffix: &str) -> SimpleFile {
    SimpleFile {
        limits: vec![
            limit(&format!("LimitNone{suffix}"), None, None),
            limit(&format!("LimitLower{suffix}"), Some(10), None),
            limit(&format!("LimitUpper{suffix}"), None, Some(30)),
            limit(&format!("LimitAll{suffix}"), Some(20), Some(40)),
        ],
        data: vec![column(), column(), column(), column()],
    }
}

fn loaded(key: SimpleFileKey, label: &str, file: SimpleFile) -> Event {
    DataEvent::File(FileEvent::Loaded {
        key,
        label: label.to_string().into(),
        file,
    })
}

fn nothing() -> RedrawSelection {
    RedrawSelection::default()
}

fn everything() -> RedrawSelection {
    RedrawSelection {
        files: true,
        limits: true,
        heatmap: true,
        violin: true,
    }
}

fn file_views() -> RedrawSelection {
    RedrawSelection {
        files: true,
        limits: false,
        heatmap: true,
        violin: true,
    }
}

fn limit_views() -> RedrawSelection {
    RedrawSelection {
        files: false,
        limits: true,
        heatmap: true,
        violin: true,
    }
}

#[test]
fn simple_test() {
    let mut center = Center::default();
    let events = vec![
        loaded(center.new_file_key(), "FileA", file("")),
        loaded(center.new_file_key(), "FileB", file("")),
        loaded(center.new_file_key(), "FileC", file("2")),
        DataEvent::Limit(LimitEvent::ToPlot(SimpleLimitKey(1))),
    ];
    assert_eq!(center.progress(events), everything());
}

#[test]
fn new_file_keys_count_up_from_the_default() {
    let mut center = Center::default();
    assert_eq!(center.new_file_key(), SimpleFileKey(0));
    assert_eq!(center.new_file_key(), SimpleFileKey(1));
    assert_eq!(center.new_file_key(), SimpleFileKey(2));
}

#[test]
fn no_events_redraw_nothing() {
    let mut center = Center::default();
    assert_eq!(center.progress(Vec::new()), nothing());
}

#[test]
fn removing_a_loaded_file_redraws_everything_once() {
    let mut center = Center::default();
    let key = center.new_file_key();
    assert_eq!(center.progress(vec![loaded(key, "FileA", file(""))]), everything());
    assert_eq!(
        center.progress(vec![DataEvent::File(FileEvent::Removed(key))]),
        everything()
    );
    assert_eq!(
        center.progress(vec![DataEvent::File(FileEvent::Removed(key))]),
        nothing()
    );
}

#[test]
fn removing_an_unknown_file_redraws_nothing() {
    let mut center = Center::default();
    assert_eq!(
        center.progress(vec![DataEvent::File(FileEvent::Removed(SimpleFileKey(7)))]),
        nothing()
    );
}

#[test]
fn title_of_a_shown_file_redraws_the_file_views() {
    let mut center = Center::default();
    let key = center.new_file_key();
    let _ = center.progress(vec![loaded(key, "FileA", file(""))]);
    let label: FileLabel = "Renamed".to_string().into();
    assert_eq!(
        center.progress(vec![DataEvent::File(FileEvent::Title(key, label))]),
        file_views()
    );
}

#[test]
fn title_of_a_hidden_or_unknown_file_redraws_nothing() {
    let mut center = Center::default();
    let key = center.new_file_key();
    let _ = center.progress(vec![loaded(key, "FileA", file(""))]);
    let hide = ShowHideEvent {
        hidden_or_shown: HiddenOrShown::Hidden,
        single_or_all: Some(key),
    };
    assert_eq!(
        center.progress(vec![DataEvent::File(FileEvent::ShowHide(hide))]),
        file_views()
    );
    let label: FileLabel = "Renamed".to_string().into();
    assert_eq!(
        center.progress(vec![DataEvent::File(FileEvent::Title(key, label))]),
        nothing()
    );
    let label: FileLabel = "Other".to_string().into();
    assert_eq!(
        center.progress(vec![DataEvent::File(FileEvent::Title(SimpleFileKey(9), label))]),
        nothing()
    );
}

#[test]
fn show_hide_from_every_view_redraws_the_file_views() {
    let mut center = Center::default();
    let all = |hidden_or_shown| ShowHideEvent {
        hidden_or_shown,
        single_or_all: None,
    };
    assert_eq!(
        center.progress(vec![DataEvent::Heatmap(HeatmapEvent::ShowHide(all(
            HiddenOrShown::Hidden
        )))]),
        file_views()
    );
    assert_eq!(
        center.progress(vec![DataEvent::Violin(ViolinEvent::ShowHide(all(
            HiddenOrShown::Shown
        )))]),
        file_views()
    );
}

#[test]
fn switching_files_redraws_while_one_is_shown() {
    let mut center = Center::default();
    let a = center.new_file_key();
    let b = center.new_file_key();
    let _ = center.progress(vec![loaded(a, "FileA", file("")), loaded(b, "FileB", file(""))]);
    assert_eq!(
        center.progress(vec![DataEvent::File(FileEvent::OrderSwitched(a, b))]),
        file_views()
    );
    let hide_all = ShowHideEvent {
        hidden_or_shown: HiddenOrShown::Hidden,
        single_or_all: None,
    };
    let _ = center.progress(vec![DataEvent::File(FileEvent::ShowHide(hide_all))]);
    assert_eq!(
        center.progress(vec![DataEvent::File(FileEvent::OrderSwitched(a, b))]),
        nothing()
    );
}

#[test]
fn plotting_the_same_limit_twice_redraws_once() {
    let mut center = Center::default();
    let key = center.new_file_key();
    let _ = center.progress(vec![loaded(key, "FileA", file(""))]);
    let to_plot = || DataEvent::Limit(LimitEvent::ToPlot(SimpleLimitKey(1)));
    assert_eq!(center.progress(vec![to_plot()]), limit_views());
    assert_eq!(center.progress(vec![to_plot()]), nothing());
    assert_eq!(
        center.progress(vec![DataEvent::Limit(LimitEvent::ToPlot(SimpleLimitKey(2)))]),
        limit_views()
    );
}

#[test]
fn relabeling_the_plotted_limit_redraws_once() {
    let mut center = Center::default();
    let key = center.new_file_key();
    let _ = center.progress(vec![
        loaded(key, "FileA", file("")),
        DataEvent::Limit(LimitEvent::ToPlot(SimpleLimitKey(1))),
    ]);
    let relabel = || {
        let label: LimitLabel = "Renamed".to_string().into();
        DataEvent::Limit(LimitEvent::Label(SimpleLimitKey(1), label))
    };
    assert_eq!(center.progress(vec![relabel()]), limit_views());
    assert_eq!(center.progress(vec![relabel()]), nothing());
    let other: LimitLabel = "Other".to_string().into();
    assert_eq!(
        center.progress(vec![DataEvent::Violin(ViolinEvent::Label(SimpleLimitKey(2), other))]),
        nothing()
    );
}

#[test]
fn a_new_value_that_filters_rows_redraws_the_limit_views() {
    let mut center = Center::default();
    let key = center.new_file_key();
    let _ = center.progress(vec![loaded(key, "FileA", file(""))]);
    // Nothing below 10 is kept any more: three rows are filtered out.
    let tighter = limit("LimitNone", Some(10), None);
    assert_eq!(
        center.progress(vec![DataEvent::Limit(LimitEvent::Value(SimpleLimitKey(0), tighter))]),
        limit_views()
    );
    // The filtering is compared with the one first recorded for the limit.
    let same = limit("LimitNone", Some(10), None);
    assert_eq!(
        center.progress(vec![DataEvent::Violin(ViolinEvent::Value(SimpleLimitKey(0), same))]),
        nothing()
    );
    let open = limit("LimitNone", None, None);
    assert_eq!(
        center.progress(vec![DataEvent::Limit(LimitEvent::Value(SimpleLimitKey(0), open))]),
        limit_views()
    );
}

#[test]
fn a_new_value_that_filters_nothing_new_redraws_nothing() {
    let mut center = Center::default();
    let key = center.new_file_key();
    let _ = center.progress(vec![loaded(key, "FileA", file(""))]);
    let wide = limit("LimitNone", Some(-50), Some(50));
    assert_eq!(
        center.progress(vec![DataEvent::Limit(LimitEvent::Value(SimpleLimitKey(0), wide))]),
        nothing()
    );
    let unknown = limit("Unknown", Some(0), None);
    assert_eq!(
        center.progress(vec![DataEvent::Limit(LimitEvent::Value(SimpleLimitKey(40), unknown))]),
        nothing()
    );
}

#[test]
fn events_in_two_batches_redraw_what_one_batch_redraws() {
    let batch = |center: &mut Center| {
        let key = center.new_file_key();
        vec![
            loaded(key, "FileA", file("")),
            DataEvent::Limit(LimitEvent::ToPlot(SimpleLimitKey(1))),
            DataEvent::File(FileEvent::Removed(key)),
        ]
    };
    let mut one = Center::default();
    let events = batch(&mut one);
    let together = one.progress(events);

    let mut two = Center::default();
    let mut events = batch(&mut two);
    let rest = events.split_off(1);
    let mut apart = two.progress(events);
    apart |= two.progress(rest);
    assert_eq!(together, apart);
    assert_eq!(together, everything());
}

fn limit_keys(file: &SimpleFile) -> OrderedMap<SimpleLimitKey, SimpleLimit> {
    let mut keys = OrderedMap::new();
    for (i, l) in file.limits.iter().enumerate() {
        let _ = keys.insert(SimpleLimitKey(10 + i as u64), l.clone());
    }
    keys
}

#[test]
fn a_wrapped_file_is_shown_with_nothing_filtered() {
    let content = file("");
    let keys = limit_keys(&content);
    let wrapper = FileWrapper::new("FileA".to_string().into(), content, &keys);
    assert_eq!(wrapper.get_label().as_str(), "FileA");
    assert!(wrapper.is_shown());
    assert_eq!(wrapper.limits().len(), 4);
    assert_eq!(wrapper.get_to_befiltered(), vec![false; 11]);
}

#[test]
fn a_wrapped_file_applies_limits_by_label() {
    let content = file("");
    let keys = limit_keys(&content);
    let mut wrapper = FileWrapper::new("FileA".to_string().into(), content, &keys);
    let lower = limit("LimitLower", Some(10), None);
    let filtered = wrapper
        .apply_limit(&SimpleLimitKey(11), &lower)
        .expect("the file has a column for the limit");
    assert_eq!(
        filtered,
        vec![true, true, true, false, false, false, false, false, false, false, false]
    );
    assert!(wrapper.apply_limit(&SimpleLimitKey(99), &lower).is_none());
}

#[test]
fn a_wrapped_file_counts_and_recounts_filtered_rows() {
    let content = file("");
    let keys = limit_keys(&content);
    let mut wrapper = FileWrapper::new("FileA".to_string().into(), content, &keys);
    let mut first = vec![false; 11];
    first[0] = true;
    first[1] = true;
    wrapper.filters_new(&first);
    let mut expected = vec![false; 11];
    expected[0] = true;
    expected[1] = true;
    assert_eq!(wrapper.get_to_befiltered(), expected);
    let mut second = vec![false; 11];
    second[1] = true;
    second[10] = true;
    wrapper.filters_adjusted(&second, &first);
    assert_eq!(wrapper.get_to_befiltered(), second);
    wrapper.filters_adjusted(&first, &second);
    assert_eq!(wrapper.get_to_befiltered(), first);
}

#[test]
fn a_wrapped_file_changes_label_and_visibility() {
    let content = file("");
    let keys = limit_keys(&content);
    let mut wrapper = FileWrapper::new("FileA".to_string().into(), content, &keys);
    wrapper.change_shown(HiddenOrShown::Hidden);
    assert!(!wrapper.is_shown());
    wrapper.change_label("FileB".to_string().into());
    assert_eq!(wrapper.get_label().as_str(), "FileB");
    wrapper.get_mut_label().get_mut().push('!');
    assert_eq!(wrapper.get_label().as_str(), "FileB!");
}
