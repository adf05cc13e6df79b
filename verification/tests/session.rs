use plotme::csvfile::FileReadResult;
use plotme::errors::ErrorStringExt;
use plotme::event::{AppEvent, SetActive};
use plotme::file_entry::{get_file_entries, FileEntry, FileEntryState, LabelStyle};
use plotme::plot::{Color, GestureInput, PlotDimensions};
use plotme::{App, Folder};

fn entry(name: &str, id: usize) -> FileEntry {
    let mut counter = id;
    let mut v = get_file_entries(vec![(String::from(name), String::new())], &mut counter);
    v.remove(0)
}

fn entry_with_data(name: &str, id: usize, state: FileEntryState) -> FileEntry {
    let mut e = entry(name, id);
    e.data_file
        .data
        .push((String::from("1"), String::from("2")));
    e.state = state;
    e
}

fn no_contents() -> FileReadResult {
    FileReadResult::Failed(String::from("not read"))
}

#[test]
fn primary_click_ingests_and_plots() {
    let mut e = entry("a.csv", 0);
    e.data_file.xcol = 0;
    e.data_file.ycol = 1;
    let mut log = Vec::new();
    e.clicked(
        "/data",
        &FileReadResult::Contents(b"1,2\n3,4\n".to_vec()),
        &mut log,
    );
    assert_eq!(e.state, FileEntryState::Plotted);
    assert_eq!(e.data_file.data.len(), 2);
    assert_eq!(e.data_file.filepath, "/data/a.csv");
    assert!(log.is_empty());
}

#[test]
fn primary_click_zero_yield_needs_config() {
    let mut e = entry("a.csv", 0);
    e.data_file.xcol = 0;
    e.data_file.ycol = 1;
    let mut log = Vec::new();
    e.clicked(
        "/data",
        &FileReadResult::Contents(b"x,y\nu,v\n".to_vec()),
        &mut log,
    );
    assert_eq!(e.state, FileEntryState::NeedsConfig);
    assert!(e.data_file.data.is_empty());
}

#[test]
fn primary_click_toggle_table() {
    let cases = [
        (FileEntryState::Idle, FileEntryState::Plotted),
        (FileEntryState::Plotted, FileEntryState::PreviouslyPlotted),
        (FileEntryState::PreviouslyPlotted, FileEntryState::Plotted),
        (FileEntryState::Active, FileEntryState::PreviouslyPlotted),
    ];
    for (from, to) in cases {
        let mut e = entry_with_data("a.csv", 0, from);
        let mut log = Vec::new();
        e.clicked("/data", &no_contents(), &mut log);
        assert_eq!(e.state, to, "from {:?}", from);
        assert!(log.is_empty());
    }
    // an entry without data in NeedsConfig re-idles without ingesting
    let mut e = entry("a.csv", 0);
    e.state = FileEntryState::NeedsConfig;
    let mut log = Vec::new();
    e.clicked("/data", &no_contents(), &mut log);
    assert_eq!(e.state, FileEntryState::Idle);
    assert!(log.is_empty());
}

#[test]
fn secondary_click_table() {
    let cases = [
        (FileEntryState::Idle, FileEntryState::Idle),
        (FileEntryState::Plotted, FileEntryState::Active),
        (
            FileEntryState::PreviouslyPlotted,
            FileEntryState::PreviouslyPlotted,
        ),
        (FileEntryState::Active, FileEntryState::Plotted),
        (FileEntryState::NeedsConfig, FileEntryState::NeedsConfig),
    ];
    for (from, to) in cases {
        let mut e = entry_with_data("a.csv", 0, from);
        e.secondary_clicked();
        assert_eq!(e.state, to, "from {:?}", from);
    }
}

#[test]
fn search_change_table() {
    let cases = [
        (FileEntryState::Idle, FileEntryState::Idle),
        (FileEntryState::Plotted, FileEntryState::Plotted),
        (FileEntryState::PreviouslyPlotted, FileEntryState::Idle),
        (FileEntryState::Active, FileEntryState::Active),
        (FileEntryState::NeedsConfig, FileEntryState::NeedsConfig),
    ];
    for (from, to) in cases {
        let mut e = entry_with_data("a.csv", 0, from);
        e.search_phrase_changed();
        assert_eq!(e.state, to, "from {:?}", from);
    }
}

#[test]
fn search_phrase_reversion_in_session() {
    let mut app = App::with_search_phrase(".csv");
    app.folders.push(Folder {
        path: String::from("/data"),
        files: vec![
            entry_with_data("a.csv", 0, FileEntryState::PreviouslyPlotted),
            entry_with_data("b.csv", 1, FileEntryState::Active),
        ],
        expanded: true,
        to_be_deleted: false,
    });
    app.set_search_phrase(String::from("other"));
    assert_eq!(app.search_phrase, "other");
    assert_eq!(app.folders[0].files[0].state, FileEntryState::Idle);
    assert_eq!(app.folders[0].files[1].state, FileEntryState::Active);
    // an unchanged phrase reverts nothing
    let mut app2 = App::with_search_phrase("same");
    app2.folders.push(Folder {
        path: String::from("/data"),
        files: vec![entry_with_data(
            "a.csv",
            0,
            FileEntryState::PreviouslyPlotted,
        )],
        expanded: true,
        to_be_deleted: false,
    });
    app2.set_search_phrase(String::from("same"));
    assert_eq!(
        app2.folders[0].files[0].state,
        FileEntryState::PreviouslyPlotted
    );
}

#[test]
fn should_be_listed_rules() {
    let mut e = entry("signal_a.csv", 0);
    // phrase matches and folder expanded
    assert!(e.should_be_listed("signal .csv", true));
    // collapsed folder hides an idle entry even when matching
    assert!(!e.should_be_listed("signal", false));
    // a token that is not a substring hides an idle entry
    assert!(!e.should_be_listed("signal b", true));
    // a plotted entry is listed whatever the phrase
    e.state = FileEntryState::Plotted;
    assert!(e.should_be_listed("nomatch", true));
    assert!(e.should_be_listed("nomatch", false));
    // previously plotted entries need their folder expanded
    e.state = FileEntryState::PreviouslyPlotted;
    assert!(e.should_be_listed("nomatch", true));
    assert!(!e.should_be_listed("nomatch", false));
    // needs-config entries stay listed
    e.state = FileEntryState::NeedsConfig;
    assert!(e.should_be_listed("nomatch", false));
}

#[test]
fn label_styles_follow_states() {
    let mut e = entry("a.csv", 0);
    assert_eq!(e.label_style(), LabelStyle::Plain);
    e.state = FileEntryState::Plotted;
    assert_eq!(e.label_style(), LabelStyle::OnColor);
    e.state = FileEntryState::Active;
    assert_eq!(e.label_style(), LabelStyle::OnColorDimmed);
    e.state = FileEntryState::NeedsConfig;
    assert_eq!(e.label_style(), LabelStyle::Error);
    e.state = FileEntryState::PreviouslyPlotted;
    assert_eq!(e.label_style(), LabelStyle::Plain);
}

#[test]
fn plot_membership_predicates() {
    let mut e = entry("a.csv", 0);
    for (state, plotted, drawn) in [
        (FileEntryState::Idle, false, false),
        (FileEntryState::Plotted, true, true),
        (FileEntryState::PreviouslyPlotted, false, false),
        (FileEntryState::Active, true, true),
        (FileEntryState::NeedsConfig, true, false),
    ] {
        e.state = state;
        assert_eq!(e.is_plotted(), plotted, "{:?}", state);
        assert_eq!(e.is_drawn(), drawn, "{:?}", state);
        assert!(e.was_just_plotted());
    }
}

#[test]
fn acceleration_counts_held_frames() {
    let mut app = App::with_search_phrase("");
    assert_eq!(app.acceleration, None);
    // a frame with the button up changes nothing
    app.update_acceleration(false, false);
    assert_eq!(app.acceleration, None);
    // press edge, then nine more held frames
    app.update_acceleration(true, true);
    for _ in 0..9 {
        app.update_acceleration(false, true);
    }
    assert_eq!(app.acceleration, Some(10));
    // releasing freezes the count
    app.update_acceleration(false, false);
    assert_eq!(app.acceleration, Some(10));
    // the next press edge restarts it
    app.update_acceleration(true, true);
    assert_eq!(app.acceleration, Some(1));
}

#[test]
fn error_log_keeps_last_ten() {
    let mut app = App::with_search_phrase("");
    for i in 0..13 {
        app.push_error(format!("e{}", i));
    }
    app.trim_error_log();
    assert_eq!(app.errors.len(), 10);
    assert_eq!(app.errors[0], "e3");
    assert_eq!(app.errors[9], "e12");
}

#[test]
fn delete_folders_purges_marked() {
    let mut app = App::with_search_phrase("");
    for (name, doomed) in [("a", false), ("b", true), ("c", false)] {
        app.folders.push(Folder {
            path: String::from(name),
            files: Vec::new(),
            expanded: true,
            to_be_deleted: doomed,
        });
    }
    app.delete_folders();
    assert_eq!(app.folders.len(), 2);
    assert_eq!(app.folders[0].path, "a");
    assert_eq!(app.folders[1].path, "c");
}

#[test]
fn set_active_event_targets_first_match() {
    let mut app = App::with_search_phrase("");
    app.folders.push(Folder {
        path: String::from("/data"),
        files: vec![
            entry_with_data("a.csv", 3, FileEntryState::Plotted),
            entry_with_data("b.csv", 4, FileEntryState::Plotted),
        ],
        expanded: true,
        to_be_deleted: false,
    });
    SetActive::new(4).run(&mut app);
    assert_eq!(app.folders[0].files[0].state, FileEntryState::Plotted);
    assert_eq!(app.folders[0].files[1].state, FileEntryState::Active);
    assert!(app.errors.is_empty());
    SetActive::new(7).run(&mut app);
    assert_eq!(app.errors.len(), 1);
    assert_eq!(app.errors[0], "ERROR: file with id 7 not found");
}

#[test]
fn gesture_gating() {
    let base = GestureInput {
        d_down: false,
        f_down: false,
        g_down: false,
        dx_nonzero: true,
        dy_nonzero: true,
    };
    let scale = GestureInput {
        f_down: true,
        ..base
    };
    assert!(scale.scale_gesture());
    assert!(!scale.yoffset_gesture());
    assert!(!scale.native_drag_allowed());
    let yoff = GestureInput {
        d_down: true,
        ..base
    };
    assert!(yoff.yoffset_gesture());
    assert!(!yoff.scale_gesture());
    let both = GestureInput {
        d_down: true,
        f_down: true,
        ..base
    };
    assert!(!both.scale_gesture());
    assert!(!both.yoffset_gesture());
    let xoff = GestureInput {
        g_down: true,
        ..base
    };
    assert!(xoff.xoffset_gesture());
    let still = GestureInput {
        g_down: true,
        dx_nonzero: false,
        ..base
    };
    assert!(!still.xoffset_gesture());
    assert!(base.native_drag_allowed());
}

#[test]
fn color_assignment_counter() {
    let mut app = App::with_search_phrase("");
    assert_eq!(app.next_color_index(), 1);
    assert_eq!(app.next_color_index(), 2);
    assert_eq!(app.next_color_index(), 3);
    assert!(Color::transparent().is_unassigned());
    let c = Color {
        r: 1,
        g: 2,
        b: 3,
        a: 255,
    };
    assert!(!c.is_unassigned());
}

#[test]
fn round_trip_two_folders_three_entries() {
    let mut app = App::with_search_phrase("volt amp");
    let mut e1 = entry_with_data("a.csv", 0, FileEntryState::Plotted);
    e1.scale.input = String::from("2.5");
    e1.offset.input = String::from("-0.75");
    e1.color = Color {
        r: 10,
        g: 20,
        b: 30,
        a: 255,
    };
    let mut e2 = entry_with_data("b.csv", 1, FileEntryState::Active);
    e2.xoffset.input = String::from("not a number yet");
    let e3 = entry("c, with comma.csv", 2);
    app.folders.push(Folder {
        path: String::from("/data/one"),
        files: vec![e1, e2],
        expanded: true,
        to_be_deleted: false,
    });
    app.folders.push(Folder {
        path: String::from("/data/two"),
        files: vec![e3],
        expanded: false,
        to_be_deleted: true,
    });
    app.plot_dims = PlotDimensions {
        x0: 1077936128,
        x1: 3225419776,
        y0: 0,
        y1: 1065353216,
    };
    // dirty the transient fields before saving
    app.push_error(String::from("transient"));
    app.update_acceleration(true, true);
    app.next_color_index();

    let text = app.save_state();
    let mut loaded = App::with_search_phrase("something else");
    loaded.push_error(String::from("stale"));
    loaded.load_state(text.as_str()).unwrap();

    assert_eq!(loaded.search_phrase, "volt amp");
    assert_eq!(loaded.plot_dims, app.plot_dims);
    assert_eq!(loaded.folders.len(), 2);
    let f1 = &loaded.folders[0];
    assert_eq!(f1.path, "/data/one");
    assert!(f1.expanded);
    assert!(!f1.to_be_deleted);
    assert_eq!(f1.files.len(), 2);
    assert_eq!(f1.files[0].filename, "a.csv");
    assert_eq!(f1.files[0].scale.input, "2.5");
    assert_eq!(f1.files[0].offset.input, "-0.75");
    assert_eq!(f1.files[0].xoffset.input, "0.0");
    assert_eq!(f1.files[0].state, FileEntryState::Plotted);
    assert_eq!(
        f1.files[0].color,
        Color {
            r: 10,
            g: 20,
            b: 30,
            a: 255
        }
    );
    assert_eq!(f1.files[0].data_file.data, app.folders[0].files[0].data_file.data);
    assert_eq!(f1.files[1].xoffset.input, "not a number yet");
    assert_eq!(f1.files[1].state, FileEntryState::Active);
    assert_eq!(f1.files[1].id, 1);
    let f2 = &loaded.folders[1];
    assert_eq!(f2.path, "/data/two");
    assert!(!f2.expanded);
    assert!(f2.to_be_deleted);
    assert_eq!(f2.files[0].filename, "c, with comma.csv");
    // transient fields come back at their defaults
    assert!(loaded.errors.is_empty());
    assert_eq!(loaded.acceleration, None);
    assert!(loaded.copied_csvoptions.is_none());
    assert_eq!(loaded.color_idx, 0);
}

#[test]
fn load_rejects_malformed_text() {
    let mut app = App::with_search_phrase("keep me");
    let r = app.load_state("not a snapshot");
    assert_eq!(r.unwrap_err(), "ERROR: could not read session snapshot");
    assert_eq!(app.search_phrase, "keep me");
}

#[test]
fn reload_keeps_series_on_failure() {
    let mut e = entry_with_data("a.csv", 0, FileEntryState::Plotted);
    e.data_file.xcol = 0;
    e.data_file.ycol = 1;
    let mut log = Vec::new();
    e.reload_csv("/data", &no_contents(), &mut log);
    assert_eq!(e.data_file.data.len(), 1);
    assert_eq!(e.state, FileEntryState::Plotted);
    // a successful reload replaces the series in place
    e.reload_csv(
        "/data",
        &FileReadResult::Contents(b"5,6\n7,8\n".to_vec()),
        &mut log,
    );
    assert_eq!(e.data_file.data.len(), 2);
    assert_eq!(e.state, FileEntryState::Plotted);
}

#[test]
fn copy_and_paste_csv_options() {
    let mut e = entry("a.csv", 0);
    e.data_file.delimiter = b';';
    e.data_file.comment_char = b'%';
    e.data_file.xcol = 3;
    e.data_file.ycol = 4;
    e.data_file.skip_header = 2;
    e.data_file.skip_footer = 1;
    let template = e.data_file.options_template();
    assert!(template.data.is_empty());
    assert!(template.filepath.is_empty());
    let mut other = entry("b.csv", 1);
    other.data_file.apply_options(&template);
    assert_eq!(other.data_file.delimiter, b';');
    assert_eq!(other.data_file.comment_char, b'%');
    assert_eq!(other.data_file.xcol, 3);
    assert_eq!(other.data_file.ycol, 4);
    assert_eq!(other.data_file.skip_header, 2);
    assert_eq!(other.data_file.skip_footer, 1);
    assert_eq!(other.data_file.filepath, "b.csv");
}

#[test]
fn errors_prefixed_by_extension() {
    let ok: Result<u8, String> = Ok(7);
    assert_eq!(ok.err_to_string("context"), Ok(7));
    let err: Result<u8, String> = Err(String::from("boom"));
    assert_eq!(err.err_to_string("context"), Err(String::from("context: boom")));
}

#[test]
fn round_trip_empty_session() {
    let app = App::with_search_phrase("");
    let text = app.save_state();
    let mut loaded = App::with_search_phrase("x");
    loaded.load_state(text.as_str()).unwrap();
    assert_eq!(loaded.search_phrase, "");
    assert!(loaded.folders.is_empty());
}

#[test]
fn round_trip_hostile_strings() {
    // texts full of the codec's own punctuation, quotes and newlines
    let mut app = App::with_search_phrase("{}[];:,\"\n7:x");
    let mut e = entry("a}b,{c];d.csv", 0);
    e.preview = String::from("line one\nline two 3:abc");
    e.scale.input = String::from(",;{}[]");
    app.folders.push(Folder {
        path: String::from("/weird\npath"),
        files: vec![e],
        expanded: true,
        to_be_deleted: false,
    });
    let text = app.save_state();
    let mut loaded = App::with_search_phrase("");
    loaded.load_state(text.as_str()).unwrap();
    assert_eq!(loaded.search_phrase, "{}[];:,\"\n7:x");
    assert_eq!(loaded.folders[0].path, "/weird\npath");
    assert_eq!(loaded.folders[0].files[0].filename, "a}b,{c];d.csv");
    assert_eq!(loaded.folders[0].files[0].preview, "line one\nline two 3:abc");
    assert_eq!(loaded.folders[0].files[0].scale.input, ",;{}[]");
}
