use copaiba::editor::{apply_preset, save_enabled, selected_entry, SnapModes};
use copaiba::oto::OtoEntry;

fn entry(alias: &str) -> OtoEntry {
    OtoEntry {
        filename: "a.wav".to_string(),
        alias: alias.to_string(),
        offset: 100,
        consonant: 200,
        cutoff: -300,
        preutter: 400,
        overlap: 500,
        line_index: 7,
        done: true,
        notes: "n".to_string(),
    }
}

#[test]
fn selected_entry_follows_the_filtered_rows() {
    let filtered = vec![4usize, 1, 9];
    assert_eq!(selected_entry(&filtered, 1), Some(1));
    assert_eq!(selected_entry(&filtered, 2), Some(9));
    assert_eq!(selected_entry(&filtered, 3), None);
    assert_eq!(selected_entry(&[], 0), None);
}

#[test]
fn preset_sets_four_fields_of_the_selected_entry() {
    let mut entries = vec![entry("a"), entry("ka")];
    assert!(apply_preset(&mut entries, Some(1), 60_000, -250_000, 80_000, 25_000));
    let e = &entries[1];
    assert_eq!(e.consonant, 60_000);
    assert_eq!(e.cutoff, -250_000);
    assert_eq!(e.preutter, 80_000);
    assert_eq!(e.overlap, 25_000);
    assert_eq!(e.offset, 100);
    assert_eq!(e.alias, "ka");
    assert_eq!(e.line_index, 7);
    assert!(e.done);
    assert_eq!(e.notes, "n");
    assert!(entries[0] == entry("a"));
}

#[test]
fn preset_without_a_selected_entry_changes_nothing() {
    let mut entries = vec![entry("a")];
    assert!(!apply_preset(&mut entries, None, 1, 2, 3, 4));
    assert!(!apply_preset(&mut entries, Some(1), 1, 2, 3, 4));
    assert!(entries[0] == entry("a"));
    assert_eq!(entries.len(), 1);
}

#[test]
fn save_is_offered_when_dirty_or_with_a_path() {
    assert!(!save_enabled(false, false));
    assert!(save_enabled(true, false));
    assert!(save_enabled(false, true));
    assert!(save_enabled(true, true));
}

#[test]
fn snap_mode_toggles_never_leave_both_on() {
    let mut m = SnapModes { srp: false, srna: true, snap_to_peaks: true };
    m.toggle_srp();
    assert_eq!(m, SnapModes { srp: true, srna: false, snap_to_peaks: true });
    m.toggle_srna();
    assert_eq!(m, SnapModes { srp: false, srna: true, snap_to_peaks: true });
    m.toggle_srna();
    assert_eq!(m, SnapModes { srp: false, srna: false, snap_to_peaks: true });
    let mut both = SnapModes { srp: true, srna: true, snap_to_peaks: false };
    both.toggle_srp();
    assert_eq!(both, SnapModes { srp: false, srna: true, snap_to_peaks: false });
}

#[test]
fn toggling_srp_twice_gives_the_state_back() {
    let start = SnapModes { srp: false, srna: false, snap_to_peaks: false };
    let mut m = start;
    m.toggle_srp();
    m.toggle_srp();
    assert_eq!(m, start);
}
