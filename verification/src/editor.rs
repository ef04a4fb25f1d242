//! Decisions of the editor's menus and tool panel: which entry a preset
//! applies to and what it changes, the snap-mode toggles, and when saving
//! is offered. The windowing toolkit draws the widgets and reports the
//! clicks; these functions say what a click does to the state.
use vstd::prelude::*;
use crate::oto::OtoEntry;

verus! {

/// The entry shown at row `selected` of the filtered list: the index it
/// holds into the entries, when there is such a row.
pub fn selected_entry(filtered: &[usize], selected: usize) -> (r: Option<usize>)
    ensures
        r == if selected < filtered@.len() {
            Some(filtered@[selected as int])
        } else {
            None::<usize>
        },
{
    if selected < filtered.len() {
        Some(filtered[selected])
    } else {
        None
    }
}

/// Applies a preset's consonant, cutoff, preutterance and overlap to the
/// selected entry, when there is one and it exists. Returns whether an
/// entry changed (the tab is then dirty); every other field and every
/// other entry stay as they were.
pub fn apply_preset(
    entries: &mut Vec<OtoEntry>,
    selected: Option<usize>,
    consonant: i64,
    cutoff: i64,
    preutter: i64,
    overlap: i64,
) -> (changed: bool)
    ensures
        changed == (selected matches Some(i) && i < old(entries)@.len()),
        changed ==> final(entries)@ == old(entries)@.update(
            selected.unwrap() as int,
            OtoEntry { consonant, cutoff, preutter, overlap, ..old(entries)@[selected.unwrap() as int] },
        ),
        !changed ==> final(entries)@ == old(entries)@,
{
    match selected {
        Some(i) => {
            if i < entries.len() {
                let mut e = entries[i].clone();
                e.consonant = consonant;
                e.cutoff = cutoff;
                e.preutter = preutter;
                e.overlap = overlap;
                entries.set(i, e);
                true
            } else {
                false
            }
        },
        None => false,
    }
}

/// Whether the Save item is offered: the tab has unsaved changes or a file
/// to save to.
pub fn save_enabled(dirty: bool, has_path: bool) -> (r: bool)
    ensures
        r == (dirty || has_path),
{
    dirty || has_path
}

/// The snap modes of a tab's waveform view.
#[derive(Clone, Copy, Debug, PartialEq, Eq, Structural)]
pub struct SnapModes {
    /// Move every marker relative to the preutterance.
    pub srp: bool,
    /// Keep the markers in place when the offset moves.
    pub srna: bool,
    /// Attract markers to energy peaks.
    pub snap_to_peaks: bool,
}

/// The modes after the menu's SRP item: SRP flips, and switching it on
/// switches SRnA off.
pub open spec fn srp_toggled(m: SnapModes) -> SnapModes {
    SnapModes { srp: !m.srp, srna: m.srna && m.srp, snap_to_peaks: m.snap_to_peaks }
}

/// The modes after the menu's SRnA item: SRnA flips, and switching it on
/// switches SRP off.
pub open spec fn srna_toggled(m: SnapModes) -> SnapModes {
    SnapModes { srp: m.srp && m.srna, srna: !m.srna, snap_to_peaks: m.snap_to_peaks }
}

impl SnapModes {
    /// The menu's SRP item; SRP and SRnA are never both on after it.
    pub fn toggle_srp(&mut self)
        ensures
            *final(self) == srp_toggled(*old(self)),
            final(self).srp == !old(self).srp,
            final(self).srp ==> !final(self).srna,
            !final(self).srp ==> final(self).srna == old(self).srna,
            final(self).snap_to_peaks == old(self).snap_to_peaks,
            !(final(self).srp && final(self).srna),
    {
        self.srp = !self.srp;
        if self.srp {
            self.srna = false;
        }
    }

    /// The menu's SRnA item; SRP and SRnA are never both on after it.
    pub fn toggle_srna(&mut self)
        ensures
            *final(self) == srna_toggled(*old(self)),
            final(self).srna == !old(self).srna,
            final(self).srna ==> !final(self).srp,
            !final(self).srna ==> final(self).srp == old(self).srp,
            final(self).snap_to_peaks == old(self).snap_to_peaks,
            !(final(self).srp && final(self).srna),
    {
        self.srna = !self.srna;
        if self.srna {
            self.srp = false;
        }
    }
}

/// What a click on a snap-mode item does, in every state: the clicked mode
/// flips; switching it on switches the other off, switching it off leaves
/// the other as it was; the peak snapping is untouched; and the two modes
/// are never both on afterwards.
pub proof fn law_toggle_flips(m: SnapModes)
    ensures
        srp_toggled(m).srp == !m.srp,
        srp_toggled(m).srp ==> !srp_toggled(m).srna,
        !srp_toggled(m).srp ==> srp_toggled(m).srna == m.srna,
        srp_toggled(m).snap_to_peaks == m.snap_to_peaks,
        srna_toggled(m).srna == !m.srna,
        srna_toggled(m).srna ==> !srna_toggled(m).srp,
        !srna_toggled(m).srna ==> srna_toggled(m).srp == m.srp,
        srna_toggled(m).snap_to_peaks == m.snap_to_peaks,
{
}

/// With SRnA off, a second click on SRP undoes the first; likewise for
/// SRnA with SRP off.
pub proof fn law_toggle_twice(m: SnapModes)
    ensures
        !m.srna ==> srp_toggled(srp_toggled(m)) == m,
        !m.srp ==> srna_toggled(srna_toggled(m)) == m,
{
}

} // verus!
