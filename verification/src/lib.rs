//! Verified core of an oto.ini editor for UTAU voicebanks: reading and
//! writing oto.ini files, consistency checks, duplicate detection, alias
//! sorting, the recorder's state transitions and the editor's menu
//! decisions.
pub mod text;
pub mod levenshtein;
pub mod timing;
pub mod oto;
pub mod oto_laws;
pub mod plugins;
pub mod duplicates;
pub mod sorting;
pub mod recorder;
pub mod editor;
