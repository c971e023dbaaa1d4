//! Matching exported playlists against the audio files of a music library.
//!
//!   * `sources` finds the CSV files among what was dropped, `exportify` makes playlists of them
//!   * `tags` reads what an audio file is matched by, `library` indexes the files
//!   * `resolve` finds the file of a track with the help of `matching`, `outcome` puts together
//!     what came of all tracks
//!   * `m3u` and `report` say what is written about it, and `tags` what goes into the files
//!   * `run` decides what is done when
//!   * `spelling`, `noise`, `columns` and `cells` say what names and sheets mean, apart from how they
//!     are read

pub mod cells;
pub mod columns;
pub mod exportify;
pub mod library;
pub mod m3u;
pub mod matching;
pub mod model;
pub mod noise;
pub mod order;
pub mod outcome;
pub mod report;
pub mod resolve;
pub mod run;
pub mod sources;
pub mod spelling;
pub mod tags;
pub mod text;
