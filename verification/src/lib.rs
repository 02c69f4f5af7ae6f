//! An index between the symbols of a project's source files and the notes of its documentation
//! vault, kept in both directions.
//!
//! A note is linked to the symbols of the files it refers to, to the symbols it names, and as a last
//! resort to those of the file whose name is most like its title. [`project`] builds the index of a
//! whole project, [`update`] keeps it true as files change, and [`reports`] says what it shows.
//!
//! What holds of the index at all times is stated in [`laws`], that no change leaves a link out of
//! date in [`current`], and when titles can be scored in [`scoring`]. What the operations come to is
//! stated apart from how they are done: [`linking`] on links, [`meaning`] on file references,
//! [`declared`] on symbols, [`telling`] on reports, [`changing`] on changes of the index, [`invoking`]
//! on invocations, hooks and changes on disk, [`phrasing`] on messages, [`reading`] and
//! [`frontmatter`] on notes, and [`spelling`], [`ranking`] and [`wording`] on paths and texts.
pub mod changing;
pub mod commands;
pub mod current;
pub mod declared;
pub mod features;
pub mod frontmatter;
pub mod fuzzy;
pub mod gather;
pub mod grammar;
pub mod hooks;
pub mod index;
pub mod invoking;
pub mod json;
pub mod laws;
pub mod linking;
pub mod matching;
pub mod meaning;
pub mod notes;
pub mod order;
pub mod paths;
pub mod phrasing;
pub mod project;
pub mod ranking;
pub mod reading;
pub mod reports;
pub mod resolve;
pub mod scoring;
pub mod slots;
pub mod spelling;
pub mod symbols;
pub mod table;
pub mod telling;
pub mod text;
pub mod update;
pub mod vault;
pub mod watch;
pub mod wording;
