//! The workspace model of a Pascal language server.

pub mod access;
pub mod budget;
pub mod caches;
pub mod cancel;
pub mod conditional;
pub mod contexts;
pub mod cursor;
pub mod deleted;
pub mod discovery;
pub mod document_laws;
pub mod documents;
pub mod edits;
pub mod event_laws;
pub mod events;
pub mod excludes;
pub mod expansion_records;
pub mod external_units;
pub mod filenames;
pub mod finding_laws;
pub mod folders;
pub mod format_laws;
pub mod formatting;
pub mod freshness;
pub mod generations;
pub mod handover;
pub mod housekeeping_laws;
pub mod imports;
pub mod include_owners;
pub mod includes;
pub mod indexing;
pub mod installation;
pub mod json;
pub mod keymap;
pub mod lifecycle;
pub mod limits;
pub mod lint;
pub mod load_laws;
pub mod loaded;
pub mod loading;
pub mod lookup_laws;
pub mod name_laws;
pub mod names;
pub mod native;
pub mod navigation;
pub mod option_laws;
pub mod options;
pub mod overrides;
pub mod package_laws;
pub mod package_lookup;
pub mod package_scan;
pub mod package_watch;
pub mod packages;
pub mod path_laws;
pub mod path_texts;
pub mod paths;
pub mod picks;
pub mod project;
pub mod project_laws;
pub mod publications;
pub mod reading;
pub mod reconfigure;
pub mod records;
pub mod rename_laws;
pub mod renames;
pub mod renaming;
pub mod report_laws;
pub mod run_laws;
pub mod scan_laws;
pub mod schedule;
pub mod schedule_laws;
pub mod selection;
pub mod selection_laws;
pub mod settings;
pub mod sorting;
pub mod source_laws;
pub mod sources;
pub mod staleness;
pub mod strings;
pub mod strmap;
pub mod sums;
pub mod text;
pub mod text_laws;
pub mod unit_laws;
pub mod units;
pub mod upkeep_laws;
pub mod uris;
pub mod warnings;
pub mod workspace;
