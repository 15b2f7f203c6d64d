//! Solar: what a local-first photo manager decides.
//!
//! The library holds everything that is known about a collection of photos: the photos and
//! the faces in them, the persons, and what the user said about both. Its operations are
//! those of the program around it: registering what a scan finds, paging the timeline,
//! grouping faces by appearance, folding groups into persons, asking the user about what
//! cannot be decided, and undoing every correction exactly. Numbers are integers throughout:
//! similarities, boxes and degrees are fixed-point or exact fractions.
//!
//! The program keeps the library on disk, reads and decodes files, and runs the models.

pub mod calendar_laws;
pub mod capture;
pub mod card_laws;
pub mod cluster;
pub mod cluster_index;
pub mod cluster_laws;
pub mod cluster_order;
pub mod cluster_report;
pub mod confirmations;
pub mod constraint_laws;
pub mod cooccurrence;
pub mod correction_laws;
pub mod corrections;
pub mod curation;
pub mod dates;
pub mod detail_laws;
pub mod details;
pub mod detect;
pub mod digest;
pub mod evidence;
pub mod exif_meta;
pub mod face_mark_laws;
pub mod faces;
pub mod flags;
pub mod fold_laws;
pub mod grouping_laws;
pub mod groups;
pub mod growth;
pub mod growth_laws;
pub mod hit_laws;
pub mod identities;
pub mod images;
pub mod joining_laws;
pub mod library;
pub mod library_laws;
pub mod links;
pub mod listing_laws;
pub mod look_laws;
pub mod looks;
pub mod magnet;
pub mod match_laws;
pub mod merge_laws;
pub mod names;
pub mod neighbors;
pub mod order;
pub mod passes;
pub mod path_laws;
pub mod paths;
pub mod people_laws;
pub mod people_screen_laws;
pub mod person_looks;
pub mod photo_mark_laws;
pub mod photos;
pub mod picture_laws;
pub mod places;
pub mod position_laws;
pub mod prof;
pub mod question_laws;
pub mod queue_laws;
pub mod rebuild_laws;
pub mod recognition;
pub mod review;
pub mod review_laws;
pub mod roots;
pub mod rows;
pub mod scan;
pub mod scan_laws;
pub mod session_laws;
pub mod similarity;
pub mod suggestion_cache;
pub mod suggestion_laws;
pub mod suggestions;
pub mod sweep;
pub mod text;
pub mod thumb_queue;
pub mod timeline_laws;
pub mod undo_laws;
pub mod unionfind;
pub mod viewport;
