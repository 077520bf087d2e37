pub mod buffer;
pub mod cell_text;
pub mod brackets;
pub mod bytes;
pub mod collation;
pub mod conn_dialog;
pub mod dialogs;
pub mod goto;
pub mod grid;
pub mod highlight;
pub mod js;
pub mod model;
pub mod models;
pub mod nav_index;
pub mod nav_rows;
pub mod number_text;
pub mod pattern;
pub mod popup;
pub mod relationship;
pub mod row_sort;
pub mod search;
pub mod seqs;
pub mod sorting;
pub mod stable_json;
pub mod text;
pub mod tokens;
pub mod unicode;
