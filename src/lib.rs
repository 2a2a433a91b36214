//! An interactive to-do planner: named lists of numbered entries, a flat
//! text format for storing each list, and the planner's command decisions.

pub mod text;
pub mod todo_list;
pub mod file_writer;
pub mod todo_planner;
pub mod todo_connector;
