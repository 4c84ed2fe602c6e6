pub mod text;
pub mod permission;
pub mod tools;
pub mod agent;
pub mod holdback;
pub mod skills;
pub mod context;
pub mod eval;
pub mod trajectory;
pub mod completer;
pub mod settings;
pub mod ui;
pub mod models;
