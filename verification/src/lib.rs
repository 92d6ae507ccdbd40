pub mod cli;
pub mod files;
pub mod fzf;
pub mod index;
pub mod init;
pub mod parser;
pub mod paths;
pub mod project;
pub mod text;
