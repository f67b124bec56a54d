pub mod document;
pub mod yaml;
pub mod yaml_parser;
