pub mod text;
pub mod ast;
pub mod scan;
pub mod metadata;
pub mod ir;
pub mod latex;
pub mod paths;
pub mod config;
pub mod markdown;
pub mod editor;
pub mod laws;
pub mod lowering_laws;
pub mod notation_laws;
