pub mod strings;
pub mod util;
pub mod ast;
pub mod text;
pub mod syntax;
pub mod code;
pub mod svg_builder;
pub mod math;
pub mod markdown;
