pub mod ast;
pub mod cir;
pub mod context;
pub mod display;
pub mod inner_prefilter_btree;
pub mod interpreter;
pub mod line;
pub mod linear;
pub mod lir;
pub mod matchers;
pub mod net;
pub mod parser;
pub mod predicates;
pub mod prefilter;
pub mod pattern;
pub mod repo;
pub mod router;
pub mod schema;
pub mod semantics;
pub mod strmap;
pub mod text;
pub mod uuid_text;
