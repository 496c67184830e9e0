//! A code graph for a polyglot repository: text scanners, syntax-tree walkers,
//! whole-tree edge resolution, and the queries that read the graph back.

pub mod ast;
pub mod bbscript;
pub mod blade;
pub mod buckets;
pub mod config;
pub mod dolibarr;
pub mod dolibarr_text;
pub mod eloquent;
pub mod extract;
pub mod failure;
pub mod format;
pub mod gitattributes;
pub mod html;
pub mod index;
pub mod js;
pub mod js_walk;
pub mod json;
pub mod lang;
pub mod laravel;
pub mod model;
pub mod paths;
pub mod php;
pub mod php_text;
pub mod php_walk;
pub mod query;
pub mod reading;
pub mod relations;
pub mod resolve;
pub mod router;
pub mod router_text;
pub mod scan;
pub mod schema;
pub mod seqs;
pub mod sorting;
pub mod statusline;
pub mod syntax;
pub mod template_text;
pub mod text;
pub mod twig;
pub mod types;
