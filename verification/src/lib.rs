//! Verified core of a tool that renders narrative walkthroughs of code changes:
//! the difftastic data model, line mapping between old and new file versions,
//! chunk consolidation, context computation, HTML row rendering, text diffs and
//! coverage checking of walkthrough references.

pub mod difft_json;
pub mod text;
pub mod linemap;
pub mod context;
pub mod highlight;
pub mod rows;
pub mod html;
pub mod coverage;
pub mod gaps;
pub mod collect;
pub mod items;
pub mod fits;
pub mod textdiff;
pub mod parse;
pub mod refs;
pub mod summary;
pub mod publish;
pub mod syntax;
pub mod tables;
pub mod htmldiff;
pub mod page;
pub mod pass;
pub mod finish;
