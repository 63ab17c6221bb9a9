pub mod text;
pub mod ranges;
pub mod lcs;
pub mod order;
pub mod model;
pub mod normalize;
pub mod diff;
pub mod regions;
pub mod correlation;
pub mod paths;
pub mod compat;
pub mod select;
pub mod cli;
pub mod display;
pub mod pattern;
pub mod search;
pub mod mermaid;
pub mod viewer;
pub mod page;
pub mod highlight;
pub mod exclusions;
