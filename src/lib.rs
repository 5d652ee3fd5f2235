//! Output condensers for developer tools, and a heuristic code search over
//! a source tree, with their behaviour stated and proved.
pub mod text;
pub mod rgai_cmd;
pub mod utils;
pub mod gh_cmd;
pub mod lint_cmd;
pub mod playwright_cmd;
pub mod container;
pub mod integrity;
pub mod vitest_cmd;
pub mod wget_cmd;
