//! Architectural drift detection for TypeScript projects.
//!
//! A project declares its layers and rules; the library extracts the imports of
//! each source file, resolves them, and reports every import that crosses a
//! boundary it should not cross.
//!
//! Paths are text: `/` separates their parts, as on Unix.

pub mod ast_engine;
pub mod cache;
pub mod cli;
pub mod clock;
pub mod config;
pub mod error;
pub mod globs;
pub mod lsp;
pub mod path;
pub mod reporter;
pub mod store;
pub mod syntax;
pub mod template;
pub mod text;
pub mod validator;

pub use ast_engine::{AstEngine, FileLayout, ImportRef, StructuralLayout};
pub use cache::{ArchitectureCache, CacheUpdateResult};
pub use config::{ArchitectureConfig, CompiledArchitectureConfig};
pub use error::{AddError, AddResult};
pub use reporter::{HtmlReportGenerator, MarkdownReportGenerator, ReportGenerator, ReportSummary};
pub use validator::{
    normalize_path, resolve_import_path, ValidationReport, Validator, Violation,
    ViolationSeverity, INTERFACE_BYPASS_RULE, LAYER_ALLOWLIST_RULE,
};
