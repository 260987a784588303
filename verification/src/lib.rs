//! Lossless, game-scoped Odin binary documents.
pub mod endian;
pub mod text;
pub mod wire;
pub mod encode;
pub mod bracket;
pub mod strings;
pub mod service;
pub mod workspace;
pub mod history;
pub mod drops;
pub mod general;
pub mod inventory;
pub mod progression;
pub mod storage;

pub use history::{Command, DocumentSummary, Reply, TransactOutcome, Workspace};
pub use service::{EditRequest, FloatBits, NodeView, Page, Request, Response, Service, Summary, TreeField};
pub use wire::{Document, Error, Limits};
pub use workspace::{Operation, Template, TemplateField, TemplateValue};
