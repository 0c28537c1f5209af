//! Recipe-driven OCEL 2.0 log transformation.
//!
//! A recipe is a declarative list of steps applied in order; the result is a
//! new, valid OCEL log. Deterministic only: no step invents data, and every
//! step reports what it changed.
//!
//! [`recipe`] holds the steps, [`model`] the log, and [`apply`](mod@apply)
//! runs a recipe on a log. What holds of every run is proved in [`laws`], and
//! what the steps do to events, objects and merged logs in [`effects`],
//! [`object_effects`], [`reaching`], [`aliasing`] and [`merging`]. What each
//! step is for is told in [`step_events`], [`step_objects`], [`step_lifts`],
//! [`step_merges`] and [`step_types`], and of whole runs in [`runs`].

pub mod aliasing;
pub mod apply;
pub mod convert;
pub mod double;
pub mod effects;
pub mod error;
pub mod filter;
pub mod graph;
pub mod integrity;
pub mod laws;
pub mod lift;
pub mod lists;
pub mod matcher;
pub mod merge;
pub mod merging;
pub mod model;
pub mod names;
pub mod object_effects;
pub mod preserving;
pub mod reaching;
pub mod recipe;
pub mod restaging;
pub mod runs;
pub mod sealing;
pub mod settling;
pub mod staging;
pub mod step_events;
pub mod step_lifts;
pub mod step_merges;
pub mod step_objects;
pub mod step_types;
pub mod sublog;
pub mod terms;
pub mod text;
pub mod time;
pub mod typing;
pub mod validity;
pub mod window;

pub use crate::apply::apply;
pub use crate::apply::preview;
pub use crate::apply::try_apply;
pub use crate::apply::try_preview;
pub use crate::apply::DroppedEvent;
pub use crate::apply::StepPreview;
pub use crate::apply::StepReport;
pub use crate::error::TransformError;
pub use crate::merge::UnionInput;
pub use crate::model::Log;
pub use crate::recipe::AliasTable;
pub use crate::recipe::EventPredicate;
pub use crate::recipe::LiftEvents;
pub use crate::recipe::Recipe;
pub use crate::recipe::RelatedTo;
pub use crate::recipe::Step;
pub use crate::recipe::TimeWindow;
pub use crate::recipe::UnionSource;
