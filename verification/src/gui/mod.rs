//! Logic of the layout editor: editing state, snapping, validation.
pub mod app;
pub mod canvas;
pub mod inspector;
pub mod reload;
pub mod save;
