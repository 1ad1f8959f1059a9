//! The error that every plugin reports.

use vstd::prelude::*;
use vstd::string::*;

verus! {

/// Why a plugin could not do its work.
#[derive(Clone, Debug, PartialEq)]
pub enum PluginError {
    /// A hook refused, or failed on, what it was handed.
    HookFailure {
        /// The plugin's name.
        plugin: &'static str,
        /// The hook: `"request"`, `"stream"` or `"response"`.
        stage: &'static str,
        /// What went wrong.
        message: String,
    },
    /// A value does not meet its schema.
    Validation {
        /// The schema.
        schema: String,
        /// What does not meet it.
        message: String,
    },
    /// The plugin cannot go on.
    Internal(String),
    /// Reading or writing failed.
    Io(String),
    /// The operation is not offered.
    NotSupported(String),
}

/// The text of a [`PluginError`].
pub open spec fn error_text(e: PluginError) -> Seq<char> {
    match e {
        PluginError::HookFailure { plugin, stage, message } => "plugin '"@ + plugin@
            + "' failed during "@ + stage@ + ": "@ + message@,
        PluginError::Validation { schema, message } => "validation failed for '"@ + schema@
            + "': "@ + message@,
        PluginError::Internal(message) => "internal plugin error: "@ + message@,
        PluginError::Io(message) => "i/o error: "@ + message@,
        PluginError::NotSupported(message) => "not supported: "@ + message@,
    }
}

impl PluginError {
    /// The failure of a hook.
    pub fn hook(plugin: &'static str, stage: &'static str, message: String) -> (r: PluginError)
        ensures
            r == (PluginError::HookFailure { plugin, stage, message }),
    {
        PluginError::HookFailure { plugin, stage, message }
    }

    /// The text of the error.
    pub fn to_text(&self) -> (r: String)
        ensures
            r@ == error_text(*self),
    {
        match self {
            PluginError::HookFailure { plugin, stage, message } => "plugin '".to_owned().concat(
                plugin,
            ).concat("' failed during ").concat(stage).concat(": ").concat(message.as_str()),
            PluginError::Validation { schema, message } => "validation failed for '".to_owned().concat(
                schema.as_str(),
            ).concat("': ").concat(message.as_str()),
            PluginError::Internal(message) => "internal plugin error: ".to_owned().concat(
                message.as_str(),
            ),
            PluginError::Io(message) => "i/o error: ".to_owned().concat(message.as_str()),
            PluginError::NotSupported(message) => "not supported: ".to_owned().concat(
                message.as_str(),
            ),
        }
    }
}

} // verus!
