//! Settings of a service unit: conversion of the numeric limits it declares,
//! and its environment.
use vstd::prelude::*;
use vstd::string::StringExecFns;

use std::collections::BTreeMap;

use crate::text::debug_quoted;
use crate::text::debug_text;
use crate::text::decimal;
use crate::text::decimal_text;

verus! {

/// A setting of a service that cannot be written into its unit file.
#[derive(Debug)]
pub enum Error {
    InvalidSetting { setting: String, value: String, message: String },
}

/// Environment variables of a service, by name.
#[derive(Debug)]
pub struct Environment(pub BTreeMap<String, String>);

impl Environment {
    /// Whether no variable is set.
    pub fn is_empty(&self) -> (r: bool)
        ensures
            r == self.0@.is_empty(),
    {
        self.0.is_empty()
    }
}

/// Converts a declared limit to a count: nothing stays nothing, a value
/// that is not negative (and fits a `usize`) is kept, and any other value is
/// an invalid setting.
pub fn cast_params(setting: &str, value: Option<i64>) -> (r: Result<Option<usize>, Error>)
    ensures
        match value {
            None => r == Ok::<Option<usize>, Error>(None),
            Some(x) => if 0 <= x && x <= usize::MAX {
                r == Ok::<Option<usize>, Error>(Some(x as usize))
            } else {
                r matches Err(Error::InvalidSetting { setting: s, value: v, message: m }) && s@ == setting@
                    && v@ == decimal(x) && m@ == debug_quoted(setting@) + seq![
                    ' ',
                    'm',
                    'u',
                    's',
                    't',
                    ' ',
                    'b',
                    'e',
                    ' ',
                    'p',
                    'o',
                    's',
                    'i',
                    't',
                    'i',
                    'v',
                    'e',
                ]
            },
        },
{
    match value {
        None => Ok(None),
        Some(x) => {
            if 0 <= x && x as u64 <= usize::MAX as u64 {
                Ok(Some(x as usize))
            } else {
                let mut message = debug_text(setting);
                message.append(" must be positive");
                proof {
                    reveal_strlit(" must be positive");
                }
                Err(Error::InvalidSetting { setting: setting.to_owned(), value: decimal_text(x), message })
            }
        },
    }
}

} // verus!
