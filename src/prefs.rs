//! Per-repository preferences for attribution notes.

use vstd::prelude::*;

use crate::lens::clone_opt;

verus! {

/// The preferences of a repository.
#[derive(Clone, Debug)]
pub struct AttributionPrefs {
    pub repo_id: i64,
    pub cache_prompt_metadata: bool,
    pub store_prompt_text: bool,
    pub show_line_overlays: bool,
    pub retention_days: Option<i32>,
    pub last_purged_at: Option<String>,
}

/// A change to the preferences: each set field replaces the current value;
/// `clear_retention_days` removes the retention period.
#[derive(Clone, Debug)]
pub struct AttributionPrefsUpdate {
    pub cache_prompt_metadata: Option<bool>,
    pub store_prompt_text: Option<bool>,
    pub show_line_overlays: Option<bool>,
    pub retention_days: Option<i32>,
    pub clear_retention_days: Option<bool>,
}

/// The preferences of a repository that has none stored yet.
pub fn default_prefs(repo_id: i64) -> (p: AttributionPrefs)
    ensures
        p.repo_id == repo_id,
        !p.cache_prompt_metadata && !p.store_prompt_text && p.show_line_overlays,
        p.retention_days is None && p.last_purged_at is None,
{
    AttributionPrefs {
        repo_id,
        cache_prompt_metadata: false,
        store_prompt_text: false,
        show_line_overlays: true,
        retention_days: None,
        last_purged_at: None,
    }
}

/// The value that an optional update leaves.
pub open spec fn updated<T>(new: Option<T>, current: T) -> T {
    match new {
        Some(v) => v,
        None => current,
    }
}

/// Applies an update to the current preferences.
pub fn update_prefs(current: &AttributionPrefs, update: &AttributionPrefsUpdate) -> (next: AttributionPrefs)
    ensures
        next.repo_id == current.repo_id,
        next.cache_prompt_metadata == updated(update.cache_prompt_metadata, current.cache_prompt_metadata),
        next.store_prompt_text == updated(update.store_prompt_text, current.store_prompt_text),
        next.show_line_overlays == updated(update.show_line_overlays, current.show_line_overlays),
        next.retention_days == (if update.clear_retention_days == Some(true) {
            None
        } else {
            match update.retention_days {
                Some(d) => Some(d),
                None => current.retention_days,
            }
        }),
        next.last_purged_at == current.last_purged_at,
{
    let clear = match update.clear_retention_days {
        Some(c) => c,
        None => false,
    };
    let retention_days = if clear {
        None
    } else {
        match update.retention_days {
            Some(d) => Some(d),
            None => current.retention_days,
        }
    };
    AttributionPrefs {
        repo_id: current.repo_id,
        cache_prompt_metadata: match update.cache_prompt_metadata {
            Some(v) => v,
            None => current.cache_prompt_metadata,
        },
        store_prompt_text: match update.store_prompt_text {
            Some(v) => v,
            None => current.store_prompt_text,
        },
        show_line_overlays: match update.show_line_overlays {
            Some(v) => v,
            None => current.show_line_overlays,
        },
        retention_days,
        last_purged_at: clone_opt(&current.last_purged_at),
    }
}

} // verus!
