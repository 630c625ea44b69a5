//! Data/state engine for an interactive, virtualized spreadsheet-like grid.
//!
//! The engine owns row storage, computes the visible (sorted, filtered,
//! reordered) projection of that storage, tracks selection and edit focus,
//! keeps undo/redo as a bounded command log, and drives clipboard
//! import/export through a pluggable per-column text codec. Rendering and
//! input-device handling are out of scope: a host supplies a viewer
//! capability object (comparator, codec, editability, callbacks) and feeds
//! the engine already-classified abstract actions.

pub mod actions;
pub mod clipboard;
pub mod engine;
pub mod selection;
pub mod store;
pub mod tsv;
pub mod view;
pub mod viewer;

use vstd::prelude::*;

verus! {

/// Maps a label key to its display text.
pub trait Translator {
    /// Translates a given key into its corresponding display string.
    /// An unknown key is returned unchanged.
    fn translate(&self, key: &str) -> String;
}

/// The label that the built-in English set gives a key: each of the known
/// context-menu keys maps to its fixed label, and any other key is returned
/// unchanged.
pub open spec fn english_label(key: Seq<char>) -> Seq<char> {
    if key == "context-menu-selection-copy"@ {
        "Selection: Copy"@
    } else if key == "context-menu-selection-cut"@ {
        "Selection: Cut"@
    } else if key == "context-menu-selection-clear"@ {
        "Selection: Clear"@
    } else if key == "context-menu-selection-fill"@ {
        "Selection: Fill"@
    } else if key == "context-menu-clipboard-paste"@ {
        "Clipboard: Paste"@
    } else if key == "context-menu-clipboard-insert"@ {
        "Clipboard: Insert"@
    } else if key == "context-menu-row-duplicate"@ {
        "Row: Duplicate"@
    } else if key == "context-menu-row-delete"@ {
        "Row: Delete"@
    } else if key == "context-menu-undo"@ {
        "Undo"@
    } else if key == "context-menu-redo"@ {
        "Redo"@
    } else if key == "context-menu-hide"@ {
        "Hide"@
    } else if key == "context-menu-hidden"@ {
        "Hidden"@
    } else if key == "context-menu-clear-sort"@ {
        "Clear sort"@
    } else {
        key
    }
}

/// The built-in English label set.
#[derive(Debug, Clone, Copy)]
pub struct EnglishTranslator {}

impl Default for EnglishTranslator {
    fn default() -> (r: Self)
        ensures
            r == (EnglishTranslator {  }),
    {
        EnglishTranslator {  }
    }
}

impl Translator for EnglishTranslator {
    fn translate(&self, key: &str) -> (r: String)
        ensures
            r@ == english_label(key@),
    {
        let k = key.to_owned();
        if k == String::from_str("context-menu-selection-copy") {
            "Selection: Copy".to_owned()
        } else if k == String::from_str("context-menu-selection-cut") {
            "Selection: Cut".to_owned()
        } else if k == String::from_str("context-menu-selection-clear") {
            "Selection: Clear".to_owned()
        } else if k == String::from_str("context-menu-selection-fill") {
            "Selection: Fill".to_owned()
        } else if k == String::from_str("context-menu-clipboard-paste") {
            "Clipboard: Paste".to_owned()
        } else if k == String::from_str("context-menu-clipboard-insert") {
            "Clipboard: Insert".to_owned()
        } else if k == String::from_str("context-menu-row-duplicate") {
            "Row: Duplicate".to_owned()
        } else if k == String::from_str("context-menu-row-delete") {
            "Row: Delete".to_owned()
        } else if k == String::from_str("context-menu-undo") {
            "Undo".to_owned()
        } else if k == String::from_str("context-menu-redo") {
            "Redo".to_owned()
        } else if k == String::from_str("context-menu-hide") {
            "Hide".to_owned()
        } else if k == String::from_str("context-menu-hidden") {
            "Hidden".to_owned()
        } else if k == String::from_str("context-menu-clear-sort") {
            "Clear sort".to_owned()
        } else {
            k
        }
    }
}

} // verus!
