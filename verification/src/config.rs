//! The application configuration consumed by the core: the history bound
//! and the display settings, with their sanitization rules.

use vstd::prelude::*;
use vstd::string::*;
use crate::text::{str_eq, trim_spec, trim_str};

verus! {

/// The smallest accepted history bound.
pub const MIN_HISTORY_LIMIT: i64 = 1;

/// The largest accepted history bound.
pub const MAX_HISTORY_LIMIT: i64 = 5000;

/// The history bound clamped into its accepted range.
pub open spec fn clamped_limit(n: i64) -> i64 {
    if n < MIN_HISTORY_LIMIT {
        MIN_HISTORY_LIMIT
    } else if n > MAX_HISTORY_LIMIT {
        MAX_HISTORY_LIMIT
    } else {
        n
    }
}

/// The recognized theme names.
pub open spec fn theme_valid(t: Seq<char>) -> bool {
    t == "light"@ || t == "dark"@ || t == "auto"@
}

/// The application configuration.
pub struct Config {
    /// The largest number of history items kept.
    pub max_history_items: i64,
    /// Whether the application starts with the session.
    pub auto_start: bool,
    /// The theme mode: `"light"`, `"dark"` or `"auto"`.
    pub theme: String,
    /// The global shortcut that opens the history.
    pub hotkey: String,
}

impl Clone for Config {
    fn clone(&self) -> (r: Self)
        ensures
            r == *self,
    {
        Config {
            max_history_items: self.max_history_items,
            auto_start: self.auto_start,
            theme: self.theme.clone(),
            hotkey: self.hotkey.clone(),
        }
    }
}

impl Default for Config {
    /// The configuration used before any was saved.
    fn default() -> (r: Self)
        ensures
            r.max_history_items == 100,
            !r.auto_start,
            r.theme@ == "auto"@,
            r.hotkey@ == "CommandOrControl+Shift+V"@,
    {
        Config {
            max_history_items: 100,
            auto_start: false,
            theme: String::from_str("auto"),
            hotkey: String::from_str("CommandOrControl+Shift+V"),
        }
    }
}

impl Config {
    /// Forces every field into its accepted range: the bound is clamped,
    /// an unknown theme becomes `"auto"`, a blank hotkey becomes the
    /// default one.
    pub fn sanitize(&mut self)
        ensures
            final(self).max_history_items == clamped_limit(old(self).max_history_items),
            final(self).auto_start == old(self).auto_start,
            final(self).theme@ == if theme_valid(old(self).theme@) {
                old(self).theme@
            } else {
                "auto"@
            },
            final(self).hotkey@ == if trim_spec(old(self).hotkey@).len() == 0 {
                "CommandOrControl+Shift+V"@
            } else {
                old(self).hotkey@
            },
    {
        if self.max_history_items < MIN_HISTORY_LIMIT {
            self.max_history_items = MIN_HISTORY_LIMIT;
        } else if self.max_history_items > MAX_HISTORY_LIMIT {
            self.max_history_items = MAX_HISTORY_LIMIT;
        }
        let theme_ok = str_eq(self.theme.as_str(), "light") || str_eq(self.theme.as_str(), "dark")
            || str_eq(self.theme.as_str(), "auto");
        if !theme_ok {
            self.theme = String::from_str("auto");
        }
        let trimmed = trim_str(self.hotkey.as_str());
        if trimmed.as_str().unicode_len() == 0 {
            self.hotkey = String::from_str("CommandOrControl+Shift+V");
        }
    }

    /// This configuration with [`Config::sanitize`] applied.
    pub fn sanitized(self) -> (r: Self)
        ensures
            r.max_history_items == clamped_limit(self.max_history_items),
            r.auto_start == self.auto_start,
            r.theme@ == if theme_valid(self.theme@) {
                self.theme@
            } else {
                "auto"@
            },
            r.hotkey@ == if trim_spec(self.hotkey@).len() == 0 {
                "CommandOrControl+Shift+V"@
            } else {
                self.hotkey@
            },
    {
        let mut c = self;
        c.sanitize();
        c
    }
}

/// The label a theme is shown under.
pub fn theme_display_label(theme: &str) -> (r: &'static str)
    ensures
        r@ == if theme@ == "light"@ {
            "浅色"@
        } else if theme@ == "dark"@ {
            "深色"@
        } else {
            "自动"@
        },
{
    if str_eq(theme, "light") {
        "浅色"
    } else if str_eq(theme, "dark") {
        "深色"
    } else {
        "自动"
    }
}

/// The menu entry that names the current theme.
pub fn theme_menu_label(theme: &str) -> (r: String)
    ensures
        r@ == "切换主题（当前："@ + (if theme@ == "light"@ {
            "浅色"@
        } else if theme@ == "dark"@ {
            "深色"@
        } else {
            "自动"@
        }) + "）"@,
{
    let mut out = String::from_str("切换主题（当前：");
    out.append(theme_display_label(theme));
    out.append("）");
    out
}

} // verus!
