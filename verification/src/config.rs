//! The application's configuration: where the notes live, the default
//! notebook for new notes, and the editor and viewer commands. The
//! application reads and writes the configuration file; the selection
//! and update rules by key live here.

use vstd::prelude::*;
use crate::text::str_eq;

verus! {

/// The configuration values. `app_home` is the directory the note
/// repository and the index cache live under, as path text.
#[derive(Debug, Clone, PartialEq)]
pub struct Config {
    pub app_home: String,
    pub default_notebook: String,
    pub editor: String,
    pub viewer: String,
}

/// The mathematical content of a configuration.
pub struct ConfigView {
    pub app_home: Seq<char>,
    pub default_notebook: Seq<char>,
    pub editor: Seq<char>,
    pub viewer: Seq<char>,
}

impl View for Config {
    type V = ConfigView;

    open spec fn view(&self) -> ConfigView {
        ConfigView {
            app_home: self.app_home@,
            default_notebook: self.default_notebook@,
            editor: self.editor@,
            viewer: self.viewer@,
        }
    }
}

/// The value a configuration key names, if the key is one of the four.
pub open spec fn field_of(c: ConfigView, key: Seq<char>) -> Option<Seq<char>> {
    if key == "app_home"@ {
        Some(c.app_home)
    } else if key == "default_notebook"@ {
        Some(c.default_notebook)
    } else if key == "editor"@ {
        Some(c.editor)
    } else if key == "viewer"@ {
        Some(c.viewer)
    } else {
        None
    }
}

/// The configuration with the named key replaced, if the key is one of
/// the four.
pub open spec fn updated_config(c: ConfigView, key: Seq<char>, v: Seq<char>) -> Option<ConfigView> {
    if key == "app_home"@ {
        Some(ConfigView { app_home: v, ..c })
    } else if key == "default_notebook"@ {
        Some(ConfigView { default_notebook: v, ..c })
    } else if key == "editor"@ {
        Some(ConfigView { editor: v, ..c })
    } else if key == "viewer"@ {
        Some(ConfigView { viewer: v, ..c })
    } else {
        None
    }
}

impl Config {
    /// The configuration a first run starts from, under the given home
    /// directory.
    pub fn default_config(app_home: String) -> (r: Config)
        ensures
            r@.app_home == app_home@,
            r@.default_notebook == "/Misc"@,
            r@.editor == "nvim"@,
            r@.viewer == "nvim -R"@,
    {
        Config {
            app_home,
            default_notebook: String::from_str("/Misc"),
            editor: String::from_str("nvim"),
            viewer: String::from_str("nvim -R"),
        }
    }

    /// The value the key names, or nothing for an unknown key.
    pub fn get_field(&self, key: &str) -> (r: Option<String>)
        ensures
            match r {
                Some(v) => field_of(self@, key@) == Some(v@),
                None => field_of(self@, key@) is None,
            },
    {
        if str_eq(key, "app_home") {
            Some(self.app_home.clone())
        } else if str_eq(key, "default_notebook") {
            Some(self.default_notebook.clone())
        } else if str_eq(key, "editor") {
            Some(self.editor.clone())
        } else if str_eq(key, "viewer") {
            Some(self.viewer.clone())
        } else {
            None
        }
    }

    /// The configuration with the key set to the value; an unknown key
    /// changes nothing, and the flag says which happened.
    pub fn with_setting(self, key: &str, value: String) -> (r: (Config, bool))
        ensures
            r.1 ==> updated_config(self@, key@, value@) == Some(r.0@),
            !r.1 ==> updated_config(self@, key@, value@) is None && r.0@ == self@,
    {
        if str_eq(key, "app_home") {
            (Config { app_home: value, ..self }, true)
        } else if str_eq(key, "default_notebook") {
            (Config { default_notebook: value, ..self }, true)
        } else if str_eq(key, "editor") {
            (Config { editor: value, ..self }, true)
        } else if str_eq(key, "viewer") {
            (Config { viewer: value, ..self }, true)
        } else {
            (self, false)
        }
    }
}

} // verus!
