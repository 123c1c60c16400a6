//! The two configuration files the app keeps: its own and the mod loader's.
use vstd::prelude::*;
use crate::error::{Error, ErrorKind, ModError};
use crate::ini_store::{
    ini_new, ini_section, ini_section_mut, ini_set, ini_set_spec, ini_sections, key_count,
    props_entries, props_is_empty, props_len, props_pairs, section_of, IniView, PropsView,
};
use crate::text::{concat, str_eq};
use crate::error::msg_sep;
use crate::utils::ini::writer::{bool_text, save_bool, save_value_ext, set_value_text};
use crate::ini_store::{ini_text, ini_write};
use crate::utils::ini::writer::{EXT_SEPARATOR, WRITE_SEPARATOR};
use crate::utils::ini::parser::{err_view, read_bool_spec, read_u32_spec, IniProperty};
use crate::{DEFAULT_INI_VALUES, DEFAULT_LOADER_VALUES, INI_KEYS, INI_SECTIONS, LOADER_KEYS, LOADER_SECTIONS};

verus! {

/// `true` when the section `name` is missing or has no entries.
pub open spec fn section_is_empty(v: IniView, name: Seq<char>) -> bool {
    match section_of(v, Some(name)) {
        Some(p) => p.len() == 0,
        None => true,
    }
}

/// The number of distinct keys in the section `name` (0 when it is missing).
pub open spec fn section_key_count(v: IniView, name: Seq<char>) -> nat {
    match section_of(v, Some(name)) {
        Some(p) => key_count(p),
        None => 0,
    }
}

pub trait Config: Sized {
    /// The sections of the document.
    spec fn sections(&self) -> IniView;

    /// Where the document is kept.
    spec fn dir_view(&self) -> Seq<char>;

    /// The name of the section that lists the registered mods.
    spec fn mods_section() -> Seq<char>;

    /// returns a reference to where the read file is located
    fn path(&self) -> (r: &str)
        ensures
            r@ == self.dir_view();

    /// returns a reference to the read in memory data
    fn data(&self) -> (r: &::ini::Ini)
        ensures
            ini_sections(*r) == self.sections();

    /// Set (replace) key-value pair in the section (all with the same name)
    fn set(&mut self, section: Option<&str>, key: &str, value: &str)
        ensures
            final(self).sections() == ini_set_spec(old(self).sections(), crate::ini_store::opt_view(section), key@, value@),
            final(self).dir_view() == old(self).dir_view();

    /// manually construct this type
    fn from(data: ::ini::Ini, ini_dir: &str) -> (r: Self)
        ensures
            r.sections() == ini_sections(data),
            r.dir_view() == ini_dir@;

    /// returns a default `Self` with the ini_dir set
    fn default(ini_dir: &str) -> (r: Self)
        ensures
            r.sections() == empty_sections(),
            r.dir_view() == ini_dir@;

    /// returns a empty `Self`, avoid using `empty()` and use `default()` when possible
    fn empty() -> (r: Self)
        ensures
            r.sections() == empty_sections(),
            r.dir_view() == Seq::<char>::empty();

    /// swaps `Self.data` with an empty document and returns the contents
    fn empty_contents(&mut self) -> (r: ::ini::Ini)
        ensures
            ini_sections(r) == old(self).sections(),
            final(self).sections() == empty_sections(),
            final(self).dir_view() == old(self).dir_view();

    /// returns `true` if no mods are registered
    fn mods_is_empty(&self) -> (r: bool)
        ensures
            r == section_is_empty(self.sections(), Self::mods_section());

    /// returns the number of mods registered
    fn mods_registered(&self) -> (r: usize)
        ensures
            r == section_key_count(self.sections(), Self::mods_section());
}

/// The app's own configuration: its document and where it is kept.
#[derive(Debug)]
pub struct Cfg {
    data: ::ini::Ini,
    dir: String,
}

/// The mod loader's configuration: its document and where it is kept.
#[derive(Debug)]
pub struct ModLoaderCfg {
    data: ::ini::Ini,
    dir: String,
}

/// The sections of an empty document.
pub open spec fn empty_sections() -> IniView {
    seq![(None::<Seq<char>>, Seq::<(Seq<char>, Seq<char>)>::empty())]
}

impl Config for Cfg {
    closed spec fn sections(&self) -> IniView {
        ini_sections(self.data)
    }

    closed spec fn dir_view(&self) -> Seq<char> {
        self.dir@
    }

    open spec fn mods_section() -> Seq<char> {
        INI_SECTIONS[2]@
    }

    fn path(&self) -> (r: &str)
    {
        self.dir.as_str()
    }

    fn data(&self) -> (r: &::ini::Ini)
    {
        &self.data
    }

    fn set(&mut self, section: Option<&str>, key: &str, value: &str)
    {
        ini_set(&mut self.data, section, key, value);
    }

    fn from(data: ::ini::Ini, ini_dir: &str) -> (r: Cfg)
    {
        Cfg { data, dir: ini_dir.to_owned() }
    }

    fn default(ini_dir: &str) -> (r: Cfg)
    {
        Cfg { data: ini_new(), dir: ini_dir.to_owned() }
    }

    fn empty() -> (r: Cfg)
    {
        Cfg { data: ini_new(), dir: String::new() }
    }

    fn empty_contents(&mut self) -> (r: ::ini::Ini)
    {
        let mut d = ini_new();
        std::mem::swap(&mut d, &mut self.data);
        d
    }

    fn mods_is_empty(&self) -> (r: bool)
    {
        match ini_section(&self.data, Some(INI_SECTIONS[2])) {
            Some(p) => props_is_empty(p),
            None => true,
        }
    }

    fn mods_registered(&self) -> (r: usize)
    {
        match ini_section(&self.data, Some(INI_SECTIONS[2])) {
            Some(p) => {
                if props_is_empty(p) {
                    assert(key_count(props_entries(*p)) == 0);
                    0
                } else {
                    props_len(p)
                }
            },
            None => 0,
        }
    }
}

impl Config for ModLoaderCfg {
    closed spec fn sections(&self) -> IniView {
        ini_sections(self.data)
    }

    closed spec fn dir_view(&self) -> Seq<char> {
        self.dir@
    }

    open spec fn mods_section() -> Seq<char> {
        LOADER_SECTIONS[1]@
    }

    fn path(&self) -> (r: &str)
    {
        self.dir.as_str()
    }

    fn data(&self) -> (r: &::ini::Ini)
    {
        &self.data
    }

    fn set(&mut self, section: Option<&str>, key: &str, value: &str)
    {
        ini_set(&mut self.data, section, key, value);
    }

    fn from(data: ::ini::Ini, ini_dir: &str) -> (r: ModLoaderCfg)
    {
        ModLoaderCfg { data, dir: ini_dir.to_owned() }
    }

    fn default(ini_dir: &str) -> (r: ModLoaderCfg)
    {
        ModLoaderCfg { data: ini_new(), dir: ini_dir.to_owned() }
    }

    fn empty() -> (r: ModLoaderCfg)
    {
        ModLoaderCfg { data: ini_new(), dir: String::new() }
    }

    fn empty_contents(&mut self) -> (r: ::ini::Ini)
    {
        let mut d = ini_new();
        std::mem::swap(&mut d, &mut self.data);
        d
    }

    fn mods_is_empty(&self) -> (r: bool)
    {
        match ini_section(&self.data, Some(LOADER_SECTIONS[1])) {
            Some(p) => props_is_empty(p),
            None => true,
        }
    }

    fn mods_registered(&self) -> (r: usize)
    {
        match ini_section(&self.data, Some(LOADER_SECTIONS[1])) {
            Some(p) => {
                if props_is_empty(p) {
                    assert(key_count(props_entries(*p)) == 0);
                    0
                } else {
                    props_len(p)
                }
            },
            None => 0,
        }
    }
}

impl Cfg {
    /// returns the value stored with key "dark_mode" as `bool`; where it can not be
    /// read, the key is reset to its default in `content`, the text read from the
    /// configuration file: the error comes back with what happened added, and with the
    /// new text for the caller to write to the file (`None` where saving failed)
    pub fn get_dark_mode(&self, content: Result<String, Error>) -> (r: Result<bool, (Error, Option<String>)>)
        ensures
            match read_bool_spec(self.sections(), Some(INI_SECTIONS[0]@), INI_KEYS[0]@) {
                Ok(v) => r matches Ok(x) && x == v,
                Err(ev) => r matches Err((e, t)) && cfg_reset(ev, Some(INI_SECTIONS[0]@), INI_KEYS[0]@, content_view(content))
                    == (err_view(e), text_view(t)),
            },
    {
        match IniProperty::<bool>::read(&self.data, Some(INI_SECTIONS[0]), INI_KEYS[0]) {
            Ok(p) => Ok(p.value),
            Err(e) => {
                let ghost ev = err_view(e);
                let (err, t) = self.save_default_val(Some(INI_SECTIONS[0]), INI_KEYS[0], e, content);
                Err((err, t))
            },
        }
    }

    /// returns the value stored with key "save_log" as `bool`; where it can not be
    /// read, the key is reset to its default in `content`, the text read from the
    /// configuration file: the error comes back with what happened added, and with the
    /// new text for the caller to write to the file (`None` where saving failed)
    pub fn get_save_log(&self, content: Result<String, Error>) -> (r: Result<bool, (Error, Option<String>)>)
        ensures
            match read_bool_spec(self.sections(), Some(INI_SECTIONS[0]@), INI_KEYS[1]@) {
                Ok(v) => r matches Ok(x) && x == v,
                Err(ev) => r matches Err((e, t)) && cfg_reset(ev, Some(INI_SECTIONS[0]@), INI_KEYS[1]@, content_view(content))
                    == (err_view(e), text_view(t)),
            },
    {
        match IniProperty::<bool>::read(&self.data, Some(INI_SECTIONS[0]), INI_KEYS[1]) {
            Ok(p) => Ok(p.value),
            Err(e) => {
                let ghost ev = err_view(e);
                let (err, t) = self.save_default_val(Some(INI_SECTIONS[0]), INI_KEYS[1], e, content);
                Err((err, t))
            },
        }
    }
}

impl ModLoaderCfg {
    /// returns the value stored with key "load_delay" as `u32`; where it can not be
    /// read, the key is reset to its default in `content`, the text read from the
    /// configuration file: the error comes back with what happened added, and with the
    /// new text for the caller to write to the file (`None` where saving failed)
    pub fn get_load_delay(&self, content: Result<String, Error>) -> (r: Result<u32, (Error, Option<String>)>)
        ensures
            match read_u32_spec(self.sections(), Some(LOADER_SECTIONS[0]@), LOADER_KEYS[0]@) {
                Ok(v) => r matches Ok(x) && x == v,
                Err(ev) => r matches Err((e, t)) && loader_reset(ev, Some(LOADER_SECTIONS[0]@), LOADER_KEYS[0]@, content_view(content))
                    == (err_view(e), text_view(t)),
            },
    {
        match IniProperty::<u32>::read(&self.data, Some(LOADER_SECTIONS[0]), LOADER_KEYS[0]) {
            Ok(p) => Ok(p.value),
            Err(e) => {
                let ghost ev = err_view(e);
                let (err, t) = self.save_default_val(Some(LOADER_SECTIONS[0]), LOADER_KEYS[0], e, content);
                Err((err, t))
            },
        }
    }

    /// returns the value stored with key "show_terminal" as `bool`; where it can not be
    /// read, the key is reset to its default in `content`, the text read from the
    /// configuration file: the error comes back with what happened added, and with the
    /// new text for the caller to write to the file (`None` where saving failed)
    pub fn get_show_terminal(&self, content: Result<String, Error>) -> (r: Result<bool, (Error, Option<String>)>)
        ensures
            match read_bool_spec(self.sections(), Some(LOADER_SECTIONS[0]@), LOADER_KEYS[1]@) {
                Ok(v) => r matches Ok(x) && x == v,
                Err(ev) => r matches Err((e, t)) && loader_reset(ev, Some(LOADER_SECTIONS[0]@), LOADER_KEYS[1]@, content_view(content))
                    == (err_view(e), text_view(t)),
            },
    {
        match IniProperty::<bool>::read(&self.data, Some(LOADER_SECTIONS[0]), LOADER_KEYS[1]) {
            Ok(p) => Ok(p.value),
            Err(e) => {
                let ghost ev = err_view(e);
                let (err, t) = self.save_default_val(Some(LOADER_SECTIONS[0]), LOADER_KEYS[1], e, content);
                Err((err, t))
            },
        }
    }

    /// The entries of "loadorder".
    pub open spec fn order_entries(self) -> PropsView {
        section_of(self.sections(), Some(LOADER_SECTIONS[1]@))->0
    }

    /// `true` when the document has a "loadorder" section.
    pub open spec fn has_order_section(self) -> bool {
        section_of(self.sections(), Some(LOADER_SECTIONS[1]@)) is Some
    }

    /// returns a mutable reference to the key value pairs stored in "loadorder"
    pub fn mut_section(&mut self) -> (r: &mut ::ini::Properties)
        requires
            old(self).has_order_section(),
        ensures
            props_entries(*r) == old(self).order_entries(),
            final(self).sections() == old(self).sections().update(
                crate::ini_store::section_index(old(self).sections(), Some(LOADER_SECTIONS[1]@)),
                (Some(LOADER_SECTIONS[1]@), props_entries(*final(r))),
            ),
            final(self).dir_view() == old(self).dir_view(),
    {
        match ini_section_mut(&mut self.data, Some(LOADER_SECTIONS[1])) {
            Some(p) => p,
            None => vstd::pervasive::unreached(),
        }
    }

    /// returns an immutable reference to the key value pairs stored in "loadorder"
    pub fn section(&self) -> (r: &::ini::Properties)
        requires
            self.has_order_section(),
        ensures
            props_entries(*r) == self.order_entries(),
    {
        match ini_section(&self.data, Some(LOADER_SECTIONS[1])) {
            Some(p) => p,
            None => vstd::pervasive::unreached(),
        }
    }

    /// the key value pairs stored in "loadorder", in order
    pub fn iter(&self) -> (r: Vec<(&str, &str)>)
        requires
            self.has_order_section(),
        ensures
            r@.len() == self.order_entries().len(),
            forall|i: int| 0 <= i < r@.len() ==> (#[trigger] r@[i]).0@ == self.order_entries()[i].0
                && r@[i].1@ == self.order_entries()[i].1,
    {
        props_pairs(self.section())
    }
}


/// How much of the game directory was found.
#[derive(Debug)]
pub enum PathResult {
    Full(String),
    Partial(String),
    Missing(String),
}

/// The game's own files, which a game directory must hold.
pub open spec fn game_files() -> Seq<&'static str> {
    seq![crate::REQUIRED_GAME_FILES[0], crate::REQUIRED_GAME_FILES[1], crate::REQUIRED_GAME_FILES[2]]
}

/// The message given when some of the game's own files are not in the saved game
/// directory.
pub open spec fn game_files_missing_msg(missing: Seq<Seq<char>>) -> Seq<char> {
    "Could not verify the install directory of Elden Ring, the following files were not found: "@
        + crate::utils::display::list_text(missing)
}

/// checks the saved game directory, given its listing `entries` (the names it holds):
/// it must hold every one of the game's own files
pub fn validate_game_dir(entries: &[String]) -> (r: Result<(), Error>)
    ensures
        ({
            let missing = crate::files::not_found_spec(entries@, game_files());
            if missing.len() == 0 {
                r is Ok
            } else {
                r matches Err(e) && e.kind == ErrorKind::NotFound && e.msg@ == game_files_missing_msg(missing)
            }
        }),
{
    let list: Vec<&str> = vec![crate::REQUIRED_GAME_FILES[0], crate::REQUIRED_GAME_FILES[1], crate::REQUIRED_GAME_FILES[2]];
    assert(list@ =~= game_files());
    let missing = crate::files::files_not_found(entries, list.as_slice());
    if missing.len() == 0 {
        return Ok(());
    }
    let shown = crate::utils::display::DisplayVec(missing.as_slice()).to_string();
    assert(crate::utils::display::item_texts(missing@) =~= crate::files::strs_view(missing@));
    let msg = concat("Could not verify the install directory of Elden Ring, the following files were not found: ", shown.as_str());
    Err(Error::from_string(ErrorKind::NotFound, msg))
}

impl Cfg {
    /// returns various levels of a path to the game directory: the one saved in the
    /// file when it is valid (`saved`, checked by the caller); else `located`, the
    /// directory found on disk, when it holds the game's files (`located_is_game`),
    /// which is then set in memory and must be saved to the file by the caller; else
    /// `located` as a partial path when it has more than one part, or as nothing found
    pub fn attempt_locate_game(&mut self, saved: Option<String>, located: &str, located_is_game: bool) -> (r: PathResult)
        ensures
            final(self).dir_view() == old(self).dir_view(),
            match saved {
                Some(p) => r matches PathResult::Full(x) && x@ == p@ && final(self).sections() == old(self).sections(),
                None => if located_is_game {
                    r matches PathResult::Full(x) && x@ == located@
                        && final(self).sections() == ini_set_spec(old(self).sections(), Some(INI_SECTIONS[1]@), INI_KEYS[2]@, located@)
                } else {
                    &&& final(self).sections() == old(self).sections()
                    &&& if crate::paths::parts(located@).len() > 1 {
                        r matches PathResult::Partial(x) && x@ == located@
                    } else {
                        r matches PathResult::Missing(x) && x@ == located@
                    }
                },
            },
    {
        match saved {
            Some(p) => {
                return PathResult::Full(p);
            },
            None => {},
        }
        if located_is_game {
            self.set(Some(INI_SECTIONS[1]), INI_KEYS[2], located);
            return PathResult::Full(located.to_owned());
        }
        let parts = crate::paths::split_parts(located);
        if parts.len() > 1 {
            PathResult::Partial(located.to_owned())
        } else {
            PathResult::Missing(located.to_owned())
        }
    }
}


impl Cfg {
    /// the text of the document, as it is written to the app's configuration file
    pub fn to_text(&self) -> (r: String)
        ensures
            r@ == ini_text(self.sections(), WRITE_SEPARATOR@),
    {
        ini_write(&self.data, WRITE_SEPARATOR)
    }
}

impl ModLoaderCfg {
    /// the text of the document, as it is written to the mod loader's configuration file
    pub fn to_text(&self) -> (r: String)
        ensures
            r@ == ini_text(self.sections(), EXT_SEPARATOR@),
    {
        ini_write(&self.data, EXT_SEPARATOR)
    }
}


/// What `save_default_val` makes of the read error `in_err`: the error with what
/// happened to the reset appended, and the new text of the file when the reset could be
/// made. `saved` is the text with the default saved, or why that failed.
pub open spec fn default_reset_spec(in_msg: Seq<char>, key: Seq<char>, shown_default: Seq<char>, saved: Result<Seq<char>, Seq<char>>) -> (Seq<char>, Option<Seq<char>>) {
    match saved {
        Ok(t) => (in_msg + msg_sep(false) + "Sucessfully reset "@ + key + " to "@ + shown_default, Some(t)),
        Err(m) => (in_msg + msg_sep(false) + m, None),
    }
}

/// What reading the configuration file gave: its text or the error's message.
pub open spec fn content_view(content: Result<String, Error>) -> Result<Seq<char>, Seq<char>> {
    match content {
        Ok(c) => Ok(c@),
        Err(e) => Err(e.msg@),
    }
}

/// The text of an optional `String`.
pub open spec fn text_view(t: Option<String>) -> Option<Seq<char>> {
    match t {
        Some(s) => Some(s@),
        None => None,
    }
}

/// What resetting `key` of the app's configuration to its default makes of the read
/// error `in_err`, and the new text of the file (`None` where saving failed).
pub open spec fn cfg_reset(in_err: (ErrorKind, Seq<char>), section: Option<Seq<char>>, key: Seq<char>, content: Result<Seq<char>, Seq<char>>)
    -> ((ErrorKind, Seq<char>), Option<Seq<char>>)
{
    let default_val = if key == INI_KEYS[0]@ { DEFAULT_INI_VALUES[0] } else { DEFAULT_INI_VALUES[1] };
    let saved: Result<Seq<char>, Seq<char>> = match content {
        Err(m) => Err(m),
        Ok(c) => set_value_text(c, section, key, bool_text(default_val), WRITE_SEPARATOR@),
    };
    let (msg, text) = default_reset_spec(in_err.1, key, bool_text(DEFAULT_INI_VALUES[0]), saved);
    ((in_err.0, msg), text)
}

/// What resetting `key` of the mod loader's configuration to its default makes of the
/// read error `in_err`, and the new text of the file (`None` where saving failed).
pub open spec fn loader_reset(in_err: (ErrorKind, Seq<char>), section: Option<Seq<char>>, key: Seq<char>, content: Result<Seq<char>, Seq<char>>)
    -> ((ErrorKind, Seq<char>), Option<Seq<char>>)
{
    let default_val = if key == LOADER_KEYS[0]@ { DEFAULT_LOADER_VALUES[0]@ } else { DEFAULT_LOADER_VALUES[1]@ };
    let saved: Result<Seq<char>, Seq<char>> = match content {
        Err(m) => Err(m),
        Ok(c) => set_value_text(c, section, key, default_val, EXT_SEPARATOR@),
    };
    let (msg, text) = default_reset_spec(in_err.1, key, default_val, saved);
    ((in_err.0, msg), text)
}

impl Cfg {
    /// resets `key` to its default in the text of the app's configuration file (`content`
    /// is what reading the file gave) and appends what happened to `in_err`; gives back
    /// the error and the new text, which the caller writes to the file
    pub fn save_default_val(&self, section: Option<&str>, key: &str, in_err: Error, content: Result<String, Error>) -> (r: (Error, Option<String>))
        requires
            key@ == INI_KEYS[0]@ || key@ == INI_KEYS[1]@,
        ensures
            r.0.kind == in_err.kind,
            ({
                let default_val = if key@ == INI_KEYS[0]@ { DEFAULT_INI_VALUES[0] } else { DEFAULT_INI_VALUES[1] };
                let saved: Result<Seq<char>, Seq<char>> = match content {
                    Err(e) => Err(e.msg@),
                    Ok(c) => set_value_text(c@, crate::ini_store::opt_view(section), key@, bool_text(default_val), WRITE_SEPARATOR@),
                };
                let (msg, text) = default_reset_spec(in_err.msg@, key@, bool_text(DEFAULT_INI_VALUES[0]), saved);
                &&& r.0.msg@ == msg
                &&& match r.1 {
                    Some(t) => text == Some(t@),
                    None => text is None,
                }
            }),
    {
        let default_val = if str_eq(key, INI_KEYS[0]) { DEFAULT_INI_VALUES[0] } else { DEFAULT_INI_VALUES[1] };
        let mut err = in_err;
        let saved = match content {
            Err(e) => Err(e),
            Ok(c) => save_bool(c.as_str(), section, key, default_val),
        };
        match saved {
            Err(e) => {
                err.add_msg(e.message(), false);
                (err, None)
            },
            Ok(t) => {
                let mut m = concat("Sucessfully reset ", key);
                m.append(" to ");
                m.append(if DEFAULT_INI_VALUES[0] { "true" } else { "false" });
                proof {
                    reveal_strlit("Sucessfully reset ");
                    reveal_strlit(" to ");
                    reveal_strlit("true");
                    reveal_strlit("false");
                }
                err.add_msg(m.as_str(), false);
                (err, Some(t))
            },
        }
    }
}

impl ModLoaderCfg {
    /// resets `key` to its default in the text of the mod loader's configuration file
    /// (`content` is what reading the file gave) and appends what happened to `in_err`;
    /// gives back the error and the new text, which the caller writes to the file
    pub fn save_default_val(&self, section: Option<&str>, key: &str, in_err: Error, content: Result<String, Error>) -> (r: (Error, Option<String>))
        requires
            key@ == LOADER_KEYS[0]@ || key@ == LOADER_KEYS[1]@,
        ensures
            r.0.kind == in_err.kind,
            ({
                let default_val = if key@ == LOADER_KEYS[0]@ { DEFAULT_LOADER_VALUES[0]@ } else { DEFAULT_LOADER_VALUES[1]@ };
                let saved: Result<Seq<char>, Seq<char>> = match content {
                    Err(e) => Err(e.msg@),
                    Ok(c) => set_value_text(c@, crate::ini_store::opt_view(section), key@, default_val, EXT_SEPARATOR@),
                };
                let (msg, text) = default_reset_spec(in_err.msg@, key@, default_val, saved);
                &&& r.0.msg@ == msg
                &&& match r.1 {
                    Some(t) => text == Some(t@),
                    None => text is None,
                }
            }),
    {
        let default_val = if str_eq(key, LOADER_KEYS[0]) { DEFAULT_LOADER_VALUES[0] } else { DEFAULT_LOADER_VALUES[1] };
        let mut err = in_err;
        let saved = match content {
            Err(e) => Err(e),
            Ok(c) => save_value_ext(c.as_str(), section, key, default_val),
        };
        match saved {
            Err(e) => {
                err.add_msg(e.message(), false);
                (err, None)
            },
            Ok(t) => {
                let mut m = concat("Sucessfully reset ", key);
                m.append(" to ");
                m.append(default_val);
                proof {
                    reveal_strlit("Sucessfully reset ");
                    reveal_strlit(" to ");
                }
                err.add_msg(m.as_str(), false);
                (err, Some(t))
            },
        }
    }
}

} // verus!
