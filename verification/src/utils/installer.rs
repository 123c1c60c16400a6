//! What installing a mod's files means: where each file goes and what the app shows
//! of them. Walking directories and copying is left to the caller.
use vstd::prelude::*;
use crate::error::{joined_msgs, Error, ErrorKind};
use crate::files::{
    file_data_spec, file_name_from_str, file_name_from_str_spec, file_name_or_err, has_extension,
    off_state, state_data_spec, strings_view, FileData,
};
use crate::paths::{
    ends_with_spec, file_name_spec, parent_spec, parts, push_path, push_spec, strip_prefix,
    strip_prefix_spec,
};
use crate::text::{decimal, spec_find, usize_to_string};
use crate::utils::ini::parser::RegMod;

verus! {

/// How many of the files found in a directory the app lists.
#[derive(Debug, Clone, Copy, PartialEq, Eq, Structural)]
pub enum DisplayItems {
    Limit(usize),
    All,
    Nothing,
}

/// The limit on the files listed, and how far the listing has come.
#[derive(Debug)]
pub struct CutoffData {
    pub limit: usize,
    pub file_count: usize,
    pub counter: usize,
}

/// The state of listing the files found in a directory.
#[derive(Debug)]
pub struct Cutoff {
    pub reached: bool,
    pub has_limit: bool,
    pub display_count: usize,
    pub data: CutoffData,
}

impl Cutoff {
    /// builds the correct Cutoff data for the given `DisplayItems`
    /// `file_count` is the number of files in the directory tree being operated on
    pub fn from(input: &DisplayItems, file_count: usize) -> (r: Cutoff)
        requires
            *input == DisplayItems::All ==> file_count < usize::MAX,
            input matches DisplayItems::Limit(n) ==> n <= usize::MAX - 2,
        ensures
            match *input {
                DisplayItems::All => !r.reached && !r.has_limit && r.display_count == file_count + 1
                    && r.data.limit == 1 && r.data.file_count == file_count && r.data.counter == 0,
                DisplayItems::Limit(n) => !r.reached && r.has_limit && r.display_count == n + 2
                    && r.data.limit == n && r.data.file_count == file_count && r.data.counter == 0,
                DisplayItems::Nothing => r.reached && !r.has_limit && r.display_count == 1
                    && r.data.limit == 0 && r.data.file_count == 0 && r.data.counter == 0,
            },
    {
        match input {
            DisplayItems::All => Cutoff {
                reached: false,
                has_limit: false,
                display_count: file_count + 1,
                data: CutoffData { limit: 1, file_count, counter: 0 },
            },
            DisplayItems::Limit(num) => Cutoff {
                reached: false,
                has_limit: true,
                display_count: *num + 2,
                data: CutoffData { limit: *num, file_count, counter: 0 },
            },
            DisplayItems::Nothing => Cutoff {
                reached: true,
                has_limit: false,
                display_count: 1,
                data: CutoffData { limit: 0, file_count: 0, counter: 0 },
            },
        }
    }

    /// the line to list for the next file found, `shown` being how the file is shown;
    /// once the limit is reached, one line tells how many files are left unlisted
    pub fn next_line(&mut self, shown: &str) -> (r: Option<String>)
        requires
            !old(self).reached && old(self).data.counter >= old(self).data.limit
                ==> old(self).data.file_count >= old(self).data.counter,
            old(self).has_limit ==> old(self).data.counter < usize::MAX,
        ensures
            final(self).has_limit == old(self).has_limit,
            final(self).display_count == old(self).display_count,
            final(self).data.limit == old(self).data.limit,
            final(self).data.file_count == old(self).data.file_count,
            old(self).reached ==> r is None && final(self).reached && final(self).data.counter == old(self).data.counter,
            !old(self).reached && old(self).data.counter < old(self).data.limit ==> ({
                &&& r matches Some(x) && x@ == shown@
                &&& !final(self).reached
                &&& final(self).data.counter == if old(self).has_limit { old(self).data.counter + 1 } else { old(self).data.counter as int }
            }),
            !old(self).reached && old(self).data.counter >= old(self).data.limit ==> ({
                let rem = old(self).data.file_count - old(self).data.counter;
                &&& final(self).reached
                &&& final(self).data.counter == old(self).data.counter
                &&& if rem == 0 {
                    r is None
                } else if rem == 1 {
                    r matches Some(x) && x@ == "Plus 1 more file"@
                } else {
                    r matches Some(x) && x@ == "Plus "@ + decimal(rem as nat) + " more files..."@
                }
            }),
    {
        if self.reached {
            return None;
        }
        if self.data.counter < self.data.limit {
            if self.has_limit {
                self.data.counter = self.data.counter + 1;
            }
            return Some(shown.to_owned());
        }
        self.reached = true;
        let remainder = self.data.file_count - self.data.counter;
        if remainder == 0 {
            None
        } else if remainder == 1 {
            Some("Plus 1 more file".to_owned())
        } else {
            let mut m = "Plus ".to_owned();
            let n = usize_to_string(remainder);
            m.append(n.as_str());
            m.append(" more files...");
            Some(m)
        }
    }
}

/// Where a mod's files come from and where they are installed.
#[derive(Debug, Clone)]
pub struct InstallData {
    pub name: String,
    from_paths: Vec<String>,
    to_paths: Vec<String>,
    pub display_paths: String,
    pub parent_dir: String,
    pub install_dir: String,
}

/// How a file is shown: relative to `parent` when it lies in it, else whole.
pub open spec fn shown_path(p: Seq<char>, parent: Seq<char>) -> Seq<char> {
    match strip_prefix_spec(p, parent) {
        Some(s) => s,
        None => p,
    }
}

/// How a file found while adding a directory is listed: relative to `parent` when it
/// lies in it, else by its file name.
pub open spec fn listed_name_spec(p: Seq<char>, parent: Seq<char>) -> Seq<char> {
    match strip_prefix_spec(p, parent) {
        Some(s) => s,
        None => file_name_spec(p)->0,
    }
}

/// how the file `path`, found while adding a directory, is listed (see `Cutoff::next_line`)
pub fn listed_name(path: &str, parent: &str) -> (r: String)
    requires
        strip_prefix_spec(path@, parent@) is Some || file_name_spec(path@) is Some,
    ensures
        r@ == listed_name_spec(path@, parent@),
{
    match strip_prefix(path, parent) {
        Some(s) => s,
        None => match crate::paths::file_name(path) {
            Some(f) => f,
            None => String::new(),
        },
    }
}

/// The files shown one per line.
pub open spec fn display_text(from: Seq<Seq<char>>, parent: Seq<char>) -> Seq<char> {
    joined_msgs(from.map_values(|p: Seq<char>| shown_path(p, parent)), seq!['\n'])
}

/// Where the files of `from` that lie in `parent` are installed, in order.
pub open spec fn install_targets(from: Seq<Seq<char>>, parent: Seq<char>, install_dir: Seq<char>) -> Seq<Seq<char>>
    decreases from.len(),
{
    if from.len() == 0 {
        Seq::empty()
    } else {
        let r = install_targets(from.drop_last(), parent, install_dir);
        match strip_prefix_spec(from.last(), parent) {
            Some(s) => r.push(push_spec(install_dir, s)),
            None => r,
        }
    }
}

/// The directory mods are installed in: `mods` in the game directory.
pub open spec fn mods_dir(game_dir: Seq<char>) -> Seq<char> {
    push_spec(game_dir, "mods"@)
}

/// The error of asking for the parent directory of no files.
pub open spec fn no_parent_msg() -> Seq<char> {
    "Failed to create a parent_dir"@
}

impl InstallData {
    /// The mod's name.
    pub closed spec fn name_view(self) -> Seq<char> {
        self.name@
    }

    /// The files shown, one per line.
    pub closed spec fn display_view(self) -> Seq<char> {
        self.display_paths@
    }

    /// The deepest directory holding the files.
    pub closed spec fn parent_view(self) -> Seq<char> {
        self.parent_dir@
    }

    /// Where the files are installed.
    pub closed spec fn install_view(self) -> Seq<char> {
        self.install_dir@
    }

    /// The files to install.
    pub closed spec fn from_view(self) -> Seq<Seq<char>> {
        strings_view(self.from_paths@)
    }

    /// Where the files are installed (as far as collected).
    pub closed spec fn to_view(self) -> Seq<Seq<char>> {
        strings_view(self.to_paths@)
    }

    /// the files to install
    pub fn from_paths(&self) -> (r: &Vec<String>)
        ensures
            strings_view(r@) == self.from_view(),
    {
        &self.from_paths
    }

    /// where the files are installed
    pub fn to_paths(&self) -> (r: &Vec<String>)
        ensures
            strings_view(r@) == self.to_view(),
    {
        &self.to_paths
    }

    /// adds a file found while walking a directory to the files to install
    pub fn push_from_path(&mut self, path: String)
        ensures
            final(self).from_view() == old(self).from_view().push(path@),
            final(self).to_view() == old(self).to_view(),
            final(self).name_view() == old(self).name_view(),
            final(self).display_view() == old(self).display_view(),
            final(self).parent_view() == old(self).parent_view(),
            final(self).install_view() == old(self).install_view(),
    {
        let ghost before = strings_view(self.from_paths@);
        self.from_paths.push(path);
        assert(strings_view(self.from_paths@) =~= before.push(path@));
    }

    /// creates a new `InstallData` from a collection of files; `parent_dir` is the
    /// deepest directory that holds the one of them with the fewest ancestors (see
    /// `fewest_ancestors`), or the error met finding it; no files give no parent
    /// directory, an error of kind `Other`
    pub fn new(name: &str, file_paths: Vec<String>, game_dir: &str, parent_dir: Result<String, Error>) -> (r: Result<InstallData, Error>)
        ensures
            file_paths@.len() == 0 ==> (r matches Err(e) && e.kind == ErrorKind::Other && e.msg@ == no_parent_msg()),
            file_paths@.len() > 0 ==> match parent_dir {
                Err(e) => r matches Err(e2) && e2.kind == e.kind && e2.msg@ == e.msg@,
                Ok(p) => r matches Ok(d) && d.name_view() == name@ && d.from_view() == strings_view(file_paths@)
                    && d.parent_view() == p@ && d.install_view() == mods_dir(game_dir@)
                    && d.display_view() == display_text(strings_view(file_paths@), p@)
                    && d.to_view() == install_targets(strings_view(file_paths@), p@, mods_dir(game_dir@)),
            },
    {
        if file_paths.len() == 0 {
            proof {
                reveal_strlit("Failed to create a parent_dir");
            }
            return Err(Error::new(ErrorKind::Other, "Failed to create a parent_dir"));
        }
        let ghost pd = parent_dir;
        let parent = match parent_dir {
            Ok(p) => p,
            Err(e) => return Err(e),
        };
        assert(pd == Ok::<String, Error>(parent));
        let mut data = InstallData {
            name: name.to_owned(),
            from_paths: file_paths,
            to_paths: Vec::new(),
            display_paths: String::new(),
            parent_dir: parent,
            install_dir: push_path(game_dir, "mods"),
        };
        proof {
            reveal_strlit("mods");
            assert(strings_view(data.to_paths@) =~= Seq::<Seq<char>>::empty());
            assert(install_targets(strings_view(data.from_paths@).subrange(0, 0), data.parent_dir@, data.install_dir@) =~= Seq::<Seq<char>>::empty());
        }
        data.init_display_paths();
        let ghost before = data;
        data.collect_to_paths();
        proof {
            let fv = before.from_view();
            assert(fv.subrange(0, fv.len() as int) =~= fv);
            assert(before.to_view() + install_targets(fv, before.parent_view(), before.install_view())
                =~= install_targets(fv, before.parent_view(), before.install_view()));
        }
        Ok(data)
    }

    /// creates a new `InstallData` from a previously installed `RegMod` and amends a new
    /// collection of files; they are installed in the directory named after its only `.dll`
    pub fn amend(amend_to: &RegMod, file_paths: Vec<String>, game_dir: &str, parent_dir: Result<String, Error>) -> (r: Result<InstallData, Error>)
        requires
            forall|i: int| 0 <= i < amend_to.files.dll@.len() ==> (file_name_spec(#[trigger] amend_to.files.dll@[i]@) matches Some(f) ==> has_extension(f)),
        ensures
            ({
                let d = strings_view(amend_to.files.dll@);
                if exists|i: int| 0 <= i < d.len() && file_name_spec(#[trigger] d[i]) is None {
                    r matches Err(e) && e.kind == ErrorKind::InvalidData && e.msg@ == "Could not get file_name"@
                } else if d.len() != 1 {
                    r matches Err(e) && e.kind == ErrorKind::InvalidInput
                        && e.msg@ == "Could not determine the proper file structure for installing files"@
                } else {
                    let dir = push_spec(mods_dir(game_dir@), file_data_spec(file_name_spec(d[0])->0).0);
                    match parent_dir {
                        Err(e) => r matches Err(e2) && e2.kind == e.kind && e2.msg@ == e.msg@,
                        Ok(p) => r matches Ok(x) && x.name_view() == amend_to.name@ && x.from_view() == strings_view(file_paths@)
                            && x.parent_view() == p@ && x.install_view() == dir
                            && x.display_view() == display_text(strings_view(file_paths@), p@)
                            && x.to_view() == install_targets(strings_view(file_paths@), p@, dir),
                    }
                }
            }),
    {
        let ghost d = strings_view(amend_to.files.dll@);
        let mut names: Vec<String> = Vec::new();
        let mut i: usize = 0;
        while i < amend_to.files.dll.len()
            invariant
                i <= amend_to.files.dll@.len(),
                d == strings_view(amend_to.files.dll@),
                forall|j: int| 0 <= j < amend_to.files.dll@.len() ==> (file_name_spec(#[trigger] amend_to.files.dll@[j]@) matches Some(f) ==> has_extension(f)),
                names@.len() == i,
                forall|j: int| 0 <= j < i ==> file_name_spec(#[trigger] d[j]) is Some
                    && names@[j]@ == file_data_spec(file_name_spec(d[j])->0).0,
            decreases amend_to.files.dll@.len() - i,
        {
            assert(d[i as int] == amend_to.files.dll@[i as int]@);
            let f = match file_name_or_err(amend_to.files.dll[i].as_str()) {
                Ok(f) => f,
                Err(e) => return Err(e),
            };
            let fd = FileData::from(f.as_str());
            names.push(fd.name.to_owned());
            i = i + 1;
        }
        if names.len() != 1 {
            return Err(Error::new(ErrorKind::InvalidInput, "Could not determine the proper file structure for installing files"));
        }
        let mods = push_path(game_dir, "mods");
        let install_dir = push_path(mods.as_str(), names[0].as_str());
        proof {
            reveal_strlit("mods");
        }
        let parent = match parent_dir {
            Ok(p) => p,
            Err(e) => return Err(e),
        };
        let mut data = InstallData {
            name: amend_to.name.clone(),
            from_paths: file_paths,
            to_paths: Vec::new(),
            display_paths: String::new(),
            parent_dir: parent,
            install_dir,
        };
        proof {
            assert(strings_view(data.to_paths@) =~= Seq::<Seq<char>>::empty());
            assert(install_targets(strings_view(data.from_paths@).subrange(0, 0), data.parent_dir@, data.install_dir@) =~= Seq::<Seq<char>>::empty());
        }
        data.init_display_paths();
        let ghost before = data;
        data.collect_to_paths();
        proof {
            let fv = before.from_view();
            assert(fv.subrange(0, fv.len() as int) =~= fv);
            assert(before.to_view() + install_targets(fv, before.parent_view(), before.install_view())
                =~= install_targets(fv, before.parent_view(), before.install_view()));
        }
        Ok(data)
    }

    /// resets `to_paths`, `from_paths` and `display_paths`, sets `parent_dir` to
    /// `new_directory` on `self` and returns the data it held before
    pub fn reconstruct(&mut self, new_directory: &str) -> (r: InstallData)
        ensures
            r == *old(self),
            final(self).name_view() == old(self).name_view(),
            final(self).install_view() == old(self).install_view(),
            final(self).parent_view() == new_directory@,
            final(self).display_view().len() == 0,
            final(self).from_view().len() == 0,
            final(self).to_view().len() == 0,
    {
        let mut fresh = InstallData {
            name: self.name.clone(),
            from_paths: Vec::new(),
            to_paths: Vec::new(),
            display_paths: String::new(),
            parent_dir: new_directory.to_owned(),
            install_dir: self.install_dir.clone(),
        };
        std::mem::swap(self, &mut fresh);
        fresh
    }

    /// shows `self.from_paths` one per line, each without `self.parent_dir` when it lies in it
    pub fn init_display_paths(&mut self)
        ensures
            final(self).display_view() == display_text(old(self).from_view(), old(self).parent_view()),
            final(self).from_view() == old(self).from_view(),
            final(self).to_view() == old(self).to_view(),
            final(self).name_view() == old(self).name_view(),
            final(self).parent_view() == old(self).parent_view(),
            final(self).install_view() == old(self).install_view(),
    {
        let ghost fv = strings_view(self.from_paths@);
        let ghost shown = fv.map_values(|p: Seq<char>| shown_path(p, self.parent_dir@));
        let mut text = String::new();
        let mut i: usize = 0;
        assert(shown.subrange(0, 0) =~= Seq::<Seq<char>>::empty());
        while i < self.from_paths.len()
            invariant
                i <= self.from_paths@.len(),
                fv == strings_view(self.from_paths@),
                shown == fv.map_values(|p: Seq<char>| shown_path(p, self.parent_dir@)),
                text@ == joined_msgs(shown.subrange(0, i as int), seq!['\n']),
            decreases self.from_paths@.len() - i,
        {
            let s = match strip_prefix(self.from_paths[i].as_str(), self.parent_dir.as_str()) {
                Some(short) => short,
                None => self.from_paths[i].clone(),
            };
            assert(s@ == shown[i as int]);
            if i > 0 {
                text.append("\n");
            }
            text.append(s.as_str());
            proof {
                reveal_strlit("\n");
                let sub = shown.subrange(0, i + 1);
                assert(sub.drop_last() =~= shown.subrange(0, i as int));
                assert(sub.last() == s@);
                if i == 0 {
                    assert(joined_msgs(sub, seq!['\n']) == sub[0]);
                }
                assert(text@ =~= joined_msgs(sub, seq!['\n']));
            }
            i = i + 1;
        }
        assert(shown.subrange(0, shown.len() as int) =~= shown);
        self.display_paths = text;
    }

    /// extends `self.to_paths` with the prefix `self.parent_dir` replaced by
    /// `self.install_dir` for each of `self.from_paths` not yet collected
    pub fn collect_to_paths(&mut self)
        ensures
            final(self).to_view() == if old(self).to_view().len() <= old(self).from_view().len() {
                old(self).to_view() + install_targets(
                    old(self).from_view().subrange(old(self).to_view().len() as int, old(self).from_view().len() as int),
                    old(self).parent_view(), old(self).install_view())
            } else {
                old(self).to_view()
            },
            final(self).from_view() == old(self).from_view(),
            final(self).name_view() == old(self).name_view(),
            final(self).display_view() == old(self).display_view(),
            final(self).parent_view() == old(self).parent_view(),
            final(self).install_view() == old(self).install_view(),
    {
        if self.to_paths.len() > self.from_paths.len() {
            return;
        }
        let ghost fv = strings_view(self.from_paths@);
        let ghost start = self.to_paths@.len() as int;
        let ghost t0 = strings_view(self.to_paths@);
        let mut i: usize = self.to_paths.len();
        assert(fv.subrange(start, start) =~= Seq::<Seq<char>>::empty());
        assert(t0 + install_targets(fv.subrange(start, start), self.parent_dir@, self.install_dir@) =~= t0);
        while i < self.from_paths.len()
            invariant
                0 <= start <= i <= self.from_paths@.len(),
                fv == strings_view(self.from_paths@),
                fv == old(self).from_view(),
                self.name == old(self).name,
                self.display_paths == old(self).display_paths,
                self.parent_dir == old(self).parent_dir,
                self.install_dir == old(self).install_dir,
                strings_view(self.to_paths@) == t0 + install_targets(fv.subrange(start, i as int), self.parent_dir@, self.install_dir@),
            decreases self.from_paths@.len() - i,
        {
            let ghost before = strings_view(self.to_paths@);
            let ghost sub = fv.subrange(start, i + 1);
            assert(sub.drop_last() =~= fv.subrange(start, i as int));
            assert(sub.last() == self.from_paths@[i as int]@);
            match strip_prefix(self.from_paths[i].as_str(), self.parent_dir.as_str()) {
                Some(short) => {
                    let target = push_path(self.install_dir.as_str(), short.as_str());
                    self.to_paths.push(target);
                    assert(strings_view(self.to_paths@) =~= before.push(target@));
                    assert(t0 + install_targets(fv.subrange(start, i + 1), self.parent_dir@, self.install_dir@)
                        =~= (t0 + install_targets(fv.subrange(start, i as int), self.parent_dir@, self.install_dir@)).push(target@));
                },
                None => {},
            }
            i = i + 1;
        }
    }

    /// collects the targets of the files added since, unless every file has one
    pub fn update_to_paths(&mut self)
        ensures
            old(self).to_view().len() == old(self).from_view().len() ==> *final(self) == *old(self),
            old(self).to_view().len() != old(self).from_view().len() ==> final(self).to_view() == if old(self).to_view().len() <= old(self).from_view().len() {
                old(self).to_view() + install_targets(
                    old(self).from_view().subrange(old(self).to_view().len() as int, old(self).from_view().len() as int),
                    old(self).parent_view(), old(self).install_view())
            } else {
                old(self).to_view()
            },
            final(self).from_view() == old(self).from_view(),
            final(self).name_view() == old(self).name_view(),
            final(self).display_view() == old(self).display_view(),
            final(self).parent_view() == old(self).parent_view(),
            final(self).install_view() == old(self).install_view(),
    {
        if self.to_paths.len() != self.from_paths.len() {
            self.collect_to_paths();
        }
    }

    /// Adds a directory's contents to the data, as far as that is decided here (a
    /// second call is not expected to work). `new_dir` is the chosen directory (the
    /// deepest one holding files, see `check_dir_contains_files`), `holds_mods` whether
    /// it holds an entry named `mods`, and `files_beside` the number of files in the
    /// directory above it, which counts only where `new_dir` ends in `mods`.
    /// On `Ok` the caller adds the files below `new_dir` (see `push_from_path`) and then
    /// calls `update_to_paths`; on `Err` nothing changed.
    pub fn update_fields_with_new_dir(&mut self, new_dir: &str, holds_mods: bool, files_beside: usize) -> (r: Result<(), Error>)
        requires
            parent_spec(old(self).install_view()) is Some,
        ensures
            ({
                let game = parent_spec(old(self).install_view())->0;
                if strip_prefix_spec(new_dir@, game) is Some {
                    r matches Err(e) && e.kind == ErrorKind::InvalidInput && e.msg@ == "Files are already installed"@
                } else if holds_mods {
                    r matches Err(e) && e.kind == ErrorKind::InvalidData && e.msg@ == "Invalid file structure"@
                } else if strip_prefix_spec(old(self).parent_view(), new_dir@) is Some {
                    &&& r is Ok
                    &&& final(self).name_view() == old(self).name_view()
                    &&& final(self).install_view() == old(self).install_view()
                    &&& final(self).parent_view() == new_dir@
                    &&& final(self).display_view().len() == 0
                    &&& final(self).from_view().len() == 0
                    &&& final(self).to_view().len() == 0
                } else if ends_with_spec(new_dir@, mods_name()) && files_beside > 0 {
                    r matches Err(e) && e.kind == ErrorKind::InvalidData && e.msg@ == "Invalid file structure"@
                } else {
                    match parent_spec(new_dir@) {
                        Some(p) => {
                            &&& r is Ok
                            &&& final(self).parent_view() == p
                            &&& final(self).name_view() == old(self).name_view()
                            &&& final(self).install_view() == old(self).install_view()
                            &&& final(self).display_view() == old(self).display_view()
                            &&& final(self).from_view() == old(self).from_view()
                            &&& final(self).to_view() == old(self).to_view()
                        },
                        None => r matches Err(e) && e.kind == ErrorKind::InvalidData && e.msg@ == "Could not get parent_dir"@,
                    }
                }
            }),
            r is Err ==> *final(self) == *old(self),
    {
        let game = match crate::paths::parent(self.install_dir.as_str()) {
            Some(g) => g,
            None => return Err(Error::new(ErrorKind::InvalidData, "Could not get parent_dir")),
        };
        if strip_prefix(new_dir, game.as_str()).is_some() {
            return Err(Error::new(ErrorKind::InvalidInput, "Files are already installed"));
        }
        if holds_mods {
            return Err(Error::new(ErrorKind::InvalidData, "Invalid file structure"));
        }
        if strip_prefix(self.parent_dir.as_str(), new_dir).is_some() {
            let _ = self.reconstruct(new_dir);
            return Ok(());
        }
        proof {
            reveal_strlit("mods");
            assert("mods"@ =~= mods_name());
        }
        if crate::paths::ends_with(new_dir, "mods") && files_beside > 0 {
            return Err(Error::new(ErrorKind::InvalidData, "Invalid file structure"));
        }
        match crate::files::parent_or_err(new_dir) {
            Ok(p) => {
                self.parent_dir = p;
                Ok(())
            },
            Err(e) => Err(e),
        }
    }

    /// returns the `(from_path, to_path)` pairs for copying, or an error when
    /// `collect_to_paths` did not give every file a target
    pub fn zip_from_to_paths(&self) -> (r: Result<Vec<(&str, &str)>, Error>)
        ensures
            self.from_view().len() != self.to_view().len() ==> (r matches Err(e) && e.kind == ErrorKind::BrokenPipe
                && e.msg@ == "collect_to_paths either failed or was not ran"@),
            self.from_view().len() == self.to_view().len() ==> (r matches Ok(v) && v@.len() == self.from_view().len()
                && forall|i: int| 0 <= i < v@.len() ==> (#[trigger] v@[i]).0@ == self.from_view()[i] && v@[i].1@ == self.to_view()[i]),
    {
        if self.from_paths.len() != self.to_paths.len() {
            return Err(Error::new(ErrorKind::BrokenPipe, "collect_to_paths either failed or was not ran"));
        }
        let mut v: Vec<(&str, &str)> = Vec::new();
        let mut i: usize = 0;
        while i < self.from_paths.len()
            invariant
                i <= self.from_paths@.len(),
                self.from_paths@.len() == self.to_paths@.len(),
                v@.len() == i,
                forall|j: int| 0 <= j < i ==> (#[trigger] v@[j]).0@ == self.from_view()[j] && v@[j].1@ == self.to_view()[j],
            decreases self.from_paths@.len() - i,
        {
            v.push((self.from_paths[i].as_str(), self.to_paths[i].as_str()));
            i = i + 1;
        }
        Ok(v)
    }
}


/// A mod found in the mods directory: the name and state its `.dll` gives, the `.dll`,
/// and the directory named like the mod, if there is one.
#[derive(Debug)]
pub struct FoundMod {
    pub name: String,
    pub enabled: bool,
    pub dll: String,
    pub dir: Option<String>,
}

/// The first directory whose name is `name`.
pub open spec fn dir_named(dirs: Seq<Seq<char>>, name: Seq<char>) -> Option<Seq<char>>
    decreases dirs.len(),
{
    if dirs.len() == 0 {
        None
    } else if file_name_spec(dirs[0]) == Some(name) {
        Some(dirs[0])
    } else {
        dir_named(dirs.drop_first(), name)
    }
}

/// The mods `found_mods` finds: one for each `.dll` of `files`, in order.
pub open spec fn found_spec(files: Seq<Seq<char>>, dirs: Seq<Seq<char>>) -> Seq<(Seq<char>, bool, Seq<char>, Option<Seq<char>>)>
    decreases files.len(),
{
    if files.len() == 0 {
        Seq::empty()
    } else {
        let r = found_spec(files.drop_last(), dirs);
        let f = files.last();
        let (name, ext, enabled) = file_data_spec(file_name_from_str_spec(f));
        if ext == ".dll"@ {
            r.push((name, enabled, f, dir_named(dirs, name)))
        } else {
            r
        }
    }
}

pub open spec fn found_view(v: Seq<FoundMod>) -> Seq<(Seq<char>, bool, Seq<char>, Option<Seq<char>>)> {
    v.map_values(|m: FoundMod| (m.name@, m.enabled, m.dll@, match m.dir {
        Some(d) => Some(d@),
        None => None,
    }))
}

/// `true` when the file name of `f` has the extension `.dll` (with or without `.disabled`).
pub open spec fn is_dll_file(f: Seq<char>) -> bool {
    file_data_spec(file_name_from_str_spec(f)).1 == ".dll"@
}

/// What `found_mods` finds: one mod for each `.dll` of `files`, in the order of `files`
/// (the other files are passed over). Each is named by its file name without extension
/// and `.disabled`; it is found enabled exactly when its file name is, as
/// `FileData::state_data` reads it (disabled when the first `.disabled` in the name ends
/// it); and its directory is the first of `dirs` with that name.
pub proof fn found_mods_describe(files: Seq<Seq<char>>, dirs: Seq<Seq<char>>)
    ensures
        ({
            let r = found_spec(files, dirs);
            &&& r.map_values(|e: (Seq<char>, bool, Seq<char>, Option<Seq<char>>)| e.2)
                == files.filter(|f: Seq<char>| is_dll_file(f))
            &&& forall|i: int| 0 <= i < r.len() ==> {
                let n = file_name_from_str_spec(#[trigger] r[i].2);
                &&& is_dll_file(r[i].2)
                &&& r[i].0 == file_data_spec(n).0
                &&& r[i].1 == state_data_spec(n).0
                &&& r[i].1 <==> spec_find(n, off_state()) != Some(n.len() - off_state().len())
                &&& r[i].3 == dir_named(dirs, r[i].0)
            }
        }),
    decreases files.len(),
{
    reveal(Seq::filter);
    let r = found_spec(files, dirs);
    if files.len() > 0 {
        found_mods_describe(files.drop_last(), dirs);
        let r0 = found_spec(files.drop_last(), dirs);
        let f = files.last();
        let n = file_name_from_str_spec(f);
        let ghost keys0 = r0.map_values(|e: (Seq<char>, bool, Seq<char>, Option<Seq<char>>)| e.2);
        if is_dll_file(f) {
            assert(r.map_values(|e: (Seq<char>, bool, Seq<char>, Option<Seq<char>>)| e.2) =~= keys0.push(f));
            assert(r[r.len() - 1] == (file_data_spec(n).0, file_data_spec(n).2, f, dir_named(dirs, file_data_spec(n).0)));
            assert forall|i: int| 0 <= i < r.len() - 1 implies r[i] == r0[i] by {}
        } else {
            assert(r == r0);
        }
    } else {
        assert(r.map_values(|e: (Seq<char>, bool, Seq<char>, Option<Seq<char>>)| e.2) =~= files);
    }
}

/// the first of `dirs` named `name`
fn find_dir(dirs: &[String], name: &str) -> (r: Option<String>)
    ensures
        match r {
            Some(d) => dir_named(strings_view(dirs@), name@) == Some(d@),
            None => dir_named(strings_view(dirs@), name@) is None,
        },
{
    let ghost dv = strings_view(dirs@);
    let mut i: usize = 0;
    assert(dv.subrange(0, dv.len() as int) =~= dv);
    while i < dirs.len()
        invariant
            i <= dirs@.len(),
            dv == strings_view(dirs@),
            dir_named(dv, name@) == dir_named(dv.subrange(i as int, dv.len() as int), name@),
        decreases dirs@.len() - i,
    {
        let ghost rest = dv.subrange(i as int, dv.len() as int);
        assert(rest[0] == dirs@[i as int]@);
        assert(rest.drop_first() =~= dv.subrange(i + 1, dv.len() as int));
        match crate::paths::file_name(dirs[i].as_str()) {
            Some(n) => {
                if crate::text::str_eq(n.as_str(), name) {
                    return Some(dirs[i].clone());
                }
            },
            None => {},
        }
        i = i + 1;
    }
    None
}

/// the mods in the mods directory, which holds `files` and `dirs`: one for each `.dll`,
/// named by its file name without extension, with the directory of the same name
pub fn found_mods(files: &[String], dirs: &[String]) -> (r: Vec<FoundMod>)
    requires
        forall|i: int| 0 <= i < files@.len() ==> has_extension(file_name_from_str_spec(#[trigger] files@[i]@)),
    ensures
        found_view(r@) == found_spec(strings_view(files@), strings_view(dirs@)),
{
    let ghost fv = strings_view(files@);
    let mut r: Vec<FoundMod> = Vec::new();
    let mut i: usize = 0;
    assert(fv.subrange(0, 0) =~= Seq::<Seq<char>>::empty());
    assert(found_view(r@) =~= Seq::<(Seq<char>, bool, Seq<char>, Option<Seq<char>>)>::empty());
    proof {
        reveal_strlit(".dll");
    }
    while i < files.len()
        invariant
            i <= files@.len(),
            fv == strings_view(files@),
            forall|q: int| 0 <= q < files@.len() ==> has_extension(file_name_from_str_spec(#[trigger] files@[q]@)),
            found_view(r@) == found_spec(fv.subrange(0, i as int), strings_view(dirs@)),
        decreases files@.len() - i,
    {
        let ghost sub = fv.subrange(0, i + 1);
        assert(sub.drop_last() =~= fv.subrange(0, i as int));
        assert(sub.last() == files@[i as int]@);
        let short = file_name_from_str(files[i].as_str());
        let fd = FileData::from(short);
        if crate::text::str_eq(fd.extension, ".dll") {
            let dir = find_dir(dirs, fd.name);
            let ghost before = found_view(r@);
            let m = FoundMod { name: fd.name.to_owned(), enabled: fd.enabled, dll: files[i].clone(), dir };
            r.push(m);
            assert(found_view(r@) =~= before.push(found_view(r@).last()));
        }
        i = i + 1;
    }
    assert(fv.subrange(0, files@.len() as int) =~= fv);
    r
}

/// What removing a registered mod from the disk takes: the files to delete, the
/// directories to delete where they are empty (each before the directories above it),
/// and whether the mod's load order entry goes too.
#[derive(Debug)]
pub struct ModRemoval {
    pub files: Vec<String>,
    pub dirs: Vec<String>,
    pub remove_order: bool,
}

/// The parts of a `mods` directory.
pub open spec fn mods_name() -> Seq<char> {
    seq!['m', 'o', 'd', 's']
}

/// The directories above `d`, nearest first, up to and not including the first that
/// is `game`; all of them when none is. (A parent is always shorter: see
/// `lemma_parent_shorter`.)
pub open spec fn dirs_above(d: Seq<char>, game: Seq<char>) -> Seq<Seq<char>>
    decreases d.len(),
{
    match parent_spec(d) {
        Some(a) => if a.len() < d.len() && parts(a) != parts(game) {
            seq![a] + dirs_above(a, game)
        } else {
            Seq::empty()
        },
        None => Seq::empty(),
    }
}

/// The directory of a file to delete that is looked at first: its parent, unless that
/// is `game` or a `mods` directory.
pub open spec fn first_dir(p: Seq<char>, game: Seq<char>) -> Option<Seq<char>> {
    match parent_spec(p) {
        Some(d) => if !ends_with_spec(d, mods_name()) && parts(d) != parts(game) {
            Some(d)
        } else {
            None
        },
        None => None,
    }
}

/// `x` is a directory to clean up after deleting `kept`.
pub open spec fn cleanup_dir(kept: Seq<Seq<char>>, game: Seq<char>, x: Seq<char>) -> bool {
    exists|i: int| 0 <= i < kept.len() && #[trigger] cleans_up(kept[i], game, x)
}

/// `x` is the first directory of the deleted file `p`, or a directory above that one,
/// below `game`, that is not a `mods` directory.
pub open spec fn cleans_up(p: Seq<char>, game: Seq<char>, x: Seq<char>) -> bool {
    match first_dir(p, game) {
        Some(d) => x == d || (dirs_above(d, game).contains(x) && !ends_with_spec(x, mods_name())),
        None => false,
    }
}

/// The files that exist (`Some(true)`), joined to `game`, in order.
pub open spec fn kept_files(game: Seq<char>, files: Seq<Seq<char>>, found: Seq<Option<bool>>) -> Seq<Seq<char>>
    decreases files.len(),
{
    if files.len() == 0 || found.len() == 0 {
        Seq::empty()
    } else {
        let r = kept_files(game, files.drop_last(), found.drop_last());
        if found.last() == Some(true) {
            r.push(push_spec(game, files.last()))
        } else {
            r
        }
    }
}

/// The last file whose existence could not be read.
pub open spec fn last_unreadable(found: Seq<Option<bool>>) -> Option<int>
    decreases found.len(),
{
    if found.len() == 0 {
        None
    } else if found.last() is None {
        Some(found.len() - 1)
    } else {
        last_unreadable(found.drop_last())
    }
}

pub open spec fn access_denied_msg(path: Seq<char>) -> Seq<char> {
    "Permission denied while trying to access "@ + path
}

/// `dirs` lists each directory to clean up once (as parts), deepest first.
pub open spec fn cleanup_plan(dirs: Seq<Seq<char>>, kept: Seq<Seq<char>>, game: Seq<char>) -> bool {
    &&& forall|j: int| 0 <= j < dirs.len() ==> cleanup_dir(kept, game, #[trigger] dirs[j])
    &&& forall|x: Seq<char>| cleanup_dir(kept, game, x) ==> has_path(dirs, x)
    &&& distinct_parts(dirs)
    &&& forall|j: int, k: int| 0 <= j < k < dirs.len() ==> parts(#[trigger] dirs[j]).len() >= parts(#[trigger] dirs[k]).len()
}

proof fn lemma_last_unreadable(found: Seq<Option<bool>>, i: int)
    requires
        0 <= i < found.len(),
        found[i] is None,
        forall|j: int| i < j < found.len() ==> found[j] is Some,
    ensures
        last_unreadable(found) == Some(i),
    decreases found.len(),
{
    if i < found.len() - 1 {
        lemma_last_unreadable(found.drop_last(), i);
    }
}

proof fn lemma_none_unreadable(found: Seq<Option<bool>>)
    requires
        forall|j: int| 0 <= j < found.len() ==> found[j] is Some,
    ensures
        last_unreadable(found) is None,
    decreases found.len(),
{
    if found.len() > 0 {
        lemma_none_unreadable(found.drop_last());
    }
}

/// No two of `v` are the same path.
pub open spec fn distinct_parts(v: Seq<Seq<char>>) -> bool {
    forall|j: int, k: int| 0 <= j < k < v.len() ==> parts(#[trigger] v[j]) != parts(#[trigger] v[k])
}

/// Some member of `v` is the path `x`.
pub open spec fn has_path(v: Seq<Seq<char>>, x: Seq<char>) -> bool {
    exists|j: int| 0 <= j < v.len() && parts(#[trigger] v[j]) == parts(x)
}

/// the first of `dirs` that is the path `x`
fn position_of_path(dirs: &Vec<String>, x: &str) -> (r: Option<usize>)
    ensures
        match r {
            Some(j) => j < dirs@.len() && parts(dirs@[j as int]@) == parts(x@),
            None => forall|j: int| 0 <= j < dirs@.len() ==> parts(#[trigger] dirs@[j]@) != parts(x@),
        },
{
    let mut i: usize = 0;
    while i < dirs.len()
        invariant
            i <= dirs@.len(),
            forall|j: int| 0 <= j < i ==> parts(#[trigger] dirs@[j]@) != parts(x@),
        decreases dirs@.len() - i,
    {
        if crate::paths::same_parts(dirs[i].as_str(), x) {
            return Some(i);
        }
        i = i + 1;
    }
    None
}

/// adds the directory `x` to `dirs` unless it holds that path already
fn add_dir(dirs: &mut Vec<String>, x: String)
    requires
        distinct_parts(strings_view(old(dirs)@)),
    ensures
        distinct_parts(strings_view(final(dirs)@)),
        strings_view(final(dirs)@) == strings_view(old(dirs)@)
            || strings_view(final(dirs)@) == strings_view(old(dirs)@).push(x@),
        has_path(strings_view(final(dirs)@), x@),
{
    let ghost before = strings_view(dirs@);
    match position_of_path(dirs, x.as_str()) {
        Some(j) => {
            assert(before[j as int] == dirs@[j as int]@);
        },
        None => {
            dirs.push(x);
            let ghost after = strings_view(dirs@);
            assert(after =~= before.push(x@));
            assert forall|j: int, k: int| 0 <= j < k < after.len() implies parts(#[trigger] after[j]) != parts(#[trigger] after[k]) by {
                if k == before.len() {
                    assert(after[j] == old(dirs)@[j]@);
                }
            }
            assert(after[before.len() as int] == x@);
        },
    }
}

/// the directories to clean up after deleting `kept`, each once, in no set order
fn cleanup_dirs(kept: &Vec<String>, game: &str) -> (r: Vec<String>)
    ensures
        distinct_parts(strings_view(r@)),
        forall|j: int| 0 <= j < r@.len() ==> cleanup_dir(strings_view(kept@), game@, #[trigger] strings_view(r@)[j]),
        forall|x: Seq<char>| cleanup_dir(strings_view(kept@), game@, x) ==> has_path(strings_view(r@), x),
{
    let ghost kv = strings_view(kept@);
    let mods: &str = "mods";
    proof {
        reveal_strlit("mods");
        assert(mods@ =~= mods_name());
    }
    let mut r: Vec<String> = Vec::new();
    let mut k: usize = 0;
    while k < kept.len()
        invariant
            k <= kept@.len(),
            kv == strings_view(kept@),
            mods@ == mods_name(),
            distinct_parts(strings_view(r@)),
            forall|j: int| 0 <= j < r@.len() ==> cleanup_dir(kv, game@, #[trigger] strings_view(r@)[j]),
            forall|i: int, x: Seq<char>| 0 <= i < k && #[trigger] cleans_up(kv[i], game@, x) ==> has_path(strings_view(r@), x),
        decreases kept@.len() - k,
    {
        assert(kv[k as int] == kept@[k as int]@);
        match crate::paths::parent(kept[k].as_str()) {
            None => {},
            Some(d) => {
                if !crate::paths::ends_with(d.as_str(), mods) && !crate::paths::same_parts(d.as_str(), game) {
                    let ghost rv0 = strings_view(r@);
                    add_dir(&mut r, d.clone());
                    assert(cleans_up(kv[k as int], game@, d@));
                    assert forall|j: int| 0 <= j < r@.len() implies cleanup_dir(kv, game@, #[trigger] strings_view(r@)[j]) by {
                        if j < rv0.len() {
                            assert(strings_view(r@)[j] == rv0[j]);
                        } else {
                            assert(strings_view(r@)[j] == d@);
                        }
                    }
                    assert forall|i: int, x: Seq<char>| 0 <= i < k && #[trigger] cleans_up(kv[i], game@, x) implies has_path(strings_view(r@), x) by {
                        assert(has_path(rv0, x));
                        let jj = choose|jj: int| 0 <= jj < rv0.len() && parts(#[trigger] rv0[jj]) == parts(x);
                        assert(strings_view(r@)[jj] == rv0[jj]);
                    }
                    let mut cur = d.clone();
                    let ghost mut seen: Seq<Seq<char>> = Seq::empty();
                    loop
                        invariant
                            kv == strings_view(kept@),
                            k < kept@.len(),
                            mods@ == mods_name(),
                            first_dir(kv[k as int], game@) == Some(d@),
                            seen + dirs_above(cur@, game@) == dirs_above(d@, game@),
                            distinct_parts(strings_view(r@)),
                            has_path(strings_view(r@), d@),
                            forall|j: int| 0 <= j < r@.len() ==> cleanup_dir(kv, game@, #[trigger] strings_view(r@)[j]),
                            forall|i: int, x: Seq<char>| 0 <= i < k && #[trigger] cleans_up(kv[i], game@, x) ==> has_path(strings_view(r@), x),
                            forall|m: int| 0 <= m < seen.len() && !ends_with_spec(#[trigger] seen[m], mods_name()) ==> has_path(strings_view(r@), seen[m]),
                        ensures
                            distinct_parts(strings_view(r@)),
                            has_path(strings_view(r@), d@),
                            forall|j: int| 0 <= j < r@.len() ==> cleanup_dir(kv, game@, #[trigger] strings_view(r@)[j]),
                            forall|i: int, x: Seq<char>| 0 <= i < k && #[trigger] cleans_up(kv[i], game@, x) ==> has_path(strings_view(r@), x),
                            forall|m: int| 0 <= m < dirs_above(d@, game@).len() && !ends_with_spec(#[trigger] dirs_above(d@, game@)[m], mods_name())
                                ==> has_path(strings_view(r@), dirs_above(d@, game@)[m]),
                        decreases cur@.len(),
                    {
                        proof {
                            crate::paths::lemma_parent_shorter(cur@);
                        }
                        match crate::paths::parent(cur.as_str()) {
                            None => {
                                assert(dirs_above(cur@, game@) =~= Seq::<Seq<char>>::empty());
                                assert(seen =~= dirs_above(d@, game@));
                                break;
                            },
                            Some(a) => {
                                if crate::paths::same_parts(a.as_str(), game) {
                                    assert(dirs_above(cur@, game@) =~= Seq::<Seq<char>>::empty());
                                    assert(seen =~= dirs_above(d@, game@));
                                    break;
                                }
                                assert(dirs_above(cur@, game@) == seq![a@] + dirs_above(a@, game@));
                                let ghost above = dirs_above(d@, game@);
                                assert(above[seen.len() as int] == a@);
                                if !crate::paths::ends_with(a.as_str(), mods) {
                                    let ghost rv1 = strings_view(r@);
                                    add_dir(&mut r, a.clone());
                                    assert(above.contains(a@));
                                    assert(cleans_up(kv[k as int], game@, a@));
                                    assert forall|j: int| 0 <= j < r@.len() implies cleanup_dir(kv, game@, #[trigger] strings_view(r@)[j]) by {
                                        if j < rv1.len() {
                                            assert(strings_view(r@)[j] == rv1[j]);
                                        } else {
                                            assert(strings_view(r@)[j] == a@);
                                        }
                                    }
                                    assert forall|m: int| 0 <= m < seen.len() && !ends_with_spec(#[trigger] seen[m], mods_name()) implies has_path(strings_view(r@), seen[m]) by {
                                        assert(has_path(rv1, seen[m]));
                                        let jj = choose|jj: int| 0 <= jj < rv1.len() && parts(#[trigger] rv1[jj]) == parts(seen[m]);
                                        assert(strings_view(r@)[jj] == rv1[jj]);
                                    }
                                    assert forall|i: int, x: Seq<char>| 0 <= i < k && #[trigger] cleans_up(kv[i], game@, x) implies has_path(strings_view(r@), x) by {
                                        assert(has_path(rv1, x));
                                        let jj = choose|jj: int| 0 <= jj < rv1.len() && parts(#[trigger] rv1[jj]) == parts(x);
                                        assert(strings_view(r@)[jj] == rv1[jj]);
                                    }
                                    proof {
                                        let jd = choose|jj: int| 0 <= jj < rv1.len() && parts(#[trigger] rv1[jj]) == parts(d@);
                                        assert(strings_view(r@)[jd] == rv1[jd]);
                                    }
                                }
                                proof {
                                    seen = seen.push(a@);
                                    assert(seen + dirs_above(a@, game@) =~= dirs_above(d@, game@));
                                }
                                cur = a;
                            },
                        }
                    }
                    assert forall|i: int, x: Seq<char>| 0 <= i < k + 1 && #[trigger] cleans_up(kv[i], game@, x) implies has_path(strings_view(r@), x) by {
                        if i == k {
                            if x != d@ {
                                let above = dirs_above(d@, game@);
                                let m = choose|m: int| 0 <= m < above.len() && above[m] == x;
                                assert(!ends_with_spec(above[m], mods_name()));
                            }
                        }
                    }
                } else {
                    assert forall|i: int, x: Seq<char>| 0 <= i < k + 1 && #[trigger] cleans_up(kv[i], game@, x) implies has_path(strings_view(r@), x) by {
                        if i == k {
                            assert(first_dir(kv[i], game@) is None);
                        }
                    }
                }
            },
        }
        k = k + 1;
    }
    proof {
        assert forall|x: Seq<char>| cleanup_dir(kv, game@, x) implies has_path(strings_view(r@), x) by {
            let i = choose|i: int| 0 <= i < kv.len() && #[trigger] cleans_up(kv[i], game@, x);
        }
    }
    r
}

/// `dirs` reordered deepest first (by number of parts)
fn deepest_first(dirs: &Vec<String>) -> (r: Vec<String>)
    ensures
        forall|j: int| 0 <= j < r@.len() ==> strings_view(dirs@).contains(#[trigger] strings_view(r@)[j]),
        forall|i: int| 0 <= i < dirs@.len() ==> strings_view(r@).contains(#[trigger] strings_view(dirs@)[i]),
        distinct_parts(strings_view(dirs@)) ==> distinct_parts(strings_view(r@)),
        forall|j: int, k: int| 0 <= j < k < r@.len()
            ==> parts(#[trigger] strings_view(r@)[j]).len() >= parts(#[trigger] strings_view(r@)[k]).len(),
{
    let ghost dv = strings_view(dirs@);
    let n = dirs.len();
    let mut depth: Vec<usize> = Vec::new();
    let mut max: usize = 0;
    let mut i: usize = 0;
    while i < n
        invariant
            i <= n == dirs@.len(),
            dv == strings_view(dirs@),
            depth@.len() == i,
            forall|q: int| 0 <= q < i ==> depth@[q] == parts(#[trigger] dv[q]).len() && depth@[q] <= max,
        decreases n - i,
    {
        let ps = crate::paths::split_parts(dirs[i].as_str());
        assert(ps@.map_values(|x: String| x@).len() == ps@.len());
        assert(dv[i as int] == dirs@[i as int]@);
        let d = ps.len();
        let ghost before = depth@;
        depth.push(d);
        if d > max {
            max = d;
        }
        assert(parts(dv[i as int]).len() == d);
        assert forall|q: int| 0 <= q < i + 1 implies depth@[q] == parts(#[trigger] dv[q]).len() && depth@[q] <= max by {
            if q < i {
                assert(depth@[q] == before[q]);
                assert(before[q] == parts(dv[q]).len());
                assert(before[q] <= max);
            } else {
                assert(depth@[q] == d);
                assert(d <= max);
            }
        }
        i = i + 1;
    }
    assert forall|q: int| #![trigger depth@[q]] #![trigger dv[q]] 0 <= q < n implies depth@[q] == parts(dv[q]).len() && depth@[q] <= max by {
        assert(q < i);
        assert(depth@[q] == parts(dv[q]).len());
        assert(depth@[q] <= max);
    }
    let mut r: Vec<String> = Vec::new();
    let ghost mut idx: Seq<int> = Seq::empty();
    let mut dd = max;
    loop
        invariant_except_break
            forall|m: int| 0 <= m < idx.len() ==> depth@[#[trigger] idx[m]] > dd,
            forall|q: int| 0 <= q < n && depth@[q] > dd ==> #[trigger] idx.contains(q),
        invariant
            dd <= max,
            n == dirs@.len(),
            dv == strings_view(dirs@),
            depth@.len() == n,
            forall|q: int| #![trigger depth@[q]] #![trigger dv[q]] 0 <= q < n ==> depth@[q] == parts(dv[q]).len() && depth@[q] <= max,
            r@.len() == idx.len(),
            forall|m: int| 0 <= m < idx.len() ==> 0 <= #[trigger] idx[m] < n && r@[m]@ == dv[idx[m]],
            forall|m1: int, m2: int| 0 <= m1 < m2 < idx.len()
                ==> #[trigger] idx[m1] != #[trigger] idx[m2] && depth@[idx[m1]] >= depth@[idx[m2]],
        ensures
            forall|q: int| 0 <= q < n ==> #[trigger] idx.contains(q),
        decreases dd,
    {
        let mut q: usize = 0;
        while q < n
            invariant
                q <= n,
                dd <= max,
                n == dirs@.len(),
                dv == strings_view(dirs@),
                depth@.len() == n,
                forall|q2: int| #![trigger depth@[q2]] #![trigger dv[q2]] 0 <= q2 < n ==> depth@[q2] == parts(dv[q2]).len() && depth@[q2] <= max,
                r@.len() == idx.len(),
                forall|m: int| 0 <= m < idx.len() ==> 0 <= #[trigger] idx[m] < n && r@[m]@ == dv[idx[m]],
                forall|m: int| 0 <= m < idx.len() ==> depth@[#[trigger] idx[m]] > dd
                    || (depth@[idx[m]] == dd && idx[m] < q),
                forall|m1: int, m2: int| 0 <= m1 < m2 < idx.len()
                    ==> #[trigger] idx[m1] != #[trigger] idx[m2] && depth@[idx[m1]] >= depth@[idx[m2]],
                forall|q2: int| 0 <= q2 < n && (depth@[q2] > dd || (depth@[q2] == dd && q2 < q))
                    ==> #[trigger] idx.contains(q2),
            decreases n - q,
        {
            if depth[q] == dd {
                let ghost old_idx = idx;
                r.push(dirs[q].clone());
                proof {
                    idx = idx.push(q as int);
                    assert(idx[old_idx.len() as int] == q);
                    assert forall|q2: int| 0 <= q2 < n && (depth@[q2] > dd || (depth@[q2] == dd && q2 < q + 1))
                        implies #[trigger] idx.contains(q2) by {
                        if q2 != q {
                            assert(old_idx.contains(q2));
                            let m = choose|m: int| 0 <= m < old_idx.len() && old_idx[m] == q2;
                            assert(idx[m] == q2);
                        }
                    }
                }
            }
            q = q + 1;
        }
        if dd == 0 {
            break;
        }
        dd = dd - 1;
    }
    let ghost rv = strings_view(r@);
    assert forall|j: int| 0 <= j < r@.len() implies dv.contains(#[trigger] rv[j]) by {
        assert(dv[idx[j]] == rv[j]);
    }
    assert forall|q: int| 0 <= q < dirs@.len() implies rv.contains(#[trigger] dv[q]) by {
        assert(idx.contains(q));
        let m = choose|m: int| 0 <= m < idx.len() && idx[m] == q;
        assert(rv[m] == dv[q]);
    }
    assert forall|j: int, k: int| 0 <= j < k < r@.len() implies parts(#[trigger] rv[j]).len() >= parts(#[trigger] rv[k]).len() by {
        assert(depth@[idx[j]] >= depth@[idx[k]]);
    }
    proof {
        if distinct_parts(dv) {
        assert forall|j: int, k: int| 0 <= j < k < rv.len() implies parts(#[trigger] rv[j]) != parts(#[trigger] rv[k]) by {
            if idx[j] < idx[k] {
                assert(parts(dv[idx[j]]) != parts(dv[idx[k]]));
            } else {
                assert(parts(dv[idx[k]]) != parts(dv[idx[j]]));
            }
        }
        }
    }
    r
}

/// What removing `reg_mod` from the game directory `game_dir` takes, given for each of
/// its files (in the order of `file_refs`) whether it exists: `Some(true)`, `Some(false)`,
/// or `None` where that could not be read. The files that exist are deleted; then the
/// directories that held them, and those above them up to the game directory, are
/// deleted where they are empty, deepest first; a `mods` directory stays. The mod's
/// load order entry goes too when it has one.
pub fn remove_mod_files(game_dir: &str, reg_mod: &RegMod, found: &[Option<bool>]) -> (r: Result<ModRemoval, Error>)
    requires
        found@.len() == reg_mod.files.all_files().len(),
        last_unreadable(found@) is None ==> forall|i: int| 0 <= i < found@.len() && found@[i] == Some(true)
            ==> parent_spec(push_spec(game_dir@, #[trigger] reg_mod.files.all_files()[i])) is Some,
    ensures
        match r {
            Err(e) => {
                &&& last_unreadable(found@) is Some
                &&& e.kind == ErrorKind::PermissionDenied
                &&& e.msg@ == access_denied_msg(push_spec(game_dir@, reg_mod.files.all_files()[last_unreadable(found@)->0]))
            },
            Ok(m) => {
                let kept = kept_files(game_dir@, reg_mod.files.all_files(), found@);
                &&& last_unreadable(found@) is None
                &&& strings_view(m.files@) == kept
                &&& cleanup_plan(strings_view(m.dirs@), kept, game_dir@)
                &&& m.remove_order == reg_mod.order.set
            },
        },
{
    let files = reg_mod.files.file_refs();
    let ghost fv = reg_mod.files.all_files();
    let n = files.len();
    let mut i = n;
    while i > 0
        invariant
            i <= n == found@.len(),
            n == files@.len(),
            fv == reg_mod.files.all_files(),
            fv == crate::files::strs_view(files@),
            forall|j: int| i <= j < n ==> (#[trigger] found@[j]) is Some,
        decreases i,
    {
        i = i - 1;
        if found[i].is_none() {
            proof {
                lemma_last_unreadable(found@, i as int);
                reveal_strlit("Permission denied while trying to access ");
                assert(fv[i as int] == files@[i as int]@);
            }
            let full = push_path(game_dir, files[i]);
            let msg = crate::text::concat("Permission denied while trying to access ", full.as_str());
            return Err(Error::from_string(ErrorKind::PermissionDenied, msg));
        }
    }
    proof {
        lemma_none_unreadable(found@);
    }
    let mut kept: Vec<String> = Vec::new();
    let mut j: usize = 0;
    assert(fv.subrange(0, 0) =~= Seq::<Seq<char>>::empty());
    assert(strings_view(kept@) =~= Seq::<Seq<char>>::empty());
    while j < n
        invariant
            j <= n == found@.len(),
            n == files@.len(),
            fv == reg_mod.files.all_files(),
            fv == crate::files::strs_view(files@),
            strings_view(kept@) == kept_files(game_dir@, fv.subrange(0, j as int), found@.subrange(0, j as int)),
        decreases n - j,
    {
        assert(fv.subrange(0, j + 1).drop_last() =~= fv.subrange(0, j as int));
        assert(found@.subrange(0, j + 1).drop_last() =~= found@.subrange(0, j as int));
        assert(fv.subrange(0, j + 1).last() == files@[j as int]@);
        let ghost before = strings_view(kept@);
        match found[j] {
            Some(true) => {
                kept.push(push_path(game_dir, files[j]));
                assert(strings_view(kept@) =~= before.push(push_spec(game_dir@, files@[j as int]@)));
            },
            _ => {},
        }
        j = j + 1;
    }
    assert(fv.subrange(0, n as int) =~= fv);
    assert(found@.subrange(0, n as int) =~= found@);
    let dirs = cleanup_dirs(&kept, game_dir);
    let sorted = deepest_first(&dirs);
    proof {
        let kv = strings_view(kept@);
        let dv = strings_view(dirs@);
        let sv = strings_view(sorted@);
        assert forall|j: int| 0 <= j < sv.len() implies cleanup_dir(kv, game_dir@, #[trigger] sv[j]) by {
            assert(dv.contains(sv[j]));
            let q = choose|q: int| 0 <= q < dv.len() && dv[q] == sv[j];
            assert(cleanup_dir(kv, game_dir@, dv[q]));
        }
        assert forall|x: Seq<char>| cleanup_dir(kv, game_dir@, x) implies has_path(sv, x) by {
            assert(has_path(dv, x));
            let q = choose|q: int| 0 <= q < dv.len() && parts(#[trigger] dv[q]) == parts(x);
            assert(sv.contains(dv[q]));
            let m = choose|m: int| 0 <= m < sv.len() && sv[m] == dv[q];
            assert(parts(sv[m]) == parts(x));
        }
    }
    Ok(ModRemoval { files: kept, dirs: sorted, remove_order: reg_mod.order.set })
}

} // verus!
