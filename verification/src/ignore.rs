//! The rules by which directories and files are left out.

use vstd::prelude::*;

use crate::paths;
use crate::text;

verus! {

/// Rules for leaving directories and files out of a walk, and files out of what is searched.
#[derive(Debug)]
pub struct IgnoreConfig {
    /// The paths of directories that are not entered. A path that ends in `/` stands for what lies
    /// below the directory.
    pub skip_dir_prefixes: Vec<String>,
    /// The names of files that are left out and are noise, in any letter case.
    pub skip_file_names: Vec<String>,
    /// The extensions of files that are left out and are noise, in any letter case.
    pub skip_file_exts: Vec<String>,
}

/// The rules as plain values.
pub struct IgnoreRules {
    pub dir_prefixes: Seq<Seq<char>>,
    pub file_names: Seq<Seq<char>>,
    pub file_exts: Seq<Seq<char>>,
}

impl View for IgnoreConfig {
    type V = IgnoreRules;

    open spec fn view(&self) -> IgnoreRules {
        IgnoreRules {
            dir_prefixes: text::views(self.skip_dir_prefixes@),
            file_names: text::views(self.skip_file_names@),
            file_exts: text::views(self.skip_file_exts@),
        }
    }
}

impl Clone for IgnoreConfig {
    fn clone(&self) -> (r: Self)
        ensures
            r@ == self@,
    {
        let r = IgnoreConfig {
            skip_dir_prefixes: self.skip_dir_prefixes.clone(),
            skip_file_names: self.skip_file_names.clone(),
            skip_file_exts: self.skip_file_exts.clone(),
        };
        assert(r@.dir_prefixes =~= self@.dir_prefixes);
        assert(r@.file_names =~= self@.file_names);
        assert(r@.file_exts =~= self@.file_exts);
        r
    }
}

/// `path` is `dir` or lies below it: it begins with `dir`, and a separator stands where `dir` ends,
/// as the next character of `path` or as the last of `dir`.
pub open spec fn at_or_below(path: Seq<char>, dir: Seq<char>) -> bool {
    ||| path == dir
    ||| text::starts_with(path, dir) && path.len() > dir.len() && (path[dir.len() as int] == '/'
        || (dir.len() > 0 && dir.last() == '/'))
}

impl IgnoreRules {
    /// `path` is, or lies below, a directory that a walk does not enter.
    pub open spec fn skips_dir(self, path: Seq<char>) -> bool {
        exists|i: int|
            0 <= i < self.dir_prefixes.len() && at_or_below(path, #[trigger] self.dir_prefixes[i])
    }

    /// The rules with all names and extensions in lowercase.
    pub open spec fn lowered(self) -> IgnoreRules {
        IgnoreRules {
            dir_prefixes: self.dir_prefixes,
            file_names: text::lowercase_all(self.file_names),
            file_exts: text::lowercase_all(self.file_exts),
        }
    }

    /// The name or the extension of a file is listed, spelled as it is in the rules.
    pub open spec fn lists_name(self, name: Seq<char>, ext: Option<Seq<char>>) -> bool {
        ||| self.file_names.contains(name)
        ||| ext is Some && self.file_exts.contains(ext->0)
    }

    /// A path names a file whose name or extension is listed: the rules, the name and the extension
    /// are compared in lowercase.
    pub open spec fn lists_file(self, path: Seq<char>) -> bool {
        match paths::file_name_of(path) {
            Some(name) => self.lowered().lists_name(
                text::lowercase(name),
                match paths::extension_of(name) {
                    Some(ext) => Some(text::lowercase(ext)),
                    None => None,
                },
            ),
            None => false,
        }
    }

    /// A path names a file that is noise: it is listed, or its name ends in a tilde.
    pub open spec fn noise(self, path: Seq<char>) -> bool {
        match paths::file_name_of(path) {
            Some(name) => (name.len() > 0 && name.last() == '~') || self.lists_file(path),
            None => false,
        }
    }

    /// A walk goes on with what it found in a directory: it could be read, is no symbolic link, does
    /// not stand at or below a directory that is left out, and is a directory or a file that is not
    /// listed.
    pub open spec fn keeps_child(
        self,
        readable: bool,
        symlink: bool,
        dir: bool,
        path: Seq<char>,
    ) -> bool {
        readable && !symlink && !self.skips_dir(path) && (dir || !self.lists_file(path))
    }
}

impl IgnoreConfig {
    /// No rules.
    pub fn new() -> (r: Self)
        ensures
            r@.dir_prefixes == Seq::<Seq<char>>::empty(),
            r@.file_names == Seq::<Seq<char>>::empty(),
            r@.file_exts == Seq::<Seq<char>>::empty(),
    {
        let r = IgnoreConfig {
            skip_dir_prefixes: Vec::new(),
            skip_file_names: Vec::new(),
            skip_file_exts: Vec::new(),
        };
        assert(r@.dir_prefixes =~= Seq::<Seq<char>>::empty());
        assert(r@.file_names =~= Seq::<Seq<char>>::empty());
        assert(r@.file_exts =~= Seq::<Seq<char>>::empty());
        r
    }

    /// Whether a walk leaves `path` out: it is one of the directories that are not entered, or lies
    /// below one.
    pub fn is_skip_dir(&self, path: &str) -> (r: bool)
        ensures
            r == self@.skips_dir(path@),
    {
        let mut i: usize = 0;
        while i < self.skip_dir_prefixes.len()
            invariant
                i <= self.skip_dir_prefixes@.len(),
                forall|k: int|
                    0 <= k < i ==> !at_or_below(path@, #[trigger] self@.dir_prefixes[k]),
            decreases self.skip_dir_prefixes@.len() - i,
        {
            let ghost dir = self@.dir_prefixes[i as int];
            assert(dir == self.skip_dir_prefixes@[i as int]@);
            match text::after_prefix(path, self.skip_dir_prefixes[i].as_str()) {
                Some(next) => {
                    match next {
                        Some(c) => {
                            if c == '/' || text::ends_with(
                                self.skip_dir_prefixes[i].as_str(),
                                '/',
                            ) {
                                assert(at_or_below(path@, dir));
                                return true;
                            }
                        },
                        None => {
                            assert(path@.take(dir.len() as int) =~= path@);
                            assert(at_or_below(path@, dir));
                            return true;
                        },
                    }
                },
                None => {
                    assert(path@ == dir ==> path@.take(dir.len() as int) =~= dir);
                },
            }
            i = i + 1;
        }
        false
    }

    /// Whether a walk goes on with what it found in a directory.
    pub fn keep_child(&self, readable: bool, symlink: bool, dir: bool, path: &str) -> (r: bool)
        ensures
            r == self@.keeps_child(readable, symlink, dir, path@),
    {
        readable && !symlink && !self.is_skip_dir(path) && (dir || !self.is_listed_file(path))
    }

    /// The rules with all names and extensions in lowercase.
    pub fn lowered(&self) -> (r: Self)
        ensures
            r@ == self@.lowered(),
    {
        let r = IgnoreConfig {
            skip_dir_prefixes: self.skip_dir_prefixes.clone(),
            skip_file_names: text::to_lowercase_all(&self.skip_file_names),
            skip_file_exts: text::to_lowercase_all(&self.skip_file_exts),
        };
        assert(r@.dir_prefixes =~= self@.dir_prefixes);
        r
    }

    /// Whether the name or the extension of a file is listed, spelled as it is in the rules. Where
    /// letter case is not to matter, all of them are in lowercase.
    pub fn is_listed_name(&self, name: &str, ext: Option<&str>) -> (r: bool)
        ensures
            r == self@.lists_name(
                name@,
                match ext {
                    Some(ext) => Some(ext@),
                    None => None,
                },
            ),
    {
        if text::is_listed(&self.skip_file_names, name) {
            return true;
        }
        match ext {
            Some(ext) => text::is_listed(&self.skip_file_exts, ext),
            None => false,
        }
    }

    /// Whether a path names a file whose name or extension is listed. Letter case does not matter,
    /// neither that of the path nor that of the rules.
    pub fn is_listed_file(&self, path: &str) -> (r: bool)
        ensures
            r == self@.lists_file(path@),
    {
        let name = match paths::file_name(path) {
            Some(name) => name,
            None => {
                return false;
            },
        };
        let rules = self.lowered();
        let lower_name = name.as_str().to_lowercase();
        assert(lower_name@ =~= text::lowercase(name@));
        match paths::extension(name.as_str()) {
            Some(ext) => {
                let lower_ext = ext.as_str().to_lowercase();
                assert(lower_ext@ =~= text::lowercase(ext@));
                rules.is_listed_name(lower_name.as_str(), Some(lower_ext.as_str()))
            },
            None => rules.is_listed_name(lower_name.as_str(), None),
        }
    }

    /// Whether a path names a file that is noise, by the last of its parts: the file is listed, or
    /// its name ends in a tilde.
    pub fn is_noise(&self, path: &str) -> (r: bool)
        ensures
            r == self@.noise(path@),
    {
        match paths::file_name(path) {
            Some(name) => text::ends_with(name.as_str(), '~') || self.is_listed_file(path),
            None => false,
        }
    }
}

/// What lies below a listed directory is left out, whether or not it is listed with a `/` behind it.
pub proof fn listed_dirs_are_skipped(rules: IgnoreRules, dir: Seq<char>, rest: Seq<char>)
    requires
        rules.dir_prefixes.contains(dir) || rules.dir_prefixes.contains(dir + seq!['/']),
    ensures
        rules.skips_dir(dir + seq!['/'] + rest),
{
    let path = dir + seq!['/'] + rest;
    let slashed = dir + seq!['/'];
    let i = choose|i: int|
        0 <= i < rules.dir_prefixes.len() && (rules.dir_prefixes[i] == dir || rules.dir_prefixes[i]
            == slashed);
    assert(path.take(dir.len() as int) =~= dir);
    assert(path.take(slashed.len() as int) =~= slashed);
    assert(slashed.last() == '/');
    assert(rest.len() == 0 ==> path =~= slashed);
    assert(at_or_below(path, rules.dir_prefixes[i]));
}

/// A path is skipped exactly if it is a listed path, or a listed path with a separator and something
/// behind it, or, where the listed path ends in a separator, that with something behind it. So what
/// only begins like a listed directory, in the midst of a name, is not skipped.
pub proof fn skipped_is_whole_parts(rules: IgnoreRules, path: Seq<char>)
    ensures
        rules.skips_dir(path) <==> exists|i: int, rest: Seq<char>|
            0 <= i < rules.dir_prefixes.len() && (path == rules.dir_prefixes[i] || path
                == #[trigger] (rules.dir_prefixes[i] + seq!['/'] + rest) || (
            rules.dir_prefixes[i].len() > 0 && rules.dir_prefixes[i].last() == '/' && path
                == rules.dir_prefixes[i] + rest)),
{
    let sep = seq!['/'];
    if rules.skips_dir(path) {
        let i = choose|i: int|
            0 <= i < rules.dir_prefixes.len() && at_or_below(
                path,
                #[trigger] rules.dir_prefixes[i],
            );
        let dir = rules.dir_prefixes[i];
        let n = dir.len() as int;
        if path == dir {
            let rest = Seq::<char>::empty();
            let below = dir + sep + rest;
            assert(path == dir || path == below);
        } else if path[n] == '/' {
            let rest = path.skip(n + 1);
            assert(path =~= path.take(n) + sep + rest);
            assert(path == dir + sep + rest);
        } else {
            let rest = path.skip(n);
            let below = dir + sep + rest;
            assert(path =~= path.take(n) + rest);
            assert(path == below || path == dir + rest);
        }
    }
    if exists|i: int, rest: Seq<char>|
        0 <= i < rules.dir_prefixes.len() && (path == rules.dir_prefixes[i] || path == #[trigger] (
        rules.dir_prefixes[i] + seq!['/'] + rest) || (rules.dir_prefixes[i].len() > 0
            && rules.dir_prefixes[i].last() == '/' && path == rules.dir_prefixes[i] + rest)) {
        let (i, rest) = choose|i: int, rest: Seq<char>|
            0 <= i < rules.dir_prefixes.len() && (path == rules.dir_prefixes[i] || path
                == #[trigger] (rules.dir_prefixes[i] + seq!['/'] + rest) || (
            rules.dir_prefixes[i].len() > 0 && rules.dir_prefixes[i].last() == '/' && path
                == rules.dir_prefixes[i] + rest));
        let dir = rules.dir_prefixes[i];
        let n = dir.len() as int;
        if path == dir + sep + rest {
            assert(path.take(n) =~= dir);
            assert(path[n] == '/');
        } else if path == dir + rest {
            assert(path.take(n) =~= dir);
            assert(path.len() == n ==> path =~= dir);
        }
        assert(at_or_below(path, dir));
    }
}

/// With a path everything below it is left out.
pub proof fn skipping_reaches_below(rules: IgnoreRules, path: Seq<char>, rest: Seq<char>)
    requires
        rules.skips_dir(path),
    ensures
        rules.skips_dir(path + seq!['/'] + rest),
{
    let i = choose|i: int|
        0 <= i < rules.dir_prefixes.len() && at_or_below(path, #[trigger] rules.dir_prefixes[i]);
    let dir = rules.dir_prefixes[i];
    let below = path + seq!['/'] + rest;
    assert(below.take(dir.len() as int) =~= path.take(dir.len() as int));
    if path == dir {
        assert(path.take(dir.len() as int) =~= dir);
    }
    assert(at_or_below(below, dir));
}

/// Whether a path names a file that is listed or noise rests on its last part alone.
pub proof fn noise_is_in_the_last_part(rules: IgnoreRules, dir: Seq<char>, name: Seq<char>)
    requires
        name.len() > 0,
        !name.contains('/'),
        name != seq!['.'],
        name != seq!['.', '.'],
    ensures
        rules.noise(dir + seq!['/'] + name) == rules.noise(name),
        rules.lists_file(dir + seq!['/'] + name) == rules.lists_file(name),
{
    paths::file_name_is_last_part(dir, name);
}

/// Paths of ASCII that differ in letter case at most are listed alike and noise alike.
pub proof fn letter_case_does_not_matter(rules: IgnoreRules, a: Seq<char>, b: Seq<char>)
    requires
        text::alike(a, b),
    ensures
        rules.noise(a) == rules.noise(b),
        rules.lists_file(a) == rules.lists_file(b),
{
    paths::alike_in_names(a, b);
    if let Some(x) = paths::file_name_of(a) {
        let y = paths::file_name_of(b)->0;
        if x.len() > 0 {
            let n = x.len() - 1;
            assert(text::ascii_lower(x[n]) == text::ascii_lower(y[n]));
        }
        text::alike_in_lowercase(x, y);
        paths::alike_in_names(x, y);
        if let Some(e) = paths::extension_of(x) {
            text::alike_in_lowercase(e, paths::extension_of(y)->0);
        }
    }
}

/// A path of ASCII is noise exactly if the same path in capitals is.
pub proof fn capitals_do_not_matter(rules: IgnoreRules, path: Seq<char>)
    requires
        text::ascii(path),
    ensures
        rules.noise(path.map_values(|c: char| text::ascii_upper(c))) == rules.noise(path),
{
    text::alike_in_capitals(path);
    letter_case_does_not_matter(rules, path.map_values(|c: char| text::ascii_upper(c)), path);
}

/// A file whose name or extension is listed as it is, is noise, and no walk keeps it.
pub proof fn listed_files_are_noise(rules: IgnoreRules, path: Seq<char>)
    requires
        paths::file_name_of(path) is Some,
        ({
            let name = paths::file_name_of(path)->0;
            ||| rules.file_names.contains(name)
            ||| paths::extension_of(name) is Some && rules.file_exts.contains(
                paths::extension_of(name)->0,
            )
        }),
    ensures
        rules.noise(path),
        forall|readable: bool, symlink: bool|
            !rules.keeps_child(readable, symlink, false, path),
{
    let name = paths::file_name_of(path)->0;
    if rules.file_names.contains(name) {
        let i = choose|i: int| 0 <= i < rules.file_names.len() && rules.file_names[i] == name;
        assert(rules.lowered().file_names[i] == text::lowercase(name));
    } else {
        let ext = paths::extension_of(name)->0;
        let i = choose|i: int| 0 <= i < rules.file_exts.len() && rules.file_exts[i] == ext;
        assert(rules.lowered().file_exts[i] == text::lowercase(ext));
    }
}

/// A file is listed exactly if its name equals a listed name, or its extension a listed extension,
/// both in lowercase; it is noise exactly if it is listed or its name ends in a tilde; and a walk keeps
/// it exactly if it can be read, is no symbolic link, is not skipped and is not listed. A directory of
/// that name is kept whatever is listed. What has no file name is neither listed nor noise.
pub proof fn listed_is_equal_in_lowercase(rules: IgnoreRules, path: Seq<char>)
    ensures
        ({
            let file = paths::file_name_of(path);
            let name = file->0;
            let ext = paths::extension_of(name);
            let equal = {
                ||| exists|i: int|
                    0 <= i < rules.file_names.len() && text::lowercase(
                        #[trigger] rules.file_names[i],
                    ) == text::lowercase(name)
                ||| ext is Some && exists|i: int|
                    0 <= i < rules.file_exts.len() && text::lowercase(
                        #[trigger] rules.file_exts[i],
                    ) == text::lowercase(ext->0)
            };
            let listed = file is Some && equal;
            &&& rules.lists_file(path) == listed
            &&& rules.noise(path) == (file is Some && (name.last() == '~' || equal))
            &&& forall|readable: bool, symlink: bool| #[trigger]
                rules.keeps_child(readable, symlink, false, path) == (readable && !symlink
                    && !rules.skips_dir(path) && !listed)
            &&& forall|readable: bool, symlink: bool| #[trigger]
                rules.keeps_child(readable, symlink, true, path) == (readable && !symlink
                    && !rules.skips_dir(path))
        }),
{
    paths::file_names_are_parts(path);
    if let Some(name) = paths::file_name_of(path) {
        let low = rules.lowered();
        let key = text::lowercase(name);
        if low.file_names.contains(key) {
            let i = choose|i: int| 0 <= i < low.file_names.len() && low.file_names[i] == key;
            assert(text::lowercase(rules.file_names[i]) == key);
        }
        if exists|i: int|
            0 <= i < rules.file_names.len() && text::lowercase(#[trigger] rules.file_names[i])
                == key {
            let i = choose|i: int|
                0 <= i < rules.file_names.len() && text::lowercase(#[trigger] rules.file_names[i])
                    == key;
            assert(low.file_names[i] == key);
        }
        if let Some(ext) = paths::extension_of(name) {
            let key = text::lowercase(ext);
            if low.file_exts.contains(key) {
                let i = choose|i: int| 0 <= i < low.file_exts.len() && low.file_exts[i] == key;
                assert(text::lowercase(rules.file_exts[i]) == key);
            }
            if exists|i: int|
                0 <= i < rules.file_exts.len() && text::lowercase(#[trigger] rules.file_exts[i])
                    == key {
                let i = choose|i: int|
                    0 <= i < rules.file_exts.len() && text::lowercase(
                        #[trigger] rules.file_exts[i],
                    ) == key;
                assert(low.file_exts[i] == key);
            }
        }
    }
}

/// Without rules a walk leaves out nothing but symbolic links and what cannot be read, and only what
/// ends in a tilde is noise.
pub proof fn no_rules(rules: IgnoreRules, path: Seq<char>)
    requires
        rules.dir_prefixes.len() == 0,
        rules.file_names.len() == 0,
        rules.file_exts.len() == 0,
    ensures
        !rules.skips_dir(path),
        !rules.lists_file(path),
        forall|readable: bool, symlink: bool, dir: bool|
            rules.keeps_child(readable, symlink, dir, path) == (readable && !symlink),
        rules.noise(path) <==> paths::file_name_of(path) is Some && paths::file_name_of(
            path,
        )->0.len() > 0 && paths::file_name_of(path)->0.last() == '~',
{
}

/// A file that a walk keeps is noise only if its name ends in a tilde.
pub proof fn kept_files_are_not_listed(rules: IgnoreRules, path: Seq<char>)
    requires
        rules.keeps_child(true, false, false, path),
        rules.noise(path),
    ensures
        paths::file_name_of(path) is Some,
        paths::file_name_of(path)->0.last() == '~',
{
}

/// The rules in lowercase have the same directories and, one for one, the lowercase forms of the names
/// and extensions. By rules as they are, a file is listed exactly if its name or its extension equals
/// a listed one.
pub proof fn rules_in_lowercase(rules: IgnoreRules, name: Seq<char>, ext: Option<Seq<char>>)
    ensures
        rules.lowered().dir_prefixes == rules.dir_prefixes,
        rules.lowered().file_names.len() == rules.file_names.len(),
        rules.lowered().file_exts.len() == rules.file_exts.len(),
        forall|i: int|
            0 <= i < rules.file_names.len() ==> #[trigger] rules.lowered().file_names[i]
                == text::lowercase(rules.file_names[i]),
        forall|i: int|
            0 <= i < rules.file_exts.len() ==> #[trigger] rules.lowered().file_exts[i]
                == text::lowercase(rules.file_exts[i]),
        rules.lists_name(name, ext) <==> {
            ||| exists|i: int| 0 <= i < rules.file_names.len() && #[trigger] rules.file_names[i] == name
            ||| ext is Some && exists|i: int|
                0 <= i < rules.file_exts.len() && #[trigger] rules.file_exts[i] == ext->0
        },
{
    if exists|i: int| 0 <= i < rules.file_names.len() && #[trigger] rules.file_names[i] == name {
        assert(rules.file_names.contains(name));
    }
    if ext is Some && exists|i: int|
        0 <= i < rules.file_exts.len() && #[trigger] rules.file_exts[i] == ext->0 {
        assert(rules.file_exts.contains(ext->0));
    }
}

} // verus!
