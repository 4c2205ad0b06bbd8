//! The search request: what the user asked for, and the policies derived from it.

use vstd::prelude::*;
use crate::order::same_text;
use crate::text::contains_uppercase;
use crate::text::has_ascii_capital;
use crate::text::has_uppercase;
use vstd::utf8::is_ascii_chars;

verus! {

/// One search request, as given on the command line.
#[derive(Debug, PartialEq, Eq)]
pub struct Cli {
    /// The pattern to look for; absent only when listing file types.
    pub pattern: Option<String>,
    /// The directory to search.
    pub path: String,
    /// Search file names only.
    pub names_only: bool,
    /// Search file contents only.
    pub content_only: bool,
    /// Match without regard to case.
    pub ignore_case: bool,
    /// Match with regard to case, whatever else is set.
    pub case_sensitive: bool,
    /// Match without regard to case unless the pattern holds an uppercase letter.
    pub smart_case: bool,
    /// Visit hidden files too.
    pub hidden: bool,
    /// Read no ignore files at all.
    pub no_ignore: bool,
    /// Read no ignore files of the version-control system.
    pub no_ignore_vcs: bool,
    /// Visit only files of this named type.
    pub file_type: Option<String>,
    /// Take the pattern as literal text.
    pub fixed_strings: bool,
    /// Visit only files matching one of these globs.
    pub glob: Vec<String>,
    /// Skip files matching one of these globs.
    pub exclude: Vec<String>,
    /// Match whole words only.
    pub word_regexp: bool,
    /// Search commit messages, even after `no_log`.
    pub log: bool,
    /// Leave commit messages out.
    pub no_log: bool,
    /// Search commit messages and nothing else.
    pub log_only: bool,
    /// How to colour the output.
    pub color: Option<String>,
    /// List the known file types and stop.
    pub type_list: bool,
}

/// What a run searches.
#[derive(Clone, Copy, Debug, PartialEq, Eq, Structural)]
pub enum Mode {
    /// File names.
    NamesOnly,
    /// File contents.
    ContentOnly,
    /// File names and file contents.
    Both,
    /// Commit messages.
    LogOnly,
}

/// The option that was given together with `--log-only` and cannot be.
#[derive(Clone, Copy, Debug, PartialEq, Eq, Structural)]
pub enum FlagConflict {
    /// `--names-only`
    NamesOnly,
    /// `--content-only`
    ContentOnly,
    /// `--glob`
    Glob,
    /// `--ignore`
    Ignore,
}

impl FlagConflict {
    /// The sentence that reports this conflict.
    pub open spec fn message(self) -> Seq<char> {
        match self {
            FlagConflict::NamesOnly => "--log-only and --names-only are mutually exclusive"@,
            FlagConflict::ContentOnly => "--log-only and --content-only are mutually exclusive"@,
            FlagConflict::Glob => "--log-only and --glob are mutually exclusive"@,
            FlagConflict::Ignore => "--log-only and --ignore are mutually exclusive"@,
        }
    }

    /// The sentence that reports this conflict, naming both options.
    pub fn to_message(self) -> (s: String)
        ensures
            s@ == self.message(),
    {
        match self {
            FlagConflict::NamesOnly => "--log-only and --names-only are mutually exclusive".to_owned(),
            FlagConflict::ContentOnly => "--log-only and --content-only are mutually exclusive".to_owned(),
            FlagConflict::Glob => "--log-only and --glob are mutually exclusive".to_owned(),
            FlagConflict::Ignore => "--log-only and --ignore are mutually exclusive".to_owned(),
        }
    }
}

impl Cli {
    /// The pattern as typed, or the empty text where none was given.
    pub open spec fn raw_pattern(&self) -> Seq<char> {
        match self.pattern {
            Some(p) => p@,
            None => Seq::empty(),
        }
    }

    /// The case policy: an explicit `case_sensitive` wins, then `ignore_case`,
    /// then smart case, which looks at the pattern as typed.
    pub open spec fn case_insensitive(&self) -> bool {
        if self.case_sensitive {
            false
        } else if self.ignore_case {
            true
        } else if self.smart_case {
            !has_uppercase(self.raw_pattern())
        } else {
            false
        }
    }

    /// The first option that clashes with `log_only`, if any does.
    pub open spec fn conflict(&self) -> Option<FlagConflict> {
        if !self.log_only {
            None
        } else if self.names_only {
            Some(FlagConflict::NamesOnly)
        } else if self.content_only {
            Some(FlagConflict::ContentOnly)
        } else if self.glob@.len() > 0 {
            Some(FlagConflict::Glob)
        } else if self.exclude@.len() > 0 {
            Some(FlagConflict::Ignore)
        } else {
            None
        }
    }

    /// The one mode that the flags select.
    pub open spec fn selected_mode(&self) -> Mode {
        if self.log_only {
            Mode::LogOnly
        } else if self.names_only {
            Mode::NamesOnly
        } else if self.content_only {
            Mode::ContentOnly
        } else {
            Mode::Both
        }
    }

    /// Whether commit messages are searched: by default they are; `no_log`
    /// turns that off and `log` turns it back on.
    pub fn wants_log(&self) -> (r: bool)
        ensures
            r == (!self.no_log || self.log),
    {
        !self.no_log || self.log
    }

    /// Whether matching disregards case.
    pub fn is_case_insensitive(&self) -> (r: bool)
        ensures
            r == self.case_insensitive(),
            self.case_sensitive ==> !r,
            !self.case_sensitive && self.ignore_case ==> r,
            !self.case_sensitive && !self.ignore_case && self.smart_case ==> (r <==> !has_uppercase(
                self.raw_pattern(),
            )),
            !self.case_sensitive && !self.ignore_case && self.smart_case && is_ascii_chars(
                self.raw_pattern(),
            ) ==> (r <==> !has_ascii_capital(self.raw_pattern())),
            !self.case_sensitive && !self.ignore_case && !self.smart_case ==> !r,
    {
        if self.case_sensitive {
            return false;
        }
        if self.ignore_case {
            return true;
        }
        if self.smart_case {
            return match &self.pattern {
                Some(p) => !contains_uppercase(p.as_str()),
                None => {
                    assert(!has_uppercase(Seq::<char>::empty()));
                    assert(!has_ascii_capital(Seq::<char>::empty()));
                    true
                },
            };
        }
        false
    }

    /// Whether the output is wanted in the coloured line format: `color` is `ansi`.
    pub fn rg_format(&self) -> (r: bool)
        ensures
            r == (self.color matches Some(c) && c@ == "ansi"@),
    {
        match &self.color {
            Some(c) => same_text(c.as_str(), "ansi"),
            None => false,
        }
    }

    /// Checks the flags against each other and names the mode they select.
    /// `log_only` goes with none of `names_only`, `content_only`, `glob`, `exclude`.
    pub fn mode(&self) -> (r: Result<Mode, FlagConflict>)
        ensures
            r == (match self.conflict() {
                Some(c) => Err::<Mode, FlagConflict>(c),
                None => Ok(self.selected_mode()),
            }),
            r is Err <==> self.log_only && (self.names_only || self.content_only || self.glob@.len()
                > 0 || self.exclude@.len() > 0),
    {
        if self.log_only {
            if self.names_only {
                return Err(FlagConflict::NamesOnly);
            }
            if self.content_only {
                return Err(FlagConflict::ContentOnly);
            }
            if self.glob.len() > 0 {
                return Err(FlagConflict::Glob);
            }
            if self.exclude.len() > 0 {
                return Err(FlagConflict::Ignore);
            }
            return Ok(Mode::LogOnly);
        }
        if self.names_only {
            Ok(Mode::NamesOnly)
        } else if self.content_only {
            Ok(Mode::ContentOnly)
        } else {
            Ok(Mode::Both)
        }
    }
}

} // verus!
