//! The search for text in files: what is asked for, which files are read, and
//! which of their lines are kept.

use vstd::prelude::*;
use grep_regex::RegexMatcher;
use grep_regex::RegexMatcherBuilder;
use crate::path;
use crate::text;
use crate::text::CharSet;

verus! {

/// What to search for in files.
#[derive(Debug, Clone)]
pub struct ContentSearchOptions {
    /// The regular expression, in any case.
    pub query: String,
    /// The directory whose files are read.
    pub under_dir: Option<String>,
    /// The extension that the files have, in any case.
    pub extension: Option<String>,
    /// The number of lines that is enough.
    pub limit: usize,
    /// The time that the search may take, in nanoseconds.
    pub timeout_nanos: u128,
}

/// A line that was found.
#[derive(Debug, Clone)]
pub struct ContentMatch {
    pub path: String,
    pub line_number: u64,
    pub line_text: String,
}

/// What a search found.
#[derive(Debug, Clone)]
pub struct ContentSearchResult {
    pub matches: Vec<ContentMatch>,
    pub scanned_files: usize,
    pub took_nanos: u128,
    pub timed_out: bool,
}

/// The value of a [`ContentMatch`].
pub struct Line {
    pub path: Seq<char>,
    pub line_number: u64,
    pub line_text: Seq<char>,
}

impl View for ContentMatch {
    type V = Line;

    open spec fn view(&self) -> Line {
        Line { path: self.path@, line_number: self.line_number, line_text: self.line_text@ }
    }
}

/// The values of a list of matches.
pub open spec fn lines_of(v: Seq<ContentMatch>) -> Seq<Line> {
    Seq::new(v.len(), |i: int| v[i]@)
}

// ---------------------------------------------------------------------------
// Expressions
// ---------------------------------------------------------------------------

/// A compiled regular expression.
#[verifier::external_type_specification]
#[verifier::external_body]
pub struct ExRegexMatcher(grep_regex::RegexMatcher);

/// What `grep_regex::RegexMatcherBuilder::build`, asked to ignore case, makes
/// of the expression; none where it is malformed.
pub uninterp spec fn compiled(query: Seq<char>) -> Option<RegexMatcher>;

/// `grep_regex::RegexMatcherBuilder::build` compiles the expression, ignoring
/// case; where it is malformed, the error says why. Nothing is claimed of what
/// the compiled expression matches.
#[verifier::external_body]
fn compile_regex(query: &str) -> (r: Result<RegexMatcher, String>)
    ensures
        match r {
            Ok(matcher) => compiled(query@) == Some(matcher),
            Err(_) => compiled(query@) is None,
        },
{
    RegexMatcherBuilder::new().case_insensitive(true).build(query).map_err(|err| err.to_string())
}

// ---------------------------------------------------------------------------
// Plan
// ---------------------------------------------------------------------------

/// The time that a search takes where none is given: three seconds.
pub const DEFAULT_TIMEOUT_NANOS: u128 = 3_000_000_000;

/// Why a search could not be made.
#[derive(Debug, Clone)]
pub enum ContentError {
    /// The directory is not there.
    MissingDirectory(String),
    /// The regular expression is malformed: why.
    InvalidRegex(String),
    /// A file could not be searched: which, and why.
    Failed(String, String),
}

/// What the user is told of an error.
pub open spec fn content_message(e: ContentError) -> Seq<char> {
    match e {
        ContentError::MissingDirectory(dir) => "under path does not exist: "@ + dir@,
        ContentError::InvalidRegex(why) => "invalid regex query: "@ + why@,
        ContentError::Failed(path, why) => "content search failed on "@ + path@ + ": "@ + why@,
    }
}

impl ContentError {
    /// What the user is told of the error.
    pub fn message(&self) -> (r: String)
        ensures
            r@ == content_message(*self),
    {
        match self {
            ContentError::MissingDirectory(dir) => {
                let mut s = text::copy_text("under path does not exist: ");
                text::push_text(&mut s, dir.as_str());
                s
            },
            ContentError::InvalidRegex(why) => {
                let mut s = text::copy_text("invalid regex query: ");
                text::push_text(&mut s, why.as_str());
                s
            },
            ContentError::Failed(path, why) => {
                let mut s = text::copy_text("content search failed on ");
                text::push_text(&mut s, path.as_str());
                text::push_text(&mut s, ": ");
                text::push_text(&mut s, why.as_str());
                s
            },
        }
    }
}

/// The directory that is searched.
pub open spec fn scope_of(under_dir: Option<Seq<char>>) -> Seq<char> {
    match under_dir {
        Some(dir) => dir,
        None => "C:\\"@,
    }
}

/// The directory that is searched: the whole drive C where none is given.
pub fn content_scope(options: &ContentSearchOptions) -> (r: String)
    ensures
        r@ == scope_of(text::text_of(options.under_dir)),
{
    match &options.under_dir {
        Some(dir) => text::copy_text(dir.as_str()),
        None => text::copy_text("C:\\"),
    }
}

/// The extension that is asked for, in lower case and without its dot; none
/// where it is blank.
pub open spec fn wanted_extension(extension: Option<Seq<char>>) -> Option<Seq<char>> {
    match extension {
        Some(x) => {
            let w = text::lower(text::strip_start(text::trim(x), CharSet::One('.')));
            if w.len() == 0 {
                None
            } else {
                Some(w)
            }
        },
        None => None,
    }
}

/// The extension that is asked for.
pub fn normalized_extension(extension: &Option<String>) -> (r: Option<String>)
    ensures
        text::text_of(r) == wanted_extension(text::text_of(*extension)),
{
    match extension {
        Some(x) => {
            let w = text::to_lower(
                text::without_start(text::trimmed(x.as_str()).as_str(), CharSet::One('.')).as_str(),
            );
            proof {
                text::byte_len_zero(w@);
            }
            if text::len_in_bytes(w.as_str()) == 0 {
                None
            } else {
                Some(w)
            }
        },
        None => None,
    }
}

/// The file has the extension, where one is asked for.
pub open spec fn extension_ok(path: Seq<char>, wanted: Option<Seq<char>>) -> bool {
    match wanted {
        Some(w) => match path::extension(path) {
            Some(x) => text::lower(x) == w,
            None => false,
        },
        None => true,
    }
}

/// Whether a file has the extension that is asked for.
pub fn extension_matches(path: &str, expected_ext: &Option<String>) -> (r: bool)
    ensures
        r == extension_ok(path@, text::text_of(*expected_ext)),
{
    match expected_ext {
        Some(w) => match path::extension_of(path) {
            Some(x) => text::same_text(text::to_lower(x.as_str()).as_str(), w.as_str()),
            None => false,
        },
        None => true,
    }
}

// ---------------------------------------------------------------------------
// The search
// ---------------------------------------------------------------------------

/// A search that is under way.
pub struct ContentSearch {
    /// The compiled expression.
    pub matcher: RegexMatcher,
    pub extension: Option<String>,
    pub limit: usize,
    pub timeout_nanos: u128,
    pub matches: Vec<ContentMatch>,
    pub scanned_files: usize,
    pub timed_out: bool,
}

/// What to do next.
#[derive(Debug, Clone, Copy, PartialEq, Eq, Structural)]
pub enum Step {
    /// Go on to the next file or line.
    Skip,
    /// Search the file, or keep searching it.
    Take,
    /// Search no more.
    Stop,
}

/// What the search has found so far.
pub struct Progress {
    pub matches: Seq<Line>,
    pub scanned_files: nat,
    pub timed_out: bool,
}

/// What a search was asked for.
pub struct Bounds {
    pub extension: Option<Seq<char>>,
    pub limit: nat,
    pub timeout_nanos: nat,
}

impl ContentSearch {
    pub open spec fn progress(self) -> Progress {
        Progress {
            matches: lines_of(self.matches@),
            scanned_files: self.scanned_files as nat,
            timed_out: self.timed_out,
        }
    }

    pub open spec fn bounds(self) -> Bounds {
        Bounds {
            extension: text::text_of(self.extension),
            limit: self.limit as nat,
            timeout_nanos: self.timeout_nanos as nat,
        }
    }
}

/// What a search is asked for: at least one line, and some time.
pub open spec fn bounds_of(options: ContentSearchOptions) -> Bounds {
    Bounds {
        extension: wanted_extension(text::text_of(options.extension)),
        limit: if options.limit == 0 {
            1
        } else {
            options.limit as nat
        },
        timeout_nanos: if options.timeout_nanos == 0 {
            DEFAULT_TIMEOUT_NANOS as nat
        } else {
            options.timeout_nanos as nat
        },
    }
}

/// One more, up to the largest number of a machine word.
pub open spec fn one_more(n: nat) -> nat {
    if n < usize::MAX {
        n + 1
    } else {
        n
    }
}

/// What comes of an entry of the directory: the search ends where the time is
/// up, or where there are enough lines and another file would be read; what is
/// no file, or has another extension, is passed over.
pub open spec fn visit(
    p: Progress,
    b: Bounds,
    file: Option<Seq<char>>,
    elapsed: nat,
) -> (Progress, Step) {
    if elapsed >= b.timeout_nanos {
        (Progress { timed_out: true, ..p }, Step::Stop)
    } else {
        match file {
            None => (p, Step::Skip),
            Some(path) => if !extension_ok(path, b.extension) {
                (p, Step::Skip)
            } else {
                let counted = Progress { scanned_files: one_more(p.scanned_files), ..p };
                if p.matches.len() >= b.limit {
                    (counted, Step::Stop)
                } else {
                    (counted, Step::Take)
                }
            },
        }
    }
}

/// What comes of a line that matches: it is kept without the space at its end,
/// unless there are enough or the time is up.
pub open spec fn take(
    p: Progress,
    b: Bounds,
    path: Seq<char>,
    line_number: u64,
    line: Seq<char>,
    elapsed: nat,
) -> (Progress, Step) {
    if p.matches.len() >= b.limit || elapsed >= b.timeout_nanos {
        (Progress { timed_out: elapsed >= b.timeout_nanos, ..p }, Step::Stop)
    } else {
        (
            Progress {
                matches: p.matches.push(
                    Line {
                        path,
                        line_number,
                        line_text: text::strip_end(line, CharSet::Space),
                    },
                ),
                ..p
            },
            Step::Take,
        )
    }
}

impl ContentSearch {
    /// A search that has not begun. The caller says whether the directory is
    /// there.
    pub fn start(options: &ContentSearchOptions, scope_exists: bool) -> (r: Result<
        ContentSearch,
        ContentError,
    >)
        ensures
            !scope_exists ==> (r matches Err(ContentError::MissingDirectory(dir)) && dir@
                == scope_of(text::text_of(options.under_dir))),
            scope_exists && compiled(options.query@) is None ==> r matches Err(
                ContentError::InvalidRegex(_),
            ),
            scope_exists && compiled(options.query@) is Some ==> (r matches Ok(s) && Some(s.matcher)
                == compiled(options.query@) && s.bounds() == bounds_of(*options) && s.progress() == (Progress {
                matches: Seq::empty(),
                scanned_files: 0,
                timed_out: false,
            })),
    {
        if !scope_exists {
            return Err(ContentError::MissingDirectory(content_scope(options)));
        }
        let extension = normalized_extension(&options.extension);
        let limit: usize = if options.limit == 0 {
            1
        } else {
            options.limit
        };
        let timeout_nanos: u128 = if options.timeout_nanos == 0 {
            DEFAULT_TIMEOUT_NANOS
        } else {
            options.timeout_nanos
        };
        match compile_regex(options.query.as_str()) {
            Ok(matcher) => {
                let s = ContentSearch {
                    matcher,
                    extension,
                    limit,
                    timeout_nanos,
                    matches: Vec::new(),
                    scanned_files: 0,
                    timed_out: false,
                };
                assert(s.progress().matches =~= Seq::empty());
                Ok(s)
            },
            Err(e) => Err(ContentError::InvalidRegex(e)),
        }
    }

    /// Decides on an entry of the directory: its path where it is a file, and
    /// the time that has passed.
    pub fn on_entry(&mut self, file: Option<&str>, elapsed_nanos: u128) -> (r: Step)
        ensures
            final(self).bounds() == old(self).bounds(),
            (final(self).progress(), r) == visit(
                old(self).progress(),
                old(self).bounds(),
                match file {
                    Some(path) => Some(path@),
                    None => None,
                },
                elapsed_nanos as nat,
            ),
            final(self).matcher == old(self).matcher,
    {
        if elapsed_nanos >= self.timeout_nanos {
            self.timed_out = true;
            return Step::Stop;
        }
        let path = match file {
            Some(path) => path,
            None => {
                return Step::Skip;
            },
        };
        if !extension_matches(path, &self.extension) {
            return Step::Skip;
        }
        if self.scanned_files < usize::MAX {
            self.scanned_files = self.scanned_files + 1;
        }
        if self.matches.len() >= self.limit {
            return Step::Stop;
        }
        Step::Take
    }

    /// Decides on a line of a file that matches: whether the search of the
    /// file goes on.
    pub fn on_line(&mut self, path: &str, line_number: u64, line: &str, elapsed_nanos: u128) -> (r:
        bool)
        ensures
            final(self).bounds() == old(self).bounds(),
            final(self).progress() == take(
                old(self).progress(),
                old(self).bounds(),
                path@,
                line_number,
                line@,
                elapsed_nanos as nat,
            ).0,
            r == (take(
                old(self).progress(),
                old(self).bounds(),
                path@,
                line_number,
                line@,
                elapsed_nanos as nat,
            ).1 == Step::Take),
            final(self).matcher == old(self).matcher,
    {
        let late = elapsed_nanos >= self.timeout_nanos;
        if self.matches.len() >= self.limit || late {
            self.timed_out = late;
            return false;
        }
        let ghost before = lines_of(self.matches@);
        let found = ContentMatch {
            path: text::copy_text(path),
            line_number,
            line_text: text::without_end(line, CharSet::Space),
        };
        let ghost one = found@;
        self.matches.push(found);
        assert(lines_of(self.matches@) =~= before.push(one));
        true
    }

    /// Decides on the error of a file: one that is no text is passed over, any
    /// other ends the search.
    pub fn on_error(&self, path: &str, error: &str) -> (r: Result<(), ContentError>)
        ensures
            r is Ok <==> crate::bytes::contains(
                crate::bytes::utf8(error@),
                crate::bytes::utf8("invalid utf-8 sequence"@),
            ),
            r matches Err(e) ==> (e matches ContentError::Failed(p, why) && p@ == path@ && why@
                == error@),
    {
        if crate::bytes::holds_text(error, "invalid utf-8 sequence") {
            Ok(())
        } else {
            Err(ContentError::Failed(text::copy_text(path), text::copy_text(error)))
        }
    }

    /// What the search found.
    pub fn finish(self, took_nanos: u128) -> (r: ContentSearchResult)
        ensures
            r.matches == self.matches,
            r.scanned_files == self.scanned_files,
            r.timed_out == self.timed_out,
            r.took_nanos == took_nanos,
    {
        ContentSearchResult {
            matches: self.matches,
            scanned_files: self.scanned_files,
            took_nanos,
            timed_out: self.timed_out,
        }
    }
}

// ---------------------------------------------------------------------------
// Laws
// ---------------------------------------------------------------------------

/// No search keeps more lines than were asked for.
pub proof fn lines_stay_within_limit(
    p: Progress,
    b: Bounds,
    file: Option<Seq<char>>,
    path: Seq<char>,
    line_number: u64,
    line: Seq<char>,
    elapsed: nat,
)
    requires
        p.matches.len() <= b.limit,
    ensures
        visit(p, b, file, elapsed).0.matches.len() <= b.limit,
        take(p, b, path, line_number, line, elapsed).0.matches.len() <= b.limit,
{
}

/// A search that has enough lines, or no time left, keeps none.
pub proof fn nothing_is_kept_after_the_end(
    p: Progress,
    b: Bounds,
    path: Seq<char>,
    line_number: u64,
    line: Seq<char>,
    elapsed: nat,
)
    requires
        p.matches.len() >= b.limit || elapsed >= b.timeout_nanos,
    ensures
        take(p, b, path, line_number, line, elapsed).0.matches == p.matches,
        take(p, b, path, line_number, line, elapsed).1 == Step::Stop,
{
}

/// The lines found before stay as they are.
pub proof fn lines_are_kept(
    p: Progress,
    b: Bounds,
    path: Seq<char>,
    line_number: u64,
    line: Seq<char>,
    elapsed: nat,
)
    ensures
        p.matches.is_prefix_of(take(p, b, path, line_number, line, elapsed).0.matches),
{
    let after = take(p, b, path, line_number, line, elapsed).0.matches;
    assert(after.take(p.matches.len() as int) =~= p.matches);
}

/// A line that is found in time, while more are wanted, is kept: behind those
/// found before, with the very path and number that were given for it, and with
/// its text but for the spaces at its end.
pub proof fn kept_lines_are_as_given(
    p: Progress,
    b: Bounds,
    path: Seq<char>,
    line_number: u64,
    line: Seq<char>,
    elapsed: nat,
)
    requires
        p.matches.len() < b.limit,
        elapsed < b.timeout_nanos,
    ensures
        take(p, b, path, line_number, line, elapsed).1 == Step::Take,
        take(p, b, path, line_number, line, elapsed).0.scanned_files == p.scanned_files,
        take(p, b, path, line_number, line, elapsed).0.timed_out == p.timed_out,
        ({
            let after = take(p, b, path, line_number, line, elapsed).0.matches;
            let last = after.last();
            &&& after.len() == p.matches.len() + 1
            &&& after.drop_last() == p.matches
            &&& last.path == path
            &&& last.line_number == line_number
            &&& last.line_text.len() <= line.len()
            &&& last.line_text == line.take(last.line_text.len() as int)
            &&& last.line_text.len() > 0 ==> !text::is_space(last.line_text.last())
            &&& forall|i: int|
                last.line_text.len() <= i < line.len() ==> text::is_space(#[trigger] line[i])
        }),
{
    let after = take(p, b, path, line_number, line, elapsed).0.matches;
    assert(after.drop_last() =~= p.matches);
    text::strip_end_shape(line, CharSet::Space);
    lemma_stripped(line);
}

proof fn lemma_stripped(line: Seq<char>)
    ensures
        forall|i: int|
            text::strip_end(line, CharSet::Space).len() <= i < line.len() ==> text::is_space(
                #[trigger] line[i],
            ),
    decreases line.len(),
{
    if line.len() > 0 && text::is_space(line.last()) {
        let rest = line.drop_last();
        lemma_stripped(rest);
        assert forall|i: int|
            text::strip_end(line, CharSet::Space).len() <= i
                < line.len() implies text::is_space(#[trigger] line[i]) by {
            if i < rest.len() {
                assert(rest[i] == line[i]);
            }
        }
    }
}

/// A line that comes too late says so, and one that is too many does not.
pub proof fn late_lines_say_so(
    p: Progress,
    b: Bounds,
    path: Seq<char>,
    line_number: u64,
    line: Seq<char>,
    elapsed: nat,
)
    requires
        p.matches.len() >= b.limit || elapsed >= b.timeout_nanos,
    ensures
        take(p, b, path, line_number, line, elapsed).0.timed_out == (elapsed >= b.timeout_nanos),
        take(p, b, path, line_number, line, elapsed).0.scanned_files == p.scanned_files,
{
}

/// A file with the wanted extension that is met in time is counted, and searched
/// while more lines are wanted. Others are passed over without being counted.
pub proof fn wanted_files_are_searched(p: Progress, b: Bounds, path: Seq<char>, elapsed: nat)
    requires
        elapsed < b.timeout_nanos,
        p.scanned_files < usize::MAX,
    ensures
        visit(p, b, Some(path), elapsed).0.matches == p.matches,
        visit(p, b, Some(path), elapsed).0.timed_out == p.timed_out,
        extension_ok(path, b.extension) ==> visit(p, b, Some(path), elapsed).0.scanned_files
            == p.scanned_files + 1,
        extension_ok(path, b.extension) && p.matches.len() < b.limit ==> visit(
            p,
            b,
            Some(path),
            elapsed,
        ).1 == Step::Take,
        extension_ok(path, b.extension) && p.matches.len() >= b.limit ==> visit(
            p,
            b,
            Some(path),
            elapsed,
        ).1 == Step::Stop,
        !extension_ok(path, b.extension) ==> visit(p, b, Some(path), elapsed) == (p, Step::Skip),
        visit(p, b, None, elapsed) == (p, Step::Skip),
{
}

/// Once the time is up, nothing is searched any more, and the search says so.
pub proof fn late_entries_end_the_search(
    p: Progress,
    b: Bounds,
    file: Option<Seq<char>>,
    elapsed: nat,
)
    requires
        elapsed >= b.timeout_nanos,
    ensures
        visit(p, b, file, elapsed).1 == Step::Stop,
        visit(p, b, file, elapsed).0.timed_out,
        visit(p, b, file, elapsed).0.matches == p.matches,
        visit(p, b, file, elapsed).0.scanned_files == p.scanned_files,
{
}

/// A file is wanted exactly where its name ends in a dot and the extension, in
/// any case of its letters; every file is where none is asked for.
pub proof fn wanted_files_go_by_their_end(
    dir: Seq<char>,
    stem: Seq<char>,
    ext: Seq<char>,
    wanted: Seq<char>,
)
    requires
        dir.len() >= 3,
        'a' <= dir[0] <= 'z' || 'A' <= dir[0] <= 'Z',
        dir[1] == ':',
        dir.last() == '\\' || dir.last() == '/',
        path::plain_name(stem + seq!['.'] + ext),
        stem.len() > 0,
        !ext.contains('.'),
    ensures
        extension_ok(dir + (stem + seq!['.'] + ext), Some(wanted)) <==> text::lower(ext) == wanted,
        extension_ok(dir + (stem + seq!['.'] + ext), None),
{
    path::extensions_stand_behind_the_last_dot(stem, ext);
    path::names_stand_behind_the_last_separator(dir, stem + seq!['.'] + ext);
}

/// A name without a dot, or with none but its first character, has no wanted
/// extension.
pub proof fn files_without_extension_are_not_wanted(
    dir: Seq<char>,
    name: Seq<char>,
    wanted: Seq<char>,
)
    requires
        dir.len() >= 3,
        'a' <= dir[0] <= 'z' || 'A' <= dir[0] <= 'Z',
        dir[1] == ':',
        dir.last() == '\\' || dir.last() == '/',
        path::plain_name(name),
        !name.drop_first().contains('.'),
    ensures
        !extension_ok(dir + name, Some(wanted)),
{
    path::names_without_extension(name);
    path::names_stand_behind_the_last_separator(dir, name);
}

/// Spaces around an extension, dots before it and the case of its letters make
/// no difference; a blank one is none.
pub proof fn extensions_are_tidied(
    before: Seq<char>,
    dots: Seq<char>,
    ext: Seq<char>,
    behind: Seq<char>,
)
    requires
        forall|i: int| 0 <= i < before.len() ==> text::is_space(#[trigger] before[i]),
        forall|i: int| 0 <= i < dots.len() ==> #[trigger] dots[i] == '.',
        forall|i: int| 0 <= i < behind.len() ==> text::is_space(#[trigger] behind[i]),
        ext.len() > 0 ==> ext[0] != '.' && !text::is_space(ext[0]) && !text::is_space(ext.last()),
    ensures
        ext.len() > 0 ==> wanted_extension(Some(before + (dots + ext) + behind)) == Some(
            text::lower(ext),
        ),
        ext.len() == 0 ==> wanted_extension(Some(before + (dots + ext) + behind)) is None,
        wanted_extension(None) is None,
{
    let given = dots + ext;
    if given.len() > 0 {
        if dots.len() > 0 {
            assert(given[0] == dots[0]);
        } else {
            assert(given =~= ext);
        }
        if ext.len() > 0 {
            assert(given.last() == ext.last());
        } else {
            assert(given.last() == dots[dots.len() - 1]);
        }
    }
    text::trimming_takes_the_spaces(before, given, behind);
    assert forall|i: int| 0 <= i < dots.len() implies CharSet::One('.').has(#[trigger] dots[i]) by {
        assert(dots[i] == '.');
    }
    text::stripping_takes_the_run(dots, ext, CharSet::One('.'));
}

/// At least one line is wanted, and there is some time for it: three seconds
/// where none is given.
pub proof fn bounds_are_as_asked(options: ContentSearchOptions)
    ensures
        options.limit > 0 ==> bounds_of(options).limit == options.limit,
        options.limit == 0 ==> bounds_of(options).limit == 1,
        options.timeout_nanos > 0 ==> bounds_of(options).timeout_nanos == options.timeout_nanos,
        options.timeout_nanos == 0 ==> bounds_of(options).timeout_nanos == 3_000_000_000,
        options.extension is None ==> bounds_of(options).extension is None,
        options.under_dir matches Some(d) ==> scope_of(text::text_of(options.under_dir)) == d@,
        options.under_dir is None ==> scope_of(text::text_of(options.under_dir)) == seq![
            'C',
            ':',
            '\\',
        ],
{
    reveal_strlit("C:\\");
    assert("C:\\"@ =~= seq!['C', ':', '\\']);
}

/// A message ends in what it is about: the directory, or the reason.
pub proof fn messages_tell_the_reason(e: ContentError)
    ensures
        e matches ContentError::MissingDirectory(dir) ==> content_message(e).len() >= dir@.len()
            && content_message(e).skip(content_message(e).len() - dir@.len()) == dir@,
        e matches ContentError::InvalidRegex(why) ==> content_message(e).len() >= why@.len()
            && content_message(e).skip(content_message(e).len() - why@.len()) == why@,
        e matches ContentError::Failed(_, why) ==> content_message(e).len() >= why@.len()
            && content_message(e).skip(content_message(e).len() - why@.len()) == why@,
{
    let m = content_message(e);
    match e {
        ContentError::MissingDirectory(dir) => {
            assert(m.skip(m.len() - dir@.len()) =~= dir@);
        },
        ContentError::InvalidRegex(why) => {
            assert(m.skip(m.len() - why@.len()) =~= why@);
        },
        ContentError::Failed(_, why) => {
            assert(m.skip(m.len() - why@.len()) =~= why@);
        },
    }
}

} // verus!
