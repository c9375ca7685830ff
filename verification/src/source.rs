//! Where package lists come from: this machine, a state file, or another
//! machine over SSH.
//!
//! Running a program and reading a file is left to the caller. A source says
//! what has to be run or read, and makes a package list, or the reason why
//! there is none, of what came back.
use crate::order::{
    law_sorting, law_stable_order_is_unique, law_strings_are_ordered_as_texts, lemma_filter_map_has,
    lemma_stably_sorted_contains, sort_stably, stably_sorted, text_lt,
};
use crate::package::{
    malformed_message, parse_package_list, parsed_list, quoted, Package, PackageView, ParseError,
    ParseErrorView,
};
use crate::path::{components, join_path, joined_path, same_components, same_path};
use crate::text::{
    chars_of, integer, lemma_views_push, push_integer, same_text, trim, trimmed, views,
};
use vstd::prelude::*;
use vstd::std_specs::cmp::PartialEqSpec;
use vstd::utf8::{decode_utf8, valid_utf8};

verus! {

/// Anything that can yield a list of packages.
pub trait Source {
    /// The source may be asked: by default always. A caller that asks a source
    /// has to know this, so what a caller does not ask shows in its `requires`.
    open spec fn may_be_asked(&self) -> bool {
        true
    }

    /// A label for status messages.
    fn name(&self) -> String;

    /// Produces the package list, or the reason why there is none.
    fn fetch(&self) -> Result<Vec<Package>, SourceError>
        requires
            self.may_be_asked(),
    ;
}

/// Everything that can go wrong in getting a package list. What the operating
/// system says of an error is kept as its text.
#[derive(Debug)]
pub enum SourceError {
    /// The program could not be started.
    Spawn { program: String, error: String },
    /// The program ran and failed; `stderr` is what it said.
    CommandFailed { program: String, code: Option<i32>, stderr: String },
    /// A state file could not be read.
    ReadFile { path: String, error: String },
    /// The text is not a package list.
    Parse(ParseError),
}

/// What a `SourceError` stands for.
pub enum SourceErrorView {
    Spawn { program: Seq<char>, error: Seq<char> },
    CommandFailed { program: Seq<char>, code: Option<i32>, stderr: Seq<char> },
    ReadFile { path: Seq<char>, error: Seq<char> },
    Parse(ParseErrorView),
}

impl View for SourceError {
    type V = SourceErrorView;

    open spec fn view(&self) -> SourceErrorView {
        match self {
            SourceError::Spawn { program, error } => SourceErrorView::Spawn {
                program: program@,
                error: error@,
            },
            SourceError::CommandFailed { program, code, stderr } => SourceErrorView::CommandFailed {
                program: program@,
                code: *code,
                stderr: stderr@,
            },
            SourceError::ReadFile { path, error } => SourceErrorView::ReadFile {
                path: path@,
                error: error@,
            },
            SourceError::Parse(e) => SourceErrorView::Parse(e@),
        }
    }
}

impl SourceErrorView {
    /// The message for people.
    pub open spec fn message(self) -> Seq<char> {
        match self {
            SourceErrorView::Spawn { program, error } => "could not run `"@ + program + "`: "@
                + error,
            SourceErrorView::CommandFailed { program, code, stderr } => "`"@ + program
                + "` failed (exit "@ + (match code {
                Some(c) => integer(c as int),
                None => "signal"@,
            }) + "): "@ + stderr,
            SourceErrorView::ReadFile { path, error } => "could not read "@ + path + ": "@ + error,
            SourceErrorView::Parse(e) => "parse error: "@ + malformed_message(
                e.line_number,
                quoted(e.content),
            ),
        }
    }
}

impl SourceError {
    /// The message for people.
    pub fn message(&self) -> (r: String)
        ensures
            r@ == self@.message(),
    {
        let mut out = String::new();
        match self {
            SourceError::Spawn { program, error } => {
                out.append("could not run `");
                out.append(program.as_str());
                out.append("`: ");
                out.append(error.as_str());
            },
            SourceError::CommandFailed { program, code, stderr } => {
                out.append("`");
                out.append(program.as_str());
                out.append("` failed (exit ");
                match code {
                    Some(c) => push_integer(&mut out, *c),
                    None => out.append("signal"),
                }
                out.append("): ");
                out.append(stderr.as_str());
            },
            SourceError::ReadFile { path, error } => {
                out.append("could not read ");
                out.append(path.as_str());
                out.append(": ");
                out.append(error.as_str());
            },
            SourceError::Parse(e) => {
                out.append("parse error: ");
                let text = e.message();
                out.append(text.as_str());
            },
        }
        proof {
            assert(out@ =~= self@.message());
        }
        out
    }
}

/// A fetched package list seen through the views of its parts.
pub open spec fn fetched_view(r: Result<Vec<Package>, SourceError>) -> Result<
    Seq<PackageView>,
    SourceErrorView,
> {
    match r {
        Ok(packages) => Ok(views(packages@)),
        Err(e) => Err(e@),
    }
}

// --- what a program or a file gave -------------------------------------------
/// What a finished program left behind.
#[derive(Debug, Clone, PartialEq, Eq)]
pub struct CommandOutput {
    pub success: bool,
    pub code: Option<i32>,
    pub stdout: Vec<u8>,
    pub stderr: Vec<u8>,
}

/// Bytes read as UTF-8, with a replacement for whatever is not.
pub uninterp spec fn lossy_text(bytes: Seq<u8>) -> Seq<char>;

/// Calls `String::from_utf8_lossy`. Bytes that are valid UTF-8 give the text
/// that they encode; what becomes of others is left to `lossy_text`.
#[verifier::external_body]
fn decode_lossily(bytes: &[u8]) -> (r: String)
    ensures
        r@ == lossy_text(bytes@),
        valid_utf8(bytes@) ==> r@ == decode_utf8(bytes@),
{
    String::from_utf8_lossy(bytes).into_owned()
}

/// The text that a finished program wrote, or its failure.
pub open spec fn finished_text(
    program: Seq<char>,
    success: bool,
    code: Option<i32>,
    stdout: Seq<char>,
    stderr: Seq<char>,
) -> Result<Seq<char>, SourceErrorView> {
    if success {
        Ok(stdout)
    } else {
        Err(SourceErrorView::CommandFailed { program, code, stderr: trimmed(stderr) })
    }
}

/// A text, or why there is none, seen through the views of its parts.
pub open spec fn text_view(r: Result<String, SourceError>) -> Result<Seq<char>, SourceErrorView> {
    match r {
        Ok(text) => Ok(text@),
        Err(e) => Err(e@),
    }
}

/// Takes the output text of a finished program; anything but success is an
/// error that keeps what the program said.
pub fn finish_command(
    program: &str,
    success: bool,
    code: Option<i32>,
    stdout: String,
    stderr: &str,
) -> (r: Result<String, SourceError>)
    ensures
        text_view(r) == finished_text(program@, success, code, stdout@, stderr@),
{
    if !success {
        return Err(
            SourceError::CommandFailed { program: program.to_owned(), code, stderr: trim(stderr) },
        );
    }
    Ok(stdout)
}

/// The text that running a program gave: an error where it could not be
/// started or failed.
pub open spec fn run_text(program: Seq<char>, run: Result<CommandOutput, String>) -> Result<
    Seq<char>,
    SourceErrorView,
> {
    match run {
        Err(error) => Err(SourceErrorView::Spawn { program, error: error@ }),
        Ok(output) => finished_text(
            program,
            output.success,
            output.code,
            lossy_text(output.stdout@),
            lossy_text(output.stderr@),
        ),
    }
}

/// Turns what running `program` gave into its output text. `run` is the output,
/// or the operating system's words where the program could not be started.
pub fn run_command(program: &str, run: Result<CommandOutput, String>) -> (r: Result<
    String,
    SourceError,
>)
    ensures
        text_view(r) == run_text(program@, run),
{
    match run {
        Err(error) => Err(SourceError::Spawn { program: program.to_owned(), error }),
        Ok(output) => {
            let stdout = decode_lossily(output.stdout.as_slice());
            let stderr = decode_lossily(output.stderr.as_slice());
            finish_command(program, output.success, output.code, stdout, stderr.as_str())
        },
    }
}

/// What a source makes of a text, or of the lack of one.
pub open spec fn packages_of(text: Result<Seq<char>, SourceErrorView>) -> Result<
    Seq<PackageView>,
    SourceErrorView,
> {
    match text {
        Err(e) => Err(e),
        Ok(raw) => match parsed_list(raw) {
            Ok(packages) => Ok(packages),
            Err(e) => Err(SourceErrorView::Parse(e)),
        },
    }
}

/// Parses a text that a source gave.
fn parse_source(raw: &str) -> (r: Result<Vec<Package>, SourceError>)
    ensures
        fetched_view(r) == packages_of(Ok(raw@)),
{
    match parse_package_list(raw) {
        Ok(packages) => Ok(packages),
        Err(e) => Err(SourceError::Parse(e)),
    }
}

// --- the sources -------------------------------------------------------------
/// A program with its arguments.
#[derive(Debug, Clone, PartialEq, Eq)]
pub struct Command {
    pub program: String,
    pub args: Vec<String>,
}

/// What a `Command` stands for.
pub struct CommandView {
    pub program: Seq<char>,
    pub args: Seq<Seq<char>>,
}

impl View for Command {
    type V = CommandView;

    open spec fn view(&self) -> CommandView {
        CommandView { program: self.program@, args: views(self.args@) }
    }
}

/// Lists the explicitly installed packages of this machine.
pub open spec fn local_command() -> CommandView {
    CommandView { program: "pacman"@, args: seq!["-Qe"@] }
}

/// Lists the explicitly installed packages of a host over SSH, without asking
/// for a password and without waiting long for a connection.
pub open spec fn ssh_command(host: Seq<char>) -> CommandView {
    CommandView {
        program: "ssh"@,
        args: seq![
            "-o"@,
            "BatchMode=yes"@,
            "-o"@,
            "ConnectTimeout=8"@,
            host,
            "pacman"@,
            "-Qe"@,
        ],
    }
}

/// This machine, via `pacman -Qe`.
pub struct LocalSource;

impl LocalSource {
    /// A label for status messages.
    pub fn name(&self) -> (r: String)
        ensures
            r@ == "local (pacman -Qe)"@,
    {
        "local (pacman -Qe)".to_owned()
    }

    /// The program to run.
    pub fn command(&self) -> (r: Command)
        ensures
            r@ == local_command(),
    {
        let mut args: Vec<String> = Vec::new();
        args.push("-Qe".to_owned());
        proof {
            assert(views(args@) =~= local_command().args);
        }
        Command { program: "pacman".to_owned(), args }
    }

    /// The package list that running the program gave.
    pub fn fetch(&self, run: Result<CommandOutput, String>) -> (r: Result<
        Vec<Package>,
        SourceError,
    >)
        ensures
            fetched_view(r) == packages_of(run_text("pacman"@, run)),
    {
        match run_command("pacman", run) {
            Ok(raw) => parse_source(raw.as_str()),
            Err(e) => Err(e),
        }
    }
}

/// A state file in the form of `pacman -Qe`.
pub struct FileSource {
    path: String,
}

impl FileSource {
    /// The path of the file.
    pub closed spec fn path_view(&self) -> Seq<char> {
        self.path@
    }

    /// The source for the file at `path`.
    pub fn new(path: &str) -> (r: Self)
        ensures
            r.path_view() == path@,
    {
        FileSource { path: path.to_owned() }
    }

    /// A label for status messages.
    pub fn name(&self) -> (r: String)
        ensures
            r@ == "file: "@ + self.path_view(),
    {
        let mut out = "file: ".to_owned();
        out.append(self.path.as_str());
        out
    }

    /// The package list that reading the file gave. `read` is its text, or the
    /// operating system's words where it could not be read.
    pub fn fetch(&self, read: Result<String, String>) -> (r: Result<Vec<Package>, SourceError>)
        ensures
            fetched_view(r) == packages_of(read_text(self.path_view(), read)),
    {
        match read {
            Ok(raw) => parse_source(raw.as_str()),
            Err(error) => Err(SourceError::ReadFile { path: self.path.clone(), error }),
        }
    }
}

/// The text that reading a file gave, or an error that names the file.
pub open spec fn read_text(path: Seq<char>, read: Result<String, String>) -> Result<
    Seq<char>,
    SourceErrorView,
> {
    match read {
        Ok(raw) => Ok(raw@),
        Err(error) => Err(SourceErrorView::ReadFile { path, error: error@ }),
    }
}

/// Another machine over SSH.
pub struct SshSource {
    host: String,
}

impl SshSource {
    /// The name of the host.
    pub closed spec fn host_view(&self) -> Seq<char> {
        self.host@
    }

    /// The source for `host`.
    pub fn new(host: &str) -> (r: Self)
        ensures
            r.host_view() == host@,
    {
        SshSource { host: host.to_owned() }
    }

    /// A label for status messages.
    pub fn name(&self) -> (r: String)
        ensures
            r@ == "ssh: "@ + self.host_view(),
    {
        let mut out = "ssh: ".to_owned();
        out.append(self.host.as_str());
        out
    }

    /// The program to run.
    pub fn command(&self) -> (r: Command)
        ensures
            r@ == ssh_command(self.host_view()),
    {
        let mut args: Vec<String> = Vec::new();
        args.push("-o".to_owned());
        args.push("BatchMode=yes".to_owned());
        args.push("-o".to_owned());
        args.push("ConnectTimeout=8".to_owned());
        args.push(self.host.clone());
        args.push("pacman".to_owned());
        args.push("-Qe".to_owned());
        proof {
            assert(views(args@) =~= ssh_command(self.host@).args);
        }
        Command { program: "ssh".to_owned(), args }
    }

    /// The package list that running the program gave.
    pub fn fetch(&self, run: Result<CommandOutput, String>) -> (r: Result<
        Vec<Package>,
        SourceError,
    >)
        ensures
            fetched_view(r) == packages_of(run_text("ssh"@, run)),
    {
        match run_command("ssh", run) {
            Ok(raw) => parse_source(raw.as_str()),
            Err(e) => Err(e),
        }
    }
}

// --- falling back ------------------------------------------------------------
/// Which of two sources gave the packages.
#[derive(Debug, Clone, Copy, PartialEq, Eq, Structural)]
pub enum Origin {
    Primary,
    Fallback,
}

/// The primary result where it is a list, else the fallback result.
pub open spec fn preferred(
    primary: Result<Vec<Package>, SourceError>,
    fallback: Result<Vec<Package>, SourceError>,
) -> Result<(Vec<Package>, Origin), SourceError> {
    match primary {
        Ok(packages) => Ok((packages, Origin::Primary)),
        Err(_) => match fallback {
            Ok(packages) => Ok((packages, Origin::Fallback)),
            Err(e) => Err(e),
        },
    }
}

/// Takes the primary result where it is a list, else the fallback result.
pub fn prefer(
    primary: Result<Vec<Package>, SourceError>,
    fallback: Result<Vec<Package>, SourceError>,
) -> (r: Result<(Vec<Package>, Origin), SourceError>)
    ensures
        r == preferred(primary, fallback),
{
    match primary {
        Ok(packages) => Ok((packages, Origin::Primary)),
        Err(_) => match fallback {
            Ok(packages) => Ok((packages, Origin::Fallback)),
            Err(e) => Err(e),
        },
    }
}

/// Tries `primary`, and `fallback` only where `primary` fails: no more is
/// required of `fallback` than that it may be asked after a failure. The error
/// of `primary` is dropped; that of `fallback` is returned.
pub fn fetch_with_fallback<P: Source + ?Sized, F: Source + ?Sized>(primary: &P, fallback: &F) -> (r:
    Result<(Vec<Package>, Origin), SourceError>)
    requires
        primary.may_be_asked(),
        forall|first: Result<Vec<Package>, SourceError>| #[trigger]
            call_ensures(P::fetch, (primary,), first) && first is Err ==> fallback.may_be_asked(),
    ensures
        exists|first: Result<Vec<Package>, SourceError>| #[trigger]
            call_ensures(P::fetch, (primary,), first) && match first {
                Ok(packages) => r == Ok::<(Vec<Package>, Origin), SourceError>(
                    (packages, Origin::Primary),
                ),
                Err(_) => exists|second: Result<Vec<Package>, SourceError>| #[trigger]
                    call_ensures(F::fetch, (fallback,), second) && r == preferred(first, second),
            },
{
    match primary.fetch() {
        Ok(packages) => Ok((packages, Origin::Primary)),
        Err(e) => prefer(Err(e), fallback.fetch()),
    }
}

// --- source descriptions -----------------------------------------------------
/// A description of where to fetch a package list from. It is plain data, so
/// it can be handed to a worker thread, remembered and shown.
#[derive(Debug)]
pub enum SourceSpec {
    /// This machine.
    Local,
    /// The state file at a path.
    File(String),
    /// A host over SSH.
    Ssh(String),
}

/// What a `SourceSpec` stands for.
pub enum SourceSpecView {
    Local,
    File(Seq<char>),
    Ssh(Seq<char>),
}

impl View for SourceSpec {
    type V = SourceSpecView;

    open spec fn view(&self) -> SourceSpecView {
        match self {
            SourceSpec::Local => SourceSpecView::Local,
            SourceSpec::File(path) => SourceSpecView::File(path@),
            SourceSpec::Ssh(host) => SourceSpecView::Ssh(host@),
        }
    }
}

impl Clone for SourceSpec {
    fn clone(&self) -> (r: Self)
        ensures
            r@ == self@,
    {
        match self {
            SourceSpec::Local => SourceSpec::Local,
            SourceSpec::File(path) => SourceSpec::File(path.clone()),
            SourceSpec::Ssh(host) => SourceSpec::Ssh(host.clone()),
        }
    }
}

/// Two descriptions of one source: files by the components of their paths,
/// hosts by their names.
pub open spec fn same_source(a: SourceSpecView, b: SourceSpecView) -> bool {
    match (a, b) {
        (SourceSpecView::Local, SourceSpecView::Local) => true,
        (SourceSpecView::File(p), SourceSpecView::File(q)) => same_components(p, q),
        (SourceSpecView::Ssh(g), SourceSpecView::Ssh(h)) => g == h,
        _ => false,
    }
}

impl PartialEq for SourceSpec {
    fn eq(&self, other: &Self) -> (r: bool) {
        match (self, other) {
            (SourceSpec::Local, SourceSpec::Local) => true,
            (SourceSpec::File(p), SourceSpec::File(q)) => same_path(p.as_str(), q.as_str()),
            (SourceSpec::Ssh(g), SourceSpec::Ssh(h)) => same_text(g.as_str(), h.as_str()),
            _ => false,
        }
    }
}

impl vstd::std_specs::cmp::PartialEqSpecImpl for SourceSpec {
    open spec fn obeys_eq_spec() -> bool {
        true
    }

    open spec fn eq_spec(&self, other: &Self) -> bool {
        same_source(self@, other@)
    }
}

impl Eq for SourceSpec {

}

/// What has to be done to fetch from a source.
#[derive(Debug, Clone, PartialEq, Eq)]
pub enum Request {
    /// Run a program and keep its output.
    Run(Command),
    /// Read the file at a path.
    Read(String),
}

/// What a `Request` stands for.
pub enum RequestView {
    Run(CommandView),
    Read(Seq<char>),
}

impl View for Request {
    type V = RequestView;

    open spec fn view(&self) -> RequestView {
        match self {
            Request::Run(command) => RequestView::Run(command@),
            Request::Read(path) => RequestView::Read(path@),
        }
    }
}

/// What came of a request. Errors are the operating system's words.
#[derive(Debug, PartialEq, Eq)]
pub enum Reply {
    /// A program's output, or why it could not be started.
    Run(Result<CommandOutput, String>),
    /// A file's text, or why it could not be read.
    Read(Result<String, String>),
}

impl SourceSpecView {
    /// The label for lists of sources.
    pub open spec fn label(self) -> Seq<char> {
        match self {
            SourceSpecView::Local => "local (pacman -Qe)"@,
            SourceSpecView::File(path) => "file: "@ + path,
            SourceSpecView::Ssh(host) => "ssh: "@ + host,
        }
    }

    /// What has to be done to fetch.
    pub open spec fn request(self) -> RequestView {
        match self {
            SourceSpecView::Local => RequestView::Run(local_command()),
            SourceSpecView::File(path) => RequestView::Read(path),
            SourceSpecView::Ssh(host) => RequestView::Run(ssh_command(host)),
        }
    }

    /// The reply is of the kind that the request asks for.
    pub open spec fn is_answered_by(self, reply: Reply) -> bool {
        match self {
            SourceSpecView::File(_) => reply is Read,
            _ => reply is Run,
        }
    }

    /// The package list, or the error, that the reply to the request means.
    pub open spec fn fetched(self, reply: Reply) -> Result<Seq<PackageView>, SourceErrorView> {
        match self {
            SourceSpecView::Local => packages_of(run_text("pacman"@, reply->Run_0)),
            SourceSpecView::File(path) => packages_of(read_text(path, reply->Read_0)),
            SourceSpecView::Ssh(_) => packages_of(run_text("ssh"@, reply->Run_0)),
        }
    }
}

impl SourceSpec {
    /// The label for lists of sources.
    pub fn label(&self) -> (r: String)
        ensures
            r@ == self@.label(),
    {
        match self {
            SourceSpec::Local => LocalSource.name(),
            SourceSpec::File(path) => FileSource::new(path.as_str()).name(),
            SourceSpec::Ssh(host) => SshSource::new(host.as_str()).name(),
        }
    }

    /// What has to be done to fetch from this source.
    pub fn build(&self) -> (r: Request)
        ensures
            r@ == self@.request(),
    {
        match self {
            SourceSpec::Local => Request::Run(LocalSource.command()),
            SourceSpec::File(path) => Request::Read(path.clone()),
            SourceSpec::Ssh(host) => Request::Run(SshSource::new(host.as_str()).command()),
        }
    }

    /// The package list that the reply to the request means.
    pub fn fetch(&self, reply: Reply) -> (r: Result<Vec<Package>, SourceError>)
        requires
            self@.is_answered_by(reply),
        ensures
            fetched_view(r) == self@.fetched(reply),
    {
        match (self, reply) {
            (SourceSpec::Local, Reply::Run(run)) => LocalSource.fetch(run),
            (SourceSpec::File(path), Reply::Read(read)) => FileSource::new(path.as_str()).fetch(read),
            (SourceSpec::Ssh(host), Reply::Run(run)) => SshSource::new(host.as_str()).fetch(run),
            _ => {
                proof {
                    assert(false);
                }
                Err(
                    SourceError::Spawn {
                        program: self.label(),
                        error: "the reply does not fit the request".to_owned(),
                    },
                )
            },
        }
    }
}

// --- targets on the command line ---------------------------------------------
/// An entry of a directory.
#[derive(Debug, Clone, PartialEq, Eq)]
pub struct DirectoryEntry {
    pub name: String,
    /// The entry is a file, and not a directory or something else.
    pub is_file: bool,
}

/// What a `DirectoryEntry` stands for.
pub struct DirectoryEntryView {
    pub name: Seq<char>,
    pub is_file: bool,
}

impl View for DirectoryEntry {
    type V = DirectoryEntryView;

    open spec fn view(&self) -> DirectoryEntryView {
        DirectoryEntryView { name: self.name@, is_file: self.is_file }
    }
}

/// What an argument names in the file system.
#[derive(Debug, Clone, PartialEq, Eq)]
pub enum Found {
    /// A directory, with its entries as far as they can be read.
    Directory(Vec<DirectoryEntry>),
    /// A file.
    File,
    /// Neither.
    Nothing,
}

/// A command-line argument and what it names.
#[derive(Debug, Clone, PartialEq, Eq)]
pub struct Target {
    pub arg: String,
    pub found: Found,
}

/// The name has the extension `pkgs`, behind something.
pub open spec fn is_list_file(name: Seq<char>) -> bool {
    name.len() > 5 && name.skip(name.len() - 5) == seq!['.', 'p', 'k', 'g', 's']
}

/// Tells whether a file name has the extension `pkgs`.
fn has_list_extension(name: &str) -> (r: bool)
    ensures
        r == is_list_file(name@),
{
    let chars: Vec<char> = chars_of(name);
    let n: usize = chars.len();
    if n <= 5 {
        return false;
    }
    let r = chars[n - 5] == '.' && chars[n - 4] == 'p' && chars[n - 3] == 'k' && chars[n - 2] == 'g'
        && chars[n - 1] == 's';
    proof {
        let end = name@.skip(name@.len() - 5);
        let pkgs = seq!['.', 'p', 'k', 'g', 's'];
        if r {
            assert(end =~= pkgs);
        }
        if end == pkgs {
            assert(end[0] == '.' && end[1] == 'p' && end[2] == 'k' && end[3] == 'g' && end[4]
                == 's');
        }
    }
    r
}

/// The name of an entry that is a list file.
pub open spec fn list_file(entry: DirectoryEntryView) -> Option<Seq<char>> {
    if entry.is_file && is_list_file(entry.name) {
        Some(entry.name)
    } else {
        None
    }
}

/// The names of the list files of a directory.
pub open spec fn list_files(entries: Seq<DirectoryEntryView>) -> Seq<Seq<char>> {
    entries.filter_map(|entry: DirectoryEntryView| list_file(entry))
}

/// The sources that `specs` describes are those of `target`: the list files of
/// a directory in the order of their names, a file, or else a host.
pub open spec fn describes(target: Target, specs: Seq<SourceSpecView>) -> bool {
    match target.found {
        Found::Directory(entries) => exists|sorted: Seq<Seq<char>>| #[trigger]
            stably_sorted::<String>(list_files(views(entries@)), sorted) && specs
                == sorted.map_values(
                |name: Seq<char>| SourceSpecView::File(joined_path(target.arg@, name)),
            ),
        Found::File => specs == seq![SourceSpecView::File(target.arg@)],
        Found::Nothing => specs == seq![SourceSpecView::Ssh(target.arg@)],
    }
}

/// The sources of all targets, target by target.
pub open spec fn describes_all(targets: Seq<Target>, specs: Seq<SourceSpecView>) -> bool {
    exists|parts: Seq<Seq<SourceSpecView>>|
        {
            &&& parts.len() == targets.len()
            &&& forall|i: int| 0 <= i < targets.len() ==> describes(targets[i], #[trigger] parts[i])
            &&& specs == #[trigger] parts.flatten()
        }
}

/// The list files among the entries of a directory, sorted by name.
fn sorted_list_files(entries: &[DirectoryEntry]) -> (r: Vec<String>)
    ensures
        stably_sorted::<String>(list_files(views(entries@)), views(r@)),
{
    let ghost all = views(entries@);
    let ghost f = |entry: DirectoryEntryView| list_file(entry);
    let mut out: Vec<String> = Vec::new();
    let mut i: usize = 0;
    proof {
        assert(views(out@) =~= all.take(0).filter_map(f));
    }
    while i < entries.len()
        invariant
            i <= entries@.len(),
            all == views(entries@),
            f == (|entry: DirectoryEntryView| list_file(entry)),
            views(out@) == all.take(i as int).filter_map(f),
        decreases entries@.len() - i,
    {
        let entry = &entries[i];
        proof {
            assert(all[i as int] == entry@);
            all.lemma_filter_map_take_succ(f, i as int);
        }
        if entry.is_file && has_list_extension(entry.name.as_str()) {
            let name = entry.name.clone();
            proof {
                lemma_views_push(out@, name);
                assert(views(out@) + seq![name@] =~= views(out@).push(name@));
            }
            out.push(name);
        } else {
            proof {
                assert(views(out@) + Seq::<Seq<char>>::empty() =~= views(out@));
            }
        }
        i = i + 1;
    }
    proof {
        assert(all.take(i as int) =~= all);
    }
    sort_stably(&mut out);
    out
}

/// The sources of one target.
fn discover_target(target: &Target) -> (r: Vec<SourceSpec>)
    ensures
        describes(*target, views(r@)),
{
    let mut specs: Vec<SourceSpec> = Vec::new();
    match &target.found {
        Found::Directory(entries) => {
            let files: Vec<String> = sorted_list_files(entries.as_slice());
            let ghost sorted = views(files@);
            let ghost f = |name: Seq<char>|
                SourceSpecView::File(joined_path(target.arg@, name));
            let mut i: usize = 0;
            while i < files.len()
                invariant
                    i <= files@.len(),
                    sorted == views(files@),
                    f == (|name: Seq<char>| SourceSpecView::File(joined_path(target.arg@, name))),
                    views(specs@) =~= sorted.take(i as int).map_values(f),
                decreases files@.len() - i,
            {
                let file = SourceSpec::File(join_path(target.arg.as_str(), files[i].as_str()));
                proof {
                    lemma_views_push(specs@, file);
                    assert(sorted.take(i + 1) =~= sorted.take(i as int).push(sorted[i as int]));
                }
                specs.push(file);
                i = i + 1;
            }
            proof {
                assert(sorted.take(i as int) =~= sorted);
            }
        },
        Found::File => {
            let file = SourceSpec::File(target.arg.clone());
            specs.push(file);
            proof {
                assert(views(specs@) =~= seq![SourceSpecView::File(target.arg@)]);
            }
        },
        Found::Nothing => {
            let host = SourceSpec::Ssh(target.arg.clone());
            specs.push(host);
            proof {
                assert(views(specs@) =~= seq![SourceSpecView::Ssh(target.arg@)]);
            }
        },
    }
    specs
}

/// Turns command-line arguments into sources: a directory into its list files,
/// a file into itself, anything else into an SSH host.
pub fn discover(targets: &[Target]) -> (r: Vec<SourceSpec>)
    ensures
        describes_all(targets@, views(r@)),
{
    let mut specs: Vec<SourceSpec> = Vec::new();
    let ghost mut parts: Seq<Seq<SourceSpecView>> = Seq::empty();
    let mut i: usize = 0;
    proof {
        assert(views(specs@) =~= parts.flatten());
    }
    while i < targets.len()
        invariant
            i <= targets@.len(),
            parts.len() == i,
            forall|k: int| 0 <= k < i ==> describes(targets@[k], #[trigger] parts[k]),
            views(specs@) == parts.flatten(),
        decreases targets@.len() - i,
    {
        let mut more: Vec<SourceSpec> = discover_target(&targets[i]);
        proof {
            let before = parts;
            parts = parts.push(views(more@));
            before.lemma_flatten_and_flatten_alt_are_equivalent();
            parts.lemma_flatten_and_flatten_alt_are_equivalent();
            assert(parts.drop_last() =~= before);
            assert(views(specs@ + more@) =~= views(specs@) + views(more@));
        }
        specs.append(&mut more);
        i = i + 1;
    }
    specs
}

// --- laws --------------------------------------------------------------------
/// Equality of sources is reflexive.
pub proof fn law_same_source_reflexive(a: SourceSpecView)
    ensures
        same_source(a, a),
{
}

/// Equality of sources is symmetric.
pub proof fn law_same_source_symmetric(a: SourceSpecView, b: SourceSpecView)
    ensures
        same_source(a, b) == same_source(b, a),
{
}

/// Equality of sources is transitive.
pub proof fn law_same_source_transitive(a: SourceSpecView, b: SourceSpecView, c: SourceSpecView)
    requires
        same_source(a, b),
        same_source(b, c),
    ensures
        same_source(a, c),
{
}

/// The fallback's result does not matter where the primary source has a list,
/// and an error comes out only where both fail: that of the fallback.
pub proof fn law_fallback_only_on_failure(
    primary: Result<Vec<Package>, SourceError>,
    fallback: Result<Vec<Package>, SourceError>,
)
    ensures
        primary is Ok ==> preferred(primary, fallback) == Ok::<(Vec<Package>, Origin), SourceError>(
            (primary->Ok_0, Origin::Primary),
        ),
        preferred(primary, fallback) is Err <==> primary is Err && fallback is Err,
        preferred(primary, fallback) matches Err(e) ==> fallback == Err::<
            Vec<Package>,
            SourceError,
        >(e),
{
}

/// Different sources have different labels.
pub proof fn law_labels_are_distinct(a: SourceSpecView, b: SourceSpecView)
    requires
        a.label() == b.label(),
    ensures
        a == b,
{
    reveal_strlit("local (pacman -Qe)");
    reveal_strlit("file: ");
    reveal_strlit("ssh: ");
    let x = a.label();
    let y = b.label();
    assert(x[0] == y[0]);
    match (a, b) {
        (SourceSpecView::File(p), SourceSpecView::File(q)) => {
            assert(p =~= x.skip(6));
            assert(q =~= y.skip(6));
        },
        (SourceSpecView::Ssh(g), SourceSpecView::Ssh(h)) => {
            assert(g =~= x.skip(5));
            assert(h =~= y.skip(5));
        },
        _ => {},
    }
}

/// A source is answered by a program's output exactly where it asks for a
/// program to be run, and else by a file's text.
pub proof fn law_replies_fit_requests(source: SourceSpecView, reply: Reply)
    ensures
        source.is_answered_by(reply) <==> (source.request() is Run <==> reply is Run),
{
}

/// A target has exactly one sequence of sources.
proof fn lemma_described_once(target: Target, a: Seq<SourceSpecView>, b: Seq<SourceSpecView>)
    requires
        describes(target, a),
        describes(target, b),
    ensures
        a == b,
{
    if let Found::Directory(entries) = target.found {
        let f = |name: Seq<char>| SourceSpecView::File(joined_path(target.arg@, name));
        let all = list_files(views(entries@));
        let x = choose|sorted: Seq<Seq<char>>| #[trigger]
            stably_sorted::<String>(all, sorted) && a == sorted.map_values(f);
        let y = choose|sorted: Seq<Seq<char>>| #[trigger]
            stably_sorted::<String>(all, sorted) && b == sorted.map_values(f);
        law_stable_order_is_unique::<String>(all, x, y);
    }
}

/// A directory gives a source for each of its list files and no others: entries
/// that are not files do not count, whatever their names.
pub proof fn law_only_list_files_of_a_directory_count(
    target: Target,
    specs: Seq<SourceSpecView>,
    name: Seq<char>,
)
    requires
        describes(target, specs),
        target.found is Directory,
    ensures
        ({
            let entries = views(target.found->Directory_0@);
            let file = DirectoryEntryView { name, is_file: true };
            &&& entries.contains(file) && is_list_file(name) ==> specs.contains(
                SourceSpecView::File(joined_path(target.arg@, name)),
            )
            &&& forall|i: int|
                0 <= i < specs.len() ==> exists|k: int|
                    #![trigger entries[k]]
                    0 <= k < entries.len() && entries[k].is_file && is_list_file(entries[k].name)
                        && #[trigger] specs[i] == SourceSpecView::File(
                        joined_path(target.arg@, entries[k].name),
                    )
        }),
{
    let entries = views(target.found->Directory_0@);
    let f = |name: Seq<char>| SourceSpecView::File(joined_path(target.arg@, name));
    let g = |entry: DirectoryEntryView| list_file(entry);
    let all = list_files(entries);
    let sorted = choose|sorted: Seq<Seq<char>>| #[trigger]
        stably_sorted::<String>(all, sorted) && specs == sorted.map_values(f);
    let file = DirectoryEntryView { name, is_file: true };
    if entries.contains(file) && is_list_file(name) {
        let k = choose|k: int| 0 <= k < entries.len() && entries[k] == file;
        lemma_filter_map_has(entries, g, k);
        lemma_stably_sorted_contains::<String>(all, sorted, name);
        let i = choose|i: int| 0 <= i < sorted.len() && sorted[i] == name;
        assert(specs[i] == f(name));
    }
    assert forall|i: int| 0 <= i < specs.len() implies exists|k: int|
        #![trigger entries[k]]
        0 <= k < entries.len() && entries[k].is_file && is_list_file(entries[k].name)
            && #[trigger] specs[i] == SourceSpecView::File(
            joined_path(target.arg@, entries[k].name),
        ) by {
        let n = sorted[i];
        assert(sorted.contains(n));
        lemma_stably_sorted_contains::<String>(all, sorted, n);
        entries.lemma_filter_map_contains(g, n);
        let e = choose|e: DirectoryEntryView| #[trigger] entries.contains(e) && g(e) == Some(n);
        let k = choose|k: int| 0 <= k < entries.len() && entries[k] == e;
        assert(entries[k].name == n);
    }
}

/// The targets determine the sources and their order.
pub proof fn law_discovery_is_determined(
    targets: Seq<Target>,
    a: Seq<SourceSpecView>,
    b: Seq<SourceSpecView>,
)
    requires
        describes_all(targets, a),
        describes_all(targets, b),
    ensures
        a == b,
{
    let x = choose|parts: Seq<Seq<SourceSpecView>>|
        {
            &&& parts.len() == targets.len()
            &&& forall|i: int| 0 <= i < targets.len() ==> describes(targets[i], #[trigger] parts[i])
            &&& a == #[trigger] parts.flatten()
        };
    let y = choose|parts: Seq<Seq<SourceSpecView>>|
        {
            &&& parts.len() == targets.len()
            &&& forall|i: int| 0 <= i < targets.len() ==> describes(targets[i], #[trigger] parts[i])
            &&& b == #[trigger] parts.flatten()
        };
    assert forall|i: int| 0 <= i < targets.len() implies x[i] == y[i] by {
        lemma_described_once(targets[i], x[i], y[i]);
    }
    assert(x =~= y);
}

/// The views of sources, errors, commands and entries show all their parts.
pub proof fn law_source_views(
    source: SourceSpec,
    error: SourceError,
    command: Command,
    request: Request,
    entry: DirectoryEntry,
)
    ensures
        source is Local <==> source@ is Local,
        source matches SourceSpec::File(path) ==> source@ == SourceSpecView::File(path@),
        source matches SourceSpec::Ssh(host) ==> source@ == SourceSpecView::Ssh(host@),
        error matches SourceError::Spawn { program, error: e } ==> error@ == (
        SourceErrorView::Spawn { program: program@, error: e@ }),
        error matches SourceError::CommandFailed { program, code, stderr } ==> error@ == (
        SourceErrorView::CommandFailed { program: program@, code, stderr: stderr@ }),
        error matches SourceError::ReadFile { path, error: e } ==> error@ == (
        SourceErrorView::ReadFile { path: path@, error: e@ }),
        error matches SourceError::Parse(e) ==> error@ == SourceErrorView::Parse(e@),
        command@.program == command.program@,
        command@.args == views(command.args@),
        request matches Request::Run(c) ==> request@ == RequestView::Run(c@),
        request matches Request::Read(path) ==> request@ == RequestView::Read(path@),
        entry@.name == entry.name@,
        entry@.is_file == entry.is_file,
{
}

/// The views of results show what they hold.
pub proof fn law_result_views(
    fetched: Result<Vec<Package>, SourceError>,
    text: Result<String, SourceError>,
)
    ensures
        fetched matches Ok(packages) ==> fetched_view(fetched) == Ok::<
            Seq<PackageView>,
            SourceErrorView,
        >(views(packages@)),
        fetched matches Err(e) ==> fetched_view(fetched) == Err::<
            Seq<PackageView>,
            SourceErrorView,
        >(e@),
        text matches Ok(t) ==> text_view(text) == Ok::<Seq<char>, SourceErrorView>(t@),
        text matches Err(e) ==> text_view(text) == Err::<Seq<char>, SourceErrorView>(e@),
{
}

/// A program gives a text exactly where it succeeded, whatever its exit code:
/// the text that it wrote, unchanged. Otherwise its failure names the program
/// and its exit code and keeps what it said, trimmed.
pub proof fn law_only_success_gives_a_text(
    program: Seq<char>,
    success: bool,
    code: Option<i32>,
    stdout: Seq<char>,
    stderr: Seq<char>,
)
    ensures
        finished_text(program, success, code, stdout, stderr) is Ok <==> success,
        success ==> finished_text(program, success, code, stdout, stderr)->Ok_0 == stdout,
        !success ==> finished_text(program, success, code, stdout, stderr)->Err_0 == (
        SourceErrorView::CommandFailed { program, code, stderr: trimmed(stderr) }),
{
}

/// What running a program means for its package list. A program that could not
/// be started or that failed gives no list, whatever it wrote and whatever its
/// exit code. One that succeeded gives what its output says: the packages, or
/// the line that is malformed.
pub proof fn law_what_running_a_program_means(
    program: Seq<char>,
    run: Result<CommandOutput, String>,
)
    ensures
        run matches Err(error) ==> packages_of(run_text(program, run)) == Err::<
            Seq<PackageView>,
            SourceErrorView,
        >(SourceErrorView::Spawn { program, error: error@ }),
        run matches Ok(output) ==> !output.success ==> packages_of(run_text(program, run)) == Err::<
            Seq<PackageView>,
            SourceErrorView,
        >(
            SourceErrorView::CommandFailed {
                program,
                code: output.code,
                stderr: trimmed(lossy_text(output.stderr@)),
            },
        ),
        run matches Ok(output) ==> output.success ==> match parsed_list(
            lossy_text(output.stdout@),
        ) {
            Ok(packages) => packages_of(run_text(program, run)) == Ok::<
                Seq<PackageView>,
                SourceErrorView,
            >(packages),
            Err(e) => packages_of(run_text(program, run)) == Err::<
                Seq<PackageView>,
                SourceErrorView,
            >(SourceErrorView::Parse(e)),
        },
        run matches Ok(output) ==> (run_text(program, run) is Ok <==> output.success),
        run matches Ok(output) ==> output.success ==> run_text(program, run)->Ok_0 == lossy_text(
            output.stdout@,
        ),
{
}

/// What reading a file means for its package list: what its text says, or an
/// error that names the file.
pub proof fn law_what_reading_a_file_means(path: Seq<char>, read: Result<String, String>)
    ensures
        read matches Err(error) ==> packages_of(read_text(path, read)) == Err::<
            Seq<PackageView>,
            SourceErrorView,
        >(SourceErrorView::ReadFile { path, error: error@ }),
        read matches Ok(text) ==> match parsed_list(text@) {
            Ok(packages) => packages_of(read_text(path, read)) == Ok::<
                Seq<PackageView>,
                SourceErrorView,
            >(packages),
            Err(e) => packages_of(read_text(path, read)) == Err::<
                Seq<PackageView>,
                SourceErrorView,
            >(SourceErrorView::Parse(e)),
        },
{
}

/// A source that runs a program takes its list from what that program gave, and
/// a file from what reading it gave.
pub proof fn law_what_a_reply_means(
    source: SourceSpecView,
    run: Result<CommandOutput, String>,
    read: Result<String, String>,
)
    ensures
        source is Local ==> source.fetched(Reply::Run(run)) == packages_of(
            run_text("pacman"@, run),
        ),
        source is Ssh ==> source.fetched(Reply::Run(run)) == packages_of(run_text("ssh"@, run)),
        source matches SourceSpecView::File(path) ==> source.fetched(Reply::Read(read))
            == packages_of(read_text(path, read)),
        source.is_answered_by(Reply::Run(run)) <==> !(source is File),
        source.is_answered_by(Reply::Read(read)) <==> source is File,
{
}

/// What a source asks for: `pacman -Qe` on this machine or on the host, whatever
/// the host is called, and the file at its path.
pub proof fn law_what_a_source_asks_for(source: SourceSpecView)
    ensures
        source is Local ==> (source.request() matches RequestView::Run(c) && c.program
            == "pacman"@ && c.args == seq!["-Qe"@]),
        source matches SourceSpecView::File(path) ==> source.request() == RequestView::Read(path),
        source matches SourceSpecView::Ssh(host) ==> (source.request() matches RequestView::Run(c)
            && c.program == "ssh"@ && c.args == seq![
            "-o"@,
            "BatchMode=yes"@,
            "-o"@,
            "ConnectTimeout=8"@,
            host,
            "pacman"@,
            "-Qe"@,
        ]),
        local_command().program == "pacman"@,
        local_command().args == seq!["-Qe"@],
        source matches SourceSpecView::Ssh(host) ==> source.request() == RequestView::Run(
            ssh_command(host),
        ),
{
}

/// A label names the sort of the source and ends with its path or host.
pub proof fn law_labels(source: SourceSpecView)
    ensures
        source is Local ==> source.label() == "local (pacman -Qe)"@,
        source matches SourceSpecView::File(path) ==> source.label() == "file: "@ + path,
        source matches SourceSpecView::Ssh(host) ==> source.label() == "ssh: "@ + host,
{
}

/// The message of an error names what was run or read and ends with the reason.
pub proof fn law_error_messages(error: SourceErrorView)
    ensures
        error matches SourceErrorView::Spawn { program, error: e } ==> error.message()
            == "could not run `"@ + program + "`: "@ + e,
        error matches SourceErrorView::CommandFailed { program, code, stderr } ==> error.message()
            == "`"@ + program + "` failed (exit "@ + (match code {
            Some(c) => integer(c as int),
            None => "signal"@,
        }) + "): "@ + stderr,
        error matches SourceErrorView::ReadFile { path, error: e } ==> error.message()
            == "could not read "@ + path + ": "@ + e,
        error matches SourceErrorView::Parse(e) ==> error.message() == "parse error: "@
            + malformed_message(e.line_number, quoted(e.content)),
{
}

/// Sources are the same where both are this machine, files at the same path, or
/// hosts of the same name; a file is never a host.
pub proof fn law_which_sources_are_the_same(a: SourceSpecView, b: SourceSpecView)
    ensures
        same_source(a, b) <==> {
            ||| a is Local && b is Local
            ||| a is File && b is File && components(a->File_0) == components(b->File_0)
            ||| a is Ssh && b is Ssh && a->Ssh_0 == b->Ssh_0
        },
{
}

/// A fallback is used exactly where the primary source fails, and what comes out
/// says so.
pub proof fn law_where_the_packages_come_from(
    primary: Result<Vec<Package>, SourceError>,
    fallback: Result<Vec<Package>, SourceError>,
)
    ensures
        primary matches Ok(packages) ==> preferred(primary, fallback) == Ok::<
            (Vec<Package>, Origin),
            SourceError,
        >((packages, Origin::Primary)),
        primary is Err ==> (fallback matches Ok(packages) ==> preferred(primary, fallback) == Ok::<
            (Vec<Package>, Origin),
            SourceError,
        >((packages, Origin::Fallback))),
        primary is Err ==> (fallback matches Err(e) ==> preferred(primary, fallback) == Err::<
            (Vec<Package>, Origin),
            SourceError,
        >(e)),
{
}

/// A list file is called something and then `.pkgs`, and nothing else is one.
pub proof fn law_names_of_list_files(stem: Seq<char>, name: Seq<char>)
    ensures
        is_list_file(stem + seq!['.', 'p', 'k', 'g', 's']) <==> stem.len() > 0,
        is_list_file(name) ==> name.len() > 5 && name == name.take(name.len() - 5) + seq![
            '.',
            'p',
            'k',
            'g',
            's',
        ],
{
    let pkgs = seq!['.', 'p', 'k', 'g', 's'];
    let whole = stem + pkgs;
    assert(whole.skip(whole.len() - 5) =~= pkgs);
    if is_list_file(name) {
        assert(name =~= name.take(name.len() - 5) + pkgs);
    }
}

/// A target that names a file is that file, and one that names neither a file nor
/// a directory is the host of that name, whatever characters it has.
pub proof fn law_what_a_single_target_means(target: Target, specs: Seq<SourceSpecView>)
    requires
        describes(target, specs),
    ensures
        target.found is File ==> specs.len() == 1 && specs[0] == SourceSpecView::File(target.arg@),
        target.found is Nothing ==> specs.len() == 1 && specs[0] == SourceSpecView::Ssh(
            target.arg@,
        ),
{
}

/// The sources of a directory are its files called something and then `.pkgs`,
/// each once, below the path of the directory and in the order of their names.
pub proof fn law_what_a_directory_means(target: Target, specs: Seq<SourceSpecView>)
    requires
        describes(target, specs),
        target.found is Directory,
    ensures
        exists|names: Seq<Seq<char>>|
            {
                &&& names.len() == specs.len()
                &&& forall|i: int|
                    0 <= i < names.len() ==> specs[i] == SourceSpecView::File(
                        joined_path(target.arg@, #[trigger] names[i]),
                    )
                &&& forall|i: int, j: int|
                    0 <= i < j < names.len() ==> #[trigger] names[i] == #[trigger] names[j]
                        || text_lt(names[i], names[j])
                &&& #[trigger] names.to_multiset() == views(
                    target.found->Directory_0@,
                ).filter(
                    |e: DirectoryEntryView|
                        e.is_file && e.name.len() > 5 && e.name.skip(e.name.len() - 5) == seq![
                            '.',
                            'p',
                            'k',
                            'g',
                            's',
                        ],
                ).map_values(|e: DirectoryEntryView| e.name).to_multiset()
            },
{
    let entries = views(target.found->Directory_0@);
    let f = |name: Seq<char>| SourceSpecView::File(joined_path(target.arg@, name));
    let all = list_files(entries);
    let names = choose|sorted: Seq<Seq<char>>| #[trigger]
        stably_sorted::<String>(all, sorted) && specs == sorted.map_values(f);
    assert(specs == names.map_values(f));
    if names.len() > 0 {
        law_sorting::<String>(all, names, names[0]);
    } else {
        law_sorting::<String>(all, names, Seq::empty());
    }
    lemma_list_files_are_filtered(entries);
    assert forall|i: int, j: int| 0 <= i < j < names.len() implies #[trigger] names[i]
        == #[trigger] names[j] || text_lt(names[i], names[j]) by {
        law_strings_are_ordered_as_texts(names[i], names[j]);
    }
}

/// The list files of a directory are a filter of its entries.
proof fn lemma_list_files_are_filtered(entries: Seq<DirectoryEntryView>)
    ensures
        list_files(entries) == entries.filter(
            |e: DirectoryEntryView|
                e.is_file && e.name.len() > 5 && e.name.skip(e.name.len() - 5) == seq![
                    '.',
                    'p',
                    'k',
                    'g',
                    's',
                ],
        ).map_values(|e: DirectoryEntryView| e.name),
    decreases entries.len(),
{
    reveal(Seq::filter);
    let g = |entry: DirectoryEntryView| list_file(entry);
    let p = |e: DirectoryEntryView|
        e.is_file && e.name.len() > 5 && e.name.skip(e.name.len() - 5) == seq![
            '.',
            'p',
            'k',
            'g',
            's',
        ];
    let h = |e: DirectoryEntryView| e.name;
    if entries.len() > 0 {
        let rest = entries.drop_last();
        let last = entries.last();
        lemma_list_files_are_filtered(rest);
        if p(last) {
            assert(entries.filter_map(g) =~= rest.filter_map(g).push(last.name));
            assert(entries.filter(p).map_values(h) =~= rest.filter(p).map_values(h).push(
                last.name,
            ));
        } else {
            assert(entries.filter_map(g) =~= rest.filter_map(g));
        }
    } else {
        assert(entries.filter_map(g) =~= entries.filter(p).map_values(h));
    }
}

/// Targets are taken one after the other: one more target adds its sources behind
/// those of the targets before it, and no targets give no sources.
pub proof fn law_targets_are_taken_in_order(
    targets: Seq<Target>,
    target: Target,
    specs: Seq<SourceSpecView>,
)
    ensures
        describes_all(Seq::empty(), specs) ==> specs.len() == 0,
        describes_all(targets.push(target), specs) ==> exists|
            a: Seq<SourceSpecView>,
            b: Seq<SourceSpecView>,
        | #[trigger]
            describes_all(targets, a) && #[trigger] describes(target, b) && specs == a + b,
{
    if describes_all(Seq::empty(), specs) {
        let none = Seq::<Target>::empty();
        let parts = choose|parts: Seq<Seq<SourceSpecView>>|
            {
                &&& parts.len() == none.len()
                &&& forall|i: int| 0 <= i < none.len() ==> describes(none[i], #[trigger] parts[i])
                &&& specs == #[trigger] parts.flatten()
            };
        assert(parts.flatten().len() == 0);
    }
    let more = targets.push(target);
    if describes_all(more, specs) {
        let parts = choose|parts: Seq<Seq<SourceSpecView>>|
            {
                &&& parts.len() == more.len()
                &&& forall|i: int| 0 <= i < more.len() ==> describes(more[i], #[trigger] parts[i])
                &&& specs == #[trigger] parts.flatten()
            };
        let front = parts.drop_last();
        let b = parts[parts.len() - 1];
        assert(describes(more[parts.len() - 1], b));
        assert forall|i: int| 0 <= i < targets.len() implies describes(
            targets[i],
            #[trigger] front[i],
        ) by {
            assert(describes(more[i], parts[i]));
        }
        front.lemma_flatten_and_flatten_alt_are_equivalent();
        parts.lemma_flatten_and_flatten_alt_are_equivalent();
        assert(describes_all(targets, front.flatten()));
        assert(specs == front.flatten() + b);
    }
}

/// Descriptions are equal exactly where they describe the same source.
pub proof fn law_equal_sources(a: SourceSpec, b: SourceSpec)
    ensures
        a.eq_spec(&b) <==> {
            ||| a is Local && b is Local
            ||| a is File && b is File && components(a->File_0@) == components(b->File_0@)
            ||| a is Ssh && b is Ssh && a->Ssh_0@ == b->Ssh_0@
        },
{
}

} // verus!
