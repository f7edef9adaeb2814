//! The store backend that runs the `nix` and `nix-store` commands: its
//! settings, the command lines it runs, and the reading of their output.
//! It is the slowest backend, the last one a combined backend falls back
//! to; running the commands is left to the caller.
use vstd::prelude::*;
use crate::lines::{split_lines, split_words, parse_i64, text_lines, text_words, parsed_i64, range_views};
use crate::report::{StorePathInfo, text_views};
use crate::store_path::{StorePath, StorePathError, is_store_location};

verus! {

/// The commands a command backend runs, and the store they address.
pub struct CommandBackend {
    nix_store_cmd: String,
    nix_cmd: String,
    store_url: Option<String>,
}

/// The settings of a command backend.
pub ghost struct CommandView {
    pub nix_store_cmd: Seq<char>,
    pub nix_cmd: Seq<char>,
    pub store_url: Option<Seq<char>>,
}

impl View for CommandBackend {
    type V = CommandView;

    closed spec fn view(&self) -> CommandView {
        CommandView {
            nix_store_cmd: self.nix_store_cmd@,
            nix_cmd: self.nix_cmd@,
            store_url: match self.store_url {
                Some(u) => Some(u@),
                None => None,
            },
        }
    }
}

impl Default for CommandBackend {
    /// The backend that runs `nix-store` and `nix` on the default store.
    fn default() -> (r: Self)
        ensures
            r@ == (CommandView { nix_store_cmd: "nix-store"@, nix_cmd: "nix"@, store_url: None }),
    {
        CommandBackend { nix_store_cmd: String::from_str("nix-store"), nix_cmd: String::from_str("nix"), store_url: None }
    }
}

/// The arguments that address the backend's store, if it names one.
pub open spec fn store_args(v: CommandView) -> Seq<Seq<char>> {
    match v.store_url {
        Some(u) => seq!["--store"@, u],
        None => Seq::empty(),
    }
}

/// A query that a command backend runs a command for.
#[derive(Debug, Clone, Copy, PartialEq, Eq, Structural)]
pub enum StoreQuery {
    /// The store paths that a path refers to directly.
    References,
    /// The store paths of a path's closure.
    Requisites,
    /// The store paths of a path's closure with their NAR sizes.
    PathInfo,
}

/// The program and arguments that run a query on `path`.
pub open spec fn query_line(v: CommandView, query: StoreQuery, path: Seq<char>) -> (Seq<char>, Seq<Seq<char>>) {
    match query {
        StoreQuery::References => (v.nix_store_cmd, store_args(v) + seq!["--query"@, "--references"@, path]),
        StoreQuery::Requisites => (v.nix_store_cmd, store_args(v) + seq!["--query"@, "--requisites"@, path]),
        StoreQuery::PathInfo => (v.nix_cmd, seq!["path-info"@] + store_args(v) + seq!["--recursive"@, "--size"@, path]),
    }
}

fn copy_text(s: &String) -> (r: String)
    ensures
        r@ == s@,
{
    String::from_str(s.as_str())
}

fn push_text(args: &mut Vec<String>, s: &str)
    ensures
        text_views(final(args)@) == text_views(old(args)@).push(s@),
{
    let ghost before = text_views(args@);
    args.push(String::from_str(s));
    proof {
        assert(text_views(args@) =~= before.push(s@));
    }
}

impl CommandBackend {
    /// A backend that runs the given `nix-store` and `nix` commands on the
    /// default store.
    pub fn new(cmd_nix_store: String, cmd_nix: String) -> (r: CommandBackend)
        ensures
            r@ == (CommandView { nix_store_cmd: cmd_nix_store@, nix_cmd: cmd_nix@, store_url: None }),
    {
        CommandBackend { nix_store_cmd: cmd_nix_store, nix_cmd: cmd_nix, store_url: None }
    }

    /// The same backend, addressing the store at `store_url`.
    pub fn store_url(self, store_url: String) -> (r: CommandBackend)
        ensures
            r@ == (CommandView { store_url: Some(store_url@), ..self@ }),
    {
        CommandBackend { store_url: Some(store_url), ..self }
    }

    /// The backend's description: its commands and, where it names one, its
    /// store.
    pub fn display_text(&self) -> (s: String)
        ensures
            s@ == "CommandBackend(nix='"@ + self@.nix_cmd + "', nix-store='"@ + self@.nix_store_cmd + "'"@
                + (match self@.store_url {
                Some(u) => ", store='"@ + u + "'"@,
                None => Seq::empty(),
            }) + ")"@,
    {
        let mut s = String::from_str("CommandBackend(nix='");
        s.append(self.nix_cmd.as_str());
        s.append("', nix-store='");
        s.append(self.nix_store_cmd.as_str());
        s.append("'");
        let ghost head = s@;
        match &self.store_url {
            Some(u) => {
                s.append(", store='");
                s.append(u.as_str());
                s.append("'");
            },
            None => {
                proof {
                    assert(head + Seq::<char>::empty() =~= head);
                }
            },
        }
        s.append(")");
        s
    }

    fn append_store_args(&self, args: &mut Vec<String>)
        ensures
            text_views(final(args)@) == text_views(old(args)@) + store_args(self@),
    {
        let ghost before = text_views(args@);
        match &self.store_url {
            Some(u) => {
                push_text(args, "--store");
                push_text(args, u.as_str());
                proof {
                    assert(text_views(args@) =~= before + store_args(self@));
                }
            },
            None => {
                proof {
                    assert(text_views(args@) =~= before + store_args(self@));
                }
            },
        }
    }

    /// The `nix-store` program and the arguments that address the store.
    pub fn nix_store_command(&self) -> (r: (String, Vec<String>))
        ensures
            r.0@ == self@.nix_store_cmd,
            text_views(r.1@) == store_args(self@),
    {
        let mut args: Vec<String> = Vec::new();
        proof {
            assert(text_views(args@) =~= Seq::<Seq<char>>::empty());
        }
        self.append_store_args(&mut args);
        proof {
            assert(Seq::<Seq<char>>::empty() + store_args(self@) =~= store_args(self@));
        }
        (copy_text(&self.nix_store_cmd), args)
    }

    /// The `nix` program with a subcommand and the arguments that address
    /// the store.
    pub fn nix_command(&self, subcommand: &str) -> (r: (String, Vec<String>))
        ensures
            r.0@ == self@.nix_cmd,
            text_views(r.1@) == seq![subcommand@] + store_args(self@),
    {
        let mut args: Vec<String> = Vec::new();
        push_text(&mut args, subcommand);
        proof {
            assert(text_views(args@) =~= seq![subcommand@]);
        }
        self.append_store_args(&mut args);
        (copy_text(&self.nix_cmd), args)
    }

    /// The program and arguments that run `query` on the store path `path`.
    pub fn query_command(&self, query: StoreQuery, path: &str) -> (r: (String, Vec<String>))
        ensures
            (r.0@, text_views(r.1@)) == query_line(self@, query, path@),
    {
        match query {
            StoreQuery::References => {
                let (program, mut args) = self.nix_store_command();
                let ghost base = text_views(args@);
                push_text(&mut args, "--query");
                push_text(&mut args, "--references");
                push_text(&mut args, path);
                proof {
                    assert(text_views(args@) =~= base + seq!["--query"@, "--references"@, path@]);
                }
                (program, args)
            },
            StoreQuery::Requisites => {
                let (program, mut args) = self.nix_store_command();
                let ghost base = text_views(args@);
                push_text(&mut args, "--query");
                push_text(&mut args, "--requisites");
                push_text(&mut args, path);
                proof {
                    assert(text_views(args@) =~= base + seq!["--query"@, "--requisites"@, path@]);
                }
                (program, args)
            },
            StoreQuery::PathInfo => {
                let (program, mut args) = self.nix_command("path-info");
                let ghost base = text_views(args@);
                push_text(&mut args, "--recursive");
                push_text(&mut args, "--size");
                push_text(&mut args, path);
                proof {
                    assert(text_views(args@) =~= base + seq!["--recursive"@, "--size"@, path@]);
                }
                (program, args)
            },
        }
    }
}

/// Why the output of a command could not be read.
#[derive(Debug, Clone, Copy, PartialEq, Eq, Structural)]
pub enum OutputError {
    /// A line of path information holds no path.
    MissingPath,
    /// A line of path information holds a path but no size.
    MissingSize,
    /// The size on a line of path information is no `i64`.
    InvalidSize,
    /// A line holds no valid store path.
    InvalidPath(StorePathError),
}

/// The views of a list of store paths.
pub open spec fn path_views(v: Seq<StorePath>) -> Seq<Seq<char>> {
    v.map_values(|p: StorePath| p@)
}

/// The views of a list of store paths with their sizes.
pub open spec fn info_views(v: Seq<StorePathInfo>) -> Seq<(Seq<char>, int)> {
    v.map_values(|i: StorePathInfo| i@)
}

/// The store paths of output lines, one per line, or the error of the
/// first line that holds none.
pub open spec fn output_paths(lines: Seq<Seq<char>>) -> Result<Seq<Seq<char>>, OutputError>
    decreases lines.len(),
{
    if lines.len() == 0 {
        Ok(Seq::empty())
    } else {
        match output_paths(lines.drop_last()) {
            Err(e) => Err(e),
            Ok(ps) => if is_store_location(lines.last()) {
                Ok(ps.push(lines.last()))
            } else {
                Err(OutputError::InvalidPath(StorePathError::OutsideStore))
            },
        }
    }
}

/// The store path and size on one line of path information: the first two
/// whitespace-separated columns.
pub open spec fn info_line(line: Seq<char>) -> Result<(Seq<char>, int), OutputError> {
    let cols = text_words(line);
    if cols.len() == 0 {
        Err(OutputError::MissingPath)
    } else if cols.len() == 1 {
        Err(OutputError::MissingSize)
    } else {
        match parsed_i64(cols[1]) {
            None => Err(OutputError::InvalidSize),
            Some(n) => if is_store_location(cols[0]) {
                Ok((cols[0], n as int))
            } else {
                Err(OutputError::InvalidPath(StorePathError::OutsideStore))
            },
        }
    }
}

/// The store paths and sizes of output lines, one per line, or the error of
/// the first line that holds none.
pub open spec fn output_infos(lines: Seq<Seq<char>>) -> Result<Seq<(Seq<char>, int)>, OutputError>
    decreases lines.len(),
{
    if lines.len() == 0 {
        Ok(Seq::empty())
    } else {
        match output_infos(lines.drop_last()) {
            Err(e) => Err(e),
            Ok(infos) => match info_line(lines.last()) {
                Err(e) => Err(e),
                Ok(info) => Ok(infos.push(info)),
            },
        }
    }
}

/// Reads the store paths that a `nix-store --query` command printed, one
/// per line.
pub fn parse_store_path_output(output: &str) -> (r: Result<Vec<StorePath>, OutputError>)
    ensures
        match r {
            Ok(paths) => output_paths(text_lines(output@)) == Ok::<Seq<Seq<char>>, OutputError>(path_views(paths@)),
            Err(e) => output_paths(text_lines(output@)) == Err::<Seq<Seq<char>>, OutputError>(e),
        },
{
    let chars = crate::text::chars_of(output);
    let lines = split_lines(&chars);
    let ghost ls = text_lines(output@);
    let mut paths: Vec<StorePath> = Vec::new();
    let mut k: usize = 0;
    proof {
        assert(ls.take(0) =~= Seq::<Seq<char>>::empty());
        assert(path_views(paths@) =~= Seq::<Seq<char>>::empty());
    }
    while k < lines.len()
        invariant
            ls == text_lines(output@),
            chars@ == output@,
            range_views(chars@, lines@) == ls,
            crate::lines::ranges_within(chars@, lines@),
            k <= ls.len(),
            output_paths(ls.take(k as int)) == Ok::<Seq<Seq<char>>, OutputError>(path_views(paths@)),
        decreases ls.len() - k,
    {
        proof {
            assert(ls.take(k + 1).drop_last() =~= ls.take(k as int));
            assert(ls.take(k + 1).last() == ls[k as int]);
            assert(lines@[k as int].0 <= lines@[k as int].1 <= chars@.len());
        }
        let (a, b) = lines[k];
        let line = output.substring_char(a, b);
        let ghost before = path_views(paths@);
        match StorePath::try_from(String::from_str(line)) {
            Ok(p) => {
                paths.push(p);
                proof {
                    assert(path_views(paths@) =~= before.push(ls[k as int]));
                }
            },
            Err(e) => {
                proof {
                    assert(output_paths(ls.take(k + 1)) == Err::<Seq<Seq<char>>, OutputError>(OutputError::InvalidPath(e)));
                    lemma_output_paths_error(ls, k + 1);
                }
                return Err(OutputError::InvalidPath(e));
            },
        }
        k = k + 1;
    }
    proof {
        assert(ls.take(k as int) =~= ls);
    }
    Ok(paths)
}

/// The first failing line decides the error of the whole output.
proof fn lemma_output_paths_error(ls: Seq<Seq<char>>, k: int)
    requires
        0 <= k <= ls.len(),
        output_paths(ls.take(k)) is Err,
    ensures
        output_paths(ls) == output_paths(ls.take(k)),
    decreases ls.len() - k,
{
    if k < ls.len() {
        assert(ls.take(k + 1).drop_last() =~= ls.take(k));
        lemma_output_paths_error(ls, k + 1);
    } else {
        assert(ls.take(k) =~= ls);
    }
}

/// The first failing line decides the error of the whole output.
proof fn lemma_output_infos_error(ls: Seq<Seq<char>>, k: int)
    requires
        0 <= k <= ls.len(),
        output_infos(ls.take(k)) is Err,
    ensures
        output_infos(ls) == output_infos(ls.take(k)),
    decreases ls.len() - k,
{
    if k < ls.len() {
        assert(ls.take(k + 1).drop_last() =~= ls.take(k));
        lemma_output_infos_error(ls, k + 1);
    } else {
        assert(ls.take(k) =~= ls);
    }
}

/// Reads one line of path information.
fn parse_info_line(line: &str) -> (r: Result<StorePathInfo, OutputError>)
    ensures
        match r {
            Ok(info) => info_line(line@) == Ok::<(Seq<char>, int), OutputError>(info@),
            Err(e) => info_line(line@) == Err::<(Seq<char>, int), OutputError>(e),
        },
{
    let chars = crate::text::chars_of(line);
    let cols = split_words(&chars);
    if cols.len() == 0 {
        return Err(OutputError::MissingPath);
    }
    if cols.len() == 1 {
        return Err(OutputError::MissingSize);
    }
    proof {
        assert(cols@[0].0 <= cols@[0].1 <= chars@.len());
        assert(cols@[1].0 <= cols@[1].1 <= chars@.len());
    }
    let (pa, pb) = cols[0];
    let (sa, sb) = cols[1];
    let size_chars = crate::text::chars_of(line.substring_char(sa, sb));
    proof {
        assert(size_chars@ == text_words(line@)[1]);
    }
    let bytes = match parse_i64(&size_chars) {
        Some(n) => n,
        None => {
            return Err(OutputError::InvalidSize);
        },
    };
    let path_text = line.substring_char(pa, pb);
    proof {
        assert(path_text@ == text_words(line@)[0]);
    }
    match StorePath::try_from(String::from_str(path_text)) {
        Ok(p) => Ok(StorePathInfo::new(p, bytes)),
        Err(e) => Err(OutputError::InvalidPath(e)),
    }
}

/// Reads the store paths and NAR sizes that a
/// `nix path-info --recursive --size` command printed, one path and size
/// per line.
pub fn parse_path_info_size_output(output: &str) -> (r: Result<Vec<StorePathInfo>, OutputError>)
    ensures
        match r {
            Ok(infos) => output_infos(text_lines(output@)) == Ok::<Seq<(Seq<char>, int)>, OutputError>(info_views(infos@)),
            Err(e) => output_infos(text_lines(output@)) == Err::<Seq<(Seq<char>, int)>, OutputError>(e),
        },
{
    let chars = crate::text::chars_of(output);
    let lines = split_lines(&chars);
    let ghost ls = text_lines(output@);
    let mut infos: Vec<StorePathInfo> = Vec::new();
    let mut k: usize = 0;
    proof {
        assert(ls.take(0) =~= Seq::<Seq<char>>::empty());
        assert(info_views(infos@) =~= Seq::<(Seq<char>, int)>::empty());
    }
    while k < lines.len()
        invariant
            ls == text_lines(output@),
            chars@ == output@,
            range_views(chars@, lines@) == ls,
            crate::lines::ranges_within(chars@, lines@),
            k <= ls.len(),
            output_infos(ls.take(k as int)) == Ok::<Seq<(Seq<char>, int)>, OutputError>(info_views(infos@)),
        decreases ls.len() - k,
    {
        proof {
            assert(ls.take(k + 1).drop_last() =~= ls.take(k as int));
            assert(ls.take(k + 1).last() == ls[k as int]);
            assert(lines@[k as int].0 <= lines@[k as int].1 <= chars@.len());
        }
        let (a, b) = lines[k];
        let line = output.substring_char(a, b);
        let ghost before = info_views(infos@);
        match parse_info_line(line) {
            Ok(info) => {
                infos.push(info);
                proof {
                    assert(info_views(infos@) =~= before.push(info@));
                }
            },
            Err(e) => {
                proof {
                    lemma_output_infos_error(ls, k + 1);
                }
                return Err(e);
            },
        }
        k = k + 1;
    }
    proof {
        assert(ls.take(k as int) =~= ls);
    }
    Ok(infos)
}

} // verus!
