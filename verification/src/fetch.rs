//! Which remote copies a refresh needs, and what the fetched text gives.

use crate::parse::{
    freqs_series, parse_freqs, parse_pbqff, parse_semp, pbqff_series, semp_series,
};
use crate::project::{Fetch, FetchError, FetchView, ProjectType, Timestamp};
use crate::series::datasets_view;
use vstd::prelude::*;
use vstd::string::StringExecFns;

verus! {

/// Names the parent of a path, as `Path::parent` gives it: the path without
/// its last component, or nothing where there is no such component. Paths are
/// read by the path syntax of the platform that the library is built for.
pub uninterp spec fn path_parent(path: Seq<char>) -> Option<Seq<char>>;

/// Names a path extended by another, as `Path::join` gives it, by the path
/// syntax of the platform that the library is built for.
pub uninterp spec fn path_join(base: Seq<char>, more: Seq<char>) -> Seq<char>;

/// `Path::parent` of std, from text to text. The contract only gives the
/// result its name.
#[verifier::external_body]
fn parent_of(path: &str) -> (parent: Option<String>)
    ensures
        match parent {
            Some(p) => path_parent(path@) == Some(p@),
            None => path_parent(path@) is None,
        },
{
    match std::path::Path::new(path).parent() {
        Some(p) => Some(p.display().to_string()),
        None => None,
    }
}

/// `Path::join` of std, from text to text. The contract only gives the result
/// its name.
#[verifier::external_body]
fn join_paths(base: &str, more: &str) -> (joined: String)
    ensures
        joined@ == path_join(base@, more@),
{
    std::path::Path::new(base).join(more).display().to_string()
}

/// One remote copy: from an address on the remote side to a file of the given
/// name in the local scratch directory.
#[derive(Clone, Debug, PartialEq, Eq)]
pub struct Transfer {
    pub remote: String,
    pub local: String,
}

/// What a `Transfer` stands for.
pub struct TransferView {
    pub remote: Seq<char>,
    pub local: Seq<char>,
}

impl View for Transfer {
    type V = TransferView;

    open spec fn view(&self) -> TransferView {
        TransferView { remote: self.remote@, local: self.local@ }
    }
}

/// What a list of transfers stands for, one by one.
pub open spec fn transfers_view(transfers: Seq<Transfer>) -> Seq<TransferView> {
    Seq::new(transfers.len(), |i: int| transfers[i]@)
}

/// The address of a remote file: host, a colon, and the path on the host.
pub open spec fn address(host: Seq<char>, path: Seq<char>) -> Seq<char> {
    host + ":"@ + path
}

/// The companion file of an optimiser run, given the directory of its output.
pub open spec fn companion_path(dir: Seq<char>) -> Seq<char> {
    path_join(dir, "freqs.log"@)
}

/// The transfers of one refresh. The file at `path` always goes to
/// `path.dat`. An optimiser run also needs `freqs.log` from the directory of
/// `path`, under the same name; where `path` has no directory part there is
/// no plan.
pub open spec fn planned(host: Seq<char>, path: Seq<char>, typ: ProjectType) -> Option<
    Seq<TransferView>,
> {
    let main = TransferView { remote: address(host, path), local: "path.dat"@ };
    match typ {
        ProjectType::Pbqff => Some(seq![main]),
        ProjectType::Semp => match path_parent(path) {
            None => None,
            Some(dir) => Some(
                seq![
                    main,
                    TransferView {
                        remote: address(host, companion_path(dir)),
                        local: "freqs.log"@,
                    },
                ],
            ),
        },
    }
}

/// The plan that follows once the parent of `path` is known: `planned`, with
/// the parent as an argument.
pub open spec fn planned_with(
    host: Seq<char>,
    path: Seq<char>,
    typ: ProjectType,
    parent: Option<Seq<char>>,
    companion: Seq<char>,
) -> Option<Seq<TransferView>> {
    let main = TransferView { remote: address(host, path), local: "path.dat"@ };
    match typ {
        ProjectType::Pbqff => Some(seq![main]),
        ProjectType::Semp => match parent {
            None => None,
            Some(_) => Some(
                seq![main, TransferView { remote: address(host, companion), local: "freqs.log"@ }],
            ),
        },
    }
}

/// The program that copies a remote file.
pub fn copy_tool() -> (tool: String)
    ensures
        tool@ == "scp"@,
{
    "scp".to_owned()
}

/// What a list of strings holds, string by string.
pub open spec fn strings_view(strings: Seq<String>) -> Seq<Seq<char>> {
    Seq::new(strings.len(), |i: int| strings[i]@)
}

/// The arguments of the copy that a transfer asks for, with `temp` as local
/// scratch directory: keep the modification time, compress, then the remote
/// address and the local file.
pub open spec fn copy_arguments(t: TransferView, temp: Seq<char>) -> Seq<Seq<char>> {
    seq!["-p"@, "-C"@, t.remote, path_join(temp, t.local)]
}

/// The arguments of a copy from `remote` to the local file `target`.
pub fn arguments_to(remote: &str, target: &str) -> (args: Vec<String>)
    ensures
        strings_view(args@) == seq!["-p"@, "-C"@, remote@, target@],
{
    let mut args: Vec<String> = Vec::new();
    args.push("-p".to_owned());
    args.push("-C".to_owned());
    args.push(remote.to_owned());
    args.push(target.to_owned());
    assert(strings_view(args@) =~= seq!["-p"@, "-C"@, remote@, target@]);
    args
}

impl Transfer {
    /// The arguments with which the copy tool carries the transfer out, the
    /// local file standing in the directory `temp`.
    pub fn arguments(&self, temp: &str) -> (args: Vec<String>)
        ensures
            strings_view(args@) == copy_arguments(self@, temp@),
    {
        let target = join_paths(temp, self.local.as_str());
        arguments_to(self.remote.as_str(), target.as_str())
    }
}

/// The address of the file at `path` on `host`.
pub fn remote_address(host: &str, path: &str) -> (addr: String)
    ensures
        addr@ == address(host@, path@),
{
    let mut addr = host.to_owned();
    addr.append(":");
    addr.append(path);
    addr
}

/// Puts a plan together from the parent of `path`, where it has one, and the
/// path of the companion file in it.
pub fn assemble_plan(
    host: &str,
    path: &str,
    typ: ProjectType,
    parent: Option<&str>,
    companion: &str,
) -> (plan: Option<Vec<Transfer>>)
    ensures
        match plan {
            Some(ts) => Some(transfers_view(ts@)),
            None => None,
        } == planned_with(
            host@,
            path@,
            typ,
            match parent {
                Some(p) => Some(p@),
                None => None,
            },
            companion@,
        ),
{
    let mut transfers: Vec<Transfer> = Vec::new();
    transfers.push(Transfer { remote: remote_address(host, path), local: "path.dat".to_owned() });
    match typ {
        ProjectType::Pbqff => {
            assert(transfers_view(transfers@) =~= seq![transfers@[0]@]);
            Some(transfers)
        },
        ProjectType::Semp => match parent {
            None => None,
            Some(_) => {
                transfers.push(
                    Transfer {
                        remote: remote_address(host, companion),
                        local: "freqs.log".to_owned(),
                    },
                );
                assert(transfers_view(transfers@) =~= seq![transfers@[0]@, transfers@[1]@]);
                Some(transfers)
            },
        },
    }
}

/// The transfers that a refresh of the target at `host` and `path` needs.
pub fn transfer_plan(host: &str, path: &str, typ: ProjectType) -> (plan: Option<Vec<Transfer>>)
    ensures
        match plan {
            Some(ts) => Some(transfers_view(ts@)),
            None => None,
        } == planned(host@, path@, typ),
{
    match parent_of(path) {
        None => assemble_plan(host, path, typ, None, ""),
        Some(dir) => {
            let companion = join_paths(dir.as_str(), "freqs.log");
            assemble_plan(host, path, typ, Some(dir.as_str()), companion.as_str())
        },
    }
}

/// What was fetched for one target: the modification time of the main file,
/// its text, and the text of the companion file where one was fetched.
#[derive(Debug)]
pub struct RawFetch {
    pub last_modified: Timestamp,
    pub primary: String,
    pub companion: Option<String>,
}

/// Puts together what the transfers of a plan brought, given the text and
/// the modification time of each fetched file in the order of the plan. The
/// first file is the main one: its text is parsed first and its modification
/// time is the target's. The second, if there is one, is the companion file;
/// its modification time and any further files are not used. Without a file
/// there is nothing to put together.
pub fn raw_fetch_of(texts: Vec<(String, Timestamp)>) -> (raw: Option<RawFetch>)
    ensures
        raw is None <==> texts@.len() == 0,
        raw is Some ==> raw->Some_0.primary == texts@[0].0 && raw->Some_0.last_modified
            == texts@[0].1,
        raw is Some ==> match raw->Some_0.companion {
            Some(text) => texts@.len() > 1 && text == texts@[1].0,
            None => texts@.len() == 1,
        },
{
    let mut texts = texts;
    if texts.len() == 0 {
        return None;
    }
    let (primary, last_modified) = texts.remove(0);
    let companion = if texts.len() > 0 {
        let (text, _) = texts.remove(0);
        Some(text)
    } else {
        None
    };
    Some(RawFetch { last_modified, primary, companion })
}

/// What a `RawFetch` stands for.
pub struct RawFetchView {
    pub last_modified: Timestamp,
    pub primary: Seq<char>,
    pub companion: Option<Seq<char>>,
}

impl View for RawFetch {
    type V = RawFetchView;

    open spec fn view(&self) -> RawFetchView {
        RawFetchView {
            last_modified: self.last_modified,
            primary: self.primary@,
            companion: match self.companion {
                Some(text) => Some(text@),
                None => None,
            },
        }
    }
}

/// The series that fetched text stands for. An optimiser run gives the three
/// series of its output and then the series of its companion file, which must
/// be there; a sampling log gives its one series. The modification time is
/// passed on.
pub open spec fn digested(typ: ProjectType, raw: RawFetchView) -> Result<FetchView, FetchError> {
    match typ {
        ProjectType::Pbqff => match pbqff_series(raw.primary) {
            Err(e) => Err(FetchError::Parse(e)),
            Ok(sets) => Ok(FetchView { last_modified: raw.last_modified, data: sets }),
        },
        ProjectType::Semp => match semp_series(raw.primary) {
            Err(e) => Err(FetchError::Parse(e)),
            Ok(sets) => match raw.companion {
                None => Err(FetchError::Transport),
                Some(text) => match freqs_series(text) {
                    Err(e) => Err(FetchError::Parse(e)),
                    Ok(mae) => Ok(
                        FetchView { last_modified: raw.last_modified, data: sets.push(mae) },
                    ),
                },
            },
        },
    }
}

/// What the outcome of a fetch stands for.
pub open spec fn fetch_result_view(r: Result<Fetch, FetchError>) -> Result<FetchView, FetchError> {
    match r {
        Ok(f) => Ok(f@),
        Err(e) => Err(e),
    }
}

/// Parses what was fetched for a target of kind `typ`.
pub fn digest(typ: ProjectType, raw: &RawFetch) -> (r: Result<Fetch, FetchError>)
    ensures
        fetch_result_view(r) == digested(typ, raw@),
{
    match typ {
        ProjectType::Pbqff => match parse_pbqff(raw.primary.as_str()) {
            Err(e) => Err(FetchError::Parse(e)),
            Ok(data) => Ok(Fetch { last_modified: raw.last_modified, data }),
        },
        ProjectType::Semp => {
            let mut data = match parse_semp(raw.primary.as_str()) {
                Err(e) => {
                    return Err(FetchError::Parse(e));
                },
                Ok(data) => data,
            };
            let text = match &raw.companion {
                None => {
                    return Err(FetchError::Transport);
                },
                Some(text) => text,
            };
            let mae = match parse_freqs(text.as_str()) {
                Err(e) => {
                    return Err(FetchError::Parse(e));
                },
                Ok(mae) => mae,
            };
            let ghost before = datasets_view(data@);
            data.push(mae);
            assert(datasets_view(data@) =~= before.push(mae@));
            Ok(Fetch { last_modified: raw.last_modified, data })
        },
    }
}

} // verus!
