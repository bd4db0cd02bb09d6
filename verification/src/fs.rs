//! Opening files below the document root.

use vstd::prelude::*;
use vstd::slice::*;
use vstd::utf8::*;

use crate::bytes;
use crate::bytes::{contains, copy_parts, BACKSLASH, SLASH};
use crate::error;
use crate::error::{ErrorKind, IoError};
use crate::target;

verus! {

/// A path with `suffix` behind its last component.
pub open spec fn sidecar(path: Seq<Seq<u8>>, suffix: Seq<char>) -> Seq<Seq<u8>> {
    if path.len() == 0 {
        path
    } else {
        path.drop_last().push(path.last() + encode_utf8(suffix))
    }
}

fn with_suffix(components: &[Vec<u8>], suffix: &str) -> (path: Vec<Vec<u8>>)
    ensures
        bytes::parts(path@) == sidecar(bytes::parts(components@), suffix@),
{
    if components.len() == 0 {
        return copy_parts(components);
    }
    let count = components.len() - 1;
    let mut last = slice_to_vec(components[count].as_slice());
    last.extend_from_slice(suffix.as_bytes());
    let mut path = copy_parts(slice_subrange(components, 0, count));
    let ghost before = path@;
    path.push(last);
    assert(bytes::parts(path@) =~= bytes::parts(before).push(last@));
    assert(bytes::parts(components@).last() == components@[count as int]@);
    assert(last@ =~= components@[count as int]@ + encode_utf8(suffix@));
    assert(bytes::parts(components@.subrange(0, count as int)) =~= bytes::parts(
        components@,
    ).drop_last());
    path
}

/// The path of the gzip sidecar of a file.
pub fn gzip_path(components: &[Vec<u8>]) -> (path: Vec<Vec<u8>>)
    ensures
        bytes::parts(path@) == sidecar(bytes::parts(components@), ".gz"@),
{
    with_suffix(components, ".gz")
}

/// The path of the Brotli sidecar of a file.
pub fn br_path(components: &[Vec<u8>]) -> (path: Vec<Vec<u8>>)
    ensures
        bytes::parts(path@) == sidecar(bytes::parts(components@), ".br"@),
{
    with_suffix(components, ".br")
}

/// The constant `libc::ELOOP`. Its number is claimed: 40 on all Linux targets of the crate but MIPS
/// and SPARC.
#[verifier::external_body]
fn eloop() -> (code: i32)
    ensures
        code == 40,
{
    libc::ELOOP
}

/// Whether an error means that there is no file to serve: none of the name, none that may be read,
/// something other than a directory on the way, or a symbolic link.
pub open spec fn means_missing(error: error::IoErrorModel) -> bool {
    ||| error.kind is NotFound
    ||| error.kind is PermissionDenied
    ||| error.kind is NotADirectory
    ||| error.code == Some(40i32)
}

/// Whether an error means that there is no file to serve.
pub fn is_not_found(error: &IoError) -> (yes: bool)
    ensures
        yes == means_missing(error@),
{
    match error.kind {
        ErrorKind::NotFound | ErrorKind::PermissionDenied | ErrorKind::NotADirectory => true,
        _ => match error.code {
            Some(code) => code == eloop(),
            None => false,
        },
    }
}

/// How something is opened, always for reading only.
#[derive(Clone, Copy, Debug, PartialEq, Eq, Structural)]
pub struct OpenMode {
    /// Nothing but a directory can be opened.
    pub directory: bool,
    /// Opening does not wait, as it would for the writer of a pipe.
    pub nonblocking: bool,
    /// A symbolic link is followed.
    pub follow: bool,
}

impl OpenMode {
    /// How a directory is opened.
    pub fn for_directory() -> (mode: OpenMode)
        ensures
            mode == directory_mode(),
    {
        OpenMode { directory: true, nonblocking: false, follow: false }
    }

    /// How a file is opened.
    pub fn for_file() -> (mode: OpenMode)
        ensures
            mode == file_mode(),
    {
        OpenMode { directory: false, nonblocking: true, follow: false }
    }
}

/// How a directory is opened.
pub open spec fn directory_mode() -> OpenMode {
    OpenMode { directory: true, nonblocking: false, follow: false }
}

/// How a file is opened.
pub open spec fn file_mode() -> OpenMode {
    OpenMode { directory: false, nonblocking: true, follow: false }
}

/// The next step of opening a file.
#[derive(Debug)]
pub enum WalkStep {
    /// Open the component of this index, relative to what was opened last.
    Open(usize, OpenMode),
    /// Look whether what was opened last is a regular file.
    Inspect,
    Fail(IoError),
}

/// What a [`WalkStep`] holds.
pub enum WalkModel {
    Open(int, OpenMode),
    Inspect,
    Fail(error::IoErrorModel),
}

impl View for WalkStep {
    type V = WalkModel;

    open spec fn view(&self) -> WalkModel {
        match self {
            WalkStep::Open(index, mode) => WalkModel::Open(*index as int, *mode),
            WalkStep::Inspect => WalkModel::Inspect,
            WalkStep::Fail(error) => WalkModel::Fail(error@),
        }
    }
}

/// The next step of opening a file, of whose path the first `opened` components are opened. All but
/// the last component are directories.
pub open spec fn next_open(path: Seq<Seq<u8>>, opened: int) -> WalkModel {
    if path.len() == 0 {
        WalkModel::Fail(error::own_error(ErrorKind::NotFound, "empty path"@))
    } else if opened >= path.len() {
        WalkModel::Inspect
    } else if path[opened].contains(0) {
        WalkModel::Fail(error::own_error(ErrorKind::InvalidInput, "path contains NUL"@))
    } else if opened + 1 == path.len() {
        WalkModel::Open(opened, file_mode())
    } else {
        WalkModel::Open(opened, directory_mode())
    }
}

/// The next step of opening a file.
pub fn walk_step(components: &[Vec<u8>], opened: usize) -> (step: WalkStep)
    ensures
        step@ == next_open(bytes::parts(components@), opened as int),
{
    if components.len() == 0 {
        return WalkStep::Fail(IoError::new(ErrorKind::NotFound, "empty path"));
    }
    if opened >= components.len() {
        return WalkStep::Inspect;
    }
    assert(bytes::parts(components@)[opened as int] == components@[opened as int]@);
    if contains(components[opened].as_slice(), 0) {
        return WalkStep::Fail(IoError::new(ErrorKind::InvalidInput, "path contains NUL"));
    }
    if components.len() - opened == 1 {
        WalkStep::Open(opened, OpenMode::for_file())
    } else {
        WalkStep::Open(opened, OpenMode::for_directory())
    }
}

/// The error for what was opened, unless it is a regular file.
pub fn check_regular(is_file: bool) -> (error: Option<IoError>)
    ensures
        error is None <==> is_file,
        error matches Some(e) ==> e@ == error::own_error(
            ErrorKind::NotFound,
            "not a regular file"@,
        ),
{
    if is_file {
        None
    } else {
        Some(IoError::new(ErrorKind::NotFound, "not a regular file"))
    }
}

/// The error for the path of the document root, unless it can be opened.
pub fn check_root(path: &[u8]) -> (error: Option<IoError>)
    ensures
        error is Some <==> path@.contains(0),
        error matches Some(e) ==> e@ == error::own_error(
            ErrorKind::InvalidInput,
            "document root contains NUL"@,
        ),
{
    if contains(path, 0) {
        Some(IoError::new(ErrorKind::InvalidInput, "document root contains NUL"))
    } else {
        None
    }
}

/// No step of opening a file follows a symbolic link or waits for a pipe, and all but the last
/// component have to be directories.
pub proof fn symbolic_links_are_not_followed(path: Seq<Seq<u8>>, opened: int)
    requires
        0 <= opened,
    ensures
        next_open(path, opened) matches WalkModel::Open(index, mode) ==> {
            &&& index == opened
            &&& !mode.follow
            &&& mode.directory == (index + 1 < path.len())
            &&& mode.nonblocking == (index + 1 == path.len())
        },
{
}

/// A path that stays below the root is opened component by component to its end, without an error
/// from the path itself.
pub proof fn safe_paths_can_be_opened(path: Seq<Seq<u8>>, opened: int)
    requires
        path.len() > 0,
        target::safe_path(path),
        0 <= opened,
    ensures
        opened < path.len() ==> next_open(path, opened) is Open,
        opened >= path.len() ==> next_open(path, opened) is Inspect,
{
}

proof fn lemma_suffixed(component: Seq<u8>, suffix: Seq<u8>)
    requires
        target::safe_component(component),
        suffix.len() >= 2,
        forall|i: int|
            0 <= i < suffix.len() ==> #[trigger] suffix[i] != 0 && suffix[i] != SLASH && suffix[i]
                != BACKSLASH,
    ensures
        target::safe_component(component + suffix),
{
    let whole = component + suffix;
    assert(whole.len() >= 3);
    assert forall|i: int| 0 <= i < whole.len() implies #[trigger] whole[i] != 0 && whole[i] != SLASH
        && whole[i] != BACKSLASH by {
        if i < component.len() {
            assert(component.contains(component[i]));
        } else {
            assert(whole[i] == suffix[i - component.len()]);
        }
    }
    assert(!whole.contains(0u8) && !whole.contains(SLASH) && !whole.contains(BACKSLASH));
}

/// The sidecar of a path below the root lies below the root.
pub proof fn sidecars_stay_below_the_root(path: Seq<Seq<u8>>)
    requires
        target::safe_path(path),
    ensures
        target::safe_path(sidecar(path, ".gz"@)),
        target::safe_path(sidecar(path, ".br"@)),
{
    if path.len() > 0 {
        reveal_strlit(".gz");
        reveal_strlit(".br");
        assert(is_ascii_chars(".gz"@) && is_ascii_chars(".br"@));
        is_ascii_chars_encode_utf8(".gz"@);
        is_ascii_chars_encode_utf8(".br"@);
        lemma_suffixed(path.last(), encode_utf8(".gz"@));
        lemma_suffixed(path.last(), encode_utf8(".br"@));
    }
}

/// A symbolic link on the way to a file makes the file count as missing.
pub proof fn links_count_as_missing(error: error::IoErrorModel)
    requires
        error.code == Some(40i32),
    ensures
        means_missing(error),
{
}

/// There is nothing to serve exactly when the name is not there, may not be read, leads through
/// what is no directory, or is a symbolic link.
pub proof fn missing_files_are_these(error: error::IoErrorModel)
    ensures
        means_missing(error) <==> match error.kind {
            ErrorKind::NotFound => true,
            ErrorKind::PermissionDenied => true,
            ErrorKind::NotADirectory => true,
            _ => error.code == Some(40i32),
        },
{
}

/// A path with a NUL in it cannot be opened, and neither can one of no components.
pub proof fn some_paths_cannot_be_opened(path: Seq<Seq<u8>>, opened: int)
    requires
        path.len() == 0 || 0 <= opened < path.len() && path[opened].contains(0u8),
    ensures
        next_open(path, opened) matches WalkModel::Fail(error) && {
            &&& error.code is None
            &&& path.len() == 0 ==> error.kind is NotFound && error.message == "empty path"@
            &&& path.len() > 0 ==> error.kind is InvalidInput && error.message
                == "path contains NUL"@
        },
{
}

} // verus!
