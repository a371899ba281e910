//! Serving files from a directory.

use include_dir::Dir;

use vstd::prelude::*;
#[allow(unused_imports)]
use vstd::string::StringExecFns;

#[allow(unused_imports)]
use crate::routing::param::{first_value, the_first_pair_of_a_name_is_read};
use crate::routing::param::Params;
use crate::routing::router::{header_value_accepts, MethodFilter, Route, RouteNode, RouteNodeType};
#[allow(unused_imports)]
use crate::routing::router::{is_header_text, mountable_node};
#[allow(unused_imports)]
use crate::text::{
    a_text_without_padding_stays, content_end, find, is_white_space, join, joined_pieces_come_apart,
    lemma_find_bounds, lemma_rfind_bounds, lemma_split_before_last, lemma_trim_padded,
    optional_bytes, optional_text, rfind, split, split_from, texts, trim, trim_end,
};
use crate::text::{
    chars_of, copy_text, join_texts, rfind_char, same, slice_text, split_text, string_of,
    trim_end_chars, trim_text, Padding,
};

verus! {

/// Errors that can occur when serving static files.
#[derive(Debug)]
pub enum StaticDirError {
    /// The requested path is invalid.
    InvalidPath,
    /// The requested file was not found.
    FileNotFound,
    /// An I/O error occurred while reading the file, with its text.
    IoError(String),
}

impl StaticDirError {
    /// The error's text.
    pub fn message(&self) -> (r: String)
        ensures
            r@ == match self {
                StaticDirError::InvalidPath => "Invalid static path"@,
                StaticDirError::FileNotFound => "File not found"@,
                StaticDirError::IoError(error) => "Failed to read file: "@ + error@,
            },
    {
        match self {
            StaticDirError::InvalidPath => copy_text("Invalid static path"),
            StaticDirError::FileNotFound => copy_text("File not found"),
            StaticDirError::IoError(error) => {
                let mut text = copy_text("Failed to read file: ");
                text.append(error.as_str());
                text
            },
        }
    }

    /// The status the error is answered with.
    pub fn status(&self) -> (r: u16)
        ensures
            r == match self {
                StaticDirError::InvalidPath => 400u16,
                StaticDirError::FileNotFound => 404,
                StaticDirError::IoError(_) => 500,
            },
    {
        match self {
            StaticDirError::InvalidPath => 400,
            StaticDirError::FileNotFound => 404,
            StaticDirError::IoError(_) => 500,
        }
    }
}

/// The path a directory is mounted at: with a leading slash, and without trailing ones unless it is
/// the root.
pub open spec fn normalized_mount(mount_path: Seq<char>) -> Seq<char> {
    let trimmed = trim(mount_path, Padding::WhiteSpace);
    let rooted = if trimmed.len() > 0 && trimmed[0] == '/' {
        trimmed
    } else {
        seq!['/'] + trimmed
    };
    let bare = trim_end(rooted, Padding::Slash);
    if bare.len() == 0 {
        seq!['/']
    } else {
        bare
    }
}

/// The path a directory is mounted at, with a leading slash and without trailing ones.
pub fn normalize_mount_path(mount_path: &str) -> (r: String)
    ensures
        r@ == normalized_mount(mount_path@),
{
    let trimmed_text = trim_text(mount_path, Padding::WhiteSpace);
    let trimmed = chars_of(trimmed_text.as_str());
    let mut rooted: Vec<char> = Vec::new();
    if trimmed.len() == 0 || trimmed[0] != '/' {
        rooted.push('/');
    }
    let ghost head = rooted@;
    let mut i: usize = 0;
    while i < trimmed.len()
        invariant
            i <= trimmed.len(),
            rooted@ == head + trimmed@.take(i as int),
        decreases trimmed.len() - i,
    {
        rooted.push(trimmed[i]);
        i = i + 1;
        assert(rooted@ =~= head + trimmed@.take(i as int));
    }
    assert(trimmed@.take(i as int) =~= trimmed@);
    assert(rooted@ =~= if trimmed@.len() > 0 && trimmed@[0] == '/' {
        trimmed@
    } else {
        seq!['/'] + trimmed@
    });
    let bare = trim_end_chars(&rooted, Padding::Slash);
    if bare.len() == 0 {
        let mut root = String::new();
        root.push('/');
        assert(root@ =~= seq!['/']);
        root
    } else {
        string_of(&bare)
    }
}

/// How a platform writes paths.
#[derive(Clone, Copy, Debug, PartialEq, Eq)]
pub enum PathStyle {
    /// Slashes alone separate segments.
    Unix,
    /// Backslashes separate segments too, and a path may start with a drive.
    Windows,
}

/// A path with a slash for each separator.
pub open spec fn with_slashes(style: PathStyle, path: Seq<char>) -> Seq<char> {
    path.map_values(
        |c: char|
            if style is Windows && c == '\\' {
                '/'
            } else {
                c
            },
    )
}

/// Whether a piece of a path starts with a drive: a letter and a colon.
pub open spec fn has_drive(style: PathStyle, piece: Seq<char>) -> bool {
    &&& style is Windows
    &&& piece.len() >= 2
    &&& 'a' <= piece[0] <= 'z' || 'A' <= piece[0] <= 'Z'
    &&& piece[1] == ':'
}

/// Write a path with a slash for each separator.
fn unify_separators(style: PathStyle, path: &str) -> (r: String)
    ensures
        r@ == with_slashes(style, path@),
{
    let chars = chars_of(path);
    let mut out = String::new();
    let mut i: usize = 0;
    while i < chars.len()
        invariant
            i <= chars.len(),
            chars@ == path@,
            out@ == with_slashes(style, path@.take(i as int)),
        decreases chars.len() - i,
    {
        let is_separator = matches!(style, PathStyle::Windows) && chars[i] == '\\';
        out.push(
            if is_separator {
                '/'
            } else {
                chars[i]
            },
        );
        i = i + 1;
        assert(path@.take(i as int) =~= path@.take(i - 1).push(path@[i - 1]));
        assert(out@ =~= with_slashes(style, path@.take(i as int)));
    }
    assert(path@.take(i as int) =~= path@);
    out
}

fn starts_with_drive(style: PathStyle, piece: &str) -> (r: bool)
    ensures
        r == has_drive(style, piece@),
{
    let chars = chars_of(piece);
    matches!(style, PathStyle::Windows) && chars.len() >= 2 && (('a' <= chars[0] && chars[0] <= 'z')
        || ('A' <= chars[0] && chars[0] <= 'Z')) && chars[1] == ':'
}

/// Whether a piece of a path names something: empty pieces and single dots do not.
pub open spec fn is_segment(piece: Seq<char>) -> bool {
    piece.len() > 0 && piece != "."@
}

/// The first `to` pieces that name something.
pub open spec fn segments(pieces: Seq<Seq<char>>, to: int) -> Seq<Seq<char>>
    decreases to,
{
    if to <= 0 || to > pieces.len() {
        Seq::empty()
    } else {
        let before = segments(pieces, to - 1);
        if is_segment(pieces[to - 1]) {
            before.push(pieces[to - 1])
        } else {
            before
        }
    }
}

/// The segments of a relative path that stays below where it starts. `None` for an absolute path,
/// for one that steps up anywhere, and for one that names a drive.
pub open spec fn sanitized(style: PathStyle, path: Seq<char>) -> Option<Seq<Seq<char>>> {
    let written = with_slashes(style, path);
    let pieces = split(written, '/');
    if written.len() > 0 && written[0] == '/' {
        None
    } else if exists|i: int| 0 <= i < pieces.len() && leaves(style, #[trigger] pieces[i]) {
        None
    } else {
        Some(segments(pieces, pieces.len() as int))
    }
}

/// Whether a piece of a path leads out of where the path starts.
pub open spec fn leaves(style: PathStyle, piece: Seq<char>) -> bool {
    piece == ".."@ || has_drive(style, piece)
}

/// The relative path a request names, without empty and dot segments and with slashes between the
/// others. `None` for an absolute path, for one that steps up anywhere, and for one that names a
/// drive.
pub fn sanitize_relative_path(style: PathStyle, path: &str) -> (r: Option<String>)
    ensures
        match sanitized(style, path@) {
            Some(list) => r is Some && r->0@ == join(list, "/"@),
            None => r is None,
        },
{
    let written = unify_separators(style, path);
    let chars = chars_of(written.as_str());
    if chars.len() > 0 && chars[0] == '/' {
        return None;
    }
    let pieces = split_text(written.as_str(), '/');
    let ghost all = texts(pieces@);
    let mut kept: Vec<String> = Vec::new();
    let mut i: usize = 0;
    assert(texts(kept@) =~= Seq::empty());
    while i < pieces.len()
        invariant
            i <= pieces.len(),
            all == texts(pieces@),
            all == split(written@, '/'),
            written@ == with_slashes(style, path@),
            chars@ == written@,
            !(chars@.len() > 0 && chars@[0] == '/'),
            texts(kept@) == segments(all, i as int),
            forall|j: int| 0 <= j < i ==> !leaves(style, #[trigger] all[j]),
        decreases pieces.len() - i,
    {
        assert(all[i as int] == pieces@[i as int]@);
        let piece = pieces[i].as_str();
        if same(piece, "..") || starts_with_drive(style, piece) {
            assert(leaves(style, all[i as int]));
            return None;
        }
        if piece.unicode_len() > 0 && !same(piece, ".") {
            let ghost before = texts(kept@);
            kept.push(copy_text(piece));
            assert(texts(kept@) =~= before.push(all[i as int]));
        }
        i = i + 1;
    }
    Some(join_texts(&kept, "/"))
}

/// The last piece before `to` that names something.
pub open spec fn last_segment(pieces: Seq<Seq<char>>, to: int) -> Option<Seq<char>>
    decreases to,
{
    if to <= 0 || to > pieces.len() {
        None
    } else if is_segment(pieces[to - 1]) {
        Some(pieces[to - 1])
    } else {
        last_segment(pieces, to - 1)
    }
}

/// The extension of a path with slashes: what follows the last dot of its last segment, unless that
/// segment has no dot but a leading one, or steps up.
pub open spec fn extension(path: Seq<char>) -> Option<Seq<char>> {
    let pieces = split(path, '/');
    match last_segment(pieces, pieces.len() as int) {
        Some(name) => {
            let dot = rfind(name, '.', name.len() as int);
            if name == ".."@ || dot <= 0 {
                None
            } else {
                Some(name.subrange(dot + 1, name.len() as int))
            }
        },
        None => None,
    }
}

fn segment_extension(name: &str) -> (r: Option<String>)
    ensures
        match r {
            Some(found) => name@ != ".."@ && rfind(name@, '.', name@.len() as int) > 0 && found@
                == name@.subrange(
                rfind(name@, '.', name@.len() as int) + 1,
                name@.len() as int,
            ),
            None => name@ == ".."@ || rfind(name@, '.', name@.len() as int) <= 0,
        },
{
    if same(name, "..") {
        return None;
    }
    let chars = chars_of(name);
    proof {
        lemma_rfind_bounds(chars@, '.', chars@.len() as int);
    }
    match rfind_char(&chars, '.', chars.len()) {
        Some(dot) => if dot > 0 {
            Some(slice_text(&chars, dot + 1, chars.len()))
        } else {
            None
        },
        None => None,
    }
}

/// The extension of a path with slashes.
pub fn path_extension(path: &str) -> (r: Option<String>)
    ensures
        optional_text(r) == extension(path@),
{
    let pieces = split_text(path, '/');
    let ghost all = texts(pieces@);
    let mut i: usize = pieces.len();
    while i > 0
        invariant
            i <= pieces.len(),
            all == texts(pieces@),
            all == split(path@, '/'),
            last_segment(all, all.len() as int) == last_segment(all, i as int),
        decreases i,
    {
        i = i - 1;
        assert(all[i as int] == pieces@[i as int]@);
        let piece = pieces[i].as_str();
        if piece.unicode_len() > 0 && !same(piece, ".") {
            return segment_extension(piece);
        }
    }
    None
}

/// The media type that `mime_guess` lists first for an extension.
pub uninterp spec fn media_type(extension: Seq<char>) -> Option<Seq<char>>;

/// Asks `mime_guess::from_ext` for the first media type of an extension. The result is named, not
/// described: it is looked up in a table of the crate.
#[verifier::external_body]
fn guess_media_type(extension: &str) -> (r: Option<String>)
    ensures
        optional_text(r) == media_type(extension@),
{
    mime_guess::from_ext(extension).first_raw().map(str::to_owned)
}

/// A media type, where it can stand in a header.
pub open spec fn header_media_type(guess: Option<Seq<char>>) -> Option<Seq<char>> {
    match guess {
        Some(mime) => if is_header_text(mime) {
            Some(mime)
        } else {
            None
        },
        None => None,
    }
}

/// What follows the drive of a path with slashes, if it starts with one.
pub open spec fn without_drive(style: PathStyle, path: Seq<char>) -> Seq<char> {
    if has_drive(style, path) {
        path.skip(2)
    } else {
        path
    }
}

/// The content type of a file, by the extension of its path.
pub open spec fn content_type(style: PathStyle, path: Seq<char>) -> Option<Seq<char>> {
    match extension(without_drive(style, with_slashes(style, path))) {
        Some(found) => header_media_type(media_type(found)),
        None => None,
    }
}

/// A guessed media type, where it can stand in a header.
pub fn accept_media_type(guess: Option<String>) -> (r: Option<String>)
    ensures
        optional_text(r) == header_media_type(optional_text(guess)),
{
    match guess {
        Some(mime) => if header_value_accepts(mime.as_str()) {
            Some(mime)
        } else {
            None
        },
        None => None,
    }
}

/// The content type of a file, by the extension of its path.
pub fn guess_content_type(style: PathStyle, path: &str) -> (r: Option<String>)
    ensures
        optional_text(r) == content_type(style, path@),
{
    let mut written = unify_separators(style, path);
    if starts_with_drive(style, written.as_str()) {
        let chars = chars_of(written.as_str());
        written = slice_text(&chars, 2, chars.len());
        assert(written@ =~= chars@.skip(2));
    }
    match path_extension(written.as_str()) {
        Some(found) => accept_media_type(guess_media_type(found.as_str())),
        None => None,
    }
}

/// Whether `r` is the node a directory is mounted with: one endpoint answers the mount point and
/// everything below it, to `GET` alone.
pub open spec fn is_static_node(r: RouteNode, mount: Seq<char>, endpoint: u64) -> bool {
    &&& r.path@ == mount
    &&& r.node_type matches RouteNodeType::Route(inner) && inner.nodes@.len() == 2
        && inner.layers@.len() == 0 && inner.fallback is None && inner.method_not_allowed is None
        && is_get_node(inner.nodes@[0], ""@, endpoint) && is_get_node(
        inner.nodes@[1],
        if mount == "/"@ {
            "{*path}"@
        } else {
            "/{*path}"@
        },
        endpoint,
    )
}

/// Whether a node is a plain endpoint for `GET`.
pub open spec fn is_get_node(node: RouteNode, path: Seq<char>, endpoint: u64) -> bool {
    &&& node.path@ == path
    &&& node.node_type matches RouteNodeType::Endpoint {
        endpoint: named,
        method,
        openapi,
        requirements,
        middleware,
    } && named == endpoint && is_get(method) && openapi is None && requirements@.len() == 0
        && middleware@.len() == 0
}

/// Whether a filter lets only `GET` through.
pub open spec fn is_get(method: MethodFilter) -> bool {
    method matches MethodFilter::Exact(name) && name@ == "GET"@
}

fn route_node_for_static(mount_path: String, endpoint: u64) -> (r: RouteNode)
    ensures
        is_static_node(r, mount_path@, endpoint),
        mountable_node(r),
{
    let suffix = if same(mount_path.as_str(), "/") {
        "{*path}"
    } else {
        "/{*path}"
    };
    let mut nodes: Vec<RouteNode> = Vec::new();
    nodes.push(
        RouteNode::new_endpoint("", MethodFilter::Exact(copy_text("GET")), endpoint, None, Vec::new()),
    );
    nodes.push(
        RouteNode::new_endpoint(
            suffix,
            MethodFilter::Exact(copy_text("GET")),
            endpoint,
            None,
            Vec::new(),
        ),
    );
    let inner = Route::new(nodes);
    let node = RouteNode { path: mount_path, node_type: RouteNodeType::Route(inner) };
    proof {
        reveal_with_fuel(mountable_node, 2);
    }
    node
}

/// Mount a directory tree into the router.
///
/// Files are looked up relative to the directory, paths that step up are rejected, and directories
/// fall back to an index file. With [`StaticDir::spa`], paths without an extension that name no
/// file fall back to the index file of the root; paths with one never do.
#[derive(Debug)]
pub struct StaticDir {
    mount_path: String,
    directory: String,
    index_file: String,
    spa: bool,
}

/// A mounted directory with its parts as plain values.
pub struct StaticDirView {
    /// Where it is mounted.
    pub mount_path: Seq<char>,
    /// The directory.
    pub directory: Seq<char>,
    /// The file that is served for a directory.
    pub index_file: Seq<char>,
    /// Whether paths that name no file fall back to the index file of the root.
    pub spa: bool,
}

impl View for StaticDir {
    type V = StaticDirView;

    closed spec fn view(&self) -> StaticDirView {
        StaticDirView {
            mount_path: self.mount_path@,
            directory: self.directory@,
            index_file: self.index_file@,
            spa: self.spa,
        }
    }
}

impl StaticDir {
    /// A directory mounted at `mount_path`, which may lack its leading slash.
    pub fn new(mount_path: &str, directory: &str) -> (r: Self)
        ensures
            r@ == (StaticDirView {
                mount_path: normalized_mount(mount_path@),
                directory: directory@,
                index_file: "index.html"@,
                spa: false,
            }),
    {
        StaticDir {
            mount_path: normalize_mount_path(mount_path),
            directory: copy_text(directory),
            index_file: copy_text("index.html"),
            spa: false,
        }
    }

    /// Override the file that is served when a directory (or the mount root) is requested.
    pub fn index_file(self, index_file: &str) -> (r: Self)
        ensures
            r@ == (StaticDirView { index_file: index_file@, ..self@ }),
    {
        let mut dir = self;
        dir.index_file = copy_text(index_file);
        dir
    }

    /// Let paths without an extension that name no file fall back to the root index file.
    pub fn spa(self) -> (r: Self)
        ensures
            r@ == (StaticDirView { spa: true, ..self@ }),
    {
        let mut dir = self;
        dir.spa = true;
        dir
    }

    /// The directory.
    pub fn directory(&self) -> (r: &str)
        ensures
            r@ == self@.directory,
    {
        self.directory.as_str()
    }

    /// The file that is served for a directory.
    pub fn index(&self) -> (r: &str)
        ensures
            r@ == self@.index_file,
    {
        self.index_file.as_str()
    }

    /// Whether the fallback for single page applications is on.
    pub fn is_spa(&self) -> (r: bool)
        ensures
            r == self@.spa,
    {
        self.spa
    }

    /// The node that mounts the directory, answered by `endpoint`.
    pub fn into_route_node(self, endpoint: u64) -> (r: RouteNode)
        ensures
            is_static_node(r, self@.mount_path, endpoint),
            mountable_node(r),
    {
        route_node_for_static(self.mount_path, endpoint)
    }
}

/// What the file system says of a path.
#[derive(Debug, Clone, Copy, PartialEq, Eq)]
pub enum Metadata {
    /// There is nothing.
    Missing,
    /// A directory.
    Directory,
    /// A file.
    File,
    /// Something that is neither.
    Other,
}

/// A path that may be served.
#[derive(Debug, Clone, Copy, PartialEq, Eq)]
pub enum StaticPath {
    /// The path the request names.
    Target,
    /// The index file of the directory the request names.
    TargetIndex,
    /// The index file of the root.
    RootIndex,
}

/// What to do next to resolve a request.
#[derive(Debug, Clone, Copy, PartialEq, Eq)]
pub enum ResolveStep {
    /// Ask the file system about a path.
    Ask(StaticPath),
    /// Serve a path.
    Serve(StaticPath),
    /// There is nothing to serve.
    NotFound,
}

/// The step after the last of the paths that the request itself names.
pub open spec fn fallback_step(spa: bool, relative: Seq<char>) -> ResolveStep {
    if spa && extension(relative) is None {
        ResolveStep::Ask(StaticPath::RootIndex)
    } else {
        ResolveStep::NotFound
    }
}

/// The step after the file system answered.
pub open spec fn step_after(
    spa: bool,
    relative: Seq<char>,
    asked: StaticPath,
    answer: Metadata,
) -> ResolveStep {
    match asked {
        StaticPath::Target => match answer {
            Metadata::File => ResolveStep::Serve(StaticPath::Target),
            Metadata::Directory => ResolveStep::Ask(StaticPath::TargetIndex),
            _ => fallback_step(spa, relative),
        },
        StaticPath::TargetIndex => match answer {
            Metadata::File => ResolveStep::Serve(StaticPath::TargetIndex),
            _ => fallback_step(spa, relative),
        },
        StaticPath::RootIndex => match answer {
            Metadata::File => ResolveStep::Serve(StaticPath::RootIndex),
            _ => ResolveStep::NotFound,
        },
    }
}

/// What a file system says of the paths that may be served.
pub struct Disk {
    /// Of the path the request names.
    pub target: Metadata,
    /// Of the index file in it.
    pub target_index: Metadata,
    /// Of the index file of the root.
    pub root_index: Metadata,
}

/// What the file system says of one of the paths.
pub open spec fn answer_of(disk: Disk, asked: StaticPath) -> Metadata {
    match asked {
        StaticPath::Target => disk.target,
        StaticPath::TargetIndex => disk.target_index,
        StaticPath::RootIndex => disk.root_index,
    }
}

/// What is served for a request, given what the file system says.
pub open spec fn served_path(spa: bool, relative: Seq<char>, disk: Disk) -> Option<StaticPath> {
    if disk.target == Metadata::File {
        Some(StaticPath::Target)
    } else if disk.target == Metadata::Directory && disk.target_index == Metadata::File {
        Some(StaticPath::TargetIndex)
    } else if spa && extension(relative) is None && disk.root_index == Metadata::File {
        Some(StaticPath::RootIndex)
    } else {
        None
    }
}

/// What a resolution comes to that is at a step, in at most `fuel` further questions.
pub open spec fn resolution(
    spa: bool,
    relative: Seq<char>,
    disk: Disk,
    step: ResolveStep,
    fuel: nat,
) -> ResolveStep
    decreases fuel,
{
    match step {
        ResolveStep::Ask(asked) => if fuel == 0 {
            step
        } else {
            resolution(
                spa,
                relative,
                disk,
                step_after(spa, relative, asked, answer_of(disk, asked)),
                (fuel - 1) as nat,
            )
        },
        _ => step,
    }
}

/// Asking the file system at most three times decides what is served: the file a request names, or
/// the index file of the directory it names, or, for single page applications and paths without an
/// extension, the index file of the root.
pub proof fn resolution_ends_in_what_is_served(spa: bool, relative: Seq<char>, disk: Disk)
    ensures
        resolution(spa, relative, disk, ResolveStep::Ask(StaticPath::Target), 3) == match served_path(
            spa,
            relative,
            disk,
        ) {
            Some(path) => ResolveStep::Serve(path),
            None => ResolveStep::NotFound,
        },
{
    reveal_with_fuel(resolution, 4);
}

/// A request for a missing asset, a path with an extension, is never answered with the index file
/// of the root.
pub proof fn a_missing_asset_is_not_found(spa: bool, relative: Seq<char>, disk: Disk)
    requires
        extension(relative) is Some,
    ensures
        served_path(spa, relative, disk) != Some(StaticPath::RootIndex),
{
}

/// The first thing to do for a requested path, which `params` holds under `path`.
pub fn begin_request(style: PathStyle, params: &Params) -> (r: Result<String, StaticDirError>)
    ensures
        match sanitized(style, requested(params@)) {
            Some(list) => r is Ok && r->Ok_0@ == join(list, "/"@),
            None => r is Err && r->Err_0 is InvalidPath,
        },
{
    let path = match params.get("path") {
        Ok(path) => path,
        Err(_) => "",
    };
    match sanitize_relative_path(style, path) {
        Some(relative) => Ok(relative),
        None => Err(StaticDirError::InvalidPath),
    }
}

/// The path that route parameters name.
pub open spec fn requested(params: Seq<(Seq<char>, Seq<char>)>) -> Seq<char> {
    match first_value(params, "path"@, 0) {
        Some(path) => path,
        None => ""@,
    }
}

/// What to do once the file system answered.
pub fn resolve_step(spa: bool, relative: &str, asked: StaticPath, answer: Metadata) -> (r:
    ResolveStep)
    ensures
        r == step_after(spa, relative@, asked, answer),
{
    let fallback = if spa && path_extension(relative).is_none() {
        ResolveStep::Ask(StaticPath::RootIndex)
    } else {
        ResolveStep::NotFound
    };
    match asked {
        StaticPath::Target => match answer {
            Metadata::File => ResolveStep::Serve(StaticPath::Target),
            Metadata::Directory => ResolveStep::Ask(StaticPath::TargetIndex),
            _ => fallback,
        },
        StaticPath::TargetIndex => match answer {
            Metadata::File => ResolveStep::Serve(StaticPath::TargetIndex),
            _ => fallback,
        },
        StaticPath::RootIndex => match answer {
            Metadata::File => ResolveStep::Serve(StaticPath::RootIndex),
            _ => ResolveStep::NotFound,
        },
    }
}

/// A directory tree compiled into the program.
#[verifier::external_type_specification]
#[verifier::external_body]
pub struct ExDir<'a>(include_dir::Dir<'a>);

/// The contents of the files of an embedded tree, under each path that names one.
pub uninterp spec fn embedded_files(directory: Dir<'static>) -> Map<Seq<char>, Seq<u8>>;

/// The paths that name a directory of an embedded tree.
pub uninterp spec fn embedded_dirs(directory: Dir<'static>) -> Set<Seq<char>>;

/// The contents of a file, if a tree holds one under a path.
pub open spec fn lookup(files: Map<Seq<char>, Seq<u8>>, path: Seq<char>) -> Option<Seq<u8>> {
    if files.dom().contains(path) {
        Some(files[path])
    } else {
        None
    }
}

/// `include_dir::Dir::get_file` gives the file of a tree that a path names, if there is one;
/// `File::contents` gives its bytes.
#[verifier::external_body]
fn embedded_file(directory: &Dir<'static>, path: &str) -> (r: Option<Vec<u8>>)
    ensures
        optional_bytes(r) == lookup(embedded_files(*directory), path@),
{
    directory.get_file(path).map(|file| file.contents().to_vec())
}

/// `include_dir::Dir::get_dir` gives the directory of a tree that a path names, if there is one.
#[verifier::external_body]
fn has_embedded_dir(directory: &Dir<'static>, path: &str) -> (r: bool)
    ensures
        r == embedded_dirs(*directory).contains(path@),
{
    directory.get_dir(path).is_some()
}

/// The path of the file that is served from an embedded tree.
pub open spec fn embedded_path(
    files: Map<Seq<char>, Seq<u8>>,
    dirs: Set<Seq<char>>,
    relative: Seq<char>,
    index_file: Seq<char>,
    spa: bool,
) -> Option<Seq<char>> {
    let nested = relative + "/"@ + index_file;
    if relative.len() == 0 {
        if files.dom().contains(index_file) {
            Some(index_file)
        } else {
            None
        }
    } else if files.dom().contains(relative) {
        Some(relative)
    } else if dirs.contains(relative) && files.dom().contains(nested) {
        Some(nested)
    } else if spa && extension(relative) is None && files.dom().contains(index_file) {
        Some(index_file)
    } else {
        None
    }
}

/// A file to be sent.
#[derive(Debug)]
pub struct ServedFile {
    /// Its contents.
    pub body: Vec<u8>,
    /// Its content type, if its extension tells.
    pub content_type: Option<String>,
}

/// Whether a file was sent, and which.
pub open spec fn is_served(
    r: Result<ServedFile, StaticDirError>,
    files: Map<Seq<char>, Seq<u8>>,
    style: PathStyle,
    path: Option<Seq<char>>,
) -> bool {
    match path {
        Some(path) => r matches Ok(file) && file.body@ == files[path] && optional_text(
            file.content_type,
        ) == content_type(style, path),
        None => r is Err && r->Err_0 is FileNotFound,
    }
}

/// Mount a directory tree that is compiled into the program.
///
/// It is served as a [`StaticDir`] is.
#[derive(Debug)]
pub struct EmbeddedStaticDir {
    mount_path: String,
    directory: &'static Dir<'static>,
    index_file: String,
    spa: bool,
}

impl EmbeddedStaticDir {
    /// Where the tree is mounted.
    pub closed spec fn mount(&self) -> Seq<char> {
        self.mount_path@
    }

    /// The tree.
    pub closed spec fn tree(&self) -> Dir<'static> {
        *self.directory
    }

    /// The file that is served for a directory.
    pub closed spec fn index(&self) -> Seq<char> {
        self.index_file@
    }

    /// Whether paths that name no file fall back to the index file of the root.
    pub closed spec fn falls_back(&self) -> bool {
        self.spa
    }

    /// An embedded tree mounted at `mount_path`.
    pub fn new(mount_path: &str, directory: &'static Dir<'static>) -> (r: Self)
        ensures
            r.mount() == normalized_mount(mount_path@),
            r.tree() == *directory,
            r.index() == "index.html"@,
            !r.falls_back(),
    {
        EmbeddedStaticDir {
            mount_path: normalize_mount_path(mount_path),
            directory,
            index_file: copy_text("index.html"),
            spa: false,
        }
    }

    /// Override the file used for the root and for directories.
    pub fn index_file(self, index_file: &str) -> (r: Self)
        ensures
            r.mount() == self.mount(),
            r.tree() == self.tree(),
            r.index() == index_file@,
            r.falls_back() == self.falls_back(),
    {
        let mut dir = self;
        dir.index_file = copy_text(index_file);
        dir
    }

    /// Let paths without an extension that name no file fall back to the root index file.
    pub fn spa(self) -> (r: Self)
        ensures
            r.mount() == self.mount(),
            r.tree() == self.tree(),
            r.index() == self.index(),
            r.falls_back(),
    {
        let mut dir = self;
        dir.spa = true;
        dir
    }

    /// The node that mounts the tree, answered by `endpoint`.
    pub fn into_route_node(self, endpoint: u64) -> (r: RouteNode)
        ensures
            is_static_node(r, self.mount(), endpoint),
            mountable_node(r),
    {
        route_node_for_static(self.mount_path, endpoint)
    }

    /// The file that a sanitized path names, with its path.
    pub fn resolve_embedded_file(&self, relative: &str) -> (r: Option<(String, Vec<u8>)>)
        ensures
            ({
                let files = embedded_files(self.tree());
                match embedded_path(
                    files,
                    embedded_dirs(self.tree()),
                    relative@,
                    self.index(),
                    self.falls_back(),
                ) {
                    Some(path) => r matches Some(found) && found.0@ == path && found.1@
                        == files[path],
                    None => r is None,
                }
            }),
    {
        if relative.unicode_len() == 0 {
            return match embedded_file(self.directory, self.index_file.as_str()) {
                Some(body) => Some((self.index_file.clone(), body)),
                None => None,
            };
        }
        if let Some(body) = embedded_file(self.directory, relative) {
            return Some((copy_text(relative), body));
        }
        if has_embedded_dir(self.directory, relative) {
            let mut nested = copy_text(relative);
            nested.append("/");
            nested.append(self.index_file.as_str());
            if let Some(body) = embedded_file(self.directory, nested.as_str()) {
                return Some((nested, body));
            }
        }
        if self.spa && path_extension(relative).is_none() {
            return match embedded_file(self.directory, self.index_file.as_str()) {
                Some(body) => Some((self.index_file.clone(), body)),
                None => None,
            };
        }
        None
    }

    /// Answer a request whose route captured the path of a file.
    pub fn serve(&self, style: PathStyle, params: &Params) -> (r: Result<
        ServedFile,
        StaticDirError,
    >)
        ensures
            match sanitized(style, requested(params@)) {
                Some(list) => is_served(
                    r,
                    embedded_files(self.tree()),
                    style,
                    embedded_path(
                        embedded_files(self.tree()),
                        embedded_dirs(self.tree()),
                        join(list, "/"@),
                        self.index(),
                        self.falls_back(),
                    ),
                ),
                None => r is Err && r->Err_0 is InvalidPath,
            },
    {
        let relative = match begin_request(style, params) {
            Ok(relative) => relative,
            Err(error) => {
                return Err(error);
            },
        };
        match self.resolve_embedded_file(relative.as_str()) {
            Some((path, body)) => {
                let content_type = guess_content_type(style, path.as_str());
                Ok(ServedFile { body, content_type })
            },
            None => Err(StaticDirError::FileNotFound),
        }
    }
}

proof fn lemma_segments_come_from_the_path(pieces: Seq<Seq<char>>, to: int)
    requires
        0 <= to <= pieces.len(),
    ensures
        forall|i: int|
            0 <= i < segments(pieces, to).len() ==> is_segment(
                #[trigger] segments(pieces, to)[i],
            ) && pieces.contains(segments(pieces, to)[i]),
    decreases to,
{
    if to > 0 {
        let before = segments(pieces, to - 1);
        lemma_segments_come_from_the_path(pieces, to - 1);
        assert forall|i: int| 0 <= i < segments(pieces, to).len() implies is_segment(
            #[trigger] segments(pieces, to)[i],
        ) && pieces.contains(segments(pieces, to)[i]) by {
            if i < before.len() {
                assert(segments(pieces, to)[i] == before[i]);
            } else {
                assert(segments(pieces, to)[i] == pieces[to - 1]);
            }
        }
    }
}

/// No path that is served leaves its directory: none of its segments steps up, names a drive, is
/// empty, or is a single dot.
pub proof fn a_served_path_stays_inside(style: PathStyle, path: Seq<char>)
    requires
        sanitized(style, path) is Some,
    ensures
        forall|i: int|
            0 <= i < sanitized(style, path)->0.len() ==> is_segment(
                #[trigger] sanitized(style, path)->0[i],
            ) && !leaves(style, sanitized(style, path)->0[i]),
{
    let pieces = split(with_slashes(style, path), '/');
    lemma_segments_come_from_the_path(pieces, pieces.len() as int);
}

/// Whether a piece of a path is written as it is served: it names something, and leads nowhere else.
pub open spec fn is_clean(style: PathStyle, piece: Seq<char>) -> bool {
    &&& piece.len() > 0
    &&& piece != "."@
    &&& piece != ".."@
    &&& !piece.contains('/')
    &&& style is Windows ==> !piece.contains('\\') && !(piece.len() >= 2 && piece[1] == ':' && ('a'
        <= piece[0] <= 'z' || 'A' <= piece[0] <= 'Z'))
}

proof fn lemma_joined_pieces(style: PathStyle, pieces: Seq<Seq<char>>)
    requires
        pieces.len() > 0,
        forall|i: int|
            0 <= i < pieces.len() ==> !(#[trigger] pieces[i]).contains('/') && (style is Windows
                ==> !pieces[i].contains('\\')),
    ensures
        with_slashes(style, join(pieces, "/"@)) == join(pieces, "/"@),
        split(join(pieces, "/"@), '/') == pieces,
        join(pieces, "/"@).len() > 0 && pieces[0].len() > 0 ==> join(pieces, "/"@)[0] != '/',
        pieces.len() > 1 && pieces[0].len() == 0 ==> join(pieces, "/"@).len() > 0 && join(
            pieces,
            "/"@,
        )[0] == '/',
{
    reveal_strlit("/");
    assert("/"@ =~= seq!['/']);
    joined_pieces_come_apart(pieces, '/');
    let whole = join(pieces, "/"@);
    lemma_joined_chars(style, pieces);
    assert(with_slashes(style, whole) =~= whole);
    if pieces[0].len() > 0 {
        lemma_joined_start(pieces);
        assert(pieces[0].contains(pieces[0][0]));
    } else if pieces.len() > 1 {
        lemma_joined_root(pieces);
    }
}

proof fn lemma_joined_chars(style: PathStyle, pieces: Seq<Seq<char>>)
    requires
        forall|i: int|
            0 <= i < pieces.len() ==> (style is Windows ==> !(#[trigger] pieces[i]).contains('\\')),
    ensures
        style is Windows ==> !join(pieces, "/"@).contains('\\'),
    decreases pieces.len(),
{
    reveal_strlit("/");
    if style is Windows && pieces.len() == 1 {
        assert(!pieces[0].contains('\\'));
    } else if style is Windows && pieces.len() > 1 {
        let init = pieces.drop_last();
        assert forall|i: int| 0 <= i < init.len() implies !(#[trigger] init[i]).contains('\\') by {
            assert(!pieces[i].contains('\\'));
        }
        lemma_joined_chars(style, init);
        assert(!pieces[pieces.len() - 1].contains('\\'));
        let whole = join(pieces, "/"@);
        let head = join(init, "/"@);
        if whole.contains('\\') {
            let i = choose|i: int| 0 <= i < whole.len() && whole[i] == '\\';
            if i < head.len() {
                assert(head[i] == '\\');
            } else if i > head.len() {
                assert(pieces.last()[i - head.len() - 1] == '\\');
            }
        }
    }
}

proof fn lemma_joined_start(pieces: Seq<Seq<char>>)
    requires
        pieces.len() > 0,
        pieces[0].len() > 0,
    ensures
        join(pieces, "/"@).len() > 0,
        join(pieces, "/"@)[0] == pieces[0][0],
    decreases pieces.len(),
{
    if pieces.len() > 1 {
        lemma_joined_start(pieces.drop_last());
    }
}

proof fn lemma_joined_root(pieces: Seq<Seq<char>>)
    requires
        pieces.len() > 1,
        pieces[0].len() == 0,
    ensures
        join(pieces, "/"@).len() > 0,
        join(pieces, "/"@)[0] == '/',
    decreases pieces.len(),
{
    reveal_strlit("/");
    let init = pieces.drop_last();
    if pieces.len() == 2 {
        assert(join(init, "/"@) =~= pieces[0]);
    } else {
        lemma_joined_root(init);
    }
}

proof fn lemma_clean_segments(style: PathStyle, pieces: Seq<Seq<char>>, to: int)
    requires
        0 <= to <= pieces.len(),
        forall|i: int| 0 <= i < pieces.len() ==> is_clean(style, #[trigger] pieces[i]),
    ensures
        segments(pieces, to) == pieces.take(to),
    decreases to,
{
    if to > 0 {
        lemma_clean_segments(style, pieces, to - 1);
        assert(is_clean(style, pieces[to - 1]));
        assert(pieces.take(to) =~= pieces.take(to - 1).push(pieces[to - 1]));
    } else {
        assert(segments(pieces, 0) =~= pieces.take(0));
    }
}

/// A path that is written without detours is served as it is written.
pub proof fn a_clean_path_is_served(style: PathStyle, pieces: Seq<Seq<char>>)
    requires
        pieces.len() > 0,
        forall|i: int| 0 <= i < pieces.len() ==> is_clean(style, #[trigger] pieces[i]),
    ensures
        sanitized(style, join(pieces, "/"@)) == Some(pieces),
{
    assert forall|i: int|
        0 <= i < pieces.len() implies !(#[trigger] pieces[i]).contains('/') && (style is Windows
        ==> !pieces[i].contains('\\')) && !leaves(style, pieces[i]) by {
        assert(is_clean(style, pieces[i]));
    }
    assert(is_clean(style, pieces[0]));
    lemma_joined_pieces(style, pieces);
    lemma_clean_segments(style, pieces, pieces.len() as int);
    assert(pieces.take(pieces.len() as int) =~= pieces);
}

/// A path that steps up anywhere is refused, and so is an absolute one.
pub proof fn a_path_that_leaves_is_refused(style: PathStyle, pieces: Seq<Seq<char>>, k: int)
    requires
        0 <= k < pieces.len(),
        forall|i: int|
            0 <= i < pieces.len() ==> !(#[trigger] pieces[i]).contains('/') && (style is Windows
                ==> !pieces[i].contains('\\')),
    ensures
        pieces[k] == ".."@ ==> sanitized(style, join(pieces, "/"@)) is None,
        pieces.len() > 1 && pieces[0].len() == 0 ==> sanitized(style, join(pieces, "/"@)) is None,
{
    lemma_joined_pieces(style, pieces);
    if pieces[k] == ".."@ {
        assert(leaves(style, pieces[k]));
    }
}

/// Single dots and doubled slashes make no difference to what is served.
pub proof fn dots_make_no_difference(
    style: PathStyle,
    head: Seq<Seq<char>>,
    dot: Seq<char>,
    tail: Seq<Seq<char>>,
)
    requires
        head.len() > 0,
        dot == "."@ || dot.len() == 0,
        forall|i: int| 0 <= i < head.len() ==> is_clean(style, #[trigger] head[i]),
        forall|i: int| 0 <= i < tail.len() ==> is_clean(style, #[trigger] tail[i]),
    ensures
        sanitized(style, join(head + seq![dot] + tail, "/"@)) == Some(head + tail),
{
    reveal_strlit(".");
    reveal_strlit("..");
    let pieces = head + seq![dot] + tail;
    let n = head.len() as int;
    assert(pieces[n] == dot);
    assert forall|i: int|
        0 <= i < pieces.len() implies !(#[trigger] pieces[i]).contains('/') && (style is Windows
        ==> !pieces[i].contains('\\')) && !leaves(style, pieces[i]) by {
        if i < n {
            assert(is_clean(style, head[i]));
        } else if i > n {
            assert(pieces[i] == tail[i - n - 1]);
            assert(is_clean(style, tail[i - n - 1]));
        } else {
            assert(!dot.contains('/') && !dot.contains('\\'));
            assert("."@.len() == 1 && ".."@.len() == 2);
        }
    }
    assert(is_clean(style, head[0]));
    assert(pieces[0] == head[0]);
    lemma_joined_pieces(style, pieces);
    lemma_clean_segments(style, head, n);
    lemma_segments_of_prefix(head, pieces, n);
    assert(head.take(n) =~= head);
    lemma_segments_behind(style, head, dot, tail, tail.len() as int);
    assert(tail.take(tail.len() as int) =~= tail);
}

proof fn lemma_segments_of_prefix(a: Seq<Seq<char>>, b: Seq<Seq<char>>, to: int)
    requires
        0 <= to <= a.len() <= b.len(),
        forall|i: int| 0 <= i < to ==> #[trigger] a[i] == b[i],
    ensures
        segments(a, to) == segments(b, to),
    decreases to,
{
    if to > 0 {
        lemma_segments_of_prefix(a, b, to - 1);
    }
}

proof fn lemma_segments_behind(
    style: PathStyle,
    head: Seq<Seq<char>>,
    dot: Seq<char>,
    tail: Seq<Seq<char>>,
    to: int,
)
    requires
        dot == "."@ || dot.len() == 0,
        forall|i: int| 0 <= i < head.len() ==> is_clean(style, #[trigger] head[i]),
        forall|i: int| 0 <= i < tail.len() ==> is_clean(style, #[trigger] tail[i]),
        0 <= to <= tail.len(),
    ensures
        segments(head + seq![dot] + tail, head.len() + 1 + to) == head + tail.take(to),
    decreases to,
{
    let pieces = head + seq![dot] + tail;
    let n = head.len() as int;
    if to == 0 {
        assert(pieces[n] == dot);
        lemma_clean_segments(style, head, n);
        assert forall|i: int| 0 <= i < n implies #[trigger] head[i] == pieces[i] by {}
        lemma_segments_of_prefix(head, pieces, n);
        assert(head.take(n) =~= head);
        assert(head + tail.take(0) =~= head);
    } else {
        lemma_segments_behind(style, head, dot, tail, to - 1);
        assert(pieces[n + to] == tail[to - 1]);
        assert(is_clean(style, tail[to - 1]));
        assert(head + tail.take(to) =~= (head + tail.take(to - 1)).push(tail[to - 1]));
    }
}

/// On Windows a path with backslashes is the path with slashes, and one that names a drive is refused.
pub proof fn backslashes_are_slashes_on_windows(head: Seq<char>, tail: Seq<char>)
    ensures
        sanitized(PathStyle::Windows, head + seq!['\\'] + tail) == sanitized(
            PathStyle::Windows,
            head + seq!['/'] + tail,
        ),
        head.len() > 0 && head[0] == 'C' && head[1] == ':' && head.len() > 1 ==> sanitized(
            PathStyle::Windows,
            head,
        ) is None,
{
    assert(with_slashes(PathStyle::Windows, head + seq!['\\'] + tail) =~= with_slashes(
        PathStyle::Windows,
        head + seq!['/'] + tail,
    ));
    if head.len() > 1 && head[0] == 'C' && head[1] == ':' {
        let written = with_slashes(PathStyle::Windows, head);
        let end = find(written, '/', 0);
        lemma_find_bounds(written, '/', 0);
        assert(find(written, '/', 0) == find(written, '/', 2)) by {
            assert(find(written, '/', 0) == find(written, '/', 1));
            assert(find(written, '/', 1) == find(written, '/', 2));
        }
        lemma_find_bounds(written, '/', 2);
        let pieces = split(written, '/');
        assert(pieces[0] == written.subrange(0, end)) by {
            assert(split(written, '/') == split_from(written, '/', 0));
        }
        assert(leaves(PathStyle::Windows, pieces[0]));
    }
}

/// A file is served where the request names it; otherwise the index file of the directory that it
/// names; otherwise, for a single page application and a path without an extension, that of the
/// root. Nothing else is.
pub proof fn what_is_asked_for_is_served_first(spa: bool, relative: Seq<char>, disk: Disk)
    ensures
        ({
            let end = resolution(
                spa,
                relative,
                disk,
                ResolveStep::Ask(StaticPath::Target),
                3,
            );
            let falls_back = spa && extension(relative) is None && disk.root_index
                == Metadata::File;
            let has_index = disk.target == Metadata::Directory && disk.target_index
                == Metadata::File;
            &&& end == ResolveStep::Serve(StaticPath::Target) <==> disk.target == Metadata::File
            &&& end == ResolveStep::Serve(StaticPath::TargetIndex) <==> has_index
            &&& end == ResolveStep::Serve(StaticPath::RootIndex) <==> disk.target != Metadata::File
                && !has_index && falls_back
            &&& end == ResolveStep::NotFound <==> disk.target != Metadata::File && !has_index
                && !falls_back
        }),
{
    reveal_with_fuel(resolution, 4);
}

/// The same holds of an embedded tree, whose root is served by its index file.
pub proof fn what_is_asked_for_is_served_first_from_a_tree(
    files: Map<Seq<char>, Seq<u8>>,
    dirs: Set<Seq<char>>,
    relative: Seq<char>,
    index_file: Seq<char>,
    spa: bool,
)
    ensures
        ({
            let path = embedded_path(files, dirs, relative, index_file, spa);
            let nested = relative + seq!['/'] + index_file;
            &&& path is Some ==> files.dom().contains(path->0)
            &&& relative.len() == 0 && files.dom().contains(index_file) ==> path == Some(index_file)
            &&& relative.len() > 0 && files.dom().contains(relative) ==> path == Some(relative)
            &&& relative.len() > 0 && !files.dom().contains(relative) && dirs.contains(relative)
                && files.dom().contains(nested) ==> path == Some(nested)
            &&& relative.len() > 0 && !files.dom().contains(relative) && !(dirs.contains(relative)
                && files.dom().contains(nested)) ==> path == if spa && extension(relative) is None
                && files.dom().contains(index_file) {
                Some(index_file)
            } else {
                None
            }
            &&& relative.len() == 0 && !files.dom().contains(index_file) ==> path is None
        }),
{
    reveal_strlit("/");
    assert("/"@ =~= seq!['/']);
}

/// The extension of a file is what follows its last dot, whatever directory it is in; a name without
/// a dot, or with nothing before it, has none.
pub proof fn the_extension_follows_the_last_dot(
    directory: Seq<char>,
    stem: Seq<char>,
    ending: Seq<char>,
)
    requires
        !stem.contains('/'),
        !ending.contains('/'),
        !ending.contains('.'),
        stem.len() > 0,
        stem != "."@ || ending.len() > 0,
    ensures
        extension(directory + seq!['/'] + stem + seq!['.'] + ending) == Some(ending),
        ending.len() > 0 ==> extension(directory + seq!['/'] + ending) is None,
        ending.len() > 0 ==> extension(directory + seq!['/'] + seq!['.'] + ending) is None,
{
    reveal_strlit(".");
    reveal_strlit("..");
    let name = stem + seq!['.'] + ending;
    assert(directory + seq!['/'] + stem + seq!['.'] + ending =~= directory + seq!['/'] + name);
    assert(!name.contains('/')) by {
        if name.contains('/') {
            let i = choose|i: int| 0 <= i < name.len() && name[i] == '/';
            if i < stem.len() {
                assert(stem[i] == '/');
            } else if i > stem.len() {
                assert(ending[i - stem.len() - 1] == '/');
            }
        }
    }
    lemma_split_before_last(directory, '/', name);
    lemma_last_dot(stem, ending, name.len() as int);
    assert(name.subrange(stem.len() as int + 1, name.len() as int) =~= ending);
    if name == ".."@ {
        assert(name.len() == 2 && name[0] == '.');
        if ending.len() > 0 {
            assert(name[1] == ending[1 - stem.len() - 1] || name[1] == '.');
            assert(stem.len() == 1);
        }
        assert(stem[0] == name[0]);
        assert(stem =~= "."@);
    }
    if name == "."@ {
        assert(name.len() == 1);
    }
    if ending.len() > 0 {
        lemma_split_before_last(directory, '/', ending);
        lemma_no_dot(ending, ending.len() as int);
        if ending == "."@ || ending == ".."@ {
            assert(ending[0] == '.');
        }
        let hidden = seq!['.'] + ending;
        assert(directory + seq!['/'] + seq!['.'] + ending =~= directory + seq!['/'] + hidden);
        assert(!hidden.contains('/')) by {
            if hidden.contains('/') {
                let i = choose|i: int| 0 <= i < hidden.len() && hidden[i] == '/';
                assert(ending[i - 1] == '/');
            }
        }
        lemma_split_before_last(directory, '/', hidden);
        let none = Seq::<char>::empty();
        lemma_last_dot(none, ending, hidden.len() as int);
        assert(none + seq!['.'] + ending =~= hidden);
    }
}

proof fn lemma_last_dot(stem: Seq<char>, ending: Seq<char>, to: int)
    requires
        !ending.contains('.'),
        stem.len() < to <= stem.len() + 1 + ending.len(),
    ensures
        rfind(stem + seq!['.'] + ending, '.', to) == stem.len(),
    decreases to,
{
    let name = stem + seq!['.'] + ending;
    if to > stem.len() + 1 {
        assert(name[to - 1] == ending[to - 2 - stem.len()]);
        assert(ending.contains(ending[to - 2 - stem.len()]));
        lemma_last_dot(stem, ending, to - 1);
    } else {
        assert(name[to - 1] == '.');
    }
}

proof fn lemma_no_dot(s: Seq<char>, to: int)
    requires
        !s.contains('.'),
        0 <= to <= s.len(),
    ensures
        rfind(s, '.', to) == -1,
    decreases to,
{
    if to > 0 {
        assert(s.contains(s[to - 1]));
        lemma_no_dot(s, to - 1);
    }
}

/// A mount path starts with a slash and ends with none, but for the root; slashes and white space
/// around it make no difference.
pub proof fn a_mount_path_is_rooted(name: Seq<char>, slashes: nat)
    requires
        name.len() > 0,
        !is_white_space(name[0]),
        !is_white_space(name.last()),
        name[0] != '/',
        name.last() != '/',
    ensures
        ({
            let tail = Seq::new(slashes, |i: int| '/');
            &&& normalized_mount(name + tail) == seq!['/'] + name
            &&& normalized_mount(seq!['/'] + name + tail) == seq!['/'] + name
            &&& normalized_mount(seq![' '] + name + tail + seq![' ']) == seq!['/'] + name
            &&& normalized_mount(tail) == seq!['/']
        }),
{
    lemma_named_mount(name, slashes);
    lemma_root_mount(slashes);
}

proof fn lemma_named_mount(name: Seq<char>, slashes: nat)
    requires
        name.len() > 0,
        !is_white_space(name[0]),
        !is_white_space(name.last()),
        name[0] != '/',
        name.last() != '/',
    ensures
        ({
            let tail = Seq::new(slashes, |i: int| '/');
            &&& normalized_mount(name + tail) == seq!['/'] + name
            &&& normalized_mount(seq!['/'] + name + tail) == seq!['/'] + name
            &&& normalized_mount(seq![' '] + name + tail + seq![' ']) == seq!['/'] + name
        }),
{
    let tail = Seq::new(slashes, |i: int| '/');
    let plain = name + tail;
    let rooted = seq!['/'] + plain;
    let padded = seq![' '] + plain + seq![' '];
    assert(plain[0] == name[0]);
    assert(plain.last() == if slashes > 0 {
        '/'
    } else {
        name.last()
    });
    assert(rooted.last() == plain.last());
    assert(!is_white_space(plain[0]) && !is_white_space(plain.last()));
    a_text_without_padding_stays(plain, Padding::WhiteSpace);
    a_text_without_padding_stays(rooted, Padding::WhiteSpace);
    assert(trim(padded, Padding::WhiteSpace) == plain) by {
        lemma_trim_padded(seq![' '], plain, seq![' '], Padding::WhiteSpace);
    }
    lemma_rooted_end(name, slashes);
    assert(seq![' '] + name + tail + seq![' '] =~= padded);
    assert(seq!['/'] + name + tail =~= rooted);
    lemma_mount(plain, plain, rooted, name);
    lemma_mount(rooted, rooted, rooted, name);
    lemma_mount(padded, plain, rooted, name);
}

proof fn lemma_mount(path: Seq<char>, trimmed: Seq<char>, rooted: Seq<char>, name: Seq<char>)
    requires
        trim(path, Padding::WhiteSpace) == trimmed,
        trimmed.len() > 0,
        rooted == if trimmed[0] == '/' {
            trimmed
        } else {
            seq!['/'] + trimmed
        },
        trim_end(rooted, Padding::Slash) == seq!['/'] + name,
    ensures
        normalized_mount(path) == seq!['/'] + name,
{
}

proof fn lemma_root_mount(slashes: nat)
    ensures
        normalized_mount(Seq::new(slashes, |i: int| '/')) == seq!['/'],
{
    let tail = Seq::new(slashes, |i: int| '/');
    if slashes > 0 {
        assert(tail[0] == '/' && tail.last() == '/');
    }
    a_text_without_padding_stays(tail, Padding::WhiteSpace);
    lemma_root_end(slashes);
}

proof fn lemma_rooted_end(name: Seq<char>, slashes: nat)
    requires
        name.len() > 0,
        name.last() != '/',
    ensures
        trim_end(seq!['/'] + (name + Seq::new(slashes, |i: int| '/')), Padding::Slash) == seq!['/']
            + name,
{
    let tail = Seq::new(slashes, |i: int| '/');
    let base = seq!['/'] + name;
    let rooted = seq!['/'] + (name + tail);
    assert(base.last() == name.last());
    lemma_slashes_end(base, slashes, slashes);
    assert(base + tail =~= rooted);
    assert(trim_end(rooted, Padding::Slash) =~= base);
}

proof fn lemma_root_end(slashes: nat)
    ensures
        trim_end(Seq::new(slashes, |i: int| '/'), Padding::Slash).len() == 0,
        trim_end(seq!['/'] + Seq::new(slashes, |i: int| '/'), Padding::Slash).len() == 0,
{
    let tail = Seq::new(slashes, |i: int| '/');
    let none = Seq::<char>::empty();
    lemma_slashes_end(none, slashes, slashes);
    assert(none + tail =~= tail);
    let more = (slashes + 1) as nat;
    lemma_slashes_end(none, more, more);
    assert(none + Seq::new(more, |i: int| '/') =~= seq!['/'] + tail);
}

proof fn lemma_slashes_end(base: Seq<char>, slashes: nat, left: nat)
    requires
        base.len() == 0 || base.last() != '/',
        left <= slashes,
    ensures
        content_end(
            base + Seq::new(slashes, |i: int| '/'),
            Padding::Slash,
            (base.len() + left) as int,
        ) == base.len(),
    decreases left,
{
    let whole = base + Seq::new(slashes, |i: int| '/');
    if left > 0 {
        assert(whole[base.len() + left - 1] == '/');
        lemma_slashes_end(base, slashes, (left - 1) as nat);
    } else if base.len() > 0 {
        assert(whole[base.len() - 1] == base.last());
    }
}

/// A directory answers `GET` at its mount point and at everything below it, with one endpoint.
pub proof fn a_directory_answers_its_mount_point_and_below(
    node: RouteNode,
    mount: Seq<char>,
    endpoint: u64,
    i: int,
)
    requires
        is_static_node(node, mount, endpoint),
        0 <= i < 2,
    ensures
        node.path@ == mount,
        node.node_type is Route,
        node.node_type->Route_0.nodes@.len() == 2,
        node.node_type->Route_0.layers@.len() == 0,
        ({
            let inner = node.node_type->Route_0.nodes@[i];
            &&& i == 0 ==> inner.path@.len() == 0
            &&& i == 1 && mount == seq!['/'] ==> inner.path@ == "{*path}"@
            &&& i == 1 && mount != seq!['/'] ==> inner.path@ == seq!['/'] + "{*path}"@
            &&& inner.node_type is Endpoint
            &&& inner.node_type->endpoint == endpoint
            &&& inner.node_type->method is Exact
            &&& inner.node_type->method->Exact_0@ == "GET"@
            &&& inner.node_type->requirements@.len() == 0
            &&& inner.node_type->Endpoint_middleware@.len() == 0
        }),
{
    reveal_strlit("");
    reveal_strlit("/");
    reveal_strlit("{*path}");
    reveal_strlit("/{*path}");
    assert("/"@ =~= seq!['/']);
    assert("/{*path}"@ =~= seq!['/'] + "{*path}"@);
}

/// The path a request names is what was captured for it, and the mount point where nothing was.
pub proof fn a_request_names_what_was_captured(
    params: Seq<(Seq<char>, Seq<char>)>,
    at: int,
)
    requires
        0 <= at <= params.len(),
        forall|i: int| 0 <= i < at ==> (#[trigger] params[i]).0 != "path"@,
        at < params.len() ==> params[at].0 == "path"@,
    ensures
        at < params.len() ==> requested(params) == params[at].1,
        at == params.len() ==> requested(params).len() == 0,
{
    reveal_strlit("");
    the_first_pair_of_a_name_is_read(params, "path"@, 0, at);
}

/// The content type of a file follows from its extension alone, where it can stand in a header; a
/// file without an extension has none. On Windows a drive before the name does not count.
pub proof fn the_extension_tells_the_content_type(
    directory: Seq<char>,
    stem: Seq<char>,
    ending: Seq<char>,
    mime: Seq<char>,
)
    requires
        !stem.contains('/'),
        !ending.contains('/'),
        !ending.contains('.'),
        stem.len() > 0,
        ending.len() > 0,
        forall|i: int| 0 <= i < mime.len() ==> ' ' <= #[trigger] mime[i] <= '~',
        media_type(ending) == Some(mime),
    ensures
        content_type(PathStyle::Unix, directory + seq!['/'] + stem + seq!['.'] + ending) == Some(
            mime,
        ),
        content_type(PathStyle::Unix, directory + seq!['/'] + ending) is None,
{
    let path = directory + seq!['/'] + stem + seq!['.'] + ending;
    let bare = directory + seq!['/'] + ending;
    the_extension_follows_the_last_dot(directory, stem, ending);
    assert(with_slashes(PathStyle::Unix, path) =~= path);
    assert(with_slashes(PathStyle::Unix, bare) =~= bare);
    assert(is_header_text(mime));
}

/// On Windows the content type of a file does not depend on its drive, nor on how its path is
/// separated.
pub proof fn a_drive_makes_no_difference(path: Seq<char>, head: Seq<char>, tail: Seq<char>)
    requires
        !(path.len() >= 2 && path[1] == ':'),
    ensures
        content_type(PathStyle::Windows, seq!['C', ':'] + path) == content_type(
            PathStyle::Windows,
            path,
        ),
        content_type(PathStyle::Windows, head + seq!['\\'] + tail) == content_type(
            PathStyle::Windows,
            head + seq!['/'] + tail,
        ),
{
    let whole = seq!['C', ':'] + path;
    let written = with_slashes(PathStyle::Windows, whole);
    assert(written[0] == 'C' && written[1] == ':');
    assert(written.skip(2) =~= with_slashes(PathStyle::Windows, path));
    let alone = with_slashes(PathStyle::Windows, path);
    if alone.len() >= 2 {
        assert(alone[1] != ':');
    }
    assert(with_slashes(PathStyle::Windows, head + seq!['\\'] + tail) =~= with_slashes(
        PathStyle::Windows,
        head + seq!['/'] + tail,
    ));
}

/// A file is served exactly where there is one to serve, with its contents.
pub proof fn a_file_is_served_with_its_contents(
    r: Result<ServedFile, StaticDirError>,
    files: Map<Seq<char>, Seq<u8>>,
    style: PathStyle,
    path: Option<Seq<char>>,
)
    requires
        is_served(r, files, style, path),
    ensures
        r is Ok <==> path is Some,
        r is Ok ==> r->Ok_0.body@ == files[path->0] && optional_text(r->Ok_0.content_type)
            == content_type(style, path->0),
        r is Err ==> r->Err_0 is FileNotFound,
{
}

/// A media type that could not stand in a header is no content type.
pub proof fn a_content_type_can_stand_in_a_header(mime: Seq<char>, at: int)
    requires
        0 <= at < mime.len(),
    ensures
        (mime[at] < ' ' && mime[at] != '\t') || mime[at] == '\u{7f}' ==> header_media_type(Some(mime))
            is None,
        header_media_type(Some(mime)) is Some ==> header_media_type(Some(mime)) == Some(mime),
        header_media_type(None) is None,
{
}

} // verus!
