//! Static files, from a directory and from the program itself.

use include_dir::{Dir, DirEntry, File};

use skyzen::conditional::{
    entity_tag, parse_range, plan_file, ByteRange, FilePlan, FileVersion,
};
use skyzen::middleware::headers::{HeaderField, HeaderUpdate};
use skyzen::routing::param::Params;
use skyzen::routing::router::{Dispatch, Router, Target};
use skyzen::routing::tree::Routes;
use skyzen::static_files::{
    accept_media_type, begin_request, guess_content_type, normalize_mount_path, path_extension,
    resolve_step, sanitize_relative_path, EmbeddedStaticDir, Metadata, PathStyle, ResolveStep,
    StaticDir, StaticDirError, StaticPath,
};

#[test]
fn normalizes_mount_paths() {
    assert_eq!(normalize_mount_path("assets"), "/assets");
    assert_eq!(normalize_mount_path("/assets/"), "/assets");
    assert_eq!(normalize_mount_path("/"), "/");
}

#[test]
fn rejects_parent_dirs() {
    assert!(sanitize_relative_path(PathStyle::Unix, "../secrets").is_none());
    assert!(sanitize_relative_path(PathStyle::Unix, "styles/../../etc").is_none());
    assert!(sanitize_relative_path(PathStyle::Unix, "/absolute/path").is_none());
}

#[test]
fn keeps_valid_relative_segments() {
    let path = sanitize_relative_path(PathStyle::Unix, "styles/main.css").unwrap();
    assert_eq!(
        std::path::Path::new(&path),
        std::path::Path::new("styles").join("main.css")
    );
}

#[test]
fn current_directories_are_skipped() {
    assert_eq!(sanitize_relative_path(PathStyle::Unix, "./a/./b"), Some("a/b".to_owned()));
    assert_eq!(sanitize_relative_path(PathStyle::Unix, ""), Some("".to_owned()));
    assert_eq!(path_extension("a/b.min.js"), Some("js".to_owned()));
    assert_eq!(path_extension("a.d/b"), None);
    assert_eq!(path_extension(".hidden"), None);
}

#[test]
fn windows_paths_stay_inside_too() {
    let windows = |path: &str| sanitize_relative_path(PathStyle::Windows, path);
    assert_eq!(windows("styles\\main.css"), Some("styles/main.css".to_owned()));
    for path in ["..\\x", "a\\..\\x", "\\x", "C:x", "c:\\x", "\\\\server\\share", "a\\C:x"] {
        assert_eq!(windows(path), None, "{path}");
    }
    assert_eq!(
        sanitize_relative_path(PathStyle::Unix, "a\\b"),
        Some("a\\b".to_owned())
    );
    assert_eq!(
        guess_content_type(PathStyle::Windows, "C:\\site.d\\logo.png"),
        Some("image/png".to_owned())
    );
    assert_eq!(guess_content_type(PathStyle::Windows, "C:\\a.png\\b"), None);
    assert_eq!(guess_content_type(PathStyle::Windows, "C:.png"), None);
}

// A directory on disk: its path, and its files with what is in them.
struct Files {
    list: Vec<(&'static str, &'static str)>,
}

impl Files {
    fn metadata(&self, path: &str) -> Metadata {
        for (name, _) in &self.list {
            if *name == path {
                return Metadata::File;
            }
            if path.is_empty() || name.starts_with(&format!("{path}/")) {
                return Metadata::Directory;
            }
        }
        if path.is_empty() {
            Metadata::Directory
        } else {
            Metadata::Missing
        }
    }

    fn read(&self, path: &str) -> String {
        for (name, content) in &self.list {
            if *name == path {
                return (*content).to_owned();
            }
        }
        panic!("{path} is not there");
    }
}

fn router_of(dir: StaticDir) -> Router {
    skyzen::routing::router::Route::new(dir.into_route_node(1).into_route_nodes())
        .try_build()
        .unwrap_or_else(|error| panic!("{}", error.message()))
}

fn captured(router: &Router, path: &str) -> Params {
    match router.dispatch(path, "GET") {
        Dispatch::Run { app, params, .. } => {
            assert!(matches!(app.target, Target::Endpoint(1)));
            params
        }
        _ => panic!("{path} is not routed to the files"),
    }
}

// The body that is served and its media type.
fn get(
    dir: StaticDir,
    files: &Files,
    path: &str,
) -> Result<(String, Option<String>), StaticDirError> {
    let spa = dir.is_spa();
    let index = dir.index().to_owned();
    let router = router_of(dir);
    let relative = begin_request(PathStyle::Unix, &captured(&router, path))?;
    let name = |asked: StaticPath| match asked {
        StaticPath::Target => relative.clone(),
        StaticPath::TargetIndex if relative.is_empty() => index.clone(),
        StaticPath::TargetIndex => format!("{relative}/{index}"),
        StaticPath::RootIndex => index.clone(),
    };
    let mut step = ResolveStep::Ask(StaticPath::Target);
    loop {
        match step {
            ResolveStep::Ask(asked) => {
                step = resolve_step(spa, &relative, asked, files.metadata(&name(asked)));
            }
            ResolveStep::Serve(found) => {
                let path = name(found);
                return Ok((files.read(&path), guess_content_type(PathStyle::Unix, &path)));
            }
            ResolveStep::NotFound => return Err(StaticDirError::FileNotFound),
        }
    }
}

#[test]
fn serves_files_from_nested_directories() {
    let files = Files {
        list: vec![("assets/main.css", "body { color: #fff; }")],
    };
    let (body, content_type) = get(
        StaticDir::new("/static", "files"),
        &files,
        "/static/assets/main.css",
    )
    .unwrap();
    assert_eq!(content_type, Some("text/css".to_owned()));
    assert_eq!(body, "body { color: #fff; }");
}

#[test]
fn serves_index_file_for_root_requests() {
    let files = Files {
        list: vec![("index.html", "<h1>Home</h1>")],
    };
    let (body, _) = get(StaticDir::new("/public", "files"), &files, "/public").unwrap();
    assert_eq!(body, "<h1>Home</h1>");
}

#[test]
fn blocks_path_traversal_attempts() {
    let files = Files {
        list: vec![("index.html", "root")],
    };
    let error = get(
        StaticDir::new("/files", "files"),
        &files,
        "/files/../Cargo.toml",
    )
    .unwrap_err();
    assert!(matches!(error, StaticDirError::InvalidPath));
    assert_eq!(error.status(), 400);
}

#[test]
fn returns_not_found_for_missing_files() {
    let files = Files { list: vec![] };
    let error = get(StaticDir::new("/assets", "files"), &files, "/assets/app.js").unwrap_err();
    assert_eq!(error.status(), 404);
}

#[test]
fn honors_custom_index_file() {
    let files = Files {
        list: vec![("home.htm", "custom")],
    };
    let dir = StaticDir::new("/web", "files").index_file("home.htm");
    assert_eq!(dir.directory(), "files");
    let (body, _) = get(dir, &files, "/web").unwrap();
    assert_eq!(body, "custom");
}

#[test]
fn spa_fallback_serves_index_for_extensionless_paths() {
    let files = Files {
        list: vec![("index.html", "<h1>SPA</h1>")],
    };
    let (body, _) = get(StaticDir::new("/app", "files").spa(), &files, "/app/about").unwrap();
    assert_eq!(body, "<h1>SPA</h1>");
}

#[test]
fn spa_returns_404_for_missing_files_with_extension() {
    let files = Files {
        list: vec![("index.html", "<h1>SPA</h1>")],
    };
    let error = get(
        StaticDir::new("/app", "files").spa(),
        &files,
        "/app/missing.js",
    )
    .unwrap_err();
    assert_eq!(error.status(), 404);
}

#[test]
fn non_spa_returns_404_for_extensionless_paths() {
    let files = Files {
        list: vec![("index.html", "<h1>Home</h1>")],
    };
    let error = get(StaticDir::new("/app", "files"), &files, "/app/about").unwrap_err();
    assert_eq!(error.status(), 404);
}

fn embedded() -> &'static Dir<'static> {
    let docs: &'static [DirEntry<'static>] = Box::leak(Box::new([DirEntry::File(File::new(
        "docs/index.html",
        b"<h1>Docs</h1>",
    ))]));
    let root: &'static [DirEntry<'static>] = Box::leak(Box::new([
        DirEntry::File(File::new("index.html", b"<h1>Home</h1>")),
        DirEntry::File(File::new("app.js", b"run()")),
        DirEntry::Dir(Dir::new("docs", docs)),
    ]));
    Box::leak(Box::new(Dir::new("", root)))
}

fn path(value: &str) -> Params {
    Params::new(vec![("path".to_owned(), value.to_owned())])
}

#[test]
fn embedded_files_are_served_from_the_program() {
    let dir = EmbeddedStaticDir::new("/app", embedded());
    let script = dir.serve(PathStyle::Unix, &path("app.js")).unwrap();
    assert_eq!(script.body, b"run()");
    assert_eq!(script.content_type, Some("text/javascript".to_owned()));
    assert_eq!(dir.serve(PathStyle::Unix, &Params::empty()).unwrap().body, b"<h1>Home</h1>");
    assert_eq!(dir.serve(PathStyle::Unix, &path("docs")).unwrap().body, b"<h1>Docs</h1>");
    assert!(matches!(
        dir.serve(PathStyle::Unix, &path("about")),
        Err(StaticDirError::FileNotFound)
    ));
    assert!(matches!(
        dir.serve(PathStyle::Unix, &path("../app.js")),
        Err(StaticDirError::InvalidPath)
    ));
}

#[test]
fn embedded_single_page_applications_fall_back_to_the_index() {
    let dir = EmbeddedStaticDir::new("/app", embedded()).spa();
    assert_eq!(dir.serve(PathStyle::Unix, &path("about")).unwrap().body, b"<h1>Home</h1>");
    assert!(dir.serve(PathStyle::Unix, &path("missing.js")).is_err());
    let custom = EmbeddedStaticDir::new("/app", embedded()).index_file("app.js");
    assert_eq!(
        custom.resolve_embedded_file(""),
        Some(("app.js".to_owned(), b"run()".to_vec()))
    );
    assert_eq!(custom.into_route_node(1).path, "/app");
}

#[test]
fn media_types_are_guessed_by_extension() {
    assert_eq!(guess_content_type(PathStyle::Unix, "a.png"), Some("image/png".to_owned()));
    assert_eq!(guess_content_type(PathStyle::Unix, "a"), None);
    assert_eq!(accept_media_type(None), None);
    assert!(StaticDirError::IoError("disk".to_owned()).message().contains("disk"));
}

fn text(value: &str) -> HeaderField {
    HeaderField::Text(value.to_owned())
}

fn inserts(updates: &[HeaderUpdate]) -> Vec<(String, String)> {
    let mut list = Vec::new();
    for update in updates {
        if let HeaderUpdate::Insert(name, value) = update {
            list.push((name.clone(), value.clone()));
        }
    }
    list
}

const VERSION: FileVersion = FileVersion {
    len: 100,
    stamp: 7,
};

#[test]
fn versions_have_entity_tags_of_their_own() {
    assert_eq!(entity_tag(VERSION), "\"100-7\"");
    let other = FileVersion {
        len: 10,
        stamp: 7,
    };
    assert_ne!(entity_tag(VERSION), entity_tag(other));
}

#[test]
fn ranges_ask_for_parts_of_a_file() {
    for (header, wanted) in [
        ("bytes=0-9", ByteRange::Part { start: 0, end: 10 }),
        ("bytes=90-", ByteRange::Part { start: 90, end: 100 }),
        ("bytes=-5", ByteRange::Part { start: 95, end: 100 }),
        ("bytes=-500", ByteRange::Part { start: 0, end: 100 }),
        ("bytes=50-500", ByteRange::Part { start: 50, end: 100 }),
        ("bytes=100-", ByteRange::Unsatisfiable),
        ("bytes=-0", ByteRange::Unsatisfiable),
        ("bytes=5-4", ByteRange::Whole),
        ("bytes=0-1,5-6", ByteRange::Whole),
        ("bytes=a-b", ByteRange::Whole),
        ("bytes=+1-2", ByteRange::Whole),
        ("bytes=7", ByteRange::Whole),
        ("lines=0-9", ByteRange::Whole),
    ] {
        assert_eq!(parse_range(header, 100), wanted, "{header}");
    }
    assert_eq!(parse_range("bytes=-1", 0), ByteRange::Unsatisfiable);
}

#[test]
fn a_client_with_the_version_is_told_so() {
    let absent = HeaderField::Absent;
    for condition in ["\"100-7\"", "W/\"100-7\"", "\"x\", \"100-7\"", " * "] {
        let plan = plan_file(VERSION, &text(condition), &text("bytes=0-9"), &absent);
        assert_eq!(plan, FilePlan::NotModified);
        assert_eq!(plan.status(), 304);
    }
    let plan = plan_file(VERSION, &text("\"100-8\""), &absent, &absent);
    assert_eq!(plan, FilePlan::Bytes(ByteRange::Whole));
    assert_eq!(plan.status(), 200);
}

#[test]
fn a_part_is_sent_of_the_version_that_is_asked_for() {
    let absent = HeaderField::Absent;
    let part = plan_file(VERSION, &absent, &text("bytes=10-19"), &text("\"100-7\""));
    assert_eq!(part.status(), 206);
    assert_eq!(
        inserts(&part.headers(VERSION)),
        vec![
            ("etag".to_owned(), "\"100-7\"".to_owned()),
            ("accept-ranges".to_owned(), "bytes".to_owned()),
            ("content-range".to_owned(), "bytes 10-19/100".to_owned()),
        ]
    );
    let other = plan_file(VERSION, &absent, &text("bytes=10-19"), &text("\"100-6\""));
    assert_eq!(other.status(), 200);
    assert_eq!(inserts(&other.headers(VERSION)).len(), 2);
    let none = plan_file(VERSION, &absent, &text("bytes=100-"), &absent);
    assert_eq!(none.status(), 416);
    assert_eq!(
        inserts(&none.headers(VERSION))[2].1,
        "bytes */100".to_owned()
    );
}
