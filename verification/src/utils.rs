//! Offset conversion between bytes, characters and (line, column) points,
//! and the default rules for paths that tooling should ignore.

use vstd::prelude::*;
use crate::error::Error;
use crate::strutil::{
    byte_len_of, char_utf8_len, count_char, ends_with_sub, find_sub, find_sub_spec, is_suffix_of,
    lemma_byte_len_encode, lemma_byte_len_take_le, lemma_byte_len_take_step,
    lemma_count_char_nonneg, lemma_count_char_take_step, lemma_find_from_props, str_eq,
    utf8_len_of,
};

verus! {

/// Number of leading characters of `s` whose UTF-8 encoding fits entirely
/// within the first `b` bytes.
pub open spec fn fit_len(s: Seq<char>, b: int) -> int
    decreases s.len(),
{
    if s.len() == 0 {
        0
    } else if utf8_len_of(s[0]) > b {
        0
    } else {
        1 + fit_len(s.drop_first(), b - utf8_len_of(s[0]))
    }
}

/// Number of characters on the current line: characters since the last
/// `'\n'` of `p`, or since the start if `p` has none.
pub open spec fn col_spec(p: Seq<char>) -> int
    decreases p.len(),
{
    if p.len() == 0 {
        0
    } else if p.last() == '\n' {
        0
    } else {
        col_spec(p.drop_last()) + 1
    }
}

/// Converts a byte offset into a `(line, column)` point.  The line counts
/// `'\n'` occurrences strictly before the offset; the column counts the
/// characters (not bytes) since the start of the current line.  Characters
/// only partially covered by `b` bytes are not counted.
pub fn byte_to_point(b: usize, s: &str) -> (r: (usize, usize))
    ensures
        r.0 == count_char(s@.take(fit_len(s@, b as int)), '\n'),
        r.1 == col_spec(s@.take(fit_len(s@, b as int))),
{
    let sl = s.unicode_len();
    let mut line: usize = 0;
    let mut col: usize = 0;
    let mut byte_pos: usize = 0;
    let mut i: usize = 0;
    proof {
        assert(s@.take(0) =~= Seq::<char>::empty());
        assert(s@.skip(0) =~= s@);
    }
    loop
        invariant
            sl == s@.len(),
            0 <= i <= sl,
            byte_pos == byte_len_of(s@.take(i as int)),
            byte_pos <= b,
            fit_len(s@, b as int) == i + fit_len(s@.skip(i as int), b - byte_pos),
            line == count_char(s@.take(i as int), '\n'),
            col == col_spec(s@.take(i as int)),
            0 <= line <= i,
            0 <= col <= i,
        decreases sl - i,
    {
        if i == sl {
            assert(s@.skip(i as int) =~= Seq::<char>::empty());
            assert(fit_len(s@, b as int) == i as int);
            return (line, col);
        }
        let ch = s.get_char(i);
        let ch_len = char_utf8_len(ch);
        assert(s@.skip(i as int)[0] == s@[i as int]);
        if ch_len > b - byte_pos {
            assert(fit_len(s@.skip(i as int), b - byte_pos) == 0);
            assert(fit_len(s@, b as int) == i as int);
            return (line, col);
        }
        proof {
            lemma_byte_len_take_step(s@, i as int);
            lemma_count_char_take_step(s@, '\n', i as int);
            lemma_count_char_nonneg(s@.take(i as int), '\n');
            assert(s@.take(i + 1).last() == s@[i as int]);
            assert(s@.take(i + 1).drop_last() =~= s@.take(i as int));
            assert(s@.skip(i as int).drop_first() =~= s@.skip(i + 1));
        }
        if ch == '\n' {
            line = line + 1;
            col = 0;
        } else {
            col = col + 1;
        }
        byte_pos = byte_pos + ch_len;
        i = i + 1;
    }
}

/// Byte offset of the character at character offset `o` of `s`.
pub open spec fn offset_to_byte_spec(s: Seq<char>, o: int) -> int {
    byte_len_of(s.take(o))
}

/// Converts a character offset into a byte offset by summing UTF-8 widths.
/// An offset beyond the end of the text is reported as a recoverable error,
/// never a panic.
pub fn offset_to_byte(o: usize, s: &str) -> (r: Result<usize, Error>)
    ensures
        match r {
            Ok(b) => o <= s@.len() && b == offset_to_byte_spec(s@, o as int),
            Err(e) => o > s@.len() && e == Error::OffsetOutOfBounds,
        },
{
    let sl = s.unicode_len();
    if o > sl {
        return Err(Error::OffsetOutOfBounds);
    }
    let total_bytes = s.as_bytes().len();
    proof {
        broadcast use vstd::slice::axiom_spec_len;

        lemma_byte_len_encode(s@);
    }
    let mut byte_index: usize = 0;
    let mut i: usize = 0;
    proof {
        assert(s@.take(0) =~= Seq::<char>::empty());
    }
    while i < o
        invariant
            sl == s@.len(),
            0 <= i <= o <= sl,
            total_bytes == byte_len_of(s@),
            byte_index == byte_len_of(s@.take(i as int)),
            byte_index <= total_bytes,
        decreases o - i,
    {
        let ch = s.get_char(i);
        let ch_len = char_utf8_len(ch);
        proof {
            lemma_byte_len_take_step(s@, i as int);
            lemma_byte_len_take_le(s@, i + 1);
        }
        byte_index = byte_index + ch_len;
        i = i + 1;
    }
    Ok(byte_index)
}

/// Directory names that tooling should skip: version control, build output,
/// caches, logs and the like.
pub open spec fn ignored_dir_name(n: Seq<char>) -> bool {
    ||| n == ".git"@
    ||| n == ".idea"@
    ||| n == ".vscode"@
    ||| n == ".vim"@
    ||| n == ".netrwhist"@
    ||| n == ".vs"@
    ||| n == "node_modules"@
    ||| n == "dist"@
    ||| n == "target"@
    ||| n == "build"@
    ||| n == "out"@
    ||| n == "bin"@
    ||| n == "obj"@
    ||| n == "__pycache__"@
    ||| n == ".pytest_cache"@
    ||| n == ".mypy_cache"@
    ||| n == ".tox"@
    ||| n == ".coverage"@
    ||| n == ".venv"@
    ||| n == "venv"@
    ||| n == "env"@
    ||| n == ".next"@
    ||| n == ".nuxt"@
    ||| n == ".output"@
    ||| n == "coverage"@
    ||| n == ".nyc_output"@
    ||| n == ".gradle"@
    ||| n == ".m2"@
    ||| n == "classes"@
    ||| n == "packages"@
    ||| n == ".bundle"@
    ||| n == "vendor"@
    ||| n == ".DS_Store"@
    ||| n == "Thumbs.db"@
    ||| n == "desktop.ini"@
    ||| n == "tmp"@
    ||| n == "temp"@
    ||| n == ".tmp"@
    ||| n == ".cache"@
    ||| n == "cache"@
    ||| n == "logs"@
    ||| n == "log"@
    ||| n == "docs/_build"@
    ||| n == "site"@
    ||| n == "_site"@
    ||| n == ".terraform"@
    ||| n == ".terragrunt-cache"@
    ||| n == ".pulumi"@
    ||| n == ".vagrant"@
    ||| n == ".docker"@
    ||| n == ".kube"@
    ||| n == ".minikube"@
    ||| n == ".helm"@
    ||| n == ".serverless"@
    ||| n == ".github"@
    ||| n == ".gitlab-ci"@
    ||| n == ".circleci"@
    ||| n == ".buildkite"@
    ||| n == ".jenkins"@
    ||| n == ".azure-pipelines"@
    ||| n == ".expo"@
    ||| n == ".expo-shared"@
    ||| n == "ios/build"@
    ||| n == "android/build"@
    ||| n == "android/.gradle"@
    ||| n == "ios/Pods"@
    ||| n == "ios/DerivedData"@
    ||| n == ".flutter-plugins"@
    ||| n == ".flutter-plugins-dependencies"@
    ||| n == "Library"@
    ||| n == "Temp"@
    ||| n == "Logs"@
    ||| n == "MemoryCaptures"@
    ||| n == "Builds"@
    ||| n == "UserSettings"@
    ||| n == ".stack-work"@
    ||| n == ".cabal-sandbox"@
    ||| n == "_build"@
    ||| n == ".merlin"@
    ||| n == ".eunit"@
    ||| n == ".rebar"@
    ||| n == ".rebar3"@
    ||| n == ".mix"@
    ||| n == "deps"@
    ||| n == ".dart_tool"@
    ||| n == ".pio"@
    ||| n == ".platformio"@
    ||| n == ".ipynb_checkpoints"@
    ||| n == ".spyderproject"@
    ||| n == ".spyproject"@
    ||| n == ".RData"@
    ||| n == ".Rhistory"@
    ||| n == ".Rproj.user"@
    ||| n == "data"@
    ||| n == "db"@
    ||| n == ".svelte-kit"@
    ||| n == ".routify"@
    ||| n == ".sapper"@
    ||| n == ".astro"@
    ||| n == ".solid"@
    ||| n == ".qwik"@
    ||| n == ".bzr"@
    ||| n == ".hg"@
    ||| n == ".svn"@
    ||| n == "CVS"@
    ||| n == "SCCS"@
    ||| n == ".eslintcache"@
    ||| n == ".stylelintcache"@
    ||| n == ".backup"@
    ||| n == "backup"@
    ||| n == "backups"@
}

/// Executable counterpart of [`ignored_dir_name`].
fn is_ignored_dir_name(n: &str) -> (r: bool)
    ensures
        r == ignored_dir_name(n@),
{
    let a = str_eq(n, ".git") || str_eq(n, ".idea") || str_eq(n, ".vscode") || str_eq(n, ".vim")
        || str_eq(n, ".netrwhist") || str_eq(n, ".vs") || str_eq(n, "node_modules") || str_eq(
        n,
        "dist",
    ) || str_eq(n, "target") || str_eq(n, "build") || str_eq(n, "out") || str_eq(n, "bin")
        || str_eq(n, "obj") || str_eq(n, "__pycache__") || str_eq(n, ".pytest_cache") || str_eq(
        n,
        ".mypy_cache",
    ) || str_eq(n, ".tox") || str_eq(n, ".coverage") || str_eq(n, ".venv") || str_eq(n, "venv")
        || str_eq(n, "env") || str_eq(n, ".next") || str_eq(n, ".nuxt") || str_eq(n, ".output")
        || str_eq(n, "coverage") || str_eq(n, ".nyc_output") || str_eq(n, ".gradle") || str_eq(
        n,
        ".m2",
    ) || str_eq(n, "classes") || str_eq(n, "packages") || str_eq(n, ".bundle") || str_eq(
        n,
        "vendor",
    );
    let b = str_eq(n, ".DS_Store") || str_eq(n, "Thumbs.db") || str_eq(n, "desktop.ini") || str_eq(
        n,
        "tmp",
    ) || str_eq(n, "temp") || str_eq(n, ".tmp") || str_eq(n, ".cache") || str_eq(n, "cache")
        || str_eq(n, "logs") || str_eq(n, "log") || str_eq(n, "docs/_build") || str_eq(n, "site")
        || str_eq(n, "_site") || str_eq(n, ".terraform") || str_eq(n, ".terragrunt-cache")
        || str_eq(n, ".pulumi") || str_eq(n, ".vagrant") || str_eq(n, ".docker") || str_eq(
        n,
        ".kube",
    ) || str_eq(n, ".minikube") || str_eq(n, ".helm") || str_eq(n, ".serverless") || str_eq(
        n,
        ".github",
    ) || str_eq(n, ".gitlab-ci") || str_eq(n, ".circleci") || str_eq(n, ".buildkite") || str_eq(
        n,
        ".jenkins",
    ) || str_eq(n, ".azure-pipelines");
    let c = str_eq(n, ".expo") || str_eq(n, ".expo-shared") || str_eq(n, "ios/build") || str_eq(
        n,
        "android/build",
    ) || str_eq(n, "android/.gradle") || str_eq(n, "ios/Pods") || str_eq(n, "ios/DerivedData")
        || str_eq(n, ".flutter-plugins") || str_eq(n, ".flutter-plugins-dependencies") || str_eq(
        n,
        "Library",
    ) || str_eq(n, "Temp") || str_eq(n, "Logs") || str_eq(n, "MemoryCaptures") || str_eq(
        n,
        "Builds",
    ) || str_eq(n, "UserSettings") || str_eq(n, ".stack-work") || str_eq(n, ".cabal-sandbox")
        || str_eq(n, "_build") || str_eq(n, ".merlin") || str_eq(n, ".eunit") || str_eq(
        n,
        ".rebar",
    ) || str_eq(n, ".rebar3") || str_eq(n, ".mix") || str_eq(n, "deps") || str_eq(n, ".dart_tool")
        || str_eq(n, ".pio") || str_eq(n, ".platformio");
    let d = str_eq(n, ".ipynb_checkpoints") || str_eq(n, ".spyderproject") || str_eq(
        n,
        ".spyproject",
    ) || str_eq(n, ".RData") || str_eq(n, ".Rhistory") || str_eq(n, ".Rproj.user") || str_eq(
        n,
        "data",
    ) || str_eq(n, "db") || str_eq(n, ".svelte-kit") || str_eq(n, ".routify") || str_eq(
        n,
        ".sapper",
    ) || str_eq(n, ".astro") || str_eq(n, ".solid") || str_eq(n, ".qwik") || str_eq(n, ".bzr")
        || str_eq(n, ".hg") || str_eq(n, ".svn") || str_eq(n, "CVS") || str_eq(n, "SCCS")
        || str_eq(n, ".eslintcache") || str_eq(n, ".stylelintcache") || str_eq(n, ".backup")
        || str_eq(n, "backup") || str_eq(n, "backups");
    a || b || c || d
}

/// File names that tooling should skip, matched exactly.
pub open spec fn ignored_file_exact(n: Seq<char>) -> bool {
    ||| n == ".DS_Store"@
    ||| n == "Thumbs.db"@
    ||| n == "desktop.ini"@
    ||| n == ".env"@
    ||| n == ".env.local"@
    ||| n == ".env.development"@
    ||| n == ".env.production"@
    ||| n == ".envrc"@
    ||| n == ".direnv"@
    ||| n == "package-lock.json"@
    ||| n == "yarn.lock"@
    ||| n == "pnpm-lock.yaml"@
    ||| n == "Cargo.lock"@
    ||| n == "Pipfile.lock"@
    ||| n == "poetry.lock"@
    ||| n == "composer.lock"@
    ||| n == "Gemfile.lock"@
    ||| n == ".gitignore"@
    ||| n == ".gitattributes"@
    ||| n == ".gitmodules"@
    ||| n == ".vimrc"@
    ||| n == ".editorconfig"@
    ||| n == ".clang-format"@
    ||| n == "Makefile"@
    ||| n == "CMakeLists.txt"@
    ||| n == "meson.build"@
    ||| n == "requirements.txt"@
    ||| n == "setup.py"@
    ||| n == "pyproject.toml"@
    ||| n == "package.json"@
    ||| n == "tsconfig.json"@
    ||| n == "webpack.config.js"@
    ||| n == "Dockerfile"@
    ||| n == "docker-compose.yml"@
    ||| n == "docker-compose.yaml"@
    ||| n == ".travis.yml"@
    ||| n == ".gitlab-ci.yml"@
    ||| n == "appveyor.yml"@
    ||| n == "azure-pipelines.yml"@
    ||| n == "buildspec.yml"@
    ||| n == "coder.rs"@
}

/// File name suffixes that tooling should skip; these stand for the
/// wildcard patterns of the form `*.log`.
pub open spec fn ignored_file_suffix(n: Seq<char>) -> bool {
    ||| is_suffix_of(".tmp"@, n)
    ||| is_suffix_of(".swp"@, n)
    ||| is_suffix_of(".swo"@, n)
    ||| is_suffix_of(".bak"@, n)
    ||| is_suffix_of(".orig"@, n)
    ||| is_suffix_of("~"@, n)
    ||| is_suffix_of(".log"@, n)
    ||| is_suffix_of(".db"@, n)
    ||| is_suffix_of(".sqlite"@, n)
    ||| is_suffix_of(".sqlite3"@, n)
    ||| is_suffix_of(".pem"@, n)
    ||| is_suffix_of(".key"@, n)
    ||| is_suffix_of(".crt"@, n)
    ||| is_suffix_of(".p12"@, n)
}

/// A file name is ignored when it matches a listed name exactly or carries
/// a listed suffix.
pub open spec fn ignored_file_name(n: Seq<char>) -> bool {
    ignored_file_exact(n) || ignored_file_suffix(n)
}

/// Checks whether a file should be ignored based on its name or extension.
pub fn is_ignored_file(file_name: &str) -> (r: bool)
    ensures
        r == ignored_file_name(file_name@),
{
    let n = file_name;
    let a = str_eq(n, ".DS_Store") || str_eq(n, "Thumbs.db") || str_eq(n, "desktop.ini") || str_eq(
        n,
        ".env",
    ) || str_eq(n, ".env.local") || str_eq(n, ".env.development") || str_eq(n, ".env.production")
        || str_eq(n, ".envrc") || str_eq(n, ".direnv") || str_eq(n, "package-lock.json") || str_eq(
        n,
        "yarn.lock",
    ) || str_eq(n, "pnpm-lock.yaml") || str_eq(n, "Cargo.lock") || str_eq(n, "Pipfile.lock")
        || str_eq(n, "poetry.lock") || str_eq(n, "composer.lock") || str_eq(n, "Gemfile.lock")
        || str_eq(n, ".gitignore") || str_eq(n, ".gitattributes") || str_eq(n, ".gitmodules")
        || str_eq(n, ".vimrc") || str_eq(n, ".editorconfig") || str_eq(n, ".clang-format");
    let b = str_eq(n, "Makefile") || str_eq(n, "CMakeLists.txt") || str_eq(n, "meson.build")
        || str_eq(n, "requirements.txt") || str_eq(n, "setup.py") || str_eq(n, "pyproject.toml")
        || str_eq(n, "package.json") || str_eq(n, "tsconfig.json") || str_eq(
        n,
        "webpack.config.js",
    ) || str_eq(n, "Dockerfile") || str_eq(n, "docker-compose.yml") || str_eq(
        n,
        "docker-compose.yaml",
    ) || str_eq(n, ".travis.yml") || str_eq(n, ".gitlab-ci.yml") || str_eq(n, "appveyor.yml")
        || str_eq(n, "azure-pipelines.yml") || str_eq(n, "buildspec.yml") || str_eq(n, "coder.rs");
    let c = ends_with_sub(n, ".tmp") || ends_with_sub(n, ".swp") || ends_with_sub(n, ".swo")
        || ends_with_sub(n, ".bak") || ends_with_sub(n, ".orig") || ends_with_sub(n, "~")
        || ends_with_sub(n, ".log") || ends_with_sub(n, ".db") || ends_with_sub(n, ".sqlite")
        || ends_with_sub(n, ".sqlite3") || ends_with_sub(n, ".pem") || ends_with_sub(n, ".key")
        || ends_with_sub(n, ".crt") || ends_with_sub(n, ".p12");
    a || b || c
}

/// Some `'/'`-separated component of `path` is an ignored directory name.
pub open spec fn ignored_dir_spec(path: Seq<char>) -> bool
    decreases path.len(),
{
    match find_sub_spec(path, seq!['/']) {
        Some(i) => if 0 <= i && i < path.len() {
            ignored_dir_name(path.take(i)) || ignored_dir_spec(path.skip(i + 1))
        } else {
            ignored_dir_name(path)
        },
        None => ignored_dir_name(path),
    }
}

/// Checks if any component of the path matches an ignored directory.
pub fn is_ignored_dir(path: &str) -> (r: bool)
    ensures
        r == ignored_dir_spec(path@),
{
    let sl = path.unicode_len();
    let mut pos: usize = 0;
    proof {
        reveal_strlit("/");
        assert("/"@ =~= seq!['/']);
        assert(path@.skip(0) =~= path@);
    }
    loop
        invariant
            sl == path@.len(),
            0 <= pos <= sl,
            "/"@ =~= seq!['/'],
            ignored_dir_spec(path@) == ignored_dir_spec(path@.skip(pos as int)),
        decreases sl - pos,
    {
        let rest = path.substring_char(pos, sl);
        assert(rest@ =~= path@.skip(pos as int));
        match find_sub(rest, "/") {
            None => {
                return is_ignored_dir_name(rest);
            },
            Some(rel) => {
                proof {
                    lemma_find_from_props(rest@, "/"@, 0);
                }
                let piece = path.substring_char(pos, pos + rel);
                assert(piece@ =~= path@.skip(pos as int).take(rel as int));
                if is_ignored_dir_name(piece) {
                    return true;
                }
                proof {
                    assert(path@.skip(pos as int).skip(rel + 1) =~= path@.skip(pos + rel + 1));
                }
                pos = pos + rel + 1;
            },
        }
    }
}

/// The component of `path` after its last `'/'`; the whole of `path` when
/// it has none.
pub open spec fn file_name_spec(path: Seq<char>) -> Seq<char>
    decreases path.len(),
{
    match find_sub_spec(path, seq!['/']) {
        Some(i) => if 0 <= i && i < path.len() {
            file_name_spec(path.skip(i + 1))
        } else {
            path
        },
        None => path,
    }
}

/// A path is ignored when one of its directory components is, or when its
/// file name is.
pub open spec fn ignored_path_spec(path: Seq<char>) -> bool {
    ignored_dir_spec(path) || ignored_file_name(file_name_spec(path))
}

/// Checks if a path should be ignored, either as a directory or as a file.
pub fn is_ignored_path(path: &str) -> (r: bool)
    ensures
        r == ignored_path_spec(path@),
{
    if is_ignored_dir(path) {
        return true;
    }
    let sl = path.unicode_len();
    let mut pos: usize = 0;
    proof {
        reveal_strlit("/");
        assert("/"@ =~= seq!['/']);
        assert(path@.skip(0) =~= path@);
    }
    loop
        invariant
            sl == path@.len(),
            0 <= pos <= sl,
            "/"@ =~= seq!['/'],
            file_name_spec(path@) == file_name_spec(path@.skip(pos as int)),
            !ignored_dir_spec(path@),
        decreases sl - pos,
    {
        let rest = path.substring_char(pos, sl);
        assert(rest@ =~= path@.skip(pos as int));
        match find_sub(rest, "/") {
            None => {
                return is_ignored_file(rest);
            },
            Some(rel) => {
                proof {
                    lemma_find_from_props(rest@, "/"@, 0);
                    assert(path@.skip(pos as int).skip(rel + 1) =~= path@.skip(pos + rel + 1));
                }
                pos = pos + rel + 1;
            },
        }
    }
}

} // verus!
