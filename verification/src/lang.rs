//! Programming languages: which files are written in them, and their colours.

use vstd::prelude::*;
use vstd::string::*;

use crate::grid::Color;
use crate::path;
use crate::path::FilePath;
use crate::text;

verus! {

/// A language, by its name.
#[derive(Debug, Clone, Copy, PartialEq, Eq, Hash)]
pub struct Lang(pub &'static str);

impl Lang {
    /// The name of the language.
    pub open spec fn name(self) -> Seq<char> {
        self.0@
    }

    /// Whether two languages are the same.
    pub fn is(self, other: Lang) -> (r: bool)
        ensures
            r == (self.name() == other.name()),
    {
        text::same(self.0, other.0)
    }
}

/// The language of files with the extension `s`.
pub open spec fn of_extension(s: Seq<char>) -> Option<Seq<char>> {
    if s == "rs"@ {
        Some("Rust"@)
    } else if s == "go"@ {
        Some("Go"@)
    } else if s == "py"@ || s == "pyi"@ {
        Some("Python"@)
    } else if s == "js"@ || s == "mjs"@ || s == "cjs"@ {
        Some("JavaScript"@)
    } else if s == "jsx"@ {
        Some("JSX"@)
    } else if s == "ts"@ {
        Some("TypeScript"@)
    } else if s == "tsx"@ {
        Some("TSX"@)
    } else if s == "c"@ || s == "h"@ {
        Some("C"@)
    } else if s == "cc"@ || s == "cpp"@ || s == "cxx"@ || s == "hpp"@ || s == "hh"@ || s == "hxx"@ {
        Some("C++"@)
    } else if s == "cs"@ {
        Some("C#"@)
    } else if s == "java"@ {
        Some("Java"@)
    } else if s == "kt"@ || s == "kts"@ {
        Some("Kotlin"@)
    } else if s == "swift"@ {
        Some("Swift"@)
    } else if s == "rb"@ {
        Some("Ruby"@)
    } else if s == "php"@ {
        Some("PHP"@)
    } else if s == "lua"@ {
        Some("Lua"@)
    } else if s == "pl"@ || s == "pm"@ {
        Some("Perl"@)
    } else if s == "sh"@ || s == "bash"@ || s == "zsh"@ {
        Some("Shell"@)
    } else if s == "fish"@ {
        Some("Fish"@)
    } else if s == "html"@ || s == "htm"@ {
        Some("HTML"@)
    } else if s == "css"@ {
        Some("CSS"@)
    } else if s == "scss"@ || s == "sass"@ {
        Some("Sass"@)
    } else if s == "less"@ {
        Some("Less"@)
    } else if s == "json"@ {
        Some("JSON"@)
    } else if s == "yaml"@ || s == "yml"@ {
        Some("YAML"@)
    } else if s == "toml"@ {
        Some("TOML"@)
    } else if s == "xml"@ {
        Some("XML"@)
    } else if s == "md"@ || s == "markdown"@ {
        Some("Markdown"@)
    } else if s == "sql"@ {
        Some("SQL"@)
    } else if s == "vim"@ {
        Some("Vim"@)
    } else if s == "el"@ {
        Some("Elisp"@)
    } else if s == "ex"@ || s == "exs"@ {
        Some("Elixir"@)
    } else if s == "erl"@ || s == "hrl"@ {
        Some("Erlang"@)
    } else if s == "hs"@ {
        Some("Haskell"@)
    } else if s == "ml"@ || s == "mli"@ {
        Some("OCaml"@)
    } else if s == "scala"@ || s == "sc"@ {
        Some("Scala"@)
    } else if s == "clj"@ || s == "cljs"@ || s == "cljc"@ {
        Some("Clojure"@)
    } else if s == "dart"@ {
        Some("Dart"@)
    } else if s == "r"@ {
        Some("R"@)
    } else if s == "jl"@ {
        Some("Julia"@)
    } else if s == "nim"@ {
        Some("Nim"@)
    } else if s == "zig"@ {
        Some("Zig"@)
    } else if s == "vue"@ {
        Some("Vue"@)
    } else if s == "svelte"@ {
        Some("Svelte"@)
    } else if s == "tex"@ {
        Some("TeX"@)
    } else if s == "proto"@ {
        Some("Protobuf"@)
    } else if s == "graphql"@ || s == "gql"@ {
        Some("GraphQL"@)
    } else if s == "tf"@ || s == "tfvars"@ {
        Some("Terraform"@)
    } else if s == "nix"@ {
        Some("Nix"@)
    } else {
        None
    }
}

/// The language of files with the name `s`.
pub open spec fn of_file_name(s: Seq<char>) -> Option<Seq<char>> {
    if s == "Rakefile"@ || s == "Gemfile"@ {
        Some("Ruby"@)
    } else if s == "Cargo.toml"@ || s == "Cargo.lock"@ {
        Some("TOML"@)
    } else if s == "Makefile"@ || s == "makefile"@ || s == "GNUmakefile"@ {
        Some("Make"@)
    } else if s == "Dockerfile"@ || s == "Containerfile"@ {
        Some("Dockerfile"@)
    } else if s == "CMakeLists.txt"@ {
        Some("CMake"@)
    } else {
        None
    }
}

/// The red, green and blue of a language.
pub open spec fn rgb_of(name: Seq<char>) -> (u8, u8, u8) {
    if name == "Rust"@ {
        (222, 165, 132)
    } else if name == "Go"@ {
        (0, 173, 216)
    } else if name == "Python"@ {
        (53, 114, 165)
    } else if name == "JavaScript"@ {
        (241, 224, 90)
    } else if name == "JSX"@ {
        (255, 200, 90)
    } else if name == "TypeScript"@ {
        (49, 120, 198)
    } else if name == "TSX"@ {
        (99, 160, 230)
    } else if name == "C"@ {
        (85, 85, 85)
    } else if name == "C++"@ {
        (243, 75, 125)
    } else if name == "C#"@ {
        (23, 134, 0)
    } else if name == "Java"@ {
        (176, 114, 25)
    } else if name == "Kotlin"@ {
        (169, 123, 255)
    } else if name == "Swift"@ {
        (255, 172, 69)
    } else if name == "Ruby"@ {
        (112, 21, 22)
    } else if name == "PHP"@ {
        (79, 93, 149)
    } else if name == "Lua"@ {
        (0, 0, 128)
    } else if name == "Perl"@ {
        (150, 150, 150)
    } else if name == "Shell"@ {
        (137, 224, 81)
    } else if name == "Fish"@ {
        (74, 174, 71)
    } else if name == "HTML"@ {
        (227, 76, 38)
    } else if name == "CSS"@ {
        (86, 61, 124)
    } else if name == "Sass"@ {
        (204, 102, 153)
    } else if name == "Less"@ {
        (29, 54, 93)
    } else if name == "JSON"@ {
        (64, 64, 64)
    } else if name == "YAML"@ {
        (203, 23, 30)
    } else if name == "TOML"@ {
        (156, 66, 33)
    } else if name == "XML"@ {
        (0, 96, 172)
    } else if name == "Markdown"@ {
        (8, 63, 161)
    } else if name == "SQL"@ {
        (225, 134, 24)
    } else if name == "Vim"@ {
        (25, 159, 75)
    } else if name == "Elisp"@ {
        (192, 101, 219)
    } else if name == "Elixir"@ {
        (110, 74, 126)
    } else if name == "Erlang"@ {
        (184, 57, 152)
    } else if name == "Haskell"@ {
        (94, 80, 134)
    } else if name == "OCaml"@ {
        (238, 106, 26)
    } else if name == "Scala"@ {
        (194, 45, 64)
    } else if name == "Clojure"@ {
        (219, 88, 85)
    } else if name == "Dart"@ {
        (0, 180, 171)
    } else if name == "R"@ {
        (25, 140, 232)
    } else if name == "Julia"@ {
        (162, 112, 186)
    } else if name == "Nim"@ {
        (255, 200, 0)
    } else if name == "Zig"@ {
        (236, 145, 92)
    } else if name == "Vue"@ {
        (65, 184, 131)
    } else if name == "Svelte"@ {
        (255, 62, 0)
    } else if name == "TeX"@ {
        (62, 116, 172)
    } else if name == "Protobuf"@ {
        (187, 86, 92)
    } else if name == "GraphQL"@ {
        (225, 0, 152)
    } else if name == "Terraform"@ {
        (98, 78, 197)
    } else if name == "Nix"@ {
        (82, 124, 180)
    } else if name == "Make"@ {
        (66, 124, 82)
    } else if name == "Dockerfile"@ {
        (56, 79, 187)
    } else if name == "CMake"@ {
        (218, 49, 53)
    } else {
        (150, 150, 150)
    }
}

/// The language of a path: by the whole name if that is known, else by the
/// extension, whose case does not matter.
pub open spec fn detected(p: Seq<u8>) -> Option<Seq<char>> {
    let by_name = match path::name_of(p) {
        Some(name) => match text::utf8_text(name) {
            Some(s) => of_file_name(s),
            None => None,
        },
        None => None,
    };
    match by_name {
        Some(l) => Some(l),
        None => match path::extension_of(p) {
            Some(ext) => match text::utf8_text(ext) {
                Some(s) => of_extension(text::lowered(s)),
                None => None,
            },
            None => None,
        },
    }
}

fn by_ext(s: &str) -> (r: Option<Lang>)
    ensures
        r is Some <==> of_extension(s@) is Some,
        r is Some ==> r->0.name() == of_extension(s@)->0,
{
    if text::same(s, "rs") {
        Some(Lang("Rust"))
    } else if text::same(s, "go") {
        Some(Lang("Go"))
    } else if text::same(s, "py") || text::same(s, "pyi") {
        Some(Lang("Python"))
    } else if text::same(s, "js") || text::same(s, "mjs") || text::same(s, "cjs") {
        Some(Lang("JavaScript"))
    } else if text::same(s, "jsx") {
        Some(Lang("JSX"))
    } else if text::same(s, "ts") {
        Some(Lang("TypeScript"))
    } else if text::same(s, "tsx") {
        Some(Lang("TSX"))
    } else if text::same(s, "c") || text::same(s, "h") {
        Some(Lang("C"))
    } else if text::same(s, "cc") || text::same(s, "cpp") || text::same(s, "cxx") || text::same(s, "hpp") || text::same(s, "hh") || text::same(s, "hxx") {
        Some(Lang("C++"))
    } else if text::same(s, "cs") {
        Some(Lang("C#"))
    } else if text::same(s, "java") {
        Some(Lang("Java"))
    } else if text::same(s, "kt") || text::same(s, "kts") {
        Some(Lang("Kotlin"))
    } else if text::same(s, "swift") {
        Some(Lang("Swift"))
    } else if text::same(s, "rb") {
        Some(Lang("Ruby"))
    } else if text::same(s, "php") {
        Some(Lang("PHP"))
    } else if text::same(s, "lua") {
        Some(Lang("Lua"))
    } else if text::same(s, "pl") || text::same(s, "pm") {
        Some(Lang("Perl"))
    } else if text::same(s, "sh") || text::same(s, "bash") || text::same(s, "zsh") {
        Some(Lang("Shell"))
    } else if text::same(s, "fish") {
        Some(Lang("Fish"))
    } else if text::same(s, "html") || text::same(s, "htm") {
        Some(Lang("HTML"))
    } else if text::same(s, "css") {
        Some(Lang("CSS"))
    } else if text::same(s, "scss") || text::same(s, "sass") {
        Some(Lang("Sass"))
    } else if text::same(s, "less") {
        Some(Lang("Less"))
    } else if text::same(s, "json") {
        Some(Lang("JSON"))
    } else if text::same(s, "yaml") || text::same(s, "yml") {
        Some(Lang("YAML"))
    } else if text::same(s, "toml") {
        Some(Lang("TOML"))
    } else if text::same(s, "xml") {
        Some(Lang("XML"))
    } else if text::same(s, "md") || text::same(s, "markdown") {
        Some(Lang("Markdown"))
    } else if text::same(s, "sql") {
        Some(Lang("SQL"))
    } else if text::same(s, "vim") {
        Some(Lang("Vim"))
    } else if text::same(s, "el") {
        Some(Lang("Elisp"))
    } else if text::same(s, "ex") || text::same(s, "exs") {
        Some(Lang("Elixir"))
    } else if text::same(s, "erl") || text::same(s, "hrl") {
        Some(Lang("Erlang"))
    } else if text::same(s, "hs") {
        Some(Lang("Haskell"))
    } else if text::same(s, "ml") || text::same(s, "mli") {
        Some(Lang("OCaml"))
    } else if text::same(s, "scala") || text::same(s, "sc") {
        Some(Lang("Scala"))
    } else if text::same(s, "clj") || text::same(s, "cljs") || text::same(s, "cljc") {
        Some(Lang("Clojure"))
    } else if text::same(s, "dart") {
        Some(Lang("Dart"))
    } else if text::same(s, "r") {
        Some(Lang("R"))
    } else if text::same(s, "jl") {
        Some(Lang("Julia"))
    } else if text::same(s, "nim") {
        Some(Lang("Nim"))
    } else if text::same(s, "zig") {
        Some(Lang("Zig"))
    } else if text::same(s, "vue") {
        Some(Lang("Vue"))
    } else if text::same(s, "svelte") {
        Some(Lang("Svelte"))
    } else if text::same(s, "tex") {
        Some(Lang("TeX"))
    } else if text::same(s, "proto") {
        Some(Lang("Protobuf"))
    } else if text::same(s, "graphql") || text::same(s, "gql") {
        Some(Lang("GraphQL"))
    } else if text::same(s, "tf") || text::same(s, "tfvars") {
        Some(Lang("Terraform"))
    } else if text::same(s, "nix") {
        Some(Lang("Nix"))
    } else {
        None
    }
}

fn by_name(s: &str) -> (r: Option<Lang>)
    ensures
        r is Some <==> of_file_name(s@) is Some,
        r is Some ==> r->0.name() == of_file_name(s@)->0,
{
    if text::same(s, "Rakefile") || text::same(s, "Gemfile") {
        Some(Lang("Ruby"))
    } else if text::same(s, "Cargo.toml") || text::same(s, "Cargo.lock") {
        Some(Lang("TOML"))
    } else if text::same(s, "Makefile") || text::same(s, "makefile") || text::same(s, "GNUmakefile") {
        Some(Lang("Make"))
    } else if text::same(s, "Dockerfile") || text::same(s, "Containerfile") {
        Some(Lang("Dockerfile"))
    } else if text::same(s, "CMakeLists.txt") {
        Some(Lang("CMake"))
    } else {
        None
    }
}

/// The language of the file at `path`, if it is a known one.
pub fn detect(path: &FilePath) -> (r: Option<Lang>)
    ensures
        r is Some <==> detected(path@) is Some,
        r is Some ==> r->0.name() == detected(path@)->0,
{
    if let Some(name) = path.file_name() {
        if let Some(s) = text::utf8(name) {
            if let Some(lang) = by_name(s) {
                return Some(lang);
            }
        }
    }
    match path.extension() {
        Some(ext) => match text::utf8(ext) {
            Some(s) => {
                let lower = text::to_lower(s);
                by_ext(lower.as_str())
            },
            None => None,
        },
        None => None,
    }
}

/// The colour of a language by its name.
pub open spec fn color_of(name: Seq<char>) -> Color {
    Color::Rgb { r: rgb_of(name).0, g: rgb_of(name).1, b: rgb_of(name).2 }
}

/// The colour of a language; grey for one that is not known.
pub fn color(lang: Lang) -> (c: Color)
    ensures
        c == color_of(lang.name()),
{
    let name = lang.0;
    let (r, g, b) = if text::same(name, "Rust") {
        (222, 165, 132)
    } else if text::same(name, "Go") {
        (0, 173, 216)
    } else if text::same(name, "Python") {
        (53, 114, 165)
    } else if text::same(name, "JavaScript") {
        (241, 224, 90)
    } else if text::same(name, "JSX") {
        (255, 200, 90)
    } else if text::same(name, "TypeScript") {
        (49, 120, 198)
    } else if text::same(name, "TSX") {
        (99, 160, 230)
    } else if text::same(name, "C") {
        (85, 85, 85)
    } else if text::same(name, "C++") {
        (243, 75, 125)
    } else if text::same(name, "C#") {
        (23, 134, 0)
    } else if text::same(name, "Java") {
        (176, 114, 25)
    } else if text::same(name, "Kotlin") {
        (169, 123, 255)
    } else if text::same(name, "Swift") {
        (255, 172, 69)
    } else if text::same(name, "Ruby") {
        (112, 21, 22)
    } else if text::same(name, "PHP") {
        (79, 93, 149)
    } else if text::same(name, "Lua") {
        (0, 0, 128)
    } else if text::same(name, "Perl") {
        (150, 150, 150)
    } else if text::same(name, "Shell") {
        (137, 224, 81)
    } else if text::same(name, "Fish") {
        (74, 174, 71)
    } else if text::same(name, "HTML") {
        (227, 76, 38)
    } else if text::same(name, "CSS") {
        (86, 61, 124)
    } else if text::same(name, "Sass") {
        (204, 102, 153)
    } else if text::same(name, "Less") {
        (29, 54, 93)
    } else if text::same(name, "JSON") {
        (64, 64, 64)
    } else if text::same(name, "YAML") {
        (203, 23, 30)
    } else if text::same(name, "TOML") {
        (156, 66, 33)
    } else if text::same(name, "XML") {
        (0, 96, 172)
    } else if text::same(name, "Markdown") {
        (8, 63, 161)
    } else if text::same(name, "SQL") {
        (225, 134, 24)
    } else if text::same(name, "Vim") {
        (25, 159, 75)
    } else if text::same(name, "Elisp") {
        (192, 101, 219)
    } else if text::same(name, "Elixir") {
        (110, 74, 126)
    } else if text::same(name, "Erlang") {
        (184, 57, 152)
    } else if text::same(name, "Haskell") {
        (94, 80, 134)
    } else if text::same(name, "OCaml") {
        (238, 106, 26)
    } else if text::same(name, "Scala") {
        (194, 45, 64)
    } else if text::same(name, "Clojure") {
        (219, 88, 85)
    } else if text::same(name, "Dart") {
        (0, 180, 171)
    } else if text::same(name, "R") {
        (25, 140, 232)
    } else if text::same(name, "Julia") {
        (162, 112, 186)
    } else if text::same(name, "Nim") {
        (255, 200, 0)
    } else if text::same(name, "Zig") {
        (236, 145, 92)
    } else if text::same(name, "Vue") {
        (65, 184, 131)
    } else if text::same(name, "Svelte") {
        (255, 62, 0)
    } else if text::same(name, "TeX") {
        (62, 116, 172)
    } else if text::same(name, "Protobuf") {
        (187, 86, 92)
    } else if text::same(name, "GraphQL") {
        (225, 0, 152)
    } else if text::same(name, "Terraform") {
        (98, 78, 197)
    } else if text::same(name, "Nix") {
        (82, 124, 180)
    } else if text::same(name, "Make") {
        (66, 124, 82)
    } else if text::same(name, "Dockerfile") {
        (56, 79, 187)
    } else if text::same(name, "CMake") {
        (218, 49, 53)
    } else {
        (150, 150, 150)
    };
    Color::Rgb { r, g, b }
}

/// The folder of a file says nothing of its language.
pub proof fn only_the_name_counts(p: Seq<u8>, q: Seq<u8>)
    requires
        path::name_of(p) == path::name_of(q),
    ensures
        detected(p) == detected(q),
{
}

/// A name that is known goes before the extension; else the extension tells,
/// whether its letters are capitals or not. Without a name, or without both,
/// there is no language.
pub proof fn names_go_before_extensions(p: Seq<u8>, q: Seq<u8>)
    ensures
        path::name_of(p) is None ==> detected(p) is None,
        forall|n: Seq<char>|
            path::name_of(p) is Some && text::utf8_text(path::name_of(p)->0) == Some(n)
                && (#[trigger] of_file_name(n)) is Some ==> detected(p) == of_file_name(n),
        forall|n: Seq<char>|
            path::name_of(p) is Some && text::utf8_text(path::name_of(p)->0) == Some(n)
                && (#[trigger] of_file_name(n)) is None && path::extension_of(p) is None
                ==> detected(p) is None,
        forall|m: Seq<char>, n: Seq<char>, a: Seq<char>, b: Seq<char>|
            path::name_of(p) is Some && path::name_of(q) is Some && text::utf8_text(
                path::name_of(p)->0,
            ) == Some(m) && text::utf8_text(path::name_of(q)->0) == Some(n) && (
            #[trigger] of_file_name(m)) is None && (#[trigger] of_file_name(n)) is None
                && path::extension_of(p) is Some && path::extension_of(q) is Some
                && text::utf8_text(path::extension_of(p)->0) == Some(a) && text::utf8_text(
                path::extension_of(q)->0,
            ) == Some(b) && #[trigger] text::lowered(a) == #[trigger] text::lowered(b) ==> detected(
                p,
            ) == detected(q) && detected(p) == of_extension(text::lowered(a)),
{
}

} // verus!
