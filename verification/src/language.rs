//! Language detection from file paths.
//!
//! Maps a file's extension to the programming language the chunker knows how
//! to parse. The extension is the part of the last path component after its
//! last dot, provided that dot does not begin the component (so a hidden file
//! such as a bare dotfile has no extension).

use vstd::prelude::*;

verus! {

use vstd::string::{StrSliceExecFns, StringExecFns};

/// A programming language the semantic chunker understands.
#[derive(Debug, Clone, Copy, PartialEq, Eq, Structural)]
pub enum Language {
    Rust,
    Python,
    JavaScript,
    TypeScript,
    Go,
    Unknown,
}

/// The extension of a path: the characters of the last component after its
/// last dot. `None` when the path is empty, when the last component has no
/// dot, or when its only dot is its first character.
pub closed spec fn spec_extension(s: Seq<char>) -> Option<Seq<char>>
    decreases s.len(),
{
    if s.len() == 0 {
        None
    } else if s.last() == '/' {
        None
    } else if s.last() == '.' {
        if s.len() >= 2 && s[s.len() - 2] != '/' {
            Some(Seq::empty())
        } else {
            None
        }
    } else {
        match spec_extension(s.drop_last()) {
            None => None,
            Some(e) => Some(e.push(s.last())),
        }
    }
}

/// The language that a given extension selects. The module and script
/// forms `mjs` and `cjs` count as JavaScript alongside `js` and `jsx`.
pub open spec fn lang_of_ext(e: Seq<char>) -> Language {
    if e == seq!['r', 's'] {
        Language::Rust
    } else if e == seq!['p', 'y'] {
        Language::Python
    } else if e == seq!['j', 's'] || e == seq!['j', 's', 'x'] || e == seq!['m', 'j', 's'] || e
        == seq!['c', 'j', 's'] {
        Language::JavaScript
    } else if e == seq!['t', 's'] || e == seq!['t', 's', 'x'] {
        Language::TypeScript
    } else if e == seq!['g', 'o'] {
        Language::Go
    } else {
        Language::Unknown
    }
}

/// The language of a path: the language its extension selects, or `Unknown`
/// when the path has no extension.
pub open spec fn spec_from_path(s: Seq<char>) -> Language {
    match spec_extension(s) {
        None => Language::Unknown,
        Some(e) => lang_of_ext(e),
    }
}

/// What `name` returns for each language.
pub open spec fn spec_name(lang: Language) -> Seq<char> {
    match lang {
        Language::Rust => "rust"@,
        Language::Python => "python"@,
        Language::JavaScript => "javascript"@,
        Language::TypeScript => "typescript"@,
        Language::Go => "go"@,
        Language::Unknown => "unknown"@,
    }
}

/// What `name_bytes` returns for each language: the name's characters as
/// single bytes (every name is plain ASCII).
pub open spec fn spec_name_bytes(lang: Language) -> Seq<u8> {
    spec_name(lang).map_values(|c: char| c as u8)
}

impl Language {
    /// Detect the language from a file path's extension.
    pub fn from_path(path: &str) -> (res: Language)
        ensures
            res == spec_from_path(path@),
    {
        match extension_start(path) {
            None => Language::Unknown,
            Some(i) => {
                let n = path.unicode_len();
                lang_from_range(path, i, n)
            },
        }
    }

    /// The language's lower-case name.
    pub fn name(&self) -> (res: &'static str)
        ensures
            res@ == spec_name(*self),
    {
        match self {
            Language::Rust => "rust",
            Language::Python => "python",
            Language::JavaScript => "javascript",
            Language::TypeScript => "typescript",
            Language::Go => "go",
            Language::Unknown => "unknown",
        }
    }

    /// The language a persisted lower-case name selects.
    pub fn from_label(label: &str) -> (res: Language)
        ensures
            res == spec_from_label(label@),
    {
        let owned = label.to_owned();
        if owned == String::from_str("rust") {
            Language::Rust
        } else if owned == String::from_str("python") {
            Language::Python
        } else if owned == String::from_str("javascript") {
            Language::JavaScript
        } else if owned == String::from_str("typescript") {
            Language::TypeScript
        } else if owned == String::from_str("go") {
            Language::Go
        } else {
            Language::Unknown
        }
    }

    /// The language's lower-case name as bytes, for building byte-level
    /// embedding inputs.
    pub fn name_bytes(&self) -> (res: Vec<u8>)
        ensures
            res@ == spec_name_bytes(*self),
    {
        let s = self.name();
        proof {
            lemma_names_ascii(*self);
        }
        ascii_str_bytes(s)
    }
}

/// The language a lower-case name selects: the inverse of `spec_name` on
/// the known languages; anything else is `Unknown`.
pub open spec fn spec_from_label(s: Seq<char>) -> Language {
    if s == "rust"@ {
        Language::Rust
    } else if s == "python"@ {
        Language::Python
    } else if s == "javascript"@ {
        Language::JavaScript
    } else if s == "typescript"@ {
        Language::TypeScript
    } else if s == "go"@ {
        Language::Go
    } else {
        Language::Unknown
    }
}

/// Reading a language's name back yields the language.
pub proof fn lemma_label_round_trip(lang: Language)
    ensures
        spec_from_label(spec_name(lang)) == lang,
{
    reveal_strlit("rust");
    reveal_strlit("python");
    reveal_strlit("javascript");
    reveal_strlit("typescript");
    reveal_strlit("go");
    reveal_strlit("unknown");
    // the names differ pairwise in their first character
    assert("rust"@[0] == 'r');
    assert("python"@[0] == 'p');
    assert("javascript"@[0] == 'j');
    assert("typescript"@[0] == 't');
    assert("go"@[0] == 'g');
    assert("unknown"@[0] == 'u');
}

/// `Some(e)` becomes `Some(e + suffix)`; `None` stays `None`.
pub open spec fn opt_append(o: Option<Seq<char>>, suffix: Seq<char>) -> Option<Seq<char>> {
    match o {
        None => None,
        Some(e) => Some(e + suffix),
    }
}

/// Where the path's extension begins: `Some(i)` when the extension is
/// `path[i..]`, `None` when the path has none.
pub(crate) fn extension_start(path: &str) -> (res: Option<usize>)
    ensures
        match res {
            Some(i) => 0 <= i <= path@.len() && spec_extension(path@) == Some(
                path@.subrange(i as int, path@.len() as int),
            ),
            None => spec_extension(path@) is None,
        },
{
    let n = path.unicode_len();
    let mut i: usize = n;
    proof {
        assert(path@.subrange(0, n as int) =~= path@);
        match spec_extension(path@) {
            None => {},
            Some(e) => {
                assert(e + path@.subrange(n as int, n as int) =~= e);
            },
        }
    }
    while i > 0
        invariant
            i <= n,
            n == path@.len(),
            spec_extension(path@) == opt_append(
                spec_extension(path@.subrange(0, i as int)),
                path@.subrange(i as int, n as int),
            ),
        decreases i,
    {
        let c = path.get_char(i - 1);
        proof {
            let pre = path@.subrange(0, i as int);
            assert(pre.last() == path@[i - 1]);
            assert(pre.drop_last() =~= path@.subrange(0, i - 1));
            if i >= 2 {
                assert(pre[i - 2] == path@[i - 2]);
            }
        }
        if c == '/' {
            proof {
                assert(spec_extension(path@.subrange(0, i as int)) is None);
            }
            return None;
        }
        if c == '.' {
            let valid = if i >= 2 {
                path.get_char(i - 2) != '/'
            } else {
                false
            };
            if valid {
                proof {
                    assert(spec_extension(path@.subrange(0, i as int)) == Some(
                        Seq::<char>::empty(),
                    ));
                    assert(Seq::<char>::empty() + path@.subrange(i as int, n as int)
                        =~= path@.subrange(i as int, n as int));
                }
                return Some(i);
            } else {
                proof {
                    assert(spec_extension(path@.subrange(0, i as int)) is None);
                }
                return None;
            }
        }
        proof {
            let pre = path@.subrange(0, i as int);
            let shorter = path@.subrange(0, i - 1);
            match spec_extension(shorter) {
                None => {},
                Some(e) => {
                    assert(e.push(pre.last()) + path@.subrange(i as int, n as int)
                        =~= e + path@.subrange(i - 1, n as int));
                },
            }
        }
        i = i - 1;
    }
    proof {
        assert(path@.subrange(0, 0) =~= Seq::<char>::empty());
        assert(spec_extension(Seq::<char>::empty()) is None);
    }
    None
}

/// Whether `path[start..end]` is the single character `c0`.
pub(crate) fn range_is1(path: &str, start: usize, end: usize, c0: char) -> (res: bool)
    requires
        start <= end <= path@.len(),
    ensures
        res == (path@.subrange(start as int, end as int) == seq![c0]),
{
    let ghost e = path@.subrange(start as int, end as int);
    if end - start == 1 {
        let r = path.get_char(start) == c0;
        proof {
            assert(e[0] == path@[start as int]);
            assert(e =~= seq![path@[start as int]]);
        }
        r
    } else {
        proof {
            assert(e.len() != 1);
        }
        false
    }
}

/// Whether `path[start..end]` is exactly the two characters given.
pub(crate) fn range_is2(path: &str, start: usize, end: usize, c0: char, c1: char) -> (res: bool)
    requires
        start <= end <= path@.len(),
    ensures
        res == (path@.subrange(start as int, end as int) == seq![c0, c1]),
{
    let ghost e = path@.subrange(start as int, end as int);
    if end - start == 2 {
        let r = path.get_char(start) == c0 && path.get_char(start + 1) == c1;
        proof {
            assert(e[0] == path@[start as int]);
            assert(e[1] == path@[start + 1]);
            assert(e =~= seq![path@[start as int], path@[start + 1]]);
        }
        r
    } else {
        proof {
            assert(e.len() != 2);
        }
        false
    }
}

/// Whether `path[start..end]` is exactly the three characters given.
pub(crate) fn range_is3(path: &str, start: usize, end: usize, c0: char, c1: char, c2: char) -> (res:
    bool)
    requires
        start <= end <= path@.len(),
    ensures
        res == (path@.subrange(start as int, end as int) == seq![c0, c1, c2]),
{
    let ghost e = path@.subrange(start as int, end as int);
    if end - start == 3 {
        let r = path.get_char(start) == c0 && path.get_char(start + 1) == c1 && path.get_char(
            start + 2,
        ) == c2;
        proof {
            assert(e[0] == path@[start as int]);
            assert(e[1] == path@[start + 1]);
            assert(e[2] == path@[start + 2]);
            assert(e =~= seq![path@[start as int], path@[start + 1], path@[start + 2]]);
        }
        r
    } else {
        proof {
            assert(e.len() != 3);
        }
        false
    }
}

/// Whether `path[start..end]` is exactly the four characters given.
pub(crate) fn range_is4(
    path: &str,
    start: usize,
    end: usize,
    c0: char,
    c1: char,
    c2: char,
    c3: char,
) -> (res: bool)
    requires
        start <= end <= path@.len(),
    ensures
        res == (path@.subrange(start as int, end as int) == seq![c0, c1, c2, c3]),
{
    let ghost e = path@.subrange(start as int, end as int);
    if end - start == 4 {
        let r = path.get_char(start) == c0 && path.get_char(start + 1) == c1 && path.get_char(
            start + 2,
        ) == c2 && path.get_char(start + 3) == c3;
        proof {
            assert(e[0] == path@[start as int]);
            assert(e[1] == path@[start + 1]);
            assert(e[2] == path@[start + 2]);
            assert(e[3] == path@[start + 3]);
            assert(e =~= seq![
                path@[start as int],
                path@[start + 1],
                path@[start + 2],
                path@[start + 3],
            ]);
        }
        r
    } else {
        proof {
            assert(e.len() != 4);
        }
        false
    }
}

/// The language selected by the extension `path[start..end]`.
fn lang_from_range(path: &str, start: usize, end: usize) -> (res: Language)
    requires
        start <= end,
        end == path@.len(),
    ensures
        res == lang_of_ext(path@.subrange(start as int, end as int)),
{
    let ghost e = path@.subrange(start as int, end as int);
    let len = end - start;
    if len == 2 {
        let c0 = path.get_char(start);
        let c1 = path.get_char(start + 1);
        proof {
            assert(e[0] == path@[start as int]);
            assert(e[1] == path@[start + 1]);
            assert(e =~= seq![path@[start as int], path@[start + 1]]);
        }
        if c0 == 'r' && c1 == 's' {
            proof {
                assert(e =~= seq!['r', 's']);
            }
            Language::Rust
        } else if c0 == 'p' && c1 == 'y' {
            proof {
                assert(e =~= seq!['p', 'y']);
            }
            Language::Python
        } else if c0 == 'j' && c1 == 's' {
            proof {
                assert(e =~= seq!['j', 's']);
            }
            Language::JavaScript
        } else if c0 == 't' && c1 == 's' {
            proof {
                assert(e =~= seq!['t', 's']);
            }
            Language::TypeScript
        } else if c0 == 'g' && c1 == 'o' {
            proof {
                assert(e =~= seq!['g', 'o']);
            }
            Language::Go
        } else {
            proof {
                assert(e.len() == 2);
                assert(e[0] == c0 && e[1] == c1);
            }
            Language::Unknown
        }
    } else if len == 3 {
        let c0 = path.get_char(start);
        let c1 = path.get_char(start + 1);
        let c2 = path.get_char(start + 2);
        proof {
            assert(e[0] == path@[start as int]);
            assert(e[1] == path@[start + 1]);
            assert(e[2] == path@[start + 2]);
            assert(e =~= seq![path@[start as int], path@[start + 1], path@[start + 2]]);
        }
        if c0 == 'j' && c1 == 's' && c2 == 'x' {
            proof {
                assert(e =~= seq!['j', 's', 'x']);
            }
            Language::JavaScript
        } else if c0 == 'm' && c1 == 'j' && c2 == 's' {
            proof {
                assert(e =~= seq!['m', 'j', 's']);
            }
            Language::JavaScript
        } else if c0 == 'c' && c1 == 'j' && c2 == 's' {
            proof {
                assert(e =~= seq!['c', 'j', 's']);
            }
            Language::JavaScript
        } else if c0 == 't' && c1 == 's' && c2 == 'x' {
            proof {
                assert(e =~= seq!['t', 's', 'x']);
            }
            Language::TypeScript
        } else {
            proof {
                assert(e.len() == 3);
                assert(e[0] == c0 && e[1] == c1 && e[2] == c2);
            }
            Language::Unknown
        }
    } else {
        proof {
            assert(e.len() == end - start);
        }
        Language::Unknown
    }
}

/// Every language name consists of ASCII characters only.
proof fn lemma_names_ascii(lang: Language)
    ensures
        forall|i: int| 0 <= i < spec_name(lang).len() ==> (spec_name(lang)[i] as u32) < 128,
{
    reveal_strlit("rust");
    reveal_strlit("python");
    reveal_strlit("javascript");
    reveal_strlit("typescript");
    reveal_strlit("go");
    reveal_strlit("unknown");
}

/// Copy an all-ASCII string's characters into a byte vector, one byte per
/// character.
pub(crate) fn ascii_str_bytes(s: &str) -> (res: Vec<u8>)
    requires
        forall|i: int| 0 <= i < s@.len() ==> (s@[i] as u32) < 128,
    ensures
        res@ == s@.map_values(|c: char| c as u8),
{
    let n = s.unicode_len();
    let mut res: Vec<u8> = Vec::new();
    let mut i: usize = 0;
    while i < n
        invariant
            i <= n,
            n == s@.len(),
            forall|j: int| 0 <= j < s@.len() ==> (s@[j] as u32) < 128,
            res@ =~= s@.subrange(0, i as int).map_values(|c: char| c as u8),
        decreases n - i,
    {
        let c = s.get_char(i);
        res.push(c as u8);
        proof {
            assert(s@.subrange(0, i + 1).map_values(|c: char| c as u8)
                =~= s@.subrange(0, i as int).map_values(|c: char| c as u8).push(s@[i as int] as u8));
        }
        i = i + 1;
    }
    proof {
        assert(s@.subrange(0, n as int) =~= s@);
    }
    res
}

} // verus!

