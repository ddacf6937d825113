//! The command that opens a file in the user's editor.

use vstd::prelude::*;
use vstd::string::*;

use crate::path::{file_name, file_name_of, join_of};
use crate::path_laws::{law_file_name, plain_name};
use crate::text::{
    chars_of, copy_of, decimal, deep, number_of, same, split_words, string_of, strings, to_decimal,
    words,
};
use crate::text_laws::law_number_round_trip;

verus! {

/// Editors known to accept the `+LINE` argument to jump to a line.
pub open spec fn plus_line_editors() -> Seq<Seq<char>> {
    seq![
        "vi"@,
        "vim"@,
        "nvim"@,
        "gvim"@,
        "mvim"@,
        "nano"@,
        "emacs"@,
        "kak"@,
    ]
}

/// Whether the editor that `program` runs can jump to a line.
pub open spec fn jumps_to_line(program: Seq<char>) -> bool {
    file_name_of(program) is Some && plus_line_editors().contains(file_name_of(program)->0)
}

fn supports_line(program: &str) -> (r: bool)
    ensures
        r == jumps_to_line(program@),
{
    match file_name(program) {
        None => false,
        Some(name) => {
            let name = name.as_str();
            let known = same(name, "vi") || same(name, "vim") || same(name, "nvim") || same(
                name,
                "gvim",
            ) || same(name, "mvim") || same(name, "nano") || same(name, "emacs") || same(
                name,
                "kak",
            );
            proof {
                let all = plus_line_editors();
                if known {
                    assert(all[0] == "vi"@ && all[1] == "vim"@ && all[2] == "nvim"@ && all[3]
                        == "gvim"@ && all[4] == "mvim"@ && all[5] == "nano"@ && all[6] == "emacs"@
                        && all[7] == "kak"@);
                    assert(all.contains(name@));
                } else if all.contains(name@) {
                    let i = choose|i: int| 0 <= i < all.len() && all[i] == name@;
                    assert(i == 0 || i == 1 || i == 2 || i == 3 || i == 4 || i == 5 || i == 6 || i
                        == 7);
                }
            }
            known
        },
    }
}

/// The program and its arguments: what `editor` says, the line where the editor
/// can jump to one, and the file.
pub open spec fn editor_words(
    editor: Seq<char>,
    path: Seq<char>,
    line: Option<u32>,
) -> Seq<Seq<char>> {
    let said = words(editor);
    if line is Some && jumps_to_line(said[0]) {
        said.push("+"@ + decimal(line->0 as nat)).push(path)
    } else {
        said.push(path)
    }
}

/// The command that opens `path` at `line` with `editor`, which may carry
/// arguments (e.g. "code -w"): the program, then its arguments. None where
/// `editor` names no program.
pub fn editor_command(editor: &str, path: &str, line: Option<u32>) -> (r: Option<Vec<String>>)
    ensures
        r is Some <==> words(editor@).len() > 0,
        r is Some ==> strings(r->0@) == editor_words(editor@, path@, line),
{
    let parts = split_words(chars_of(editor).as_slice());
    let ghost said = words(editor@);
    let n = parts.len();
    if n == 0 {
        return None;
    }
    let mut out: Vec<String> = Vec::new();
    for i in 0..n
        invariant
            n == parts@.len(),
            deep(parts@) == said,
            strings(out@) == said.take(i as int),
    {
        let ghost was = out@;
        assert(said[i as int] == parts@[i as int]@);
        let word = string_of(parts[i].as_slice());
        out.push(word);
        assert(strings(out@) =~= strings(was).push(word@));
        assert(said.take(i + 1) =~= said.take(i as int).push(word@));
    }
    assert(said.take(n as int) =~= said);
    assert(strings(out@)[0] == out@[0]@);
    if let Some(line) = line {
        if supports_line(out[0].as_str()) {
            let mut arg = copy_of("+");
            arg.append(to_decimal(line as u128).as_str());
            let ghost was = out@;
            out.push(arg);
            assert(strings(out@) =~= strings(was).push(arg@));
        }
    }
    let ghost was = out@;
    let file = copy_of(path);
    out.push(file);
    assert(strings(out@) =~= strings(was).push(file@));
    Some(out)
}

/// The command runs what the user named, with the arguments that were given, and ends
/// with the file. Between them stands the line, as `+LINE`, exactly where there is one
/// and the editor can jump to it.
pub proof fn law_editor_command(editor: Seq<char>, path: Seq<char>, line: Option<u32>)
    requires
        words(editor).len() > 0,
    ensures
        ({
            let said = words(editor);
            let all = editor_words(editor, path, line);
            let n = said.len() as int;
            &&& all.take(n) == said
            &&& all.last() == path
            &&& all.len() == n + 1 || all.len() == n + 2
            &&& all.len() == n + 2 <==> line is Some && jumps_to_line(said[0])
            &&& all.len() == n + 2 ==> all[n][0] == '+' && number_of(all[n].skip(1)) == line
        }),
{
    reveal_strlit("+");
    let said = words(editor);
    let all = editor_words(editor, path, line);
    assert(all.take(said.len() as int) =~= said);
    if line is Some {
        law_number_round_trip(line->0);
        assert(("+"@ + decimal(line->0 as nat)).skip(1) =~= decimal(line->0 as nat));
    }
}

/// Which editors can jump to a line is told by the name of the program, wherever it is
/// installed.
pub proof fn law_editor_by_name(dir: Seq<char>, name: Seq<char>)
    requires
        plain_name(name),
    ensures
        jumps_to_line(join_of(dir, name)) <==> jumps_to_line(name),
        jumps_to_line(name) <==> name == "vi"@ || name == "vim"@ || name == "nvim"@ || name
            == "gvim"@ || name == "mvim"@ || name == "nano"@ || name == "emacs"@ || name == "kak"@,
{
    law_file_name(dir, name);
    let all = plus_line_editors();
    assert(all.len() == 8);
    assert(all[0] == "vi"@ && all[1] == "vim"@ && all[2] == "nvim"@ && all[3] == "gvim"@ && all[4]
        == "mvim"@ && all[5] == "nano"@ && all[6] == "emacs"@ && all[7] == "kak"@);
    if all.contains(name) {
        let i = choose|i: int| 0 <= i < all.len() && all[i] == name;
        assert(i == 0 || i == 1 || i == 2 || i == 3 || i == 4 || i == 5 || i == 6 || i == 7);
    }
}

} // verus!
