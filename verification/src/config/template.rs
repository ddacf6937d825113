//! The commented template that the config file starts as.

use vstd::prelude::*;
use vstd::string::*;

use crate::config::action::{all_actions, Action, ACTION_COUNT};
use crate::config::keymap::{chord_names, default_map, KeyMap};
use crate::config::load::Config;
use crate::text::{begins, copy_of, join, joined, lemma_take_step, push_char, strings};

verus! {

/// The prose of the template.
pub const TEMPLATE: &'static str = "# hunkr configuration\n#\n# Everything here is optional: what you leave out keeps its built-in default. A\n# malformed file never stops hunkr from starting; it falls back to the defaults\n# and shows what is wrong until the file is fixed.\n\n# The layout that hunkr opens in: \"unified\" or \"side-by-side\".\n# view = \"unified\"\n\n# How chunks that are marked reviewed are shown: \"collapse\" folds them to their\n# header line, \"dim\" keeps their lines visible but dimmed.\n# reviewed_chunks = \"collapse\"\n\n# Syntax highlighting. `theme` is one of the bundled themes or a .tmTheme file in\n# the `themes` directory next to this file; diffs with more than `max_lines`\n# lines are not highlighted.\n# [theme]\n# syntax = true\n# theme = \"base16-ocean.dark\"\n# max_lines = 5000\n\n# Files that are dropped from the review automatically. `names` are exact file\n# names or repository-relative paths; `patterns` are regular expressions over the\n# repository-relative path.\n# [hide]\n# names = [\"Cargo.lock\", \"package-lock.json\"]\n# patterns = [\"^dist/\"]\n\n# Keybindings. A value is one chord (\"s\") or a list ([\"q\", \"ctrl+c\"]). Listing\n# an action replaces its default chords; actions that are not listed keep theirs.\n# These are the defaults:\n";

/// The length of the longest name among the first `n` actions.
pub open spec fn widest(actions: Seq<Action>, n: int) -> nat
    decreases n,
{
    if n <= 0 {
        0
    } else {
        let w = widest(actions, n - 1);
        let here = actions[n - 1].name_of().len();
        if here > w {
            here
        } else {
            w
        }
    }
}

/// `n` spaces.
pub open spec fn spaces(n: int) -> Seq<char> {
    Seq::new(
        if n > 0 {
            n as nat
        } else {
            0
        },
        |i: int| ' ',
    )
}

/// `s` with spaces behind it, `width` characters wide.
pub open spec fn padded(s: Seq<char>, width: nat) -> Seq<char> {
    s + spaces(width - s.len())
}

pub open spec fn in_quotes(s: Seq<char>) -> Seq<char> {
    "\""@ + s + "\""@
}

/// A chord, or a list of chords, as the file writes it.
pub open spec fn binding_value(names: Seq<Seq<char>>) -> Seq<char> {
    let quoted = names.map_values(|n: Seq<char>| in_quotes(n));
    if names.len() == 1 {
        quoted[0]
    } else {
        "["@ + joined(quoted, ", "@) + "]"@
    }
}

/// The line that documents the binding of one action.
pub open spec fn binding_line(action: Action, names: Seq<Seq<char>>, width: nat) -> Seq<char> {
    "# "@ + padded(action.name_of(), width) + " = "@ + binding_value(names) + "\n"@
}

/// The lines of the first `n` actions.
pub open spec fn binding_lines(
    actions: Seq<Action>,
    lists: Seq<Seq<Seq<char>>>,
    width: nat,
    n: int,
) -> Seq<char>
    decreases n,
{
    if n <= 0 {
        Seq::empty()
    } else {
        binding_lines(actions, lists, width, n - 1) + binding_line(
            actions[n - 1],
            lists[n - 1],
            width,
        )
    }
}

/// The documentation of the default bindings, given the chords of each action.
pub open spec fn keys_doc(lists: Seq<Seq<Seq<char>>>) -> Seq<char> {
    let actions = all_actions();
    let n = actions.len() as int;
    "# [keys]\n"@ + binding_lines(actions, lists, widest(actions, n), n)
}

/// `lists` are the default chords of each action.
pub open spec fn default_lists(lists: Seq<Seq<Seq<char>>>) -> bool {
    &&& lists.len() == all_actions().len()
    &&& forall|i: int|
        0 <= i < lists.len() ==> chord_names(default_map(), all_actions()[i], #[trigger] lists[i])
}

/// The width of the widest action name.
fn name_width() -> (r: usize)
    ensures
        r == widest(all_actions(), ACTION_COUNT as int),
{
    let all = Action::ALL;
    assert(all@ =~= all_actions());
    let mut width: usize = 0;
    let mut i: usize = 0;
    while i < ACTION_COUNT
        invariant
            i <= ACTION_COUNT,
            all@ == all_actions(),
            all@.len() == ACTION_COUNT,
            width == widest(all_actions(), i as int),
        decreases ACTION_COUNT - i,
    {
        let here = all[i].name().unicode_len();
        if here > width {
            width = here;
        }
        i += 1;
    }
    width
}

fn write_value(names: &Vec<String>) -> (r: String)
    ensures
        r@ == binding_value(strings(names@)),
{
    let ghost model = strings(names@);
    let ghost want = model.map_values(|n: Seq<char>| in_quotes(n));
    let mut quoted: Vec<String> = Vec::new();
    let n = names.len();
    for i in 0..n
        invariant
            n == names@.len(),
            model == strings(names@),
            want == model.map_values(|n: Seq<char>| in_quotes(n)),
            strings(quoted@) == want.take(i as int),
    {
        let mut q = copy_of("\"");
        q.append(names[i].as_str());
        q.append("\"");
        assert(model[i as int] == names@[i as int]@);
        let ghost was = quoted@;
        let ghost view = q@;
        quoted.push(q);
        assert(strings(quoted@) =~= strings(was).push(view));
        proof {
            lemma_take_step(want, i as int);
        }
    }
    assert(want.take(n as int) =~= want);
    if n == 1 {
        assert(strings(quoted@)[0] == quoted@[0]@);
        quoted[0].clone()
    } else {
        let mut out = copy_of("[");
        out.append(join(&quoted, ", ").as_str());
        out.append("]");
        out
    }
}

/// Build the commented `[keys]` reference block from the default keymap. Each
/// line is `# <action> = <chord(s)>`, ready to uncomment and edit.
pub fn default_keys_doc() -> (r: String)
    ensures
        exists|lists: Seq<Seq<Seq<char>>>| #[trigger]
            default_lists(lists) && r@ == keys_doc(lists),
{
    let km = KeyMap::defaults();
    let width = name_width();
    let all = Action::ALL;
    assert(all@ =~= all_actions());
    let mut out = copy_of("# [keys]\n");
    let ghost head = out@;
    let ghost mut lists: Seq<Seq<Seq<char>>> = Seq::empty();
    assert(head + binding_lines(all_actions(), lists, width as nat, 0) =~= head);
    let mut i: usize = 0;
    while i < ACTION_COUNT
        invariant
            i <= ACTION_COUNT,
            all@ == all_actions(),
            all@.len() == ACTION_COUNT,
            km.wf(),
            km@ == default_map(),
            lists.len() == i,
            forall|k: int|
                0 <= k < i ==> chord_names(default_map(), all_actions()[k], #[trigger] lists[k]),
            out@ == head + binding_lines(all_actions(), lists, width as nat, i as int),
        decreases ACTION_COUNT - i,
    {
        let action = all[i];
        let names = km.chords_for(action);
        let value = write_value(&names);
        let ghost was = out@;
        let ghost old_lists = lists;
        proof {
            lists = lists.push(strings(names@));
            lemma_lines_extend(all_actions(), old_lists, lists, width as nat, i as int);
        }
        out.append("# ");
        out.append(action.name());
        let mut k: usize = action.name().unicode_len();
        let ghost before_pad = out@;
        let ghost name_len = action.name_of().len();
        assert(before_pad + spaces(k - name_len) =~= before_pad);
        while k < width
            invariant
                name_len <= k,
                k <= width || k == name_len,
                out@ == before_pad + spaces(k - name_len),
            decreases width - k,
        {
            push_char(&mut out, ' ');
            assert(out@ =~= before_pad + spaces(k + 1 - name_len));
            k += 1;
        }
        assert(out@ =~= before_pad + spaces(width - name_len)) by {
            assert(spaces(k - name_len) =~= spaces(width - name_len));
        }
        out.append(" = ");
        out.append(value.as_str());
        out.append("\n");
        proof {
            let line = binding_line(action, strings(names@), width as nat);
            assert(out@ =~= was + line);
            assert(lists[i as int] == strings(names@));
            assert(out@ =~= head + (binding_lines(all_actions(), lists, width as nat, i as int)
                + line));
        }
        i += 1;
    }
    proof {
        assert(default_lists(lists));
    }
    out
}

proof fn lemma_lines_extend(
    actions: Seq<Action>,
    a: Seq<Seq<Seq<char>>>,
    b: Seq<Seq<Seq<char>>>,
    width: nat,
    n: int,
)
    requires
        0 <= n <= a.len(),
        a.len() <= b.len(),
        forall|i: int| 0 <= i < a.len() ==> a[i] == b[i],
    ensures
        binding_lines(actions, a, width, n) == binding_lines(actions, b, width, n),
    decreases n,
{
    if n > 0 {
        lemma_lines_extend(actions, a, b, width, n - 1);
    }
}

impl Config {
    /// The commented template written to disk the first time the user opens the
    /// config (when no file exists yet). The prose is followed by a generated
    /// `[keys]` block listing every action with its default chords, so the documented
    /// defaults can never drift from the code.
    pub fn default_template() -> (r: String)
        ensures
            exists|lists: Seq<Seq<Seq<char>>>| #[trigger]
                default_lists(lists) && r@ == TEMPLATE@ + keys_doc(lists),
    {
        let mut s = copy_of(TEMPLATE);
        s.append(default_keys_doc().as_str());
        s
    }
}

/// The template documents every action: the text holds the line of each of them, which
/// begins as a comment and names the action and its default chords.
pub proof fn law_template_lists_action(
    actions: Seq<Action>,
    lists: Seq<Seq<Seq<char>>>,
    width: nat,
    n: int,
    i: int,
)
    requires
        0 <= i < n <= actions.len(),
        lists.len() == actions.len(),
    ensures
        exists|a: Seq<char>, b: Seq<char>|
            binding_lines(actions, lists, width, n) == #[trigger] (a + binding_line(
                actions[i],
                lists[i],
                width,
            ) + b),
        begins(
            binding_line(actions[i], lists[i], width),
            seq!['#', ' '] + actions[i].name_of(),
        ),
    decreases n,
{
    reveal_strlit("# ");
    let line = binding_line(actions[i], lists[i], width);
    let head = seq!['#', ' '] + actions[i].name_of();
    assert(line.take(head.len() as int) =~= head);
    let was = binding_lines(actions, lists, width, n - 1);
    let e = Seq::<char>::empty();
    if i < n - 1 {
        law_template_lists_action(actions, lists, width, n - 1, i);
        let (a, b) = choose|a: Seq<char>, b: Seq<char>| was == #[trigger] (a + line + b);
        let last = binding_line(actions[n - 1], lists[n - 1], width);
        assert(binding_lines(actions, lists, width, n) =~= a + line + (b + last));
    } else {
        assert(binding_lines(actions, lists, width, n) =~= was + line + e);
    }
}

} // verus!
