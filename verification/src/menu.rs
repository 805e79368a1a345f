//! The actions the tool offers, the command-line flags that name them, and
//! the decisions taken on the command line and at the prompt.

use vstd::prelude::*;
use crate::text::{str_chars, chars_eq, trim, trim_chars, push_str, string_from_chars};

verus! {

broadcast use vstd::string::group_string_axioms, vstd::slice::group_slice_axioms;

/// The actions of the menu, in the order it lists them.
#[derive(Debug, Clone, Copy, PartialEq, Eq, Structural)]
pub enum Menu {
    Close,
    Help,
    Extract,
    Import,
    SplitExtract,
    SplitImport,
    Repair,
    Stats,
    Edit,
}

/// The action a command-line word names: the action's own name for
/// `Close`, and the flags of the others.
pub open spec fn menu_of_flag(s: Seq<char>) -> Option<Menu> {
    if s == "Close"@ {
        Some(Menu::Close)
    } else if s == "-help"@ || s == "-usage"@ || s == "-h"@ {
        Some(Menu::Help)
    } else if s == "-extract"@ || s == "-export"@ || s == "-e"@ {
        Some(Menu::Extract)
    } else if s == "-import"@ || s == "-i"@ {
        Some(Menu::Import)
    } else if s == "-splitextract"@ || s == "-splitexport"@ || s == "-se"@ {
        Some(Menu::SplitExtract)
    } else if s == "-splitimport"@ || s == "-si"@ {
        Some(Menu::SplitImport)
    } else if s == "-repair"@ || s == "-parse"@ || s == "-r"@ {
        Some(Menu::Repair)
    } else if s == "-stats"@ || s == "-info"@ {
        Some(Menu::Stats)
    } else if s == "-edit"@ || s == "-editor"@ || s == "-gui"@ {
        Some(Menu::Edit)
    } else {
        None
    }
}

/// The name of an action.
pub open spec fn menu_name(m: Menu) -> Seq<char> {
    match m {
        Menu::Close => "Close"@,
        Menu::Help => "Help"@,
        Menu::Extract => "Extract"@,
        Menu::Import => "Import"@,
        Menu::SplitExtract => "SplitExtract"@,
        Menu::SplitImport => "SplitImport"@,
        Menu::Repair => "Repair"@,
        Menu::Stats => "Stats"@,
        Menu::Edit => "Edit"@,
    }
}

/// What an action does, as the menu describes it.
pub open spec fn menu_message(m: Menu) -> Seq<char> {
    match m {
        Menu::Close => "Exit TurboRipent"@,
        Menu::Help => "Usage Information"@,
        Menu::Extract => "Extract an entity list (.ent file) from a BSP file"@,
        Menu::Import => "Import an entity list (.ent file) into BSP file"@,
        Menu::SplitExtract => "Extract split .entp (point entities) + .entm (brush entities) from a BSP"@,
        Menu::SplitImport => "Import split .entp (point entities) + .entm (brush entities) into BSP (both files required)"@,
        Menu::Repair => "Repair entities in a BSP file (re-parse and re-serialise)"@,
        Menu::Stats => "Show BSP info such as number of point entities, brush entities, etc."@,
        Menu::Edit => "Opens the interactive entity editor for a BSP or ENT file"@,
    }
}

/// All actions, in menu order.
pub open spec fn all_menus() -> Seq<Menu> {
    seq![
        Menu::Close,
        Menu::Help,
        Menu::Extract,
        Menu::Import,
        Menu::SplitExtract,
        Menu::SplitImport,
        Menu::Repair,
        Menu::Stats,
        Menu::Edit,
    ]
}

/// A help line for each action but `Close` and `Help`: a tab, the name, a
/// colon and the description.
pub open spec fn help_lines(ms: Seq<Menu>) -> Seq<char>
    decreases ms.len(),
{
    if ms.len() == 0 {
        Seq::empty()
    } else {
        let m = ms.last();
        help_lines(ms.drop_last()) + (if m == Menu::Close || m == Menu::Help {
            Seq::empty()
        } else {
            "\t"@ + menu_name(m) + ": "@ + menu_message(m) + "\n"@
        })
    }
}

/// Each action is named by exactly the flags the usage table lists for it
/// (and `Close` by its own name); any other word names no action.
pub proof fn law_flag_table(s: Seq<char>)
    ensures
        (menu_of_flag(s) == Some(Menu::Close)) <==> s == "Close"@,
        (menu_of_flag(s) == Some(Menu::Help)) <==> (s == "-help"@ || s == "-usage"@ || s == "-h"@),
        (menu_of_flag(s) == Some(Menu::Extract)) <==> (s == "-extract"@ || s == "-export"@ || s
            == "-e"@),
        (menu_of_flag(s) == Some(Menu::Import)) <==> (s == "-import"@ || s == "-i"@),
        (menu_of_flag(s) == Some(Menu::SplitExtract)) <==> (s == "-splitextract"@ || s
            == "-splitexport"@ || s == "-se"@),
        (menu_of_flag(s) == Some(Menu::SplitImport)) <==> (s == "-splitimport"@ || s == "-si"@),
        (menu_of_flag(s) == Some(Menu::Repair)) <==> (s == "-repair"@ || s == "-parse"@ || s
            == "-r"@),
        (menu_of_flag(s) == Some(Menu::Stats)) <==> (s == "-stats"@ || s == "-info"@),
        (menu_of_flag(s) == Some(Menu::Edit)) <==> (s == "-edit"@ || s == "-editor"@ || s
            == "-gui"@),
{
    reveal_strlit("Close");
    assert("Close"@ =~= seq!['C', 'l', 'o', 's', 'e']);
    reveal_strlit("-help");
    assert("-help"@ =~= seq!['-', 'h', 'e', 'l', 'p']);
    reveal_strlit("-usage");
    assert("-usage"@ =~= seq!['-', 'u', 's', 'a', 'g', 'e']);
    reveal_strlit("-h");
    assert("-h"@ =~= seq!['-', 'h']);
    reveal_strlit("-extract");
    assert("-extract"@ =~= seq!['-', 'e', 'x', 't', 'r', 'a', 'c', 't']);
    reveal_strlit("-export");
    assert("-export"@ =~= seq!['-', 'e', 'x', 'p', 'o', 'r', 't']);
    reveal_strlit("-e");
    assert("-e"@ =~= seq!['-', 'e']);
    reveal_strlit("-import");
    assert("-import"@ =~= seq!['-', 'i', 'm', 'p', 'o', 'r', 't']);
    reveal_strlit("-i");
    assert("-i"@ =~= seq!['-', 'i']);
    reveal_strlit("-splitextract");
    assert("-splitextract"@ =~= seq!['-', 's', 'p', 'l', 'i', 't', 'e', 'x', 't', 'r', 'a', 'c', 't']);
    reveal_strlit("-splitexport");
    assert("-splitexport"@ =~= seq!['-', 's', 'p', 'l', 'i', 't', 'e', 'x', 'p', 'o', 'r', 't']);
    reveal_strlit("-se");
    assert("-se"@ =~= seq!['-', 's', 'e']);
    reveal_strlit("-splitimport");
    assert("-splitimport"@ =~= seq!['-', 's', 'p', 'l', 'i', 't', 'i', 'm', 'p', 'o', 'r', 't']);
    reveal_strlit("-si");
    assert("-si"@ =~= seq!['-', 's', 'i']);
    reveal_strlit("-repair");
    assert("-repair"@ =~= seq!['-', 'r', 'e', 'p', 'a', 'i', 'r']);
    reveal_strlit("-parse");
    assert("-parse"@ =~= seq!['-', 'p', 'a', 'r', 's', 'e']);
    reveal_strlit("-r");
    assert("-r"@ =~= seq!['-', 'r']);
    reveal_strlit("-stats");
    assert("-stats"@ =~= seq!['-', 's', 't', 'a', 't', 's']);
    reveal_strlit("-info");
    assert("-info"@ =~= seq!['-', 'i', 'n', 'f', 'o']);
    reveal_strlit("-edit");
    assert("-edit"@ =~= seq!['-', 'e', 'd', 'i', 't']);
    reveal_strlit("-editor");
    assert("-editor"@ =~= seq!['-', 'e', 'd', 'i', 't', 'o', 'r']);
    reveal_strlit("-gui");
    assert("-gui"@ =~= seq!['-', 'g', 'u', 'i']);
}

impl Menu {
    /// The action a command-line word names, if any.
    pub fn from_flag(s: &str) -> (r: Option<Menu>)
        ensures
            r == menu_of_flag(s@),
            (r == Some(Menu::Close)) <==> s@ == "Close"@,
            (r == Some(Menu::Help)) <==> (s@ == "-help"@ || s@ == "-usage"@ || s@ == "-h"@),
            (r == Some(Menu::Extract)) <==> (s@ == "-extract"@ || s@ == "-export"@ || s@ == "-e"@),
            (r == Some(Menu::Import)) <==> (s@ == "-import"@ || s@ == "-i"@),
            (r == Some(Menu::SplitExtract)) <==> (s@ == "-splitextract"@ || s@ == "-splitexport"@
                || s@ == "-se"@),
            (r == Some(Menu::SplitImport)) <==> (s@ == "-splitimport"@ || s@ == "-si"@),
            (r == Some(Menu::Repair)) <==> (s@ == "-repair"@ || s@ == "-parse"@ || s@ == "-r"@),
            (r == Some(Menu::Stats)) <==> (s@ == "-stats"@ || s@ == "-info"@),
            (r == Some(Menu::Edit)) <==> (s@ == "-edit"@ || s@ == "-editor"@ || s@ == "-gui"@),
    {
        proof {
            law_flag_table(s@);
        }
        let c = str_chars(s);
        let c = c.as_slice();
        if chars_eq(c, str_chars("Close").as_slice()) {
            Some(Menu::Close)
        } else if chars_eq(c, str_chars("-help").as_slice()) || chars_eq(c, str_chars("-usage").as_slice())
            || chars_eq(c, str_chars("-h").as_slice()) {
            Some(Menu::Help)
        } else if chars_eq(c, str_chars("-extract").as_slice()) || chars_eq(
            c,
            str_chars("-export").as_slice(),
        ) || chars_eq(c, str_chars("-e").as_slice()) {
            Some(Menu::Extract)
        } else if chars_eq(c, str_chars("-import").as_slice()) || chars_eq(c, str_chars("-i").as_slice()) {
            Some(Menu::Import)
        } else if chars_eq(c, str_chars("-splitextract").as_slice()) || chars_eq(
            c,
            str_chars("-splitexport").as_slice(),
        ) || chars_eq(c, str_chars("-se").as_slice()) {
            Some(Menu::SplitExtract)
        } else if chars_eq(c, str_chars("-splitimport").as_slice()) || chars_eq(
            c,
            str_chars("-si").as_slice(),
        ) {
            Some(Menu::SplitImport)
        } else if chars_eq(c, str_chars("-repair").as_slice()) || chars_eq(
            c,
            str_chars("-parse").as_slice(),
        ) || chars_eq(c, str_chars("-r").as_slice()) {
            Some(Menu::Repair)
        } else if chars_eq(c, str_chars("-stats").as_slice()) || chars_eq(c, str_chars("-info").as_slice()) {
            Some(Menu::Stats)
        } else if chars_eq(c, str_chars("-edit").as_slice()) || chars_eq(c, str_chars("-editor").as_slice())
            || chars_eq(c, str_chars("-gui").as_slice()) {
            Some(Menu::Edit)
        } else {
            None
        }
    }

    /// The name of the action.
    pub fn name(&self) -> (r: &'static str)
        ensures
            r@ == menu_name(*self),
    {
        match self {
            Menu::Close => "Close",
            Menu::Help => "Help",
            Menu::Extract => "Extract",
            Menu::Import => "Import",
            Menu::SplitExtract => "SplitExtract",
            Menu::SplitImport => "SplitImport",
            Menu::Repair => "Repair",
            Menu::Stats => "Stats",
            Menu::Edit => "Edit",
        }
    }

    /// What the action does, as the menu describes it.
    pub fn message(&self) -> (r: &'static str)
        ensures
            r@ == menu_message(*self),
    {
        match self {
            Menu::Close => "Exit TurboRipent",
            Menu::Help => "Usage Information",
            Menu::Extract => "Extract an entity list (.ent file) from a BSP file",
            Menu::Import => "Import an entity list (.ent file) into BSP file",
            Menu::SplitExtract => "Extract split .entp (point entities) + .entm (brush entities) from a BSP",
            Menu::SplitImport => "Import split .entp (point entities) + .entm (brush entities) into BSP (both files required)",
            Menu::Repair => "Repair entities in a BSP file (re-parse and re-serialise)",
            Menu::Stats => "Show BSP info such as number of point entities, brush entities, etc.",
            Menu::Edit => "Opens the interactive entity editor for a BSP or ENT file",
        }
    }

    /// All actions, in menu order.
    pub fn variants() -> (r: Vec<Menu>)
        ensures
            r@ == all_menus(),
    {
        let r = vec![
            Menu::Close,
            Menu::Help,
            Menu::Extract,
            Menu::Import,
            Menu::SplitExtract,
            Menu::SplitImport,
            Menu::Repair,
            Menu::Stats,
            Menu::Edit,
        ];
        assert(r@ =~= all_menus());
        r
    }

    /// The usage lines: one per action but `Close` and `Help`.
    pub fn help_text() -> (r: String)
        ensures
            r@ == help_lines(all_menus()),
    {
        let ms = Menu::variants();
        let mut out: Vec<char> = Vec::new();
        let mut i: usize = 0;
        assert(all_menus().take(0) =~= Seq::<Menu>::empty());
        while i < ms.len()
            invariant
                0 <= i <= ms@.len(),
                ms@ == all_menus(),
                out@ == help_lines(all_menus().take(i as int)),
            decreases ms@.len() - i,
        {
            let m = ms[i];
            let ghost t = all_menus().take(i + 1);
            assert(t.drop_last() =~= all_menus().take(i as int));
            assert(t.last() == m);
            let ghost before = out@;
            if !(m == Menu::Close || m == Menu::Help) {
                push_str(&mut out, "\t");
                push_str(&mut out, m.name());
                push_str(&mut out, ": ");
                push_str(&mut out, m.message());
                push_str(&mut out, "\n");
                assert(out@ =~= before + ("\t"@ + menu_name(m) + ": "@ + menu_message(m) + "\n"@));
            } else {
                assert(out@ =~= before + Seq::<char>::empty());
            }
            i = i + 1;
        }
        assert(all_menus().take(all_menus().len() as int) =~= all_menus());
        string_from_chars(out.as_slice())
    }

    /// Whether the action works on a batch of BSP files.
    pub fn is_batch_action(&self) -> (r: bool)
        ensures
            r == (*self == Menu::Extract || *self == Menu::Import || *self == Menu::SplitExtract
                || *self == Menu::SplitImport || *self == Menu::Repair),
    {
        match self {
            Menu::Extract | Menu::Import | Menu::SplitExtract | Menu::SplitImport | Menu::Repair => true,
            _ => false,
        }
    }
}

// ---------------------------------------------------------------------------
// The command line
// ---------------------------------------------------------------------------

/// The words that name an action, and the other words (file paths), each in
/// order.
pub open spec fn split_words(words: Seq<Seq<char>>) -> (Seq<Menu>, Seq<Seq<char>>)
    decreases words.len(),
{
    if words.len() == 0 {
        (Seq::empty(), Seq::empty())
    } else {
        let (fs, vs) = split_words(words.drop_last());
        match menu_of_flag(words.last()) {
            Some(m) => (fs.push(m), vs),
            None => (fs, vs.push(words.last())),
        }
    }
}

/// The character sequences of a list of strings.
pub open spec fn string_views(v: Seq<String>) -> Seq<Seq<char>> {
    v.map_values(|s: String| s@)
}

/// Parts the command-line words into the actions they name and the other
/// words, the file paths.
pub fn split_args(words: &[String]) -> (r: (Vec<Menu>, Vec<String>))
    ensures
        (r.0@, string_views(r.1@)) == split_words(string_views(words@)),
{
    let mut flags: Vec<Menu> = Vec::new();
    let mut values: Vec<String> = Vec::new();
    let ghost ws = string_views(words@);
    let mut i: usize = 0;
    assert(ws.take(0) =~= Seq::<Seq<char>>::empty());
    assert(string_views(values@) =~= Seq::<Seq<char>>::empty());
    while i < words.len()
        invariant
            0 <= i <= words@.len(),
            ws == string_views(words@),
            (flags@, string_views(values@)) == split_words(ws.take(i as int)),
        decreases words@.len() - i,
    {
        let ghost t = ws.take(i + 1);
        assert(t.drop_last() =~= ws.take(i as int));
        assert(t.last() == words@[i as int]@);
        match Menu::from_flag(words[i].as_str()) {
            Some(m) => flags.push(m),
            None => {
                let ghost before = string_views(values@);
                values.push(words[i].clone());
                assert(string_views(values@) =~= before.push(words@[i as int]@));
            },
        }
        i = i + 1;
    }
    assert(ws.take(ws.len() as int) =~= ws);
    (flags, values)
}

/// What a run of the tool does, by the flags it was given.
#[derive(Debug, Clone, Copy, PartialEq, Eq, Structural)]
pub enum RunMode {
    /// Print the usage.
    Help,
    /// Repair each file given.
    Repair,
    /// Report on each file given.
    Stats,
    /// Open the first file given in the editor.
    Edit,
    /// Run each batch action flagged on each file given.
    Batch,
    /// Extract or import each file given, by its kind.
    Rip,
    /// Show the menu.
    Interactive,
}

/// The actions that work on a batch of files, in the order they run.
pub open spec fn batch_order() -> Seq<Menu> {
    seq![Menu::Extract, Menu::Import, Menu::SplitExtract, Menu::SplitImport]
}

/// The actions of `order` that `flags` holds, in the order of `order`.
pub open spec fn flagged(order: Seq<Menu>, flags: Seq<Menu>) -> Seq<Menu>
    decreases order.len(),
{
    if order.len() == 0 {
        Seq::empty()
    } else {
        let prev = flagged(order.drop_last(), flags);
        if flags.contains(order.last()) {
            prev.push(order.last())
        } else {
            prev
        }
    }
}

/// What a run does: the first of help, repair, stats and edit that is
/// flagged; else the batch actions, where one is flagged; else each file by
/// its kind, where files are given; else the menu.
pub open spec fn run_mode_of(flags: Seq<Menu>, has_paths: bool) -> RunMode {
    if flags.contains(Menu::Help) {
        RunMode::Help
    } else if flags.contains(Menu::Repair) {
        RunMode::Repair
    } else if flags.contains(Menu::Stats) {
        RunMode::Stats
    } else if flags.contains(Menu::Edit) {
        RunMode::Edit
    } else if flagged(batch_order(), flags).len() > 0 {
        RunMode::Batch
    } else if has_paths {
        RunMode::Rip
    } else {
        RunMode::Interactive
    }
}

fn has_menu(flags: &[Menu], m: Menu) -> (r: bool)
    ensures
        r == flags@.contains(m),
{
    let mut i: usize = 0;
    while i < flags.len()
        invariant
            0 <= i <= flags@.len(),
            forall|q: int| 0 <= q < i ==> flags@[q] != m,
        decreases flags@.len() - i,
    {
        if flags[i] == m {
            return true;
        }
        i = i + 1;
    }
    false
}

/// Decides what a run does from its flags and whether files were given.
pub fn run_mode(flags: &[Menu], has_paths: bool) -> (r: RunMode)
    ensures
        r == run_mode_of(flags@, has_paths),
{
    if has_menu(flags, Menu::Help) {
        RunMode::Help
    } else if has_menu(flags, Menu::Repair) {
        RunMode::Repair
    } else if has_menu(flags, Menu::Stats) {
        RunMode::Stats
    } else if has_menu(flags, Menu::Edit) {
        RunMode::Edit
    } else {
        let acts = batch_actions(flags);
        if acts.len() > 0 {
            RunMode::Batch
        } else if has_paths {
            RunMode::Rip
        } else {
            RunMode::Interactive
        }
    }
}

/// The batch actions flagged, in the order they run.
pub fn batch_actions(flags: &[Menu]) -> (r: Vec<Menu>)
    ensures
        r@ == flagged(batch_order(), flags@),
{
    let order = vec![Menu::Extract, Menu::Import, Menu::SplitExtract, Menu::SplitImport];
    assert(order@ =~= batch_order());
    let mut out: Vec<Menu> = Vec::new();
    let mut i: usize = 0;
    assert(batch_order().take(0) =~= Seq::<Menu>::empty());
    while i < order.len()
        invariant
            0 <= i <= order@.len(),
            order@ == batch_order(),
            out@ == flagged(batch_order().take(i as int), flags@),
        decreases order@.len() - i,
    {
        let m = order[i];
        let ghost t = batch_order().take(i + 1);
        assert(t.drop_last() =~= batch_order().take(i as int));
        assert(t.last() == m);
        if has_menu(flags, m) {
            out.push(m);
        }
        i = i + 1;
    }
    assert(batch_order().take(4) =~= batch_order());
    out
}

// ---------------------------------------------------------------------------
// The prompt
// ---------------------------------------------------------------------------

/// `s` with each backslash replaced by the character after it; a backslash
/// at the end stays.
pub open spec fn unescaped(s: Seq<char>) -> Seq<char>
    decreases s.len(),
{
    if s.len() == 0 {
        Seq::empty()
    } else if s[0] == '\\' && s.len() >= 2 {
        seq![s[1]] + unescaped(s.skip(2))
    } else {
        seq![s[0]] + unescaped(s.drop_first())
    }
}

/// `t` without a pair of matching quotes (double or single) round it.
pub open spec fn unquoted(t: Seq<char>) -> Seq<char> {
    if t.len() > 0 && ((t[0] == '"' && t.last() == '"') || (t[0] == '\'' && t.last() == '\'')) {
        t.subrange(1, t.len() - 1)
    } else {
        t
    }
}

/// A path typed or dropped at the prompt: trimmed, without a pair of
/// matching quotes round it, and, where `unescape` is set (as on Linux),
/// with backslash escapes undone.
pub open spec fn cleaned_input(input: Seq<char>, unescape: bool) -> Seq<char> {
    let u = unquoted(trim(input));
    if unescape {
        unescaped(u)
    } else {
        u
    }
}

/// Cleans a path typed or dropped at the prompt. The input must not be a
/// lone quote once trimmed (taking off its quotes would then fail).
pub fn clean_prompt_input(input: &str, unescape: bool) -> (r: String)
    requires
        !(trim(input@).len() == 1 && (trim(input@)[0] == '"' || trim(input@)[0] == '\'')),
    ensures
        r@ == cleaned_input(input@, unescape),
{
    let t = trim_chars(str_chars(input).as_slice());
    let n = t.len();
    let quoted = n > 0 && ((t[0] == '"' && t[n - 1] == '"') || (t[0] == '\'' && t[n - 1] == '\''));
    let mut u: Vec<char> = Vec::new();
    let (a, b) = if quoted {
        (1, n - 1)
    } else {
        (0, n)
    };
    let mut i: usize = a;
    while i < b
        invariant
            a <= i <= b <= n,
            n == t@.len(),
            u@ == t@.subrange(a as int, i as int),
        decreases b - i,
    {
        u.push(t[i]);
        i = i + 1;
        assert(u@ =~= t@.subrange(a as int, i as int));
    }
    assert(u@ =~= unquoted(t@));
    if !unescape {
        return string_from_chars(u.as_slice());
    }
    let mut out: Vec<char> = Vec::new();
    let mut j: usize = 0;
    assert(u@.skip(0) =~= u@);
    while j < u.len()
        invariant
            0 <= j <= u@.len(),
            out@ + unescaped(u@.skip(j as int)) == unescaped(u@),
        decreases u@.len() - j,
    {
        let ghost s = u@.skip(j as int);
        if u[j] == '\\' && j + 1 < u.len() {
            assert(s[0] == '\\' && s[1] == u@[j + 1]);
            assert(s.skip(2) =~= u@.skip(j + 2));
            out.push(u[j + 1]);
            assert(out@ + unescaped(u@.skip(j + 2)) =~= unescaped(u@));
            j = j + 2;
        } else {
            assert(s[0] == u@[j as int]);
            assert(s.drop_first() =~= u@.skip(j + 1));
            out.push(u[j]);
            assert(out@ + unescaped(u@.skip(j + 1)) =~= unescaped(u@));
            j = j + 1;
        }
    }
    assert(u@.skip(u@.len() as int) =~= Seq::<char>::empty());
    assert(out@ =~= unescaped(u@));
    string_from_chars(out.as_slice())
}

} // verus!
