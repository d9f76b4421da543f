//! The command line: which command is meant, its flags, and which pack.

use crate::ascii::{lower, lower_chars, same_ignoring_case, str_same_ignoring_case};
use crate::effects::{engine_quality, render_quality, RenderQuality};
use crate::paths::{join_path, joined_path};
use crate::resource::opt_text;
use crate::settings::Quality;
use crate::text::{
    chars_eq, chars_of, index_of_name, names_of, starts_with, str_eq, str_starts_with,
    str_strip_prefix, strip_prefix, trim, trim_chars,
};
use vstd::prelude::*;

verus! {

/// The commands of the program.
#[derive(Clone, Copy, Debug, PartialEq, Eq, Structural)]
pub enum Command {
    FirstRun,
    Packs,
    Shaders,
    CompilePack,
    Validate,
    Render,
    Help,
    Unknown,
}

/// The command that a word means.
pub open spec fn command_of(word: Seq<char>) -> Command {
    if word == "first-run"@ {
        Command::FirstRun
    } else if word == "packs"@ {
        Command::Packs
    } else if word == "shaders"@ {
        Command::Shaders
    } else if word == "compile-pack"@ {
        Command::CompilePack
    } else if word == "validate"@ {
        Command::Validate
    } else if word == "render"@ {
        Command::Render
    } else if word == "help"@ || word == "--help"@ || word == "-h"@ {
        Command::Help
    } else {
        Command::Unknown
    }
}

/// The command of an argument list; the first argument is the program. No
/// command is a call for help.
pub fn command(args: &[String]) -> (r: Command)
    ensures
        r == (if args.len() > 1 {
            command_of(args@[1]@)
        } else {
            Command::Help
        }),
{
    if args.len() < 2 {
        return Command::Help;
    }
    let w = args[1].as_str();
    if str_eq(w, "first-run") {
        Command::FirstRun
    } else if str_eq(w, "packs") {
        Command::Packs
    } else if str_eq(w, "shaders") {
        Command::Shaders
    } else if str_eq(w, "compile-pack") {
        Command::CompilePack
    } else if str_eq(w, "validate") {
        Command::Validate
    } else if str_eq(w, "render") {
        Command::Render
    } else if str_eq(w, "help") || str_eq(w, "--help") || str_eq(w, "-h") {
        Command::Help
    } else {
        Command::Unknown
    }
}

/// What can be done with resource packs.
#[derive(Clone, Copy, Debug, PartialEq, Eq, Structural)]
pub enum PacksAction {
    List,
    Import,
    Use,
    Uninstall,
    OpenFolder,
    Browse,
    Scan,
    Unknown,
}

/// The action that a word means.
pub open spec fn packs_action_of(word: Seq<char>) -> PacksAction {
    if word == "list"@ {
        PacksAction::List
    } else if word == "import"@ {
        PacksAction::Import
    } else if word == "use"@ {
        PacksAction::Use
    } else if word == "uninstall"@ {
        PacksAction::Uninstall
    } else if word == "open-folder"@ {
        PacksAction::OpenFolder
    } else if word == "browse"@ {
        PacksAction::Browse
    } else if word == "scan"@ {
        PacksAction::Scan
    } else {
        PacksAction::Unknown
    }
}

/// The action on resource packs; none is a call for the list.
pub fn packs_action(args: &[String]) -> (r: PacksAction)
    ensures
        r == (if args.len() > 0 {
            packs_action_of(args@[0]@)
        } else {
            PacksAction::List
        }),
{
    if args.len() == 0 {
        return PacksAction::List;
    }
    let w = args[0].as_str();
    if str_eq(w, "list") {
        PacksAction::List
    } else if str_eq(w, "import") {
        PacksAction::Import
    } else if str_eq(w, "use") {
        PacksAction::Use
    } else if str_eq(w, "uninstall") {
        PacksAction::Uninstall
    } else if str_eq(w, "open-folder") {
        PacksAction::OpenFolder
    } else if str_eq(w, "browse") {
        PacksAction::Browse
    } else if str_eq(w, "scan") {
        PacksAction::Scan
    } else {
        PacksAction::Unknown
    }
}

/// What can be done with shader packs.
#[derive(Clone, Copy, Debug, PartialEq, Eq, Structural)]
pub enum ShadersAction {
    List,
    Import,
    Enable,
    Disable,
    Uninstall,
    Unknown,
}

/// The action that a word means.
pub open spec fn shaders_action_of(word: Seq<char>) -> ShadersAction {
    if word == "list"@ {
        ShadersAction::List
    } else if word == "import"@ {
        ShadersAction::Import
    } else if word == "enable"@ {
        ShadersAction::Enable
    } else if word == "disable"@ {
        ShadersAction::Disable
    } else if word == "uninstall"@ {
        ShadersAction::Uninstall
    } else {
        ShadersAction::Unknown
    }
}

/// The action on shader packs; none is a call for the list.
pub fn shaders_action(args: &[String]) -> (r: ShadersAction)
    ensures
        r == (if args.len() > 0 {
            shaders_action_of(args@[0]@)
        } else {
            ShadersAction::List
        }),
{
    if args.len() == 0 {
        return ShadersAction::List;
    }
    let w = args[0].as_str();
    if str_eq(w, "list") {
        ShadersAction::List
    } else if str_eq(w, "import") {
        ShadersAction::Import
    } else if str_eq(w, "enable") {
        ShadersAction::Enable
    } else if str_eq(w, "disable") {
        ShadersAction::Disable
    } else if str_eq(w, "uninstall") {
        ShadersAction::Uninstall
    } else {
        ShadersAction::Unknown
    }
}

/// The argument behind the first occurrence of a flag.
pub open spec fn value_of(args: Seq<Seq<char>>, flag: Seq<char>) -> Option<Seq<char>> {
    let i = index_of_name(args, flag);
    if i + 1 < args.len() {
        Some(args[i + 1])
    } else {
        None
    }
}

/// The value of a flag.
pub fn arg_value(args: &[String], flag: &str) -> (r: Option<String>)
    ensures
        match r {
            Some(v) => value_of(names_of(args@), flag@) == Some(v@),
            None => value_of(names_of(args@), flag@) is None,
        },
{
    let i = crate::text::find_name(args, flag);
    if i < args.len() && i + 1 < args.len() {
        Some(args[i + 1].clone())
    } else {
        None
    }
}

/// Whether a flag is among the arguments.
pub fn arg_flag(args: &[String], flag: &str) -> (r: bool)
    ensures
        r == (index_of_name(names_of(args@), flag@) < args.len()),
{
    crate::text::find_name(args, flag) < args.len()
}

/// The quality that a word means; any other word, and none, is the medium
/// one.
pub open spec fn quality_of(word: Option<Seq<char>>) -> Quality {
    match word {
        Some(w) => if lower(w) == "low"@ {
            Quality::Low
        } else if lower(w) == "high"@ {
            Quality::High
        } else if lower(w) == "ultra"@ {
            Quality::Ultra
        } else {
            Quality::Medium
        },
        None => Quality::Medium,
    }
}

fn is_word(s: &[char], w: &str) -> (r: bool)
    ensures
        r == (s@ == w@),
{
    let c = chars_of(w);
    chars_eq(s, &c)
}

/// The quality that the arguments ask for.
pub fn parse_quality(args: &[String]) -> (r: Quality)
    ensures
        r == quality_of(value_of(names_of(args@), "--quality"@)),
{
    match arg_value(args, "--quality") {
        Some(v) => {
            let c = chars_of(v.as_str());
            let w = lower_chars(&c);
            if is_word(&w, "low") {
                Quality::Low
            } else if is_word(&w, "high") {
                Quality::High
            } else if is_word(&w, "ultra") {
                Quality::Ultra
            } else {
                Quality::Medium
            }
        },
        None => Quality::Medium,
    }
}

/// A pack answers to the start of its id and to its name, letter case aside.
pub open spec fn answers(pack: (Seq<char>, Seq<char>), query: Seq<char>) -> bool {
    starts_with(pack.0, query) || same_ignoring_case(pack.1, query)
}

/// The first pack that answers to a query; the length where none does.
pub open spec fn first_answer(packs: Seq<(Seq<char>, Seq<char>)>, query: Seq<char>) -> int
    decreases packs.len(),
{
    if packs.len() == 0 {
        0
    } else if answers(packs[0], query) {
        0
    } else {
        1 + first_answer(packs.skip(1), query)
    }
}

/// Finds the pack that is meant, among packs given by id and name.
pub fn find_pack(packs: &[(String, String)], query: &str) -> (r: Option<usize>)
    ensures
        r == ({
            let i = first_answer(crate::text::pairs_of(packs@), query@);
            if i < packs.len() {
                Some(i as usize)
            } else {
                None
            }
        }),
{
    let ghost all = crate::text::pairs_of(packs@);
    let mut i: usize = 0;
    assert(all.skip(0) =~= all);
    while i < packs.len()
        invariant
            i <= packs.len(),
            all == crate::text::pairs_of(packs@),
            first_answer(all, query@) == i + first_answer(all.skip(i as int), query@),
        decreases packs.len() - i,
    {
        assert(all.skip(i as int)[0] == (packs@[i as int].0@, packs@[i as int].1@));
        assert(all.skip(i as int).skip(1) =~= all.skip(i + 1));
        if str_starts_with(packs[i].0.as_str(), query) || str_same_ignoring_case(
            packs[i].1.as_str(),
            query,
        ) {
            return Some(i);
        }
        i += 1;
    }
    None
}

/// The directory to compile: that of the selected pack, unless the arguments
/// name one. `active` is the directory and name of the selected pack.
pub fn resolve_pack_dir(args: &[String], active: Option<(String, String)>) -> (r: (
    String,
    Option<String>,
))
    ensures
        ({
            let flag = index_of_name(names_of(args@), "--pack-dir"@) < args.len();
            let named = match value_of(names_of(args@), "--pack-dir"@) {
                Some(d) => d,
                None => "texture/assets"@,
            };
            match active {
                Some((dir, name)) => if flag {
                    r.0@ == named && r.1 is None
                } else {
                    r.0@ == dir@ && (r.1 matches Some(n) && n@ == name@)
                },
                None => r.0@ == named && r.1 is None,
            }
        }),
{
    let flag = arg_flag(args, "--pack-dir");
    match active {
        Some((dir, name)) => {
            if !flag {
                return (dir, Some(name));
            }
        },
        None => {},
    }
    match arg_value(args, "--pack-dir") {
        Some(d) => (d, None),
        None => ("texture/assets".to_owned(), None),
    }
}

/// What the client runs with.
#[derive(Debug)]
pub struct RunOptions {
    pub pack_dir: String,
    pub cache_path: String,
    /// Capture one frame to this file and end.
    pub screenshot: Option<String>,
    pub quality: RenderQuality,
    /// Id of the enabled shader pack.
    pub shader_pack: Option<String>,
    /// Directory of the enabled shader pack.
    pub shader_config_path: Option<String>,
}

/// The cache file that the arguments name under a flag, or the usual one.
pub open spec fn cache_named(args: Seq<Seq<char>>, flag: Seq<char>) -> Seq<char> {
    match value_of(args, flag) {
        Some(p) => p,
        None => "target/feathered-cache.bin"@,
    }
}

pub fn cache_path(args: &[String], flag: &str) -> (r: String)
    ensures
        r@ == cache_named(names_of(args@), flag@),
{
    match arg_value(args, flag) {
        Some(p) => p,
        None => "target/feathered-cache.bin".to_owned(),
    }
}

/// The options of a run; `shader` is the id and directory of the enabled
/// shader pack.
pub fn run_options(args: &[String], pack_dir: String, shader: Option<(String, String)>) -> (r:
    RunOptions)
    ensures
        r.pack_dir == pack_dir,
        r.cache_path@ == cache_named(names_of(args@), "--cache"@),
        opt_text(r.screenshot) == value_of(names_of(args@), "--screenshot"@),
        r.quality == engine_quality(quality_of(value_of(names_of(args@), "--quality"@))),
        match shader {
            Some((id, dir)) => opt_text(r.shader_pack) == Some(id@) && opt_text(
                r.shader_config_path,
            ) == Some(dir@),
            None => r.shader_pack is None && r.shader_config_path is None,
        },
{
    let (shader_pack, shader_config_path) = match shader {
        Some((id, dir)) => (Some(id), Some(dir)),
        None => (None, None),
    };
    RunOptions {
        pack_dir,
        cache_path: cache_path(args, "--cache"),
        screenshot: arg_value(args, "--screenshot"),
        quality: render_quality(parse_quality(args)),
        shader_pack,
        shader_config_path,
    }
}

/// A path with its `~/` replaced by the home directory, where that is known.
pub open spec fn expanded(path: Seq<char>, home: Option<Seq<char>>) -> Seq<char> {
    match (strip_prefix(path, "~/"@), home) {
        (Some(rest), Some(h)) => joined_path(h, rest),
        _ => path,
    }
}

pub fn expand_tilde(path: &str, home: Option<&str>) -> (r: String)
    ensures
        r@ == expanded(
            path@,
            match home {
                Some(h) => Some(h@),
                None => None,
            },
        ),
{
    match (str_strip_prefix(path, "~/"), home) {
        (Some(rest), Some(h)) => join_path(h, rest.as_str()),
        _ => path.to_owned(),
    }
}

/// What the user picked on the first launch.
#[derive(Clone, Copy, Debug, PartialEq, Eq, Structural)]
pub enum MenuChoice {
    Import,
    OpenFolder,
    Browse,
    LocalPack,
    Nothing,
}

/// The choice that a line means. The local pack can be chosen only where
/// there is one.
pub open spec fn choice_of(line: Seq<char>, has_local: bool) -> MenuChoice {
    let c = trim(line);
    if c == "1"@ {
        MenuChoice::Import
    } else if c == "2"@ {
        MenuChoice::OpenFolder
    } else if c == "3"@ {
        MenuChoice::Browse
    } else if c == "4"@ && has_local {
        MenuChoice::LocalPack
    } else {
        MenuChoice::Nothing
    }
}

pub fn menu_choice(line: &str, has_local: bool) -> (r: MenuChoice)
    ensures
        r == choice_of(line@, has_local),
{
    let l = chars_of(line);
    let c = trim_chars(&l);
    if is_word(&c, "1") {
        MenuChoice::Import
    } else if is_word(&c, "2") {
        MenuChoice::OpenFolder
    } else if is_word(&c, "3") {
        MenuChoice::Browse
    } else if is_word(&c, "4") && has_local {
        MenuChoice::LocalPack
    } else {
        MenuChoice::Nothing
    }
}

/// The words of the commands; no other word is one.
pub proof fn law_commands_have_words(word: Seq<char>)
    ensures
        command_of("first-run"@) == Command::FirstRun,
        command_of("packs"@) == Command::Packs,
        command_of("shaders"@) == Command::Shaders,
        command_of("compile-pack"@) == Command::CompilePack,
        command_of("validate"@) == Command::Validate,
        command_of("render"@) == Command::Render,
        command_of("help"@) == Command::Help,
        command_of("--help"@) == Command::Help,
        command_of("-h"@) == Command::Help,
        word != "first-run"@ && word != "packs"@ && word != "shaders"@ && word != "compile-pack"@ && word != "validate"@ && word != "render"@ && word != "help"@ && word != "--help"@ && word != "-h"@ ==> command_of(word) == Command::Unknown,
{
    reveal_strlit("first-run");
    reveal_strlit("packs");
    reveal_strlit("shaders");
    reveal_strlit("compile-pack");
    reveal_strlit("validate");
    reveal_strlit("render");
    reveal_strlit("help");
    reveal_strlit("--help");
    reveal_strlit("-h");
    assert("first-run"@.len() == 9);
    assert("packs"@.len() == 5);
    assert("shaders"@.len() == 7);
    assert("compile-pack"@.len() == 12);
    assert("validate"@.len() == 8);
    assert("render"@.len() == 6);
    assert("help"@.len() == 4);
    assert("--help"@.len() == 6);
    assert("-h"@.len() == 2);
    assert("render"@[0] != "--help"@[0]);
}

/// The words of the actions on packs; no other word is one.
pub proof fn law_pack_actions_have_words(word: Seq<char>)
    ensures
        packs_action_of("list"@) == PacksAction::List,
        packs_action_of("import"@) == PacksAction::Import,
        packs_action_of("use"@) == PacksAction::Use,
        packs_action_of("uninstall"@) == PacksAction::Uninstall,
        packs_action_of("open-folder"@) == PacksAction::OpenFolder,
        packs_action_of("browse"@) == PacksAction::Browse,
        packs_action_of("scan"@) == PacksAction::Scan,
        word != "list"@ && word != "import"@ && word != "use"@ && word != "uninstall"@ && word != "open-folder"@ && word != "browse"@ && word != "scan"@ ==> packs_action_of(word) == PacksAction::Unknown,
{
    reveal_strlit("list");
    reveal_strlit("import");
    reveal_strlit("use");
    reveal_strlit("uninstall");
    reveal_strlit("open-folder");
    reveal_strlit("browse");
    reveal_strlit("scan");
    assert("list"@.len() == 4);
    assert("import"@.len() == 6);
    assert("use"@.len() == 3);
    assert("uninstall"@.len() == 9);
    assert("open-folder"@.len() == 11);
    assert("browse"@.len() == 6);
    assert("scan"@.len() == 4);
    assert("list"@[0] != "scan"@[0]);
    assert("import"@[0] != "browse"@[0]);
}

/// The words of the actions on shaders; no other word is one.
pub proof fn law_shader_actions_have_words(word: Seq<char>)
    ensures
        shaders_action_of("list"@) == ShadersAction::List,
        shaders_action_of("import"@) == ShadersAction::Import,
        shaders_action_of("enable"@) == ShadersAction::Enable,
        shaders_action_of("disable"@) == ShadersAction::Disable,
        shaders_action_of("uninstall"@) == ShadersAction::Uninstall,
        word != "list"@ && word != "import"@ && word != "enable"@ && word != "disable"@ && word != "uninstall"@ ==> shaders_action_of(word) == ShadersAction::Unknown,
{
    reveal_strlit("list");
    reveal_strlit("import");
    reveal_strlit("enable");
    reveal_strlit("disable");
    reveal_strlit("uninstall");
    assert("list"@.len() == 4);
    assert("import"@.len() == 6);
    assert("enable"@.len() == 6);
    assert("disable"@.len() == 7);
    assert("uninstall"@.len() == 9);
    assert("import"@[0] != "enable"@[0]);
}

/// A flag's value is the argument behind its first place; a flag that is not
/// given, or given last, has none.
pub proof fn law_flags_take_the_next_argument(
    a: Seq<Seq<char>>,
    flag: Seq<char>,
    value: Seq<char>,
    rest: Seq<Seq<char>>,
)
    requires
        !a.contains(flag),
    ensures
        value_of(a + seq![flag, value] + rest, flag) == Some(value),
        value_of(a, flag) is None,
        value_of(a.push(flag), flag) is None,
{
    let s = a + seq![flag, value] + rest;
    assert(s.take(a.len() as int) =~= a);
    crate::text::law_names_are_found(s, flag, a.len() as int);
    assert(a.take(a.len() as int) =~= a);
    crate::text::law_names_are_found(a, flag, a.len() as int);
    assert(a.push(flag).take(a.len() as int) =~= a);
    crate::text::law_names_are_found(a.push(flag), flag, a.len() as int);
}

/// The words of the qualities, letter case aside; without a word, and for any
/// other, the quality is medium.
pub proof fn law_qualities_have_words(w: Seq<char>)
    ensures
        lower(w) == "low"@ ==> quality_of(Some(w)) == Quality::Low,
        lower(w) == "high"@ ==> quality_of(Some(w)) == Quality::High,
        lower(w) == "ultra"@ ==> quality_of(Some(w)) == Quality::Ultra,
        lower(w) == "medium"@ ==> quality_of(Some(w)) == Quality::Medium,
        lower(w) != "low"@ && lower(w) != "high"@ && lower(w) != "ultra"@ ==> quality_of(Some(w))
            == Quality::Medium,
        quality_of(None) == Quality::Medium,
{
    reveal_strlit("low");
    reveal_strlit("high");
    reveal_strlit("ultra");
    reveal_strlit("medium");
    assert("low"@.len() == 3);
    assert("high"@.len() == 4);
    assert("ultra"@.len() == 5);
    assert("medium"@.len() == 6);
}

/// The first pack whose id begins with the query or whose name is the query,
/// letter case aside, is meant.
pub proof fn law_first_match_is_meant(packs: Seq<(Seq<char>, Seq<char>)>, query: Seq<char>, i: int)
    requires
        0 <= i <= packs.len(),
        forall|k: int|
            0 <= k < i ==> !starts_with((#[trigger] packs[k]).0, query) && !same_ignoring_case(
                packs[k].1,
                query,
            ),
        i < packs.len() ==> starts_with(packs[i].0, query) || same_ignoring_case(packs[i].1, query),
    ensures
        first_answer(packs, query) == i,
    decreases packs.len(),
{
    if i > 0 {
        assert(!answers(packs[0], query));
        let rest = packs.skip(1);
        assert forall|k: int| 0 <= k < i - 1 implies !starts_with((#[trigger] rest[k]).0, query)
            && !same_ignoring_case(rest[k].1, query) by {
            assert(rest[k] == packs[k + 1]);
        }
        law_first_match_is_meant(rest, query, i - 1);
    }
}

/// The cache file is the one that the flag names, or the usual one.
pub proof fn law_cache_file_is_named(a: Seq<Seq<char>>, flag: Seq<char>, value: Seq<char>)
    requires
        !a.contains(flag),
    ensures
        cache_named(a + seq![flag, value] + Seq::empty(), flag) == value,
        cache_named(a, flag) == "target/feathered-cache.bin"@,
{
    law_flags_take_the_next_argument(a, flag, value, Seq::empty());
}

/// A path under `~/` lies in the home directory; any other path, and every
/// path where the home directory is unknown, stays.
pub proof fn law_home_is_expanded(rest: Seq<char>, path: Seq<char>, home: Seq<char>)
    requires
        home.len() > 0 && home.last() != '/',
        rest.len() == 0 || rest[0] != '/',
    ensures
        expanded(seq!['~', '/'] + rest, Some(home)) == home + seq!['/'] + rest,
        expanded(path, None) == path,
        path.len() == 0 || path[0] != '~' ==> expanded(path, Some(home)) == path,
{
    reveal_strlit("~/");
    assert("~/"@ =~= seq!['~', '/']);
    crate::text::law_parts_are_found(seq!['~', '/'], rest, Seq::empty());
    crate::paths::law_paths_join_with_one_slash(home, rest);
    if starts_with(path, "~/"@) {
        assert(path[0] == path.take(2)[0]);
    }
}

/// The lines of the menu: 1 to 3 for the three choices that are always there,
/// 4 for the local pack where there is one, and nothing for any other line.
pub proof fn law_menu_has_four_choices(line: Seq<char>, has_local: bool)
    ensures
        trim(line) == seq!['1'] ==> choice_of(line, has_local) == MenuChoice::Import,
        trim(line) == seq!['2'] ==> choice_of(line, has_local) == MenuChoice::OpenFolder,
        trim(line) == seq!['3'] ==> choice_of(line, has_local) == MenuChoice::Browse,
        trim(line) == seq!['4'] && has_local ==> choice_of(line, has_local) == MenuChoice::LocalPack,
        trim(line) == seq!['4'] && !has_local ==> choice_of(line, has_local) == MenuChoice::Nothing,
        trim(line) != seq!['1'] && trim(line) != seq!['2'] && trim(line) != seq!['3'] && trim(line)
            != seq!['4'] ==> choice_of(line, has_local) == MenuChoice::Nothing,
{
    reveal_strlit("1");
    reveal_strlit("2");
    reveal_strlit("3");
    reveal_strlit("4");
    assert("1"@ =~= seq!['1']);
    assert("2"@ =~= seq!['2']);
    assert("3"@ =~= seq!['3']);
    assert("4"@ =~= seq!['4']);
    assert(seq!['1'][0] == '1' && seq!['2'][0] == '2' && seq!['3'][0] == '3' && seq!['4'][0] == '4');
}

} // verus!
