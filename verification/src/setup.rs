//! The installation: the task that starts the service, commands with the
//! rights of an administrator, and the entries of the file manager's menu.

use vstd::prelude::*;
use crate::path;
use crate::text;

verus! {

// ---------------------------------------------------------------------------
// Commands
// ---------------------------------------------------------------------------

/// A text within single quotes, its own doubled.
pub open spec fn quoted(s: Seq<char>) -> Seq<char> {
    text::replace(s, '\'', "''"@)
}

/// A text with its single quotes doubled.
pub fn escape_single_quotes(value: &str) -> (r: String)
    ensures
        r@ == quoted(value@),
{
    text::replaced(value, '\'', "''")
}

/// `s` with doubled quotes made single again; none where a quote stands alone.
pub open spec fn unquoted(s: Seq<char>) -> Option<Seq<char>>
    decreases s.len(),
{
    if s.len() == 0 {
        Some(seq![])
    } else if s.last() != '\'' {
        match unquoted(s.drop_last()) {
            Some(t) => Some(t.push(s.last())),
            None => None,
        }
    } else if s.len() >= 2 && s[s.len() - 2] == '\'' {
        match unquoted(s.take(s.len() - 2)) {
            Some(t) => Some(t.push('\'')),
            None => None,
        }
    } else {
        None
    }
}

/// What was escaped can be read back: no quote of a text ends its quotation.
pub proof fn escaping_is_reversible(s: Seq<char>)
    ensures
        unquoted(quoted(s)) == Some(s),
    decreases s.len(),
{
    reveal_strlit("''");
    assert("''"@ =~= seq!['\'', '\'']);
    if s.len() > 0 {
        let before = quoted(s.drop_last());
        let now = quoted(s);
        escaping_is_reversible(s.drop_last());
        if s.last() == '\'' {
            assert(now =~= before + seq!['\'', '\'']);
            assert(now.take(now.len() - 2) =~= before);
        } else {
            assert(now.drop_last() =~= before);
        }
        assert(s.drop_last().push(s.last()) =~= s);
    }
}

/// The arguments, each escaped and within quotes.
pub open spec fn quoted_list(args: Seq<Seq<char>>) -> Seq<Seq<char>> {
    Seq::new(args.len(), |i: int| "'"@ + quoted(args[i]) + "'"@)
}

/// The command that starts a program again with the rights of an
/// administrator.
pub open spec fn elevation(exe: Seq<char>, args: Seq<Seq<char>>) -> Seq<char> {
    "Start-Process -FilePath '"@ + quoted(exe) + "' -ArgumentList @("@ + text::join(
        quoted_list(args),
        ", "@,
    ) + ") -Verb RunAs -Wait"@
}

/// The command that starts a program again with the rights of an
/// administrator.
pub fn elevation_command(exe: &str, args: &Vec<String>) -> (r: String)
    ensures
        r@ == elevation(exe@, text::texts(args@)),
{
    let ghost all = text::texts(args@);
    let mut list: Vec<String> = Vec::with_capacity(args.len());
    let mut i: usize = 0;
    while i < args.len()
        invariant
            i <= args@.len() == all.len(),
            all == text::texts(args@),
            list@.len() == i,
            forall|k: int|
                0 <= k < i ==> (#[trigger] list@[k])@ == "'"@ + quoted(all[k]) + "'"@,
        decreases args@.len() - i,
    {
        let mut arg = text::copy_text("'");
        text::push_text(&mut arg, escape_single_quotes(args[i].as_str()).as_str());
        text::push_text(&mut arg, "'");
        assert(all[i as int] == args@[i as int]@);
        list.push(arg);
        i += 1;
    }
    assert(text::texts(list@) =~= quoted_list(all));
    let mut s = text::copy_text("Start-Process -FilePath '");
    text::push_text(&mut s, escape_single_quotes(exe).as_str());
    text::push_text(&mut s, "' -ArgumentList @(");
    text::push_text(&mut s, text::joined(&list, ", ").as_str());
    text::push_text(&mut s, ") -Verb RunAs -Wait");
    s
}

/// An option and its value, where there is one.
pub open spec fn option_args(name: Seq<char>, value: Option<Seq<char>>) -> Seq<Seq<char>> {
    match value {
        Some(v) => seq![name, v],
        None => seq![],
    }
}

/// The arguments with which an installation is started again.
pub open spec fn install_args(
    drives: Seq<char>,
    service_exe: Option<Seq<char>>,
    index: Option<Seq<char>>,
    log_file: Option<Seq<char>>,
    exclude: Option<Seq<char>>,
) -> Seq<Seq<char>> {
    seq!["service"@, "install"@, "--drives"@, drives] + option_args("--service-exe"@, service_exe)
        + option_args("--index"@, index) + option_args("--log-file"@, log_file) + option_args(
        "--exclude"@,
        exclude,
    )
}

fn push_option(args: &mut Vec<String>, name: &str, value: &Option<String>)
    ensures
        text::texts(final(args)@) == text::texts(old(args)@) + option_args(
            name@,
            text::text_of(*value),
        ),
{
    let ghost had = text::texts(args@);
    if let Some(v) = value {
        args.push(text::copy_text(name));
        args.push(text::copy_text(v.as_str()));
        assert(text::texts(args@) =~= had + seq![name@, v@]);
    } else {
        assert(text::texts(args@) =~= had + Seq::<Seq<char>>::empty());
    }
}

/// The arguments with which an installation is started again.
pub fn install_arguments(
    drives: &str,
    service_exe: &Option<String>,
    index: &Option<String>,
    log_file: &Option<String>,
    exclude: &Option<String>,
) -> (r: Vec<String>)
    ensures
        text::texts(r@) == install_args(
            drives@,
            text::text_of(*service_exe),
            text::text_of(*index),
            text::text_of(*log_file),
            text::text_of(*exclude),
        ),
{
    let mut args: Vec<String> = Vec::new();
    args.push(text::copy_text("service"));
    args.push(text::copy_text("install"));
    args.push(text::copy_text("--drives"));
    args.push(text::copy_text(drives));
    assert(text::texts(args@) =~= seq!["service"@, "install"@, "--drives"@, drives@]);
    push_option(&mut args, "--service-exe", service_exe);
    push_option(&mut args, "--index", index);
    push_option(&mut args, "--log-file", log_file);
    push_option(&mut args, "--exclude", exclude);
    args
}

/// The command of the task that starts the service. Without a path for the
/// index files, the service keeps one file per drive in its own directory.
pub open spec fn task_command(
    service_exe: Seq<char>,
    drives_csv: Seq<char>,
    index_base: Option<Seq<char>>,
    log_path: Seq<char>,
    exclude_csv: Seq<char>,
) -> Seq<char> {
    let index = match index_base {
        Some(base) => " --index \""@ + base + "\""@,
        None => seq![],
    };
    let command = "\""@ + service_exe + "\" --drives "@ + drives_csv + index + " --log-file \""@
        + log_path + "\""@;
    if text::trim(exclude_csv).len() == 0 {
        command
    } else {
        command + " --exclude \""@ + text::replace(exclude_csv, '"', ""@) + "\""@
    }
}

/// The command of the task that starts the service.
pub fn build_service_task_command(
    service_exe: &str,
    drives_csv: &str,
    index_base: &Option<String>,
    log_path: &str,
    exclude_csv: &str,
) -> (r: String)
    ensures
        r@ == task_command(
            service_exe@,
            drives_csv@,
            text::text_of(*index_base),
            log_path@,
            exclude_csv@,
        ),
{
    let mut s = text::copy_text("\"");
    text::push_text(&mut s, service_exe);
    text::push_text(&mut s, "\" --drives ");
    text::push_text(&mut s, drives_csv);
    let ghost start = s@;
    if let Some(base) = index_base {
        text::push_text(&mut s, " --index \"");
        text::push_text(&mut s, base.as_str());
        text::push_text(&mut s, "\"");
        assert(s@ =~= start + (" --index \""@ + base@ + "\""@));
    } else {
        assert(s@ =~= start + Seq::<char>::empty());
    }
    text::push_text(&mut s, " --log-file \"");
    text::push_text(&mut s, log_path);
    text::push_text(&mut s, "\"");
    let trimmed = text::trimmed(exclude_csv);
    proof {
        text::byte_len_zero(trimmed@);
    }
    if text::len_in_bytes(trimmed.as_str()) != 0 {
        text::push_text(&mut s, " --exclude \"");
        text::push_text(&mut s, text::replaced(exclude_csv, '"', "").as_str());
        text::push_text(&mut s, "\"");
    }
    s
}

/// No quote of the excluded paths ends their quotation.
pub proof fn excluded_paths_hold_no_quote(exclude_csv: Seq<char>)
    ensures
        !text::replace(exclude_csv, '"', ""@).contains('"'),
    decreases exclude_csv.len(),
{
    reveal_strlit("");
    if exclude_csv.len() > 0 {
        excluded_paths_hold_no_quote(exclude_csv.drop_last());
        let before = text::replace(exclude_csv.drop_last(), '"', ""@);
        let now = text::replace(exclude_csv, '"', ""@);
        if now.contains('"') {
            let k = choose|k: int| 0 <= k < now.len() && now[k] == '"';
            if k < before.len() {
                assert(before[k] == '"');
            }
        }
    }
}

// ---------------------------------------------------------------------------
// Files
// ---------------------------------------------------------------------------

/// The directory of the program's data.
pub open spec fn data_dir(program_data: Option<Seq<char>>) -> Seq<char> {
    path::join(
        match program_data {
            Some(dir) => dir,
            None => "C:\\ProgramData"@,
        },
        "Rayo"@,
    )
}

/// The directory of the program's data, below what the system gives for it.
pub fn default_background_data_dir(program_data: &Option<String>) -> (r: String)
    ensures
        r@ == data_dir(text::text_of(*program_data)),
{
    match program_data {
        Some(dir) => path::joined(dir.as_str(), "Rayo"),
        None => path::joined("C:\\ProgramData", "Rayo"),
    }
}

/// The path of the log of the service.
pub fn default_background_log_path(program_data: &Option<String>) -> (r: String)
    ensures
        r@ == path::join(data_dir(text::text_of(*program_data)), "service.log"@),
{
    path::joined(default_background_data_dir(program_data).as_str(), "service.log")
}

/// Where a program of a build stands.
pub open spec fn build_candidates(name: Seq<char>) -> Seq<Seq<char>> {
    seq![
        path::join(path::join("target"@, "release"@), name),
        path::join(path::join("target"@, "debug"@), name),
    ]
}

/// Where the service is looked for: in the directory of the installation, next
/// to the running program, and in the builds.
pub open spec fn service_candidates(
    local_app_data: Option<Seq<char>>,
    exe_dir: Option<Seq<char>>,
) -> Seq<Seq<char>> {
    let installed = match local_app_data {
        Some(dir) => seq![path::join(path::join(dir, "Rayo"@), "rayo-service.exe"@)],
        None => seq![],
    };
    let beside = match exe_dir {
        Some(dir) => seq![path::join(dir, "rayo-service.exe"@)],
        None => seq![],
    };
    installed + beside + build_candidates("rayo-service.exe"@)
}

fn push_builds(list: &mut Vec<String>, name: &str)
    ensures
        text::texts(final(list)@) == text::texts(old(list)@) + build_candidates(name@),
{
    let ghost had = text::texts(list@);
    list.push(path::joined(path::joined("target", "release").as_str(), name));
    list.push(path::joined(path::joined("target", "debug").as_str(), name));
    assert(text::texts(list@) =~= had + build_candidates(name@));
}

/// Where the service is looked for.
pub fn service_exe_candidates(local_app_data: &Option<String>, exe_dir: &Option<String>) -> (r: Vec<
    String,
>)
    ensures
        text::texts(r@) == service_candidates(
            text::text_of(*local_app_data),
            text::text_of(*exe_dir),
        ),
{
    let mut list: Vec<String> = Vec::new();
    let ghost mut so_far: Seq<Seq<char>> = seq![];
    assert(text::texts(list@) =~= so_far);
    if let Some(dir) = local_app_data {
        let p = path::joined(path::joined(dir.as_str(), "Rayo").as_str(), "rayo-service.exe");
        proof {
            so_far = seq![p@];
        }
        list.push(p);
        assert(text::texts(list@) =~= so_far);
    }
    if let Some(dir) = exe_dir {
        let p = path::joined(dir.as_str(), "rayo-service.exe");
        proof {
            so_far = so_far + seq![p@];
        }
        list.push(p);
        assert(text::texts(list@) =~= so_far);
    } else {
        assert(so_far + Seq::<Seq<char>>::empty() =~= so_far);
    }
    push_builds(&mut list, "rayo-service.exe");
    list
}

/// Where the window is looked for: next to the running program, and in the
/// builds.
pub fn gui_exe_candidates(exe_dir: &str) -> (r: Vec<String>)
    ensures
        text::texts(r@) == seq![path::join(exe_dir@, "rayo-gui.exe"@)] + build_candidates(
            "rayo-gui.exe"@,
        ),
{
    let mut list: Vec<String> = Vec::new();
    list.push(path::joined(exe_dir, "rayo-gui.exe"));
    assert(text::texts(list@) =~= seq![path::join(exe_dir@, "rayo-gui.exe"@)]);
    push_builds(&mut list, "rayo-gui.exe");
    list
}

/// The first candidate that is there, by what the caller found of each.
pub fn first_existing(candidates: &Vec<String>, exists_there: &Vec<bool>) -> (r: Option<String>)
    requires
        exists_there@.len() == candidates@.len(),
    ensures
        match r {
            Some(p) => exists|i: int|
                0 <= i < candidates@.len() && #[trigger] exists_there@[i] && p@ == candidates@[i]@
                    && forall|j: int| 0 <= j < i ==> !exists_there@[j],
            None => forall|i: int| 0 <= i < candidates@.len() ==> !exists_there@[i],
        },
{
    let mut i: usize = 0;
    while i < candidates.len()
        invariant
            i <= candidates@.len() == exists_there@.len(),
            forall|j: int| 0 <= j < i ==> !exists_there@[j],
        decreases candidates@.len() - i,
    {
        if exists_there[i] {
            assert(exists_there@[i as int]);
            return Some(text::copy_text(candidates[i].as_str()));
        }
        i += 1;
    }
    None
}

// ---------------------------------------------------------------------------
// The menu of the file manager
// ---------------------------------------------------------------------------

/// An entry of the menu: where it stands, how it is called, and its command.
#[derive(Debug, Clone)]
pub struct ShellEntry {
    pub key: String,
    pub label: String,
    pub command: String,
}

/// The command of an entry: the program, an option, and what was clicked.
pub open spec fn menu_command(gui_exe: Seq<char>, option: Seq<char>, clicked: Seq<char>) -> Seq<
    char,
> {
    "\""@ + gui_exe + "\" "@ + option + " \""@ + clicked + "\""@
}

fn shell_entry(key: &str, label: &str, gui_exe: &str, option: &str, clicked: &str) -> (r: ShellEntry)
    ensures
        r.key@ == key@,
        r.label@ == label@,
        r.command@ == menu_command(gui_exe@, option@, clicked@),
{
    let mut command = text::copy_text("\"");
    text::push_text(&mut command, gui_exe);
    text::push_text(&mut command, "\" ");
    text::push_text(&mut command, option);
    text::push_text(&mut command, " \"");
    text::push_text(&mut command, clicked);
    text::push_text(&mut command, "\"");
    ShellEntry { key: text::copy_text(key), label: text::copy_text(label), command }
}

/// The entries of the menu: for directories, for their background, and for
/// files.
pub fn shell_entries(gui_exe: &str) -> (r: Vec<ShellEntry>)
    ensures
        r@.len() == 3,
        r@[0].key@ == "Software\\Classes\\Directory\\shell\\RayoSearch"@,
        r@[0].label@ == "Search with Rayo here"@,
        r@[0].command@ == menu_command(gui_exe@, "--under"@, "%1"@),
        r@[1].key@ == "Software\\Classes\\Directory\\Background\\shell\\RayoSearch"@,
        r@[1].label@ == "Search with Rayo here"@,
        r@[1].command@ == menu_command(gui_exe@, "--under"@, "%V"@),
        r@[2].key@ == "Software\\Classes\\*\\shell\\RayoSearch"@,
        r@[2].label@ == "Search with Rayo for similar files"@,
        r@[2].command@ == menu_command(gui_exe@, "--open"@, "%1"@),
{
    let mut list: Vec<ShellEntry> = Vec::new();
    list.push(
        shell_entry(
            "Software\\Classes\\Directory\\shell\\RayoSearch",
            "Search with Rayo here",
            gui_exe,
            "--under",
            "%1",
        ),
    );
    list.push(
        shell_entry(
            "Software\\Classes\\Directory\\Background\\shell\\RayoSearch",
            "Search with Rayo here",
            gui_exe,
            "--under",
            "%V",
        ),
    );
    list.push(
        shell_entry(
            "Software\\Classes\\*\\shell\\RayoSearch",
            "Search with Rayo for similar files",
            gui_exe,
            "--open",
            "%1",
        ),
    );
    list
}

// ---------------------------------------------------------------------------
// Laws of the commands
// ---------------------------------------------------------------------------

/// Every quote in an argument is doubled, and every other character is kept.
pub proof fn quotes_are_doubled(a: Seq<char>, c: char)
    ensures
        c == '\'' ==> quoted(a.push(c)) == quoted(a) + seq!['\'', '\''],
        c != '\'' ==> quoted(a.push(c)) == quoted(a).push(c),
        quoted(seq![]) == Seq::<char>::empty(),
{
    assert(a.push(c).drop_last() =~= a);
    reveal_strlit("''");
    assert("''"@ =~= seq!['\'', '\'']);
}

/// Each argument stands in quotes of its own, in its place.
pub proof fn arguments_stand_in_quotes(args: Seq<Seq<char>>, i: int)
    requires
        0 <= i < args.len(),
    ensures
        quoted_list(args).len() == args.len(),
        quoted_list(args)[i] == seq!['\''] + quoted(args[i]) + seq!['\''],
        unquoted(quoted(args[i])) == Some(args[i]),
{
    reveal_strlit("'");
    assert("'"@ =~= seq!['\'']);
    escaping_is_reversible(args[i]);
}

/// An option is passed on by its name and its value where it is given, and not
/// at all where it is not; the drives always are.
pub proof fn options_are_passed_on(
    drives: Seq<char>,
    service_exe: Option<Seq<char>>,
    index: Option<Seq<char>>,
    log_file: Option<Seq<char>>,
    exclude: Option<Seq<char>>,
)
    ensures
        ({
            let args = install_args(drives, service_exe, index, log_file, exclude);
            let given = |o: Option<Seq<char>>|
                if o is Some {
                    2int
                } else {
                    0int
                };
            let a = 4 + given(service_exe);
            let b = a + given(index);
            let c = b + given(log_file);
            &&& args.len() == c + given(exclude)
            &&& args[0] == "service"@ && args[1] == "install"@ && args[2] == "--drives"@
            &&& args[3] == drives
            &&& service_exe matches Some(v) ==> args[4] == "--service-exe"@ && args[5] == v
            &&& index matches Some(v) ==> args[a] == "--index"@ && args[a + 1] == v
            &&& log_file matches Some(v) ==> args[b] == "--log-file"@ && args[b + 1] == v
            &&& exclude matches Some(v) ==> args[c] == "--exclude"@ && args[c + 1] == v
        }),
{
}

/// The service starts with its own program in quotes, the drives, the index
/// where one is given, and the log; what is left out is named only where it is
/// not blank.
pub proof fn services_start_with_their_options(
    service_exe: Seq<char>,
    drives_csv: Seq<char>,
    index_base: Option<Seq<char>>,
    log_path: Seq<char>,
    exclude_csv: Seq<char>,
)
    ensures
        ({
            let command = task_command(
                service_exe,
                drives_csv,
                index_base,
                log_path,
                exclude_csv,
            );
            let plain = task_command(service_exe, drives_csv, None, log_path, seq![]);
            let front = seq!['"'] + service_exe + seq!['"', ' ', '-', '-', 'd', 'r', 'i', 'v', 'e', 's', ' ']
                + drives_csv;
            &&& plain.len() >= front.len() && plain.take(front.len() as int) == front
            &&& command.len() >= front.len() && command.take(front.len() as int) == front
            &&& index_base is None && (forall|i: int|
                0 <= i < exclude_csv.len() ==> text::is_space(#[trigger] exclude_csv[i]))
                ==> command == plain
        }),
{
    let none = Seq::<char>::empty();
    let front = seq!['"'] + service_exe + seq!['"', ' ', '-', '-', 'd', 'r', 'i', 'v', 'e', 's', ' ']
        + drives_csv;
    reveal_strlit("\"");
    reveal_strlit("\" --drives ");
    assert("\""@ =~= seq!['"']);
    assert("\" --drives "@ =~= seq!['"', ' ', '-', '-', 'd', 'r', 'i', 'v', 'e', 's', ' ']);
    let command = task_command(service_exe, drives_csv, index_base, log_path, exclude_csv);
    let plain = task_command(service_exe, drives_csv, None, log_path, none);
    text::trimming_takes_the_spaces(none, none, none);
    assert(none + none + none =~= none);
    assert(plain.take(front.len() as int) =~= front);
    assert(command.take(front.len() as int) =~= front);
    if forall|i: int| 0 <= i < exclude_csv.len() ==> text::is_space(#[trigger] exclude_csv[i]) {
        text::trimming_takes_the_spaces(exclude_csv, none, none);
        assert(exclude_csv + none + none =~= exclude_csv);
    }
}

/// The data of the service lies in a folder of its own in the folder for such
/// data.
pub proof fn data_lies_in_its_own_folder(dir: Seq<char>)
    requires
        dir.len() > 2,
        dir.last() != '\\' && dir.last() != '/',
    ensures
        data_dir(Some(dir)) == dir + seq!['\\', 'R', 'a', 'y', 'o'],
        data_dir(None) == "C:\\ProgramData"@ + seq!['\\', 'R', 'a', 'y', 'o'],
{
    reveal_strlit("Rayo");
    reveal_strlit("C:\\ProgramData");
    assert("Rayo"@ =~= seq!['R', 'a', 'y', 'o']);
    assert("Rayo"@.len() != 1 && "Rayo"@.len() != 2);
    path::joining_parts_by_one_separator(dir, "Rayo"@);
    path::joining_parts_by_one_separator("C:\\ProgramData"@, "Rayo"@);
    assert(dir + seq!['\\'] + "Rayo"@ =~= dir + seq!['\\', 'R', 'a', 'y', 'o']);
    assert("C:\\ProgramData"@ + seq!['\\'] + "Rayo"@ =~= "C:\\ProgramData"@ + seq![
        '\\',
        'R',
        'a',
        'y',
        'o',
    ]);
}

/// The service is sought where it was installed, then beside the program, then
/// where it was built.
pub proof fn services_are_sought_in_order(local: Seq<char>, beside: Seq<char>)
    requires
        local.len() > 2,
        local.last() != '\\' && local.last() != '/',
        beside.len() > 2,
        beside.last() != '\\' && beside.last() != '/',
    ensures
        service_candidates(Some(local), Some(beside)).len() == 4,
        service_candidates(Some(local), Some(beside))[0] == local + seq!['\\'] + "Rayo"@ + seq![
            '\\',
        ] + "rayo-service.exe"@,
        service_candidates(Some(local), Some(beside))[1] == beside + seq!['\\']
            + "rayo-service.exe"@,
        service_candidates(None, Some(beside)) == service_candidates(
            Some(local),
            Some(beside),
        ).drop_first(),
        service_candidates(None, None) == service_candidates(None, Some(beside)).drop_first(),
{
    reveal_strlit("Rayo");
    reveal_strlit("rayo-service.exe");
    assert("Rayo"@ =~= seq!['R', 'a', 'y', 'o']);
    assert("Rayo"@.len() == 4 && "Rayo"@[3] == 'o');
    assert("rayo-service.exe"@.len() == 16);
    assert(path::plain_name("Rayo"@));
    assert(path::plain_name("rayo-service.exe"@));
    path::joining_parts_by_one_separator(local, "Rayo"@);
    let own = local + seq!['\\'] + "Rayo"@;
    assert(own.last() == 'o');
    path::joining_parts_by_one_separator(own, "rayo-service.exe"@);
    path::joining_parts_by_one_separator(beside, "rayo-service.exe"@);
    let all = service_candidates(Some(local), Some(beside));
    assert(service_candidates(None, Some(beside)) =~= all.drop_first());
    assert(service_candidates(None, None) =~= service_candidates(
        None,
        Some(beside),
    ).drop_first());
}

/// An entry of a menu opens the program with what was clicked, both in quotes.
pub proof fn menus_open_what_was_clicked(gui_exe: Seq<char>, option: Seq<char>, clicked: Seq<char>)
    ensures
        menu_command(gui_exe, option, clicked) == seq!['"'] + gui_exe + seq!['"', ' '] + option
            + seq![' ', '"'] + clicked + seq!['"'],
{
    reveal_strlit("\"");
    reveal_strlit("\" ");
    reveal_strlit(" \"");
    assert("\""@ =~= seq!['"']);
    assert("\" "@ =~= seq!['"', ' ']);
    assert(" \""@ =~= seq![' ', '"']);
}

/// The program is started with rights by its own path and its arguments, each in
/// quotes from which it can be read back.
pub proof fn programs_are_started_with_their_arguments(exe: Seq<char>, args: Seq<Seq<char>>)
    ensures
        exists|front: Seq<char>, back: Seq<char>| #[trigger]
            (front + seq!['\''] + quoted(exe) + seq!['\''] + back) == elevation(exe, args)
                && front == "Start-Process -FilePath "@ && back == " -ArgumentList @("@ + text::join(
                quoted_list(args),
                seq![',', ' '],
            ) + ") -Verb RunAs -Wait"@,
        unquoted(quoted(exe)) == Some(exe),
{
    escaping_is_reversible(exe);
    reveal_strlit("Start-Process -FilePath '");
    reveal_strlit("Start-Process -FilePath ");
    reveal_strlit("' -ArgumentList @(");
    reveal_strlit(" -ArgumentList @(");
    reveal_strlit(", ");
    assert("Start-Process -FilePath '"@ =~= "Start-Process -FilePath "@ + seq!['\'']);
    assert("' -ArgumentList @("@ =~= seq!['\''] + " -ArgumentList @("@);
    assert(", "@ =~= seq![',', ' ']);
    let front = "Start-Process -FilePath "@;
    let back = " -ArgumentList @("@ + text::join(quoted_list(args), seq![',', ' '])
        + ") -Verb RunAs -Wait"@;
    assert(front + seq!['\''] + quoted(exe) + seq!['\''] + back =~= elevation(exe, args));
}

/// An index that is given is named in quotes before the log; what is left out is
/// named in quotes at the end, without any quotes of its own.
pub proof fn services_are_told_their_paths(
    service_exe: Seq<char>,
    drives_csv: Seq<char>,
    base: Seq<char>,
    log_path: Seq<char>,
    exclude_csv: Seq<char>,
)
    ensures
        task_command(service_exe, drives_csv, Some(base), log_path, seq![]) == seq!['"']
            + service_exe + "\" --drives "@ + drives_csv + " --index \""@ + base
            + "\" --log-file \""@ + log_path + seq!['"'],
        task_command(service_exe, drives_csv, None, log_path, seq![]) == seq!['"'] + service_exe
            + "\" --drives "@ + drives_csv + " --log-file \""@ + log_path + seq!['"'],
        text::trim(exclude_csv).len() > 0 ==> task_command(
            service_exe,
            drives_csv,
            Some(base),
            log_path,
            exclude_csv,
        ) == task_command(service_exe, drives_csv, Some(base), log_path, seq![])
            + " --exclude \""@ + text::replace(exclude_csv, '"', seq![]) + seq!['"'],
{
    let none = Seq::<char>::empty();
    reveal_strlit("\"");
    reveal_strlit("");
    reveal_strlit(" --log-file \"");
    reveal_strlit("\" --log-file \"");
    assert("\""@ =~= seq!['"']);
    assert(""@ =~= none);
    assert("\" --log-file \""@ =~= seq!['"'] + " --log-file \""@);
    text::trimming_takes_the_spaces(none, none, none);
    assert(none + none + none =~= none);
    assert(task_command(service_exe, drives_csv, Some(base), log_path, none) =~= seq!['"']
        + service_exe + "\" --drives "@ + drives_csv + " --index \""@ + base
        + "\" --log-file \""@ + log_path + seq!['"']);
    assert(task_command(service_exe, drives_csv, None, log_path, none) =~= seq!['"'] + service_exe
        + "\" --drives "@ + drives_csv + " --log-file \""@ + log_path + seq!['"']);
}

/// Taking the quotes out of a text takes nothing else.
pub proof fn only_quotes_are_taken_out(a: Seq<char>, c: char)
    ensures
        c == '"' ==> text::replace(a.push(c), '"', seq![]) == text::replace(a, '"', seq![]),
        c != '"' ==> text::replace(a.push(c), '"', seq![]) == text::replace(
            a,
            '"',
            seq![],
        ).push(c),
{
    assert(a.push(c).drop_last() =~= a);
    let kept = text::replace(a, '"', seq![]);
    assert(kept + Seq::<char>::empty() =~= kept);
}

} // verus!
