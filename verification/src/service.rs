//! Commands that start, stop and restart the proxy: which of them may be run, and what is said of
//! their outcome.

use crate::text::{
    char_is_alphanumeric, char_views, chars_of, has_at, has_piece, holds_piece, is_alphanumeric,
    is_blank, is_whitespace, is_word, joined, joined_words_are_read_back, lemma_split_append,
    lemma_split_whole, lemma_words, opt_view, same_chars, same_text, split, split_at_set,
    text_of, trim, trimmed, views, words, words_of, CharSet,
};
use vstd::prelude::*;
use vstd::string::StringExecFns;

verus! {

// ---------------------------------------------------------------------------
// Actions
// ---------------------------------------------------------------------------

/// What is to be done with the proxy.
#[derive(Clone, Copy, Debug, PartialEq, Eq, Structural)]
pub enum SingboxAction {
    Start,
    Stop,
    Restart,
}

/// The word for an action.
pub open spec fn action_word(action: SingboxAction) -> Seq<char> {
    match action {
        SingboxAction::Start => "start"@,
        SingboxAction::Stop => "stop"@,
        SingboxAction::Restart => "restart"@,
    }
}

impl SingboxAction {
    /// The action that a word stands for.
    pub fn from_str(action: &str) -> (r: Option<SingboxAction>)
        ensures
            match r {
                Some(a) => action@ == action_word(a),
                None => action@ != "start"@ && action@ != "stop"@ && action@ != "restart"@,
            },
    {
        if same_text(action, "start") {
            Some(SingboxAction::Start)
        } else if same_text(action, "stop") {
            Some(SingboxAction::Stop)
        } else if same_text(action, "restart") {
            Some(SingboxAction::Restart)
        } else {
            None
        }
    }

    /// The word for the action.
    pub fn as_str(self) -> (r: &'static str)
        ensures
            r@ == action_word(self),
    {
        match self {
            SingboxAction::Start => "start",
            SingboxAction::Stop => "stop",
            SingboxAction::Restart => "restart",
        }
    }
}

/// Different actions have different words, so that the word of an action stands for it alone.
pub proof fn words_tell_actions_apart(a: SingboxAction, b: SingboxAction)
    requires
        action_word(a) == action_word(b),
    ensures
        a == b,
{
    reveal_strlit("start");
    reveal_strlit("stop");
    reveal_strlit("restart");
    assert("start"@.len() == 5 && "stop"@.len() == 4 && "restart"@.len() == 7);
}

// ---------------------------------------------------------------------------
// Which commands may be run
// ---------------------------------------------------------------------------

pub open spec fn is_metachar(c: char) -> bool {
    c == ';' || c == '&' || c == '|' || c == '>' || c == '<' || c == '`' || c == '$' || c == '\n'
        || c == '\r'
}

pub open spec fn has_metachar(s: Seq<char>) -> bool {
    exists|i: int| 0 <= i < s.len() && is_metachar(#[trigger] s[i])
}

/// Whether the text holds a character that a shell would act on.
pub fn command_has_shell_metachar(value: &str) -> (r: bool)
    ensures
        r == has_metachar(value@),
{
    let v = chars_of(value);
    for i in 0..v.len()
        invariant
            v@ == value@,
            forall|j: int| 0 <= j < i ==> !is_metachar(#[trigger] v@[j]),
    {
        let c = v[i];
        if c == ';' || c == '&' || c == '|' || c == '>' || c == '<' || c == '`' || c == '$' || c
            == '\n' || c == '\r' {
            assert(is_metachar(v@[i as int]));
            return true;
        }
    }
    false
}

/// The last of the parts of a path that are not empty and not a single point.
pub open spec fn last_part(parts: Seq<Seq<char>>) -> Seq<char>
    decreases parts.len(),
{
    if parts.len() == 0 {
        Seq::empty()
    } else if parts.last().len() == 0 || parts.last() == "."@ {
        last_part(parts.drop_last())
    } else {
        parts.last()
    }
}

/// The name of the file that a path with slashes leads to, empty where it ends in two points or
/// leads to no file.
pub open spec fn file_name(path: Seq<char>) -> Seq<char> {
    let last = last_part(split(path, CharSet::One('/')));
    if last == ".."@ {
        Seq::empty()
    } else {
        last
    }
}

/// The name of the program that a path leads to.
pub fn command_name(program: &str) -> (r: String)
    ensures
        r@ == file_name(program@),
{
    let v = chars_of(program);
    let parts = split_at_set(v.as_slice(), CharSet::One('/'));
    let ghost all = split(program@, CharSet::One('/'));
    let mut k: usize = parts.len();
    let point = chars_of(".");
    let points = chars_of("..");
    assert(all.take(k as int) =~= all);
    while k > 0
        invariant
            k <= parts@.len(),
            all == char_views(parts@),
            all == split(program@, CharSet::One('/')),
            point@ == "."@,
            points@ == ".."@,
            last_part(all) == last_part(all.take(k as int)),
        decreases k,
    {
        let part = parts[k - 1].as_slice();
        let ghost here = all.take(k as int);
        assert(here.last() == part@);
        assert(here.drop_last() =~= all.take(k - 1));
        if part.len() > 0 && !same_chars(part, point.as_slice()) {
            if same_chars(part, points.as_slice()) {
                return String::new();
            }
            return text_of(part);
        }
        k = k - 1;
    }
    proof {
        reveal_strlit("..");
    }
    String::new()
}

pub open spec fn is_service_char(c: char) -> bool {
    is_alphanumeric(c) || c == '.' || c == '_' || c == '-' || c == '/' || c == '@'
}

/// A label that names a service of the proxy and holds nothing unusual.
pub open spec fn is_service_name(value: Seq<char>) -> bool {
    has_piece(value, "sing-box"@) && forall|i: int|
        0 <= i < value.len() ==> is_service_char(#[trigger] value[i])
}

/// Whether the label names a service of the proxy.
pub fn valid_service_name(value: &str) -> (r: bool)
    ensures
        r == is_service_name(value@),
{
    let v = chars_of(value);
    let piece = chars_of("sing-box");
    if !holds_piece(v.as_slice(), piece.as_slice()) {
        return false;
    }
    for i in 0..v.len()
        invariant
            v@ == value@,
            forall|j: int| 0 <= j < i ==> is_service_char(#[trigger] v@[j]),
    {
        let c = v[i];
        if !(char_is_alphanumeric(c) || c == '.' || c == '_' || c == '-' || c == '/' || c == '@') {
            assert(!is_service_char(v@[i as int]));
            return false;
        }
    }
    true
}

/// The arguments fit the program and the action.
pub open spec fn args_fit(command: Seq<char>, args: Seq<Seq<char>>, action: SingboxAction) -> bool {
    let word = action_word(action);
    if command == "brew"@ {
        args == seq!["services"@, word, "sing-box"@]
    } else if command == "systemctl"@ {
        args.len() == 2 && args[0] == word && (args[1] == "sing-box"@ || args[1]
            == "sing-box.service"@)
    } else if command == "launchctl"@ {
        if action == SingboxAction::Restart {
            args.len() == 3 && args[0] == "kickstart"@ && args[1] == "-k"@ && is_service_name(
                args[2],
            )
        } else {
            args.len() == 2 && args[0] == word && is_service_name(args[1])
        }
    } else {
        false
    }
}

/// What is said where the arguments do not fit.
pub open spec fn args_error(command: Seq<char>, action: SingboxAction) -> Seq<char> {
    let word = action_word(action);
    if command == "brew"@ {
        "brew 管理命令只允许: brew services "@ + word + " sing-box"@
    } else if command == "systemctl"@ {
        "systemctl 管理命令只允许: systemctl "@ + word + " sing-box"@
    } else if command == "launchctl"@ {
        if action == SingboxAction::Restart {
            "launchctl restart 只允许: launchctl kickstart -k <sing-box 服务标签>"@
        } else {
            "launchctl "@ + word + " 只允许操作包含 sing-box 的服务标签"@
        }
    } else {
        "不允许的 sing-box 管理命令: "@ + command
    }
}

/// The command is run by `sudo`.
pub open spec fn uses_sudo(parts: Seq<Seq<char>>) -> bool {
    parts.len() > 0 && file_name(parts[0]) == "sudo"@
}

/// What stands against running the command for the action, if anything. Only the managers of
/// services may be run, with exactly the arguments of the action; by `sudo` only where it does not
/// ask for a password.
pub open spec fn command_error(parts: Seq<Seq<char>>, action: SingboxAction) -> Option<Seq<char>> {
    let at = if uses_sudo(parts) {
        2
    } else {
        0int
    };
    if parts.len() == 0 {
        Some("命令为空"@)
    } else if uses_sudo(parts) && !(parts.len() > 1 && parts[1] == "-n"@) {
        Some("sudo 管理命令必须使用 -n 以避免阻塞等待密码"@)
    } else if parts.len() <= at {
        Some("sudo 后缺少实际管理命令"@)
    } else if args_fit(file_name(parts[at]), parts.skip(at + 1), action) {
        None
    } else {
        Some(args_error(file_name(parts[at]), action))
    }
}

/// Whether `parts`, from the index `from` on, are the arguments that fit.
fn arguments_fit(
    command: &str,
    parts: &Vec<String>,
    from: usize,
    action: SingboxAction,
) -> (r: bool)
    requires
        from <= parts@.len(),
    ensures
        r == args_fit(command@, views(parts@).skip(from as int), action),
{
    let n: usize = parts.len() - from;
    let ghost args = views(parts@).skip(from as int);
    assert(args.len() == n);
    assert(forall|i: int| 0 <= i < n ==> #[trigger] args[i] == parts@[i + from]@);
    proof {
        reveal_strlit("brew");
        reveal_strlit("systemctl");
        reveal_strlit("launchctl");
        assert("systemctl"@[0] == 's' && "launchctl"@[0] == 'l' && "brew"@.len() == 4
            && "systemctl"@.len() == 9 && "launchctl"@.len() == 9);
    }
    if same_text(command, "brew") {
        let r = n == 3 && same_text(parts[from].as_str(), "services") && same_text(
            parts[from + 1].as_str(),
            action.as_str(),
        ) && same_text(parts[from + 2].as_str(), "sing-box");
        let ghost want = seq!["services"@, action_word(action), "sing-box"@];
        assert(r == (args == want)) by {
            if r {
                assert(args =~= want);
            }
            if args == want {
                assert(args.len() == 3);
                assert(args[0] == want[0] && args[1] == want[1] && args[2] == want[2]);
            }
        }
        return r;
    }
    if same_text(command, "systemctl") {
        return n == 2 && same_text(parts[from].as_str(), action.as_str()) && (same_text(
            parts[from + 1].as_str(),
            "sing-box",
        ) || same_text(parts[from + 1].as_str(), "sing-box.service"));
    }
    if same_text(command, "launchctl") {
        if action == SingboxAction::Restart {
            return n == 3 && same_text(parts[from].as_str(), "kickstart") && same_text(
                parts[from + 1].as_str(),
                "-k",
            ) && valid_service_name(parts[from + 2].as_str());
        }
        return n == 2 && same_text(parts[from].as_str(), action.as_str()) && valid_service_name(
            parts[from + 1].as_str(),
        );
    }
    false
}

fn arguments_error(command: &str, action: SingboxAction) -> (r: String)
    ensures
        r@ == args_error(command@, action),
{
    let word = action.as_str();
    if same_text(command, "brew") {
        "brew 管理命令只允许: brew services ".to_owned().concat(word).concat(" sing-box")
    } else if same_text(command, "systemctl") {
        "systemctl 管理命令只允许: systemctl ".to_owned().concat(word).concat(" sing-box")
    } else if same_text(command, "launchctl") {
        if action == SingboxAction::Restart {
            "launchctl restart 只允许: launchctl kickstart -k <sing-box 服务标签>".to_owned()
        } else {
            "launchctl ".to_owned().concat(word).concat(" 只允许操作包含 sing-box 的服务标签")
        }
    } else {
        "不允许的 sing-box 管理命令: ".to_owned().concat(command)
    }
}

/// Checks that a command may be run for the action.
pub fn validate_service_command(parts: &Vec<String>, action: SingboxAction) -> (r: Result<
    (),
    String,
>)
    ensures
        match r {
            Ok(_) => command_error(views(parts@), action) is None,
            Err(e) => command_error(views(parts@), action) == Some(e@),
        },
{
    let ghost all = views(parts@);
    if parts.len() == 0 {
        return Err("命令为空".to_owned());
    }
    assert(all[0] == parts@[0]@);
    let program = command_name(parts[0].as_str());
    let mut at: usize = 0;
    if same_text(program.as_str(), "sudo") {
        assert(parts@.len() > 1 ==> all[1] == parts@[1]@);
        if parts.len() < 2 || !same_text(parts[1].as_str(), "-n") {
            return Err("sudo 管理命令必须使用 -n 以避免阻塞等待密码".to_owned());
        }
        at = 2;
    }
    if parts.len() <= at {
        return Err("sudo 后缺少实际管理命令".to_owned());
    }
    assert(all[at as int] == parts@[at as int]@);
    let command = command_name(parts[at].as_str());
    if arguments_fit(command.as_str(), parts, at + 1, action) {
        Ok(())
    } else {
        Err(arguments_error(command.as_str(), action))
    }
}

/// A command that is run by `sudo`, so that it does not ask for a password; another one as it is.
pub open spec fn without_prompt(parts: Seq<Seq<char>>) -> Seq<Seq<char>> {
    if uses_sudo(parts) && !(parts.len() > 1 && parts[1] == "-n"@) {
        parts.insert(1, "-n"@)
    } else {
        parts
    }
}

/// The command in a setting, or what stands against it.
pub open spec fn configured(value: Seq<char>, action: SingboxAction) -> Result<
    Seq<Seq<char>>,
    Seq<char>,
> {
    let parts = without_prompt(words(value));
    if trim(value).len() == 0 {
        Err("命令为空"@)
    } else if has_metachar(value) {
        Err("命令包含不允许的 shell 元字符"@)
    } else {
        match command_error(parts, action) {
            Some(e) => Err(e),
            None => Ok(parts),
        }
    }
}

fn words_as_texts(value: &str) -> (r: Vec<String>)
    ensures
        views(r@) == words(value@),
{
    let v = chars_of(value);
    let list = words_of(v.as_slice());
    let mut out: Vec<String> = Vec::new();
    for i in 0..list.len()
        invariant
            out@.len() == i,
            forall|j: int| 0 <= j < i ==> (#[trigger] out@[j])@ == list@[j]@,
    {
        out.push(text_of(list[i].as_slice()));
    }
    assert(views(out@) =~= char_views(list@));
    out
}

/// Reads the command in a setting, and checks that it may be run for the action.
pub fn parse_configured_command(value: &str, action: SingboxAction) -> (r: Result<
    Vec<String>,
    String,
>)
    ensures
        match r {
            Ok(parts) => configured(value@, action) == Ok::<Seq<Seq<char>>, Seq<char>>(
                views(parts@),
            ),
            Err(e) => configured(value@, action) == Err::<Seq<Seq<char>>, Seq<char>>(e@),
        },
{
    if is_blank(value) {
        return Err("命令为空".to_owned());
    }
    if command_has_shell_metachar(value) {
        return Err("命令包含不允许的 shell 元字符".to_owned());
    }
    let mut parts = words_as_texts(value);
    let ghost all = views(parts@);
    if parts.len() > 0 {
        assert(all[0] == parts@[0]@);
        assert(parts@.len() > 1 ==> all[1] == parts@[1]@);
        let program = command_name(parts[0].as_str());
        if same_text(program.as_str(), "sudo") && (parts.len() < 2 || !same_text(
            parts[1].as_str(),
            "-n",
        )) {
            parts.insert(1, "-n".to_owned());
            assert(views(parts@) =~= all.insert(1, "-n"@));
        }
    }
    match validate_service_command(&parts, action) {
        Ok(_) => Ok(parts),
        Err(e) => Err(e),
    }
}

/// A configured command that is accepted may be run for its action, and where it uses `sudo` it
/// does not ask for a password.
pub proof fn configured_commands_are_valid(value: Seq<char>, action: SingboxAction)
    requires
        configured(value, action) is Ok,
    ensures
        ({
            let parts = configured(value, action)->Ok_0;
            &&& command_error(parts, action) is None
            &&& uses_sudo(parts) ==> parts.len() > 2 && parts[1] == "-n"@
            &&& !has_metachar(value)
        }),
{
}

/// A command that is accepted, joined by blanks, is read back as itself: it needs no second `-n`.
pub proof fn accepted_commands_are_read_back(value: Seq<char>, action: SingboxAction)
    requires
        configured(value, action) is Ok,
    ensures
        ({
            let parts = configured(value, action)->Ok_0;
            &&& without_prompt(parts) == parts
            &&& configured(joined(parts), action) == configured(value, action)
        }),
{
    let given = words(value);
    let parts = without_prompt(given);
    let text = joined(parts);
    reveal_strlit("-n");
    assert("-n"@.len() == 2 && "-n"@[0] == '-' && "-n"@[1] == 'n');
    assert forall|i: int| 0 <= i < parts.len() implies is_word(#[trigger] parts[i])
        && !has_metachar(parts[i]) by {
        if parts[i] != "-n"@ {
            let k = if parts == given || i == 0 {
                i
            } else {
                i - 1
            };
            assert(parts[i] == given[k]);
            lemma_words(value, k);
            assert forall|j: int| 0 <= j < given[k].len() implies !is_metachar(
                #[trigger] given[k][j],
            ) by {
                assert(value.contains(given[k][j]));
            }
        }
    }
    joined_words_are_read_back(parts);
    assert(without_prompt(parts) == parts);
    lemma_joined_clean(parts);
    if trim(text).len() == 0 {
        lemma_trim_first_kept(text);
    }
}

proof fn lemma_joined_clean(parts: Seq<Seq<char>>)
    requires
        parts.len() > 0,
        forall|i: int|
            0 <= i < parts.len() ==> is_word(#[trigger] parts[i]) && !has_metachar(parts[i]),
    ensures
        !has_metachar(joined(parts)),
        joined(parts).len() > 0,
        !is_whitespace(joined(parts)[0]),
    decreases parts.len(),
{
    let last = parts[parts.len() - 1];
    assert(is_word(last) && !has_metachar(last));
    if parts.len() > 1 {
        let before = parts.drop_last();
        assert forall|i: int| 0 <= i < before.len() implies is_word(#[trigger] before[i])
            && !has_metachar(before[i]) by {
            assert(before[i] == parts[i]);
        }
        lemma_joined_clean(before);
        let head = joined(before);
        let whole = joined(parts);
        assert forall|j: int| 0 <= j < whole.len() implies !is_metachar(#[trigger] whole[j]) by {
            if j < head.len() {
                assert(whole[j] == head[j]);
            } else if j > head.len() {
                assert(whole[j] == last[j - head.len() - 1]);
            }
        }
    } else {
        assert(!is_whitespace(last[0]));
    }
}

proof fn lemma_trim_first_kept(s: Seq<char>)
    requires
        s.len() > 0,
        !is_whitespace(s[0]),
    ensures
        trim(s).len() > 0,
    decreases s.len(),
{
    if is_whitespace(s.last()) {
        let shorter = s.drop_last();
        assert(shorter[0] == s[0]);
        lemma_trim_first_kept(shorter);
    }
}

// ---------------------------------------------------------------------------
// Which command is run
// ---------------------------------------------------------------------------

/// The name of the setting with the command for an action.
pub fn command_setting(action: SingboxAction) -> (r: &'static str)
    ensures
        r@ == match action {
            SingboxAction::Start => "SINGBOX_START_CMD"@,
            SingboxAction::Stop => "SINGBOX_STOP_CMD"@,
            SingboxAction::Restart => "SINGBOX_RESTART_CMD"@,
        },
{
    match action {
        SingboxAction::Start => "SINGBOX_START_CMD",
        SingboxAction::Stop => "SINGBOX_STOP_CMD",
        SingboxAction::Restart => "SINGBOX_RESTART_CMD",
    }
}

/// The program `brew`: that of the setting, else the first that is there, else by its name.
pub fn brew_program(setting: Option<String>, in_opt: bool, in_usr: bool) -> (r: String)
    ensures
        r@ == match opt_view(setting) {
            Some(s) => s,
            None => if in_opt {
                "/opt/homebrew/bin/brew"@
            } else if in_usr {
                "/usr/local/bin/brew"@
            } else {
                "brew"@
            },
        },
{
    match setting {
        Some(s) => s,
        None => if in_opt {
            "/opt/homebrew/bin/brew".to_owned()
        } else if in_usr {
            "/usr/local/bin/brew".to_owned()
        } else {
            "brew".to_owned()
        },
    }
}

/// The programs that manage services on this machine.
pub struct ServicePrograms {
    pub sudo: String,
    /// `brew`, on a machine whose services it manages.
    pub brew: Option<String>,
}

/// The command for an action where no setting gives one.
pub open spec fn default_command(
    action: SingboxAction,
    sudo: Seq<char>,
    brew: Option<Seq<char>>,
) -> Seq<Seq<char>> {
    match brew {
        Some(b) => seq![sudo, "-n"@, b, "services"@, action_word(action), "sing-box"@],
        None => seq![sudo, "-n"@, "systemctl"@, action_word(action), "sing-box"@],
    }
}

/// The command for an action where no setting gives one.
pub fn default_singbox_command(action: SingboxAction, programs: ServicePrograms) -> (r: Vec<
    String,
>)
    ensures
        views(r@) == default_command(action, programs.sudo@, opt_view(programs.brew)),
{
    let ghost sudo = programs.sudo@;
    let ghost brew = opt_view(programs.brew);
    let mut out: Vec<String> = Vec::new();
    out.push(programs.sudo);
    out.push("-n".to_owned());
    match programs.brew {
        Some(b) => {
            out.push(b);
            out.push("services".to_owned());
        },
        None => {
            out.push("systemctl".to_owned());
        },
    }
    out.push(action.as_str().to_owned());
    out.push("sing-box".to_owned());
    assert(views(out@) =~= default_command(action, sudo, brew));
    out
}

/// The command for an action: that of the setting where it is given, which may be refused; else
/// the default one.
pub fn singbox_command_for_action(
    action: SingboxAction,
    setting: &Option<String>,
    programs: ServicePrograms,
) -> (r: Result<Vec<String>, String>)
    ensures
        match opt_view(*setting) {
            Some(value) => match r {
                Ok(parts) => configured(value, action) == Ok::<Seq<Seq<char>>, Seq<char>>(
                    views(parts@),
                ),
                Err(e) => configured(value, action) == Err::<Seq<Seq<char>>, Seq<char>>(e@),
            },
            None => r matches Ok(parts) && views(parts@) == default_command(
                action,
                programs.sudo@,
                opt_view(programs.brew),
            ),
        },
{
    match setting {
        Some(value) => parse_configured_command(value.as_str(), action),
        None => Ok(default_singbox_command(action, programs)),
    }
}

/// The default command may be run for its action, where the programs have their usual names.
pub proof fn default_commands_are_valid(
    action: SingboxAction,
    sudo: Seq<char>,
    brew: Option<Seq<char>>,
)
    requires
        file_name(sudo) == "sudo"@,
        brew matches Some(b) ==> file_name(b) == "brew"@,
    ensures
        command_error(default_command(action, sudo, brew), action) is None,
{
    let parts = default_command(action, sudo, brew);
    match brew {
        Some(b) => {
            assert(parts.skip(3) =~= seq!["services"@, action_word(action), "sing-box"@]);
        },
        None => {
            lemma_plain_name();
            reveal_strlit("brew");
            reveal_strlit("systemctl");
            assert("brew"@.len() != "systemctl"@.len());
            let args = parts.skip(3);
            assert(args[0] == action_word(action) && args[1] == "sing-box"@);
        },
    }
}

proof fn lemma_plain_name()
    ensures
        file_name("systemctl"@) == "systemctl"@,
{
    let name = "systemctl"@;
    reveal_strlit("systemctl");
    reveal_strlit(".");
    reveal_strlit("..");
    assert forall|i: int| 0 <= i < name.len() implies !CharSet::One('/').has(#[trigger] name[i]) by {
        assert(name[0] == 's' && name[1] == 'y' && name[2] == 's' && name[3] == 't' && name[4]
            == 'e' && name[5] == 'm' && name[6] == 'c' && name[7] == 't' && name[8] == 'l');
    }
    lemma_split_whole(name, CharSet::One('/'));
    assert(seq![name].last() == name);
    assert("."@.len() == 1 && ".."@.len() == 2 && name.len() == 9);
}

// ---------------------------------------------------------------------------
// What is said of the outcome
// ---------------------------------------------------------------------------

/// How a command ended.
pub enum CommandOutcome {
    /// It did not end in time.
    TimedOut,
    /// It could not be run, for this reason.
    NotRun(String),
    /// It ended.
    Ended { success: bool, stdout: String, stderr: String },
}

/// What is said of the outcome of an action.
pub open spec fn outcome_message(action: SingboxAction, outcome: CommandOutcome) -> Result<
    Seq<char>,
    Seq<char>,
> {
    let word = action_word(action);
    match outcome {
        CommandOutcome::TimedOut => Err("sing-box "@ + word + " 命令执行超时"@),
        CommandOutcome::NotRun(e) => Err("无法执行 sing-box "@ + word + " 命令: "@ + e@),
        CommandOutcome::Ended { success, stdout, stderr } => if success {
            Ok("sing-box "@ + word + " 命令执行成功"@)
        } else {
            let detail = if trim(stderr@).len() == 0 {
                trim(stdout@)
            } else {
                trim(stderr@)
            };
            Err(
                "sing-box "@ + word + " 命令失败: "@ + detail
                    + "。如果 sing-box 需要 sudo，请为该命令配置 NOPASSWD，或用 SINGBOX_*_CMD 指定允许的管理命令。"@,
            )
        },
    }
}

/// What is said of the outcome of an action.
pub fn manage_singbox(action: SingboxAction, outcome: &CommandOutcome) -> (r: Result<
    String,
    String,
>)
    ensures
        match r {
            Ok(m) => outcome_message(action, *outcome) == Ok::<Seq<char>, Seq<char>>(m@),
            Err(m) => outcome_message(action, *outcome) == Err::<Seq<char>, Seq<char>>(m@),
        },
{
    let word = action.as_str();
    match outcome {
        CommandOutcome::TimedOut => Err(
            "sing-box ".to_owned().concat(word).concat(" 命令执行超时"),
        ),
        CommandOutcome::NotRun(e) => Err(
            "无法执行 sing-box ".to_owned().concat(word).concat(" 命令: ").concat(e.as_str()),
        ),
        CommandOutcome::Ended { success, stdout, stderr } => {
            if *success {
                return Ok("sing-box ".to_owned().concat(word).concat(" 命令执行成功"));
            }
            let err = chars_of(stderr.as_str());
            let out = chars_of(stdout.as_str());
            let detail = if trimmed(err.as_slice()).len() == 0 {
                text_of(trimmed(out.as_slice()))
            } else {
                text_of(trimmed(err.as_slice()))
            };
            Err(
                "sing-box ".to_owned().concat(word).concat(" 命令失败: ").concat(
                    detail.as_str(),
                ).concat(
                    "。如果 sing-box 需要 sudo，请为该命令配置 NOPASSWD，或用 SINGBOX_*_CMD 指定允许的管理命令。",
                ),
            )
        },
    }
}

// ---------------------------------------------------------------------------
// What may be run, and what is said of it
// ---------------------------------------------------------------------------

/// The word is that of the action.
pub open spec fn is_word_of(word: Seq<char>, action: SingboxAction) -> bool {
    match action {
        SingboxAction::Start => word == "start"@,
        SingboxAction::Stop => word == "stop"@,
        SingboxAction::Restart => word == "restart"@,
    }
}

/// The command calls a manager of services for the action, and for the proxy alone.
pub open spec fn calls_manager(parts: Seq<Seq<char>>, action: SingboxAction) -> bool {
    &&& parts.len() > 0
    &&& {
        let name = file_name(parts[0]);
        ||| {
            &&& name == "brew"@
            &&& parts.len() == 4
            &&& parts[1] == "services"@
            &&& is_word_of(parts[2], action)
            &&& parts[3] == "sing-box"@
        }
        ||| {
            &&& name == "systemctl"@
            &&& parts.len() == 3
            &&& is_word_of(parts[1], action)
            &&& parts[2] == "sing-box"@ || parts[2] == "sing-box.service"@
        }
        ||| {
            &&& name == "launchctl"@
            &&& action != SingboxAction::Restart
            &&& parts.len() == 3
            &&& is_word_of(parts[1], action)
            &&& is_service_name(parts[2])
        }
        ||| {
            &&& name == "launchctl"@
            &&& action == SingboxAction::Restart
            &&& parts.len() == 4
            &&& parts[1] == "kickstart"@
            &&& parts[2] == "-k"@
            &&& is_service_name(parts[3])
        }
    }
}

/// A command may be run exactly where it calls a manager of services for the action, by itself or by
/// `sudo -n`.
pub proof fn only_managers_may_be_run(parts: Seq<Seq<char>>, action: SingboxAction)
    ensures
        command_error(parts, action) is None <==> {
            ||| calls_manager(parts, action)
            ||| {
                &&& parts.len() > 2
                &&& file_name(parts[0]) == "sudo"@
                &&& parts[1] == "-n"@
                &&& calls_manager(parts.skip(2), action)
            }
        },
{
    lemma_programs_differ();
    if parts.len() > 0 {
        let at: int = if uses_sudo(parts) { 2 } else { 0 };
        if at < parts.len() {
            lemma_args_fit(parts.skip(at), action);
            assert(parts.skip(at)[0] == parts[at]);
            assert(parts.skip(at).skip(1) =~= parts.skip(at + 1));
            assert(parts.skip(0) =~= parts);
        }
    }
}

proof fn lemma_programs_differ()
    ensures
        "sudo"@ != "brew"@ && "sudo"@ != "systemctl"@ && "sudo"@ != "launchctl"@,
        "brew"@ != "systemctl"@ && "brew"@ != "launchctl"@,
        "systemctl"@ != "launchctl"@,
{
    reveal_strlit("sudo");
    reveal_strlit("brew");
    reveal_strlit("systemctl");
    reveal_strlit("launchctl");
    assert("sudo"@[0] == 's' && "brew"@[0] == 'b' && "systemctl"@[0] == 's' && "launchctl"@[0]
        == 'l');
    assert("sudo"@.len() == 4 && "brew"@.len() == 4 && "systemctl"@.len() == 9
        && "launchctl"@.len() == 9);
}

proof fn lemma_args_fit(parts: Seq<Seq<char>>, action: SingboxAction)
    requires
        parts.len() > 0,
    ensures
        args_fit(file_name(parts[0]), parts.skip(1), action) == calls_manager(parts, action),
{
    lemma_programs_differ();
    let args = parts.skip(1);
    let word = action_word(action);
    assert forall|i: int| 0 <= i < args.len() implies #[trigger] args[i] == parts[i + 1] by {}
    if file_name(parts[0]) == "brew"@ {
        let whole = seq!["services"@, word, "sing-box"@];
        if args == whole {
            assert(parts[1] == whole[0] && parts[2] == whole[1] && parts[3] == whole[2]);
        }
        if calls_manager(parts, action) {
            assert(args =~= whole);
        }
    }
}

/// What stands against a command: that it is empty, that `sudo` would ask for a password, that
/// nothing follows `sudo -n`, or that its program may not be run so.
pub proof fn refusals_give_their_reason(parts: Seq<Seq<char>>, action: SingboxAction)
    ensures
        parts.len() == 0 ==> command_error(parts, action) == Some("命令为空"@),
        parts.len() > 0 && file_name(parts[0]) == "sudo"@ && (parts.len() == 1 || parts[1] != "-n"@)
            ==> command_error(parts, action) == Some(
            "sudo 管理命令必须使用 -n 以避免阻塞等待密码"@,
        ),
        parts.len() == 2 && file_name(parts[0]) == "sudo"@ && parts[1] == "-n"@ ==> command_error(
            parts,
            action,
        ) == Some("sudo 后缺少实际管理命令"@),
        parts.len() > 0 && file_name(parts[0]) != "sudo"@ && file_name(parts[0]) != "brew"@
            && file_name(parts[0]) != "systemctl"@ && file_name(parts[0]) != "launchctl"@
            ==> command_error(parts, action) == Some(
            "不允许的 sing-box 管理命令: "@ + file_name(parts[0]),
        ),
{
}

/// The name of a program is what stands after the last slash of its path; a path without a slash is
/// the name itself.
pub proof fn programs_go_by_their_last_part(dir: Seq<char>, name: Seq<char>)
    requires
        name.len() > 0,
        !name.contains('/'),
        name != "."@,
        name != ".."@,
    ensures
        file_name(name) == name,
        file_name(dir + "/"@ + name) == name,
        file_name(dir + "/"@ + name + "/"@) == name,
{
    reveal_strlit("/");
    let slash = CharSet::One('/');
    assert forall|i: int| 0 <= i < name.len() implies !slash.has(#[trigger] name[i]) by {
        if name[i] == '/' {
            assert(name.contains('/'));
        }
    }
    lemma_split_whole(name, slash);
    assert(seq![name].last() == name);
    lemma_split_append(dir, '/', name, slash);
    let path = dir.push('/') + name;
    assert(path =~= dir + "/"@ + name);
    let none = Seq::<char>::empty();
    lemma_split_append(path, '/', none, slash);
    assert(path.push('/') + none =~= dir + "/"@ + name + "/"@);
    let parts = split(path.push('/') + none, slash);
    assert(parts.drop_last() =~= split(path, slash));
    reveal_with_fuel(last_part, 2);
}

/// A text holds a character that a shell would act on exactly where it holds one of nine.
pub proof fn shells_act_on_nine_characters(s: Seq<char>)
    ensures
        has_metachar(s) <==> s.contains(';') || s.contains('&') || s.contains('|') || s.contains('>')
            || s.contains('<') || s.contains('`') || s.contains('$') || s.contains('\n')
            || s.contains('\r'),
{
    if has_metachar(s) {
        let i = choose|i: int| 0 <= i < s.len() && is_metachar(#[trigger] s[i]);
        assert(s.contains(s[i]));
    }
    lemma_holds_metachar(s, ';');
    lemma_holds_metachar(s, '&');
    lemma_holds_metachar(s, '|');
    lemma_holds_metachar(s, '>');
    lemma_holds_metachar(s, '<');
    lemma_holds_metachar(s, '`');
    lemma_holds_metachar(s, '$');
    lemma_holds_metachar(s, '\n');
    lemma_holds_metachar(s, '\r');
}

proof fn lemma_holds_metachar(s: Seq<char>, c: char)
    requires
        is_metachar(c),
    ensures
        s.contains(c) ==> has_metachar(s),
{
    if s.contains(c) {
        let i = choose|i: int| 0 <= i < s.len() && s[i] == c;
        assert(is_metachar(s[i]));
    }
}

/// A setting gives the words of its command; after `sudo` comes `-n`, which is put there where it is
/// missing. A blank setting and one with a character that a shell would act on are refused, and else
/// the command is refused exactly where it may not be run.
pub proof fn settings_give_their_words(value: Seq<char>, action: SingboxAction)
    ensures
        ({
            let ws = words(value);
            let parts = if ws.len() > 0 && file_name(ws[0]) == "sudo"@ && (ws.len() == 1 || ws[1]
                != "-n"@) {
                ws.insert(1, "-n"@)
            } else {
                ws
            };
            let r = configured(value, action);
            &&& trim(value).len() == 0 ==> r == Err::<Seq<Seq<char>>, Seq<char>>("命令为空"@)
            &&& trim(value).len() > 0 && has_metachar(value) ==> r == Err::<
                Seq<Seq<char>>,
                Seq<char>,
            >("命令包含不允许的 shell 元字符"@)
            &&& trim(value).len() > 0 && !has_metachar(value) && command_error(
                parts,
                action,
            ) is None ==> r == Ok::<Seq<Seq<char>>, Seq<char>>(parts)
            &&& trim(value).len() > 0 && !has_metachar(value) && command_error(
                parts,
                action,
            ) is Some ==> r == Err::<Seq<Seq<char>>, Seq<char>>(command_error(parts, action)->0)
        }),
{
}

/// What is said of an action names the action. Success is said only of a command that ended in
/// success; one that failed is followed by what it wrote, to its error output where that is not
/// blank.
pub proof fn outcomes_are_told_apart(action: SingboxAction, outcome: CommandOutcome, word: Seq<char>)
    requires
        is_word_of(word, action),
    ensures
        ({
            let r = outcome_message(action, outcome);
            match outcome {
                CommandOutcome::TimedOut => r == Err::<Seq<char>, Seq<char>>(
                    "sing-box "@ + word + " 命令执行超时"@,
                ),
                CommandOutcome::NotRun(e) => r == Err::<Seq<char>, Seq<char>>(
                    "无法执行 sing-box "@ + word + " 命令: "@ + e@,
                ),
                CommandOutcome::Ended { success, stdout, stderr } => {
                    &&& success ==> r == Ok::<Seq<char>, Seq<char>>(
                        "sing-box "@ + word + " 命令执行成功"@,
                    )
                    &&& !success ==> r == Err::<Seq<char>, Seq<char>>(
                        "sing-box "@ + word + " 命令失败: "@ + (if trim(stderr@).len() > 0 {
                            trim(stderr@)
                        } else {
                            trim(stdout@)
                        })
                            + "。如果 sing-box 需要 sudo，请为该命令配置 NOPASSWD，或用 SINGBOX_*_CMD 指定允许的管理命令。"@,
                    )
                },
            }
        }),
{
}

/// Where no setting gives a command, `sudo -n` runs the manager of the machine for the action: `brew`
/// where the machine has it, else `systemctl`.
pub proof fn default_commands_call_the_manager(
    action: SingboxAction,
    sudo: Seq<char>,
    brew: Seq<char>,
    word: Seq<char>,
)
    requires
        is_word_of(word, action),
    ensures
        default_command(action, sudo, Some(brew)) == seq![
            sudo,
            "-n"@,
            brew,
            "services"@,
            word,
            "sing-box"@,
        ],
        default_command(action, sudo, None) == seq![sudo, "-n"@, "systemctl"@, word, "sing-box"@],
{
}

/// Where a manager is called otherwise than it may be, the one way in which it may is named.
pub proof fn refusals_name_the_right_form(
    parts: Seq<Seq<char>>,
    action: SingboxAction,
    word: Seq<char>,
)
    requires
        parts.len() > 0,
        is_word_of(word, action),
        !calls_manager(parts, action),
    ensures
        file_name(parts[0]) == "brew"@ ==> command_error(parts, action) == Some(
            "brew 管理命令只允许: brew services "@ + word + " sing-box"@,
        ),
        file_name(parts[0]) == "systemctl"@ ==> command_error(parts, action) == Some(
            "systemctl 管理命令只允许: systemctl "@ + word + " sing-box"@,
        ),
        file_name(parts[0]) == "launchctl"@ && action == SingboxAction::Restart ==> command_error(
            parts,
            action,
        ) == Some("launchctl restart 只允许: launchctl kickstart -k <sing-box 服务标签>"@),
        file_name(parts[0]) == "launchctl"@ && action != SingboxAction::Restart ==> command_error(
            parts,
            action,
        ) == Some("launchctl "@ + word + " 只允许操作包含 sing-box 的服务标签"@),
{
    lemma_programs_differ();
    lemma_args_fit(parts, action);
}

/// A service of the proxy is named by a label that holds `sing-box` and, besides letters and digits,
/// nothing but points, underscores, hyphens, slashes and at signs.
pub proof fn service_names_hold_the_proxy(head: Seq<char>, tail: Seq<char>, value: Seq<char>)
    ensures
        (forall|i: int|
            0 <= i < (head + "sing-box"@ + tail).len() ==> {
                let c = #[trigger] (head + "sing-box"@ + tail)[i];
                is_alphanumeric(c) || c == '.' || c == '_' || c == '-' || c == '/' || c == '@'
            }) ==> is_service_name(head + "sing-box"@ + tail),
        is_service_name(value) ==> exists|k: int|
            0 <= k && k + 8 <= value.len() && #[trigger] value.subrange(k, k + 8) == "sing-box"@,
        forall|i: int|
            0 <= i < value.len() && !(is_alphanumeric(#[trigger] value[i]) || value[i] == '.'
                || value[i] == '_' || value[i] == '-' || value[i] == '/' || value[i] == '@')
                ==> !is_service_name(value),
{
    reveal_strlit("sing-box");
    let whole = head + "sing-box"@ + tail;
    let n = head.len() as int;
    assert(whole.subrange(n, n + "sing-box"@.len()) =~= "sing-box"@);
    assert(has_at(whole, "sing-box"@, n));
    if is_service_name(value) {
        let k = choose|k: int| #[trigger] has_at(value, "sing-box"@, k);
        assert(value.subrange(k, k + 8) == "sing-box"@);
    }
}

} // verus!
