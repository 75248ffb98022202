//! Turning a plugin on and off: the exact arguments of the command that does it, and what
//! its outcome means.
use crate::seqs;
use crate::text;
use vstd::prelude::*;

verus! {

/// The characters that a plugin key may hold.
pub open spec fn is_key_char(c: char) -> bool {
    seqs::is_ascii_alnum(c) || c == '@' || c == '-' || c == '_' || c == '.' || c == '/'
}

pub open spec fn only_key_chars(key: Seq<char>) -> bool {
    forall|i: int| 0 <= i < key.len() ==> is_key_char(#[trigger] key[i])
}

/// Why a plugin key is refused, or `None` where it is accepted.
pub open spec fn key_fault(key: Seq<char>) -> Option<Seq<char>> {
    if key.len() == 0 || seqs::byte_len(key) > 200 {
        Some("invalid plugin key length"@)
    } else if !only_key_chars(key) {
        Some("plugin key has illegal characters: "@ + key)
    } else {
        None
    }
}

/// The scope and the key of a plugin row's id, `plugin:<scope>:<key>`.
pub open spec fn plugin_id_parts(id: Seq<char>) -> Option<(Seq<char>, Seq<char>)> {
    let i = seqs::index_of(id, ':');
    let rest = id.skip(i + 1);
    let j = seqs::index_of(rest, ':');
    if i < id.len() && j < rest.len() && id.take(i) == "plugin"@ && j > 0 && j + 1 < rest.len() {
        Some((rest.take(j), rest.skip(j + 1)))
    } else {
        None
    }
}

/// The value of `--scope` for an inventory scope.
pub open spec fn scope_flag_of(scope: Seq<char>) -> Result<Seq<char>, Seq<char>> {
    if scope == "global"@ {
        Ok("user"@)
    } else if scope == "project"@ {
        Ok("project"@)
    } else {
        Err("unknown scope: "@ + scope)
    }
}

pub open spec fn verb(enable: bool) -> Seq<char> {
    if enable {
        "enable"@
    } else {
        "disable"@
    }
}

/// The arguments that toggle the plugin row `id`, or why it cannot be toggled.
pub open spec fn toggle_argv_of(id: Seq<char>, enable: bool) -> Result<Seq<Seq<char>>, Seq<char>> {
    match plugin_id_parts(id) {
        None => Err("not a plugin item id: "@ + id),
        Some((scope, key)) => match key_fault(key) {
            Some(e) => Err(e),
            None => match scope_flag_of(scope) {
                Err(e) => Err(e),
                Ok(flag) => Ok(seq!["plugin"@, verb(enable), key, "--scope"@, flag]),
            },
        },
    }
}

pub open spec fn text_result(r: Result<String, String>) -> Result<Seq<char>, Seq<char>> {
    match r {
        Ok(s) => Ok(s@),
        Err(e) => Err(e@),
    }
}

pub open spec fn texts_result(r: Result<Vec<String>, String>) -> Result<Seq<Seq<char>>, Seq<char>> {
    match r {
        Ok(v) => Ok(seqs::views(v@)),
        Err(e) => Err(e@),
    }
}

/// Accepts a plugin key of 1 to 200 bytes that holds only letters, digits and `@-_./`.
pub fn validate_plugin_key(key: &str) -> (r: Result<(), String>)
    ensures
        (match r {
            Ok(_) => key_fault(key@) is None,
            Err(e) => key_fault(key@) == Some(e@),
        }),
{
    let cs = text::chars_of(key);
    if cs.len() == 0 || text::byte_len(key) > 200 {
        return Err("invalid plugin key length".to_owned());
    }
    let mut i: usize = 0;
    while i < cs.len()
        invariant
            i <= cs@.len(),
            cs@ == key@,
            cs@.len() > 0,
            seqs::byte_len(key@) <= 200,
            forall|j: int| 0 <= j < i ==> is_key_char(#[trigger] cs@[j]),
        decreases cs@.len() - i,
    {
        let c = cs[i];
        let ok = text::is_ascii_alnum(c) || c == '@' || c == '-' || c == '_' || c == '.' || c
            == '/';
        if !ok {
            let mut e = "plugin key has illegal characters: ".to_owned();
            e.append(key);
            return Err(e);
        }
        i += 1;
    }
    Ok(())
}

/// The value of `--scope` for an inventory scope.
pub fn scope_flag(scope: &str) -> (r: Result<String, String>)
    ensures
        text_result(r) == scope_flag_of(scope@),
{
    if text::same(scope, "global") {
        Ok("user".to_owned())
    } else if text::same(scope, "project") {
        Ok("project".to_owned())
    } else {
        let mut e = "unknown scope: ".to_owned();
        e.append(scope);
        Err(e)
    }
}

/// The scope and the key of a plugin row's id.
pub fn parse_plugin_id(id: &str) -> (r: Result<(String, String), String>)
    ensures
        (match r {
            Ok(p) => plugin_id_parts(id@) == Some((p.0@, p.1@)),
            Err(e) => plugin_id_parts(id@) is None && e@ == "not a plugin item id: "@ + id@,
        }),
{
    let cs = text::chars_of(id);
    let n: usize = cs.len();
    let i = text::index_from(&cs, ':', 0);
    assert(cs@.skip(0) =~= id@);
    if i < n {
        let j = text::index_from(&cs, ':', i + 1);
        let head = text::string_of(&cs, 0, i);
        let ghost rest = id@.skip(i + 1);
        assert(head@ =~= id@.take(i as int));
        if j < n && j > i + 1 && j + 1 < n && text::same(head.as_str(), "plugin") {
            let scope = text::string_of(&cs, i + 1, j);
            let key = text::string_of(&cs, j + 1, n);
            proof {
                assert(scope@ =~= rest.take(j - i - 1));
                assert(key@ =~= rest.skip(j - i));
            }
            return Ok((scope, key));
        }
    }
    let mut e = "not a plugin item id: ".to_owned();
    e.append(id);
    Err(e)
}

/// The arguments that toggle the plugin row `id`.
pub fn plugin_toggle_argv(id: &str, enable: bool) -> (r: Result<Vec<String>, String>)
    ensures
        texts_result(r) == toggle_argv_of(id@, enable),
{
    let (scope, key) = match parse_plugin_id(id) {
        Ok(p) => p,
        Err(e) => return Err(e),
    };
    if let Err(e) = validate_plugin_key(key.as_str()) {
        return Err(e);
    }
    let flag = match scope_flag(scope.as_str()) {
        Ok(f) => f,
        Err(e) => return Err(e),
    };
    let v = if enable {
        "enable".to_owned()
    } else {
        "disable".to_owned()
    };
    let argv: Vec<String> = vec!["plugin".to_owned(), v, key, "--scope".to_owned(), flag];
    assert(seqs::views(argv@) =~= seq!["plugin"@, verb(enable), key@, "--scope"@, flag@]);
    Ok(argv)
}

/// The command line, of the program `agent`, that a confirmation shows before a toggle runs.
pub fn plugin_toggle_preview(agent: &str, id: &str, enable: bool) -> (r: Result<String, String>)
    ensures
        text_result(r) == (match toggle_argv_of(id@, enable) {
            Ok(argv) => Ok(agent@ + " "@ + seqs::join(argv, " "@)),
            Err(e) => Err(e),
        }),
{
    match plugin_toggle_argv(id, enable) {
        Ok(argv) => {
            let mut line = agent.to_owned();
            line.append(" ");
            line.append(text::join(&argv, " ").as_str());
            Ok(line)
        },
        Err(e) => Err(e),
    }
}

/// What a finished toggle command of the program `agent` means: nothing to report where it
/// succeeded, otherwise what it printed, errors before output.
pub fn toggle_outcome(agent: &str, enable: bool, success: bool, stdout: &str, stderr: &str) -> (r:
    Result<(), String>)
    ensures
        r is Ok <==> success,
        r matches Err(e) ==> e@ == agent@ + " plugin "@ + verb(enable) + " failed: "@ + (
        if seqs::trim(stderr@).len() > 0 {
            seqs::trim(stderr@)
        } else {
            seqs::trim(stdout@)
        }),
{
    if success {
        return Ok(());
    }
    let mut e = agent.to_owned();
    e.append(" plugin ");
    if enable {
        e.append("enable");
    } else {
        e.append("disable");
    }
    e.append(" failed: ");
    let err = text::trim(stderr);
    if text::chars_of(err.as_str()).len() > 0 {
        e.append(err.as_str());
    } else {
        e.append(text::trim(stdout).as_str());
    }
    Err(e)
}

/// The path of the program `agent`, from what the login shell printed for it.
pub fn agent_path(agent: &str, success: bool, stdout: &str) -> (r: Result<String, String>)
    ensures
        text_result(r) == (if success && seqs::trim(stdout@).len() > 0 {
            Ok(seqs::trim(stdout@))
        } else {
            Err(agent@ + " not found on the login-shell PATH"@)
        }),
{
    let path = text::trim(stdout);
    if success && text::chars_of(path.as_str()).len() > 0 {
        Ok(path)
    } else {
        let mut e = agent.to_owned();
        e.append(" not found on the login-shell PATH");
        Err(e)
    }
}

/// The id of a plugin row gives back the scope and the key that it was made of.
pub proof fn plugin_id_round_trip(scope: Seq<char>, key: Seq<char>)
    requires
        scope.len() > 0,
        key.len() > 0,
        !scope.contains(':'),
    ensures
        plugin_id_parts(crate::inventory::item_id("plugin"@, scope, key)) == Some((scope, key)),
{
    reveal_strlit("plugin");
    reveal_strlit(":");
    let id = crate::inventory::item_id("plugin"@, scope, key);
    seqs::index_of_is(id, ':', 6);
    let rest = id.skip(7);
    assert(rest =~= scope + ":"@ + key);
    assert forall|j: int| 0 <= j < scope.len() implies rest[j] != ':' by {
        assert(scope[j] == rest[j]);
        assert(scope.contains(scope[j]));
    }
    seqs::index_of_is(rest, ':', scope.len() as int);
    assert(id.take(6) =~= "plugin"@);
    assert(rest.take(scope.len() as int) =~= scope);
    assert(rest.skip(scope.len() as int + 1) =~= key);
}

/// A toggle command has five arguments, and the only one that comes from a configuration
/// file holds nothing but letters, digits and `@-_./`.
pub proof fn toggle_argv_is_safe(id: Seq<char>, enable: bool)
    ensures
        toggle_argv_of(id, enable) matches Ok(argv) ==> argv.len() == 5 && argv[0] == "plugin"@
            && argv[1] == verb(enable) && only_key_chars(argv[2]) && argv[3] == "--scope"@ && (
        argv[4] == "user"@ || argv[4] == "project"@),
{
}

/// Toggling the row of a plugin runs `plugin enable` or `plugin disable`, as was asked, on
/// its key in its scope: `user` for the global scope, and `project` for the project's.
pub proof fn toggles_do_what_was_asked(key: Seq<char>, enable: bool)
    requires
        0 < key.len(),
        seqs::byte_len(key) <= 200,
        forall|i: int|
            0 <= i < key.len() ==> ({
                let c = #[trigger] key[i];
                'a' <= c <= 'z' || 'A' <= c <= 'Z' || '0' <= c <= '9' || c == '@' || c == '-' || c
                    == '_' || c == '.' || c == '/'
            }),
    ensures
        toggle_argv_of("plugin:global:"@ + key, enable) == Ok::<Seq<Seq<char>>, Seq<char>>(
            seq![
                "plugin"@,
                if enable {
                    "enable"@
                } else {
                    "disable"@
                },
                key,
                "--scope"@,
                "user"@,
            ],
        ),
        toggle_argv_of("plugin:project:"@ + key, enable) == Ok::<Seq<Seq<char>>, Seq<char>>(
            seq![
                "plugin"@,
                if enable {
                    "enable"@
                } else {
                    "disable"@
                },
                key,
                "--scope"@,
                "project"@,
            ],
        ),
{
    reveal_strlit("plugin:global:");
    reveal_strlit("plugin:project:");
    reveal_strlit("plugin");
    reveal_strlit("global");
    reveal_strlit("project");
    reveal_strlit(":");
    assert("plugin:global:"@ + key =~= crate::inventory::item_id("plugin"@, "global"@, key));
    assert("plugin:project:"@ + key =~= crate::inventory::item_id("plugin"@, "project"@, key));
    plugin_id_round_trip("global"@, key);
    plugin_id_round_trip("project"@, key);
    assert("global"@.len() == 6 && "project"@.len() == 7);
    assert(only_key_chars(key));
}

/// Nothing is run for a key that is empty, too long, or holds a character outside letters,
/// digits and `@-_./`.
pub proof fn odd_keys_are_refused(scope: Seq<char>, key: Seq<char>, enable: bool)
    requires
        key.len() > 0,
        scope.len() > 0,
        !scope.contains(':'),
        seqs::byte_len(key) > 200 || exists|i: int|
            0 <= i < key.len() && ({
                let c = #[trigger] key[i];
                !('a' <= c <= 'z' || 'A' <= c <= 'Z' || '0' <= c <= '9' || c == '@' || c == '-' || c
                    == '_' || c == '.' || c == '/')
            }),
    ensures
        toggle_argv_of(crate::inventory::item_id("plugin"@, scope, key), enable) is Err,
{
    plugin_id_round_trip(scope, key);
}

} // verus!
