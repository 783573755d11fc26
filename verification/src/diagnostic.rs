//! The diagnostic rule engine: walks parsed and combined lines together with
//! the flag knowledge base and produces structural and semantic diagnostics.
//! All rules are additive; none short-circuits another.

use vstd::prelude::*;

use crate::bazel_flags::{spec_get_by_invocation, BazelFlags, FlagLookupType};
use crate::parser::{spec_parse, FlagV, Line, LineV};
use crate::text::{chars_to_string, push_quoted, push_str_chars, spec_quoted, spec_starts_with, str_chars, str_eq};
use crate::tokenizer::{spec_lex_errors, spec_tokens, Span};

verus! {

/// How serious a diagnostic is.
#[derive(Debug, Clone, Copy, PartialEq, Eq, Structural)]
pub enum Severity {
    Error,
    Warning,
}

/// One diagnostic: a message about a byte-offset span of the source, with a
/// severity and a marker for diagnostics about deprecated items.
#[derive(Debug, Clone, PartialEq, Eq)]
pub struct Diagnostic {
    pub span: Span,
    pub severity: Severity,
    pub message: String,
    pub deprecated: bool,
}

/// Mathematical counterpart of [`Diagnostic`].
#[verifier::ext_equal]
pub struct DiagnosticV {
    pub span: Span,
    pub severity: Severity,
    pub message: Seq<char>,
    pub deprecated: bool,
}

impl View for Diagnostic {
    type V = DiagnosticV;

    open spec fn view(&self) -> DiagnosticV {
        DiagnosticV {
            span: self.span,
            severity: self.severity,
            message: self.message@,
            deprecated: self.deprecated,
        }
    }
}

/// The `[...]` rendering of a command list, entries quoted and separated by
/// a comma and a space.
pub open spec fn spec_command_list(cmds: Seq<Seq<char>>) -> Seq<char>
    decreases cmds.len(),
{
    if cmds.len() == 0 {
        Seq::empty()
    } else if cmds.len() == 1 {
        spec_quoted(cmds[0])
    } else {
        spec_command_list(cmds.drop_last()) + seq![',', ' '] + spec_quoted(cmds.last())
    }
}

/// Appends the bracketed command list of `cmds` to `out`.
fn push_command_list(out: &mut Vec<char>, cmds: &Vec<String>)
    ensures
        final(out)@ == old(out)@ + seq!['['] + spec_command_list(
            crate::bazel_flags::strs_view(cmds),
        ) + seq![']'],
{
    let ghost cv = crate::bazel_flags::strs_view(cmds);
    out.push('[');
    let n = cmds.len();
    let mut i: usize = 0;
    proof {
        assert(spec_command_list(cv.take(0)) =~= Seq::<char>::empty());
        assert(out@ =~= old(out)@ + seq!['['] + spec_command_list(cv.take(0)));
    }
    while i < n
        invariant
            i <= n,
            n == cmds@.len(),
            cv == crate::bazel_flags::strs_view(cmds),
            out@ == old(out)@ + seq!['['] + spec_command_list(cv.take(i as int)),
        decreases n - i,
    {
        proof {
            assert(cv[i as int] == cmds@[i as int]@);
            assert(cv.take(i + 1).drop_last() =~= cv.take(i as int));
            assert(cv.take(i + 1).last() == cv[i as int]);
        }
        if i > 0 {
            out.push(',');
            out.push(' ');
        }
        push_quoted(out, cmds[i].as_str());
        proof {
            if i == 0 {
                assert(cv.take(1).len() == 1);
                assert(out@ =~= old(out)@ + seq!['['] + spec_command_list(cv.take(i + 1)));
            } else {
                assert(out@ =~= old(out)@ + seq!['['] + spec_command_list(cv.take(i + 1)));
            }
        }
        i = i + 1;
    }
    out.push(']');
    proof {
        assert(cv.take(n as int) =~= cv);
        assert(out@ =~= old(out)@ + seq!['['] + spec_command_list(cv) + seq![']']);
    }
}

/// The recognized shape of a configuration name: lower-case letters, digits,
/// `-` and `_`; the first character a letter or `_`; every `-` or `_` after
/// the first character followed by a letter or digit.
pub open spec fn is_cfg_lower(c: char) -> bool {
    'a' <= c <= 'z'
}

pub open spec fn is_cfg_digit(c: char) -> bool {
    '0' <= c <= '9'
}

pub open spec fn spec_config_name_ok(s: Seq<char>) -> bool {
    &&& s.len() > 0
    &&& (is_cfg_lower(s[0]) || s[0] == '_')
    &&& forall|i: int|
        1 <= i < s.len() ==> (is_cfg_lower(#[trigger] s[i]) || is_cfg_digit(s[i]) || s[i] == '-'
            || s[i] == '_')
    &&& forall|i: int|
        1 <= i < s.len() && ((#[trigger] s[i]) == '-' || s[i] == '_') ==> i + 1 < s.len() && (
        is_cfg_lower(s[i + 1]) || is_cfg_digit(s[i + 1]))
}

/// Whether `name` is an acceptable configuration name.
fn config_name_ok(name: &str) -> (r: bool)
    ensures
        r == spec_config_name_ok(name@),
{
    let n = name.unicode_len();
    if n == 0 {
        return false;
    }
    let c0 = name.get_char(0);
    if !(('a' <= c0 && c0 <= 'z') || c0 == '_') {
        return false;
    }
    let mut i: usize = 1;
    while i < n
        invariant
            1 <= i <= n,
            n == name@.len(),
            forall|j: int|
                1 <= j < i ==> (is_cfg_lower(#[trigger] name@[j]) || is_cfg_digit(name@[j])
                    || name@[j] == '-' || name@[j] == '_'),
            forall|j: int|
                1 <= j < i && ((#[trigger] name@[j]) == '-' || name@[j] == '_') ==> j + 1 < n && (
                is_cfg_lower(name@[j + 1]) || is_cfg_digit(name@[j + 1])),
        decreases n - i,
    {
        let c = name.get_char(i);
        if !(('a' <= c && c <= 'z') || ('0' <= c && c <= '9') || c == '-' || c == '_') {
            return false;
        }
        if c == '-' || c == '_' {
            if i + 1 >= n {
                return false;
            }
            let c2 = name.get_char(i + 1);
            if !(('a' <= c2 && c2 <= 'z') || ('0' <= c2 && c2 <= '9')) {
                return false;
            }
        }
        i = i + 1;
    }
    true
}

/// Custom Starlark settings are never diagnosed.
pub open spec fn spec_is_custom_flag(name: Seq<char>) -> bool {
    ||| spec_starts_with(name, "--//"@)
    ||| spec_starts_with(name, "--no//"@)
    ||| spec_starts_with(name, "--@"@)
    ||| spec_starts_with(name, "--no@"@)
}

/// Whether `name` mentions a custom Starlark setting.
fn is_custom_flag(name: &str) -> (r: bool)
    ensures
        r == spec_is_custom_flag(name@),
{
    let chars = str_chars(name);
    crate::text::chars_start_with(&chars, "--//") || crate::text::chars_start_with(&chars, "--no//")
        || crate::text::chars_start_with(&chars, "--@") || crate::text::chars_start_with(
        &chars,
        "--no@",
    )
}

pub open spec fn spec_err(span: Span, msg: Seq<char>) -> DiagnosticV {
    DiagnosticV { span, severity: Severity::Error, message: msg, deprecated: false }
}

pub open spec fn spec_warn(span: Span, msg: Seq<char>, deprecated: bool) -> DiagnosticV {
    DiagnosticV { span, severity: Severity::Warning, message: msg, deprecated }
}

pub open spec fn msg_unknown_command(cmd: Seq<char>) -> Seq<char> {
    "Unknown command "@ + spec_quoted(cmd)
}

pub open spec fn msg_unknown_flag(name: Seq<char>) -> Seq<char> {
    "Unknown flag "@ + spec_quoted(name)
}

pub open spec fn msg_not_supported(name: Seq<char>, cmd: Seq<char>, cmds: Seq<Seq<char>>) -> Seq<
    char,
> {
    "The flag "@ + spec_quoted(name) + " is not supported for "@ + spec_quoted(cmd)
        + ". It is supported for "@ + seq!['['] + spec_command_list(cmds) + seq![']']
        + " commands, though."@
}

pub open spec fn msg_deprecated(name: Seq<char>) -> Seq<char> {
    "The flag "@ + spec_quoted(name) + " is deprecated."@
}

pub open spec fn msg_noop(name: Seq<char>) -> Seq<char> {
    "The flag "@ + spec_quoted(name) + " is a no-op."@
}

pub open spec fn msg_renamed(name: Seq<char>, current: Seq<char>) -> Seq<char> {
    "The flag "@ + spec_quoted(name) + " was renamed to \"--"@ + current + "\"."@
}

pub open spec fn msg_abbreviation(current: Seq<char>) -> Seq<char> {
    "Use the full name "@ + spec_quoted(current) + " instead of its abbreviation."@
}

pub open spec fn msg_import_single(cmd: Seq<char>) -> Seq<char> {
    seq!['`'] + cmd + "` expects a single file name, but received multiple arguments"@
}

pub open spec fn msg_import_not_flag(cmd: Seq<char>) -> Seq<char> {
    seq!['`'] + cmd + "` expects a file name, not a flag name"@
}

pub open spec fn msg_config_not_supported(cmd: Seq<char>) -> Seq<char> {
    "Configuration names not supported on "@ + spec_quoted(cmd) + " commands"@
}

/// The diagnostics for one flag mention on a line whose command is
/// `command`: nothing for custom settings; an unknown-flag error for an
/// unresolved name; a wrong-command error naming the supported commands; and
/// at most one of the deprecation, no-op, renamed and abbreviation warnings,
/// in that priority order.
pub open spec fn spec_flag_diag(db: &BazelFlags, command: Seq<char>, f: FlagV) -> Seq<DiagnosticV> {
    match f.name {
        None => Seq::empty(),
        Some((name, nsp)) => {
            if spec_is_custom_flag(name) {
                Seq::empty()
            } else {
                match spec_get_by_invocation(db, name) {
                    None => seq![spec_err(nsp, msg_unknown_flag(name))],
                    Some((kind, idx)) => {
                        let info = db.flags@[idx as int];
                        (if info.spec_supports_command(command) {
                            Seq::empty()
                        } else {
                            seq![
                                spec_err(
                                    nsp,
                                    msg_not_supported(name, command, info@.commands),
                                ),
                            ]
                        }) + (if info.spec_is_deprecated() {
                            seq![spec_warn(nsp, msg_deprecated(name), true)]
                        } else if info.spec_is_noop() {
                            seq![spec_warn(nsp, msg_noop(name), false)]
                        } else if kind == FlagLookupType::OldName {
                            seq![spec_warn(nsp, msg_renamed(name, info@.name), true)]
                        } else if kind == FlagLookupType::Abbreviation {
                            seq![spec_warn(nsp, msg_abbreviation(info@.name), false)]
                        } else {
                            Seq::empty()
                        })
                    },
                }
            }
        },
    }
}

/// The flag diagnostics of a whole line, flag by flag.
pub open spec fn spec_flags_diags(
    db: &BazelFlags,
    command: Seq<char>,
    flags: Seq<FlagV>,
    k: int,
) -> Seq<DiagnosticV>
    decreases flags.len() - k,
{
    if k < 0 || k >= flags.len() {
        Seq::empty()
    } else {
        spec_flag_diag(db, command, flags[k]) + spec_flags_diags(db, command, flags, k + 1)
    }
}

/// The structural diagnostics of an `import`/`try-import` line: exactly one
/// file path, and not a flag name. (Whether the file exists is the caller's
/// business: see [`diagnostics_for_import_path`].)
pub open spec fn spec_import_diags(cmd: Seq<char>, cspan: Span, flags: Seq<FlagV>) -> Seq<
    DiagnosticV,
> {
    if flags.len() == 0 {
        seq![spec_err(cspan, "Missing file path"@)]
    } else if flags.len() > 1 {
        seq![spec_err(cspan, msg_import_single(cmd))]
    } else if flags[0].name is Some {
        seq![spec_err(cspan, msg_import_not_flag(cmd))]
    } else {
        Seq::empty()
    }
}

/// The diagnostics of one line: the command rules (import structure, flag
/// rules for recognized commands, unknown command, missing command), then
/// the configuration-name rules. A pointless or overly complicated
/// configuration name is only a warning; a configuration name on a command
/// that takes none is an error.
pub open spec fn spec_line_diags(db: &BazelFlags, l: LineV) -> Seq<DiagnosticV> {
    (match l.command {
        Some((cmd, csp)) => {
            if cmd == "import"@ || cmd == "try-import"@ {
                spec_import_diags(cmd, csp, l.flags)
            } else if db.flags_by_commands.spec_get(cmd) is Some {
                spec_flags_diags(db, cmd, l.flags, 0)
            } else {
                seq![spec_err(csp, msg_unknown_command(cmd))]
            }
        },
        None => {
            if l.flags.len() > 0 {
                seq![spec_err(l.span, "Missing command"@)]
            } else {
                Seq::empty()
            }
        },
    }) + (match l.config {
        Some((cfg, csp2)) => {
            (if cfg.len() == 0 {
                seq![spec_warn(csp2, "Empty configuration names are pointless"@, false)]
            } else if !spec_config_name_ok(cfg) {
                seq![
                    spec_warn(
                        csp2,
                        "Overly complicated config name. Config names should consist only of lower-case ASCII characters."@,
                        false,
                    ),
                ]
            } else {
                Seq::empty()
            }) + (match l.command {
                Some((cmd, csp)) => {
                    if cmd == "startup"@ || cmd == "import"@ || cmd == "try-import"@ {
                        seq![spec_err(csp2, msg_config_not_supported(cmd))]
                    } else {
                        Seq::empty()
                    }
                },
                None => Seq::empty(),
            })
        },
        None => Seq::empty(),
    })
}

/// The diagnostics of a whole document, line by line.
pub open spec fn spec_rcconfig_diags(db: &BazelFlags, lines: Seq<LineV>, k: int) -> Seq<
    DiagnosticV,
>
    decreases lines.len() - k,
{
    if k < 0 || k >= lines.len() {
        Seq::empty()
    } else {
        spec_line_diags(db, lines[k]) + spec_rcconfig_diags(db, lines, k + 1)
    }
}

/// Appends the diagnostics for one flag mention to `out`.
fn flag_diag(db: &BazelFlags, command: &str, f: &crate::parser::Flag, out: &mut Vec<Diagnostic>)
    requires
        db.wf(),
    ensures
        final(out)@.map_values(|d: Diagnostic| d@) == old(out)@.map_values(|d: Diagnostic| d@)
            + spec_flag_diag(db, command@, f@),
{
    let ghost base = out@.map_values(|d: Diagnostic| d@);
    let (name, nsp): (&String, Span) = match &f.name {
        Some((n, sp)) => (n, *sp),
        None => {
            proof {
                assert(base + spec_flag_diag(db, command@, f@) =~= base);
            }
            return ;
        },
    };
    if is_custom_flag(name.as_str()) {
        proof {
            assert(base + spec_flag_diag(db, command@, f@) =~= base);
        }
        return ;
    }
    match db.get_by_invocation(name.as_str()) {
        None => {
            let mut msg: Vec<char> = Vec::new();
            push_str_chars(&mut msg, "Unknown flag ");
            push_quoted(&mut msg, name.as_str());
            proof {
                assert(msg@ =~= msg_unknown_flag(name@));
            }
            out.push(
                Diagnostic {
                    span: nsp,
                    severity: Severity::Error,
                    message: chars_to_string(&msg),
                    deprecated: false,
                },
            );
            proof {
                assert(out@.map_values(|d: Diagnostic| d@) =~= base + spec_flag_diag(
                    db,
                    command@,
                    f@,
                ));
            }
        },
        Some((kind, info)) => {
            if !info.supports_command(command) {
                let mut msg: Vec<char> = Vec::new();
                push_str_chars(&mut msg, "The flag ");
                push_quoted(&mut msg, name.as_str());
                push_str_chars(&mut msg, " is not supported for ");
                push_quoted(&mut msg, command);
                push_str_chars(&mut msg, ". It is supported for ");
                push_command_list(&mut msg, &info.commands);
                push_str_chars(&mut msg, " commands, though.");
                proof {
                    assert(msg@ =~= msg_not_supported(name@, command@, info@.commands));
                }
                out.push(
                    Diagnostic {
                        span: nsp,
                        severity: Severity::Error,
                        message: chars_to_string(&msg),
                        deprecated: false,
                    },
                );
            }
            if info.is_deprecated() {
                let mut msg: Vec<char> = Vec::new();
                push_str_chars(&mut msg, "The flag ");
                push_quoted(&mut msg, name.as_str());
                push_str_chars(&mut msg, " is deprecated.");
                proof {
                    assert(msg@ =~= msg_deprecated(name@));
                }
                out.push(
                    Diagnostic {
                        span: nsp,
                        severity: Severity::Warning,
                        message: chars_to_string(&msg),
                        deprecated: true,
                    },
                );
            } else if info.is_noop() {
                let mut msg: Vec<char> = Vec::new();
                push_str_chars(&mut msg, "The flag ");
                push_quoted(&mut msg, name.as_str());
                push_str_chars(&mut msg, " is a no-op.");
                proof {
                    assert(msg@ =~= msg_noop(name@));
                }
                out.push(
                    Diagnostic {
                        span: nsp,
                        severity: Severity::Warning,
                        message: chars_to_string(&msg),
                        deprecated: false,
                    },
                );
            } else if matches!(kind, FlagLookupType::OldName) {
                let mut msg: Vec<char> = Vec::new();
                push_str_chars(&mut msg, "The flag ");
                push_quoted(&mut msg, name.as_str());
                push_str_chars(&mut msg, " was renamed to \"--");
                push_str_chars(&mut msg, info.name.as_str());
                push_str_chars(&mut msg, "\".");
                proof {
                    assert(msg@ =~= msg_renamed(name@, info@.name));
                }
                out.push(
                    Diagnostic {
                        span: nsp,
                        severity: Severity::Warning,
                        message: chars_to_string(&msg),
                        deprecated: true,
                    },
                );
            } else if matches!(kind, FlagLookupType::Abbreviation) {
                let mut msg: Vec<char> = Vec::new();
                push_str_chars(&mut msg, "Use the full name ");
                push_quoted(&mut msg, info.name.as_str());
                push_str_chars(&mut msg, " instead of its abbreviation.");
                proof {
                    assert(msg@ =~= msg_abbreviation(info@.name));
                }
                out.push(
                    Diagnostic {
                        span: nsp,
                        severity: Severity::Warning,
                        message: chars_to_string(&msg),
                        deprecated: false,
                    },
                );
            }
            proof {
                assert(out@.map_values(|d: Diagnostic| d@) =~= base + spec_flag_diag(
                    db,
                    command@,
                    f@,
                ));
            }
        },
    }
}

/// Builds the diagnostics for one line.
fn line_diags(db: &BazelFlags, l: &Line) -> (r: Vec<Diagnostic>)
    requires
        db.wf(),
    ensures
        r@.map_values(|d: Diagnostic| d@) == spec_line_diags(db, l@),
{
    let mut out: Vec<Diagnostic> = Vec::new();
    proof {
        assert(out@.map_values(|d: Diagnostic| d@) =~= Seq::<DiagnosticV>::empty());
    }
    match &l.command {
        Some((cmd, csp)) => {
            if str_eq(cmd.as_str(), "import") || str_eq(cmd.as_str(), "try-import") {
                // Import lines take exactly one file path.
                if l.flags.len() == 0 {
                    out.push(
                        Diagnostic {
                            span: *csp,
                            severity: Severity::Error,
                            message: String::from_str("Missing file path"),
                            deprecated: false,
                        },
                    );
                } else if l.flags.len() > 1 {
                    let mut msg: Vec<char> = Vec::new();
                    msg.push('`');
                    push_str_chars(&mut msg, cmd.as_str());
                    push_str_chars(
                        &mut msg,
                        "` expects a single file name, but received multiple arguments",
                    );
                    proof {
                        assert(msg@ =~= msg_import_single(cmd@));
                    }
                    out.push(
                        Diagnostic {
                            span: *csp,
                            severity: Severity::Error,
                            message: chars_to_string(&msg),
                            deprecated: false,
                        },
                    );
                } else {
                    let has_name = l.flags[0].name.is_some();
                    proof {
                        assert(l@.flags[0] == l.flags@[0]@);
                    }
                    if has_name {
                        let mut msg: Vec<char> = Vec::new();
                        msg.push('`');
                        push_str_chars(&mut msg, cmd.as_str());
                        push_str_chars(&mut msg, "` expects a file name, not a flag name");
                        proof {
                            assert(msg@ =~= msg_import_not_flag(cmd@));
                        }
                        out.push(
                            Diagnostic {
                                span: *csp,
                                severity: Severity::Error,
                                message: chars_to_string(&msg),
                                deprecated: false,
                            },
                        );
                    }
                }
                proof {
                    assert(out@.map_values(|d: Diagnostic| d@) =~= spec_import_diags(
                        cmd@,
                        *csp,
                        l@.flags,
                    ));
                }
            } else if db.flags_by_commands.contains_key(cmd.as_str()) {
                // A recognized command: diagnose its flags.
                let ghost fvv = l@.flags;
                let n = l.flags.len();
                let mut k: usize = 0;
                proof {
                    assert(fvv.len() == n);
                }
                while k < n
                    invariant
                        k <= n,
                        n == l.flags@.len(),
                        db.wf(),
                        fvv == l@.flags,
                        fvv.len() == n,
                        out@.map_values(|d: Diagnostic| d@) + spec_flags_diags(
                            db,
                            cmd@,
                            fvv,
                            k as int,
                        ) == spec_flags_diags(db, cmd@, fvv, 0),
                    decreases n - k,
                {
                    proof {
                        assert(fvv[k as int] == l.flags@[k as int]@);
                    }
                    let ghost out0 = out@.map_values(|d: Diagnostic| d@);
                    flag_diag(db, cmd.as_str(), &l.flags[k], &mut out);
                    proof {
                        assert(out0 + spec_flag_diag(db, cmd@, fvv[k as int]) + spec_flags_diags(
                            db,
                            cmd@,
                            fvv,
                            k as int + 1,
                        ) =~= out0 + (spec_flag_diag(db, cmd@, fvv[k as int]) + spec_flags_diags(
                            db,
                            cmd@,
                            fvv,
                            k as int + 1,
                        )));
                    }
                    k = k + 1;
                }
                proof {
                    assert(out@.map_values(|d: Diagnostic| d@) + Seq::<DiagnosticV>::empty()
                        =~= out@.map_values(|d: Diagnostic| d@));
                    assert(spec_flags_diags(db, cmd@, fvv, n as int) =~= Seq::<
                        DiagnosticV,
                    >::empty());
                }
            } else {
                let mut msg: Vec<char> = Vec::new();
                push_str_chars(&mut msg, "Unknown command ");
                push_quoted(&mut msg, cmd.as_str());
                proof {
                    assert(msg@ =~= msg_unknown_command(cmd@));
                }
                out.push(
                    Diagnostic {
                        span: *csp,
                        severity: Severity::Error,
                        message: chars_to_string(&msg),
                        deprecated: false,
                    },
                );
            }
        },
        None => {
            if l.flags.len() > 0 {
                out.push(
                    Diagnostic {
                        span: l.span,
                        severity: Severity::Error,
                        message: String::from_str("Missing command"),
                        deprecated: false,
                    },
                );
            }
        },
    }
    // Configuration-name rules.
    match &l.config {
        Some((cfg, csp2)) => {
            if cfg.as_str().unicode_len() == 0 {
                out.push(
                    Diagnostic {
                        span: *csp2,
                        severity: Severity::Warning,
                        message: String::from_str("Empty configuration names are pointless"),
                        deprecated: false,
                    },
                );
            } else if !config_name_ok(cfg.as_str()) {
                out.push(
                    Diagnostic {
                        span: *csp2,
                        severity: Severity::Warning,
                        message: String::from_str(
                            "Overly complicated config name. Config names should consist only of lower-case ASCII characters.",
                        ),
                        deprecated: false,
                    },
                );
            }
            match &l.command {
                Some((cmd, csp)) => {
                    if str_eq(cmd.as_str(), "startup") || str_eq(cmd.as_str(), "import")
                        || str_eq(cmd.as_str(), "try-import") {
                        let mut msg: Vec<char> = Vec::new();
                        push_str_chars(&mut msg, "Configuration names not supported on ");
                        push_quoted(&mut msg, cmd.as_str());
                        push_str_chars(&mut msg, " commands");
                        proof {
                            assert(msg@ =~= msg_config_not_supported(cmd@));
                        }
                        out.push(
                            Diagnostic {
                                span: *csp2,
                                severity: Severity::Error,
                                message: chars_to_string(&msg),
                                deprecated: false,
                            },
                        );
                    }
                },
                None => {},
            }
        },
        None => {},
    }
    proof {
        assert(out@.map_values(|d: Diagnostic| d@) =~= spec_line_diags(db, l@));
    }
    out
}

/// The diagnostics of a whole document of (combined) lines.
pub fn diagnostics_from_rcconfig(lines: &Vec<Line>, bazel_flags: &BazelFlags) -> (r: Vec<
    Diagnostic,
>)
    requires
        bazel_flags.wf(),
    ensures
        r@.map_values(|d: Diagnostic| d@) == spec_rcconfig_diags(
            bazel_flags,
            lines@.map_values(|l: Line| l@),
            0,
        ),
{
    let ghost lv = lines@.map_values(|l: Line| l@);
    let n = lines.len();
    let mut out: Vec<Diagnostic> = Vec::new();
    let mut k: usize = 0;
    proof {
        assert(out@.map_values(|d: Diagnostic| d@) =~= Seq::<DiagnosticV>::empty());
    }
    while k < n
        invariant
            k <= n,
            n == lines@.len(),
            bazel_flags.wf(),
            lv == lines@.map_values(|l: Line| l@),
            out@.map_values(|d: Diagnostic| d@) + spec_rcconfig_diags(bazel_flags, lv, k as int)
                == spec_rcconfig_diags(bazel_flags, lv, 0),
        decreases n - k,
    {
        proof {
            assert(lv[k as int] == lines@[k as int]@);
        }
        let ds = line_diags(bazel_flags, &lines[k]);
        let ghost out0 = out@.map_values(|d: Diagnostic| d@);
        let ghost dsv = ds@.map_values(|d: Diagnostic| d@);
        let mut app = ds;
        out.append(&mut app);
        proof {
            assert(out@.map_values(|d: Diagnostic| d@) =~= out0 + dsv);
            assert(out0 + dsv + spec_rcconfig_diags(bazel_flags, lv, k as int + 1) =~= out0 + (dsv
                + spec_rcconfig_diags(bazel_flags, lv, k as int + 1)));
        }
        k = k + 1;
    }
    proof {
        assert(spec_rcconfig_diags(bazel_flags, lv, n as int) =~= Seq::<DiagnosticV>::empty());
        assert(out@.map_values(|d: Diagnostic| d@) + Seq::<DiagnosticV>::empty() =~= out@
            .map_values(|d: Diagnostic| d@));
    }
    out
}

/// The diagnostic derived from one lexing error.
pub open spec fn spec_lex_diag(s: Seq<char>, e: crate::tokenizer::SpecLexError) -> DiagnosticV {
    DiagnosticV {
        span: Span {
            start: crate::parser::bpos(s, e.pos),
            end: crate::parser::bpos(s, e.pos + 1),
        },
        severity: Severity::Error,
        message: "Unrecognized character"@,
        deprecated: false,
    }
}

/// Everything the engine says about raw source text: the recoverable lexing
/// errors, then the line rules over the parsed and combined lines.
pub open spec fn spec_diagnostics_from_string(db: &BazelFlags, s: Seq<char>) -> Seq<DiagnosticV> {
    spec_lex_errors(s, 0).map_values(|e: crate::tokenizer::SpecLexError| spec_lex_diag(s, e))
        + spec_rcconfig_diags(
        db,
        crate::bazel_flags::spec_combine_lines(db, spec_parse(spec_tokens(s, 0), s)),
        0,
    )
}

/// Parses `str`, combines flags with their values, and diagnoses the
/// result. Lexing errors are reported first, then the line rules.
pub fn diagnostics_from_string(input: &str, bazel_flags: &BazelFlags) -> (r: Vec<Diagnostic>)
    requires
        bazel_flags.wf(),
    ensures
        r@.map_values(|d: Diagnostic| d@) == spec_diagnostics_from_string(bazel_flags, input@),
{
    let pr = crate::parser::parse_from_str(input);
    let mut lines = pr.lines;
    crate::bazel_flags::combine_key_value_flags(&mut lines, bazel_flags);
    let mut out: Vec<Diagnostic> = Vec::new();
    let ghost les = spec_lex_errors(input@, 0);
    let ne = pr.errors.len();
    let mut k: usize = 0;
    proof {
        assert(les.take(0).map_values(
            |e: crate::tokenizer::SpecLexError| spec_lex_diag(input@, e),
        ) =~= Seq::<DiagnosticV>::empty());
        assert(out@.map_values(|d: Diagnostic| d@) =~= les.take(0).map_values(
            |e: crate::tokenizer::SpecLexError| spec_lex_diag(input@, e),
        ));
    }
    while k < ne
        invariant
            k <= ne,
            ne == pr.errors@.len(),
            ne == les.len(),
            les == spec_lex_errors(input@, 0),
            forall|m: int|
                0 <= m < ne ==> crate::tokenizer::lex_error_matches(
                    input@,
                    #[trigger] pr.errors@[m],
                    les[m],
                ),
            out@.map_values(|d: Diagnostic| d@) == les.take(k as int).map_values(
                |e: crate::tokenizer::SpecLexError| spec_lex_diag(input@, e),
            ),
        decreases ne - k,
    {
        let le = &pr.errors[k];
        proof {
            assert(crate::tokenizer::lex_error_matches(input@, pr.errors@[k as int], les[k as int]));
            assert(out@.map_values(|d: Diagnostic| d@).len() == out@.len());
            assert(les.take(k as int).map_values(
                |e: crate::tokenizer::SpecLexError| spec_lex_diag(input@, e),
            ).len() == k);
            assert(out@.len() == k);
        }
        let d = Diagnostic {
            span: le.span,
            severity: Severity::Error,
            message: String::from_str("Unrecognized character"),
            deprecated: false,
        };
        let ghost dv = d@;
        let ghost out0 = out@;
        out.push(d);
        proof {
            let ghost target = spec_lex_diag(input@, les[k as int]);
            assert(dv.span.start == target.span.start);
            assert(dv.span.end == target.span.end);
            assert(dv.message == target.message);
            assert(dv =~~= target);
            assert(out@.len() == k + 1);
            assert(out@[k as int]@ =~~= spec_lex_diag(input@, les[k as int]));
            out0.lemma_push_map_commute(|d: Diagnostic| d@, out@[k as int]);
            les.lemma_map_take_succ(
                |e: crate::tokenizer::SpecLexError| spec_lex_diag(input@, e),
                k as int,
            );
            assert(out@ == out0.push(out@[k as int]));
            assert(out@.map_values(|d: Diagnostic| d@) =~= les.take(k + 1).map_values(
                |e: crate::tokenizer::SpecLexError| spec_lex_diag(input@, e),
            ));
        }
        k = k + 1;
    }
    let mut rest = diagnostics_from_rcconfig(&lines, bazel_flags);
    let ghost out0 = out@.map_values(|d: Diagnostic| d@);
    let ghost restv = rest@.map_values(|d: Diagnostic| d@);
    out.append(&mut rest);
    proof {
        assert(les.take(ne as int) =~= les);
        assert(out@.map_values(|d: Diagnostic| d@) =~= out0 + restv);
        assert(lines@.map_values(|l: Line| l@) == crate::bazel_flags::spec_combine_lines(
            bazel_flags,
            spec_parse(spec_tokens(input@, 0), input@),
        ));
    }
    out
}

/// What a host found when it resolved and checked an imported file path.
#[derive(Debug, Clone, Copy, PartialEq, Eq, Structural)]
pub enum ImportPathStatus {
    /// The path could not be resolved (no enclosing workspace).
    Unresolved,
    /// The resolved path names nothing on disk.
    Missing,
    /// The resolved path exists but is not a regular file.
    NotAFile,
    /// The resolved path names a regular file.
    Found,
}

/// The diagnostic for an import path check: a missing or unusable file is an
/// error for `import` and only a warning for `try-import`.
pub open spec fn spec_import_path_diag(
    command: Seq<char>,
    value_span: Span,
    status: ImportPathStatus,
) -> Option<DiagnosticV> {
    let sev = if command == "try-import"@ {
        Severity::Warning
    } else {
        Severity::Error
    };
    match status {
        ImportPathStatus::Unresolved => Some(
            DiagnosticV {
                span: value_span,
                severity: sev,
                message: "Unable to resolve file name"@,
                deprecated: false,
            },
        ),
        ImportPathStatus::Missing => Some(
            DiagnosticV {
                span: value_span,
                severity: sev,
                message: "Imported file does not exist"@,
                deprecated: false,
            },
        ),
        ImportPathStatus::NotAFile => Some(
            DiagnosticV {
                span: value_span,
                severity: sev,
                message: "Imported path exists, but is not a file"@,
                deprecated: false,
            },
        ),
        ImportPathStatus::Found => None,
    }
}

/// Turns the host's import path check into a diagnostic. The host resolves
/// the path (it may need the file system for the workspace root) and reports
/// what it found; this rule says what that means for the document.
pub fn diagnostics_for_import_path(command: &str, value_span: Span, status: ImportPathStatus) -> (r:
    Option<Diagnostic>)
    ensures
        match r {
            Some(d) => spec_import_path_diag(command@, value_span, status) == Some(d@),
            None => spec_import_path_diag(command@, value_span, status) is None,
        },
{
    let sev = if str_eq(command, "try-import") {
        Severity::Warning
    } else {
        Severity::Error
    };
    match status {
        ImportPathStatus::Unresolved => Some(
            Diagnostic {
                span: value_span,
                severity: sev,
                message: String::from_str("Unable to resolve file name"),
                deprecated: false,
            },
        ),
        ImportPathStatus::Missing => Some(
            Diagnostic {
                span: value_span,
                severity: sev,
                message: String::from_str("Imported file does not exist"),
                deprecated: false,
            },
        ),
        ImportPathStatus::NotAFile => Some(
            Diagnostic {
                span: value_span,
                severity: sev,
                message: String::from_str("Imported path exists, but is not a file"),
                deprecated: false,
            },
        ),
        ImportPathStatus::Found => None,
    }
}

} // verus!
