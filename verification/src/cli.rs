//! The command line: what is asked for, what to do about it and what to say.

use vstd::prelude::*;

use crate::client::Outcome;
use crate::sockdir;
use crate::sockdir::SessionInfo;
use crate::text;

verus! {

/// The prefix key unless `-e` gives another: Ctrl-a.
pub const DEFAULT_DETACH_KEY: u8 = 0x01;

#[derive(Debug, Clone, Copy, PartialEq, Eq, Structural)]
pub enum Action {
    /// -a: attach to an existing session (error if absent).
    Attach,
    /// -A: attach if present, else create and attach.
    AttachOrCreate,
    /// -c: create a new session and attach.
    Create,
    /// -n: create a new session, do not attach.
    CreateNoAttach,
    /// -R: rename an existing session.
    Rename,
}

#[derive(Debug)]
pub struct Options {
    pub action: Option<Action>,
    pub list: bool,
    pub force: bool,
    pub readonly: bool,
    pub lowpriority: bool,
    pub passthrough: bool,
    pub quiet: bool,
    pub detach_key: u8,
    pub name: Option<String>,
    pub command: Vec<String>,
}

pub struct OptionsView {
    pub action: Option<Action>,
    pub list: bool,
    pub force: bool,
    pub readonly: bool,
    pub lowpriority: bool,
    pub passthrough: bool,
    pub quiet: bool,
    pub detach_key: u8,
    pub name: Option<Seq<char>>,
    pub command: Seq<Seq<char>>,
}

pub open spec fn strings_view(strings: Seq<String>) -> Seq<Seq<char>> {
    Seq::new(strings.len(), |i: int| strings[i]@)
}

impl View for Options {
    type V = OptionsView;

    open spec fn view(&self) -> OptionsView {
        OptionsView {
            action: self.action,
            list: self.list,
            force: self.force,
            readonly: self.readonly,
            lowpriority: self.lowpriority,
            passthrough: self.passthrough,
            quiet: self.quiet,
            detach_key: self.detach_key,
            name: match self.name {
                Some(name) => Some(name@),
                None => None,
            },
            command: strings_view(self.command@),
        }
    }
}

// ---- the prefix key ---------------------------------------------------------

/// The upper-case letter of an ASCII letter; any other character is its own.
pub open spec fn ascii_upper(c: char) -> u32 {
    if 'a' <= c <= 'z' {
        (c as u32 - 32) as u32
    } else {
        c as u32
    }
}

/// The byte that Ctrl with this key gives.
pub open spec fn control_key(c: char) -> u8 {
    (ascii_upper(c) % 32) as u8
}

fn control_byte(c: char) -> (key: u8)
    ensures
        key == control_key(c),
{
    let upper: u32 = if 'a' <= c && c <= 'z' {
        c as u32 - 32
    } else {
        c as u32
    };
    (upper % 32) as u8
}

fn ascii_byte(c: char) -> (b: Option<u8>)
    ensures
        b == if c <= '\x7f' {
            Some(c as u8)
        } else {
            None
        },
{
    if c <= '\x7f' {
        Some(c as u8)
    } else {
        None
    }
}

pub open spec fn is_digit(c: char) -> bool {
    '0' <= c <= '9'
}

/// The number that decimal digits write.
pub open spec fn digits_value(digits: Seq<char>) -> nat
    decreases digits.len(),
{
    if digits.len() == 0 {
        0
    } else {
        10 * digits_value(digits.drop_last()) + (digits.last() as u32 - 48) as nat
    }
}

pub open spec fn all_digits(digits: Seq<char>) -> bool {
    forall|i: int| 0 <= i < digits.len() ==> is_digit(#[trigger] digits[i])
}

/// A text without the `+` in front, if there is one.
pub open spec fn without_plus(s: Seq<char>) -> Seq<char> {
    if s.len() > 0 && s[0] == '+' {
        s.drop_first()
    } else {
        s
    }
}

/// The byte that a text writes in decimal, with an optional `+` in front.
pub open spec fn decimal_byte(s: Seq<char>) -> Option<u8> {
    let digits = without_plus(s);
    if digits.len() > 0 && all_digits(digits) && digits_value(digits) <= 255 {
        Some(digits_value(digits) as u8)
    } else {
        None
    }
}

/// The key that a text names: `^x` (Ctrl-x), a single ASCII character, or a decimal
/// byte value.
pub open spec fn detach_key(s: Seq<char>) -> Option<u8> {
    if s.len() == 2 && s[0] == '^' {
        Some(control_key(s[1]))
    } else if s.len() == 1 && s[0] <= '\x7f' {
        Some(s[0] as u8)
    } else {
        decimal_byte(s)
    }
}

proof fn lemma_digits_value_grows(digits: Seq<char>, n: int)
    requires
        0 <= n <= digits.len(),
        all_digits(digits),
    ensures
        digits_value(digits.take(n)) <= digits_value(digits),
    decreases digits.len(),
{
    if n < digits.len() {
        let shorter = digits.drop_last();
        assert(shorter.take(n) == digits.take(n));
        lemma_digits_value_grows(shorter, n);
        assert(is_digit(digits.last()));
    } else {
        assert(digits.take(n) == digits);
    }
}

fn parse_decimal_byte(s: &Vec<char>) -> (n: Option<u8>)
    ensures
        n == decimal_byte(s@),
{
    let start: usize = if s.len() > 0 && s[0] == '+' {
        1
    } else {
        0
    };
    let ghost digits = s@.skip(start as int);
    proof {
        assert(digits == without_plus(s@));
    }
    if start == s.len() {
        return None;
    }
    let mut value: u32 = 0;
    let mut i: usize = start;
    while i < s.len()
        invariant
            start <= i <= s@.len(),
            digits == s@.skip(start as int),
            digits == without_plus(s@),
            value <= 255,
            value == digits_value(digits.take(i - start)),
            forall|k: int| 0 <= k < i - start ==> is_digit(#[trigger] digits[k]),
        decreases s@.len() - i,
    {
        let c: char = s[i];
        assert(digits[i - start] == c);
        if !('0' <= c && c <= '9') {
            return None;
        }
        value = 10 * value + (c as u32 - 48);
        proof {
            let upto = digits.take(i + 1 - start);
            assert(upto.drop_last() == digits.take(i - start));
            assert(upto.last() == c);
        }
        if value > 255 {
            proof {
                if all_digits(digits) {
                    lemma_digits_value_grows(digits, i + 1 - start);
                }
            }
            return None;
        }
        i += 1;
    }
    assert(digits.take(digits.len() as int) == digits);
    Some(value as u8)
}

/// Parses a key: `^x` (Ctrl-x), a single character, or a decimal byte value.
pub fn parse_detach_key(spec: &str) -> (r: Result<u8, String>)
    ensures
        match r {
            Ok(key) => detach_key(spec@) == Some(key),
            Err(message) => detach_key(spec@) is None && message@ == "invalid detach key: "@
                + spec@,
        },
{
    let chars = text::chars_of(spec);
    if chars.len() == 2 && chars[0] == '^' {
        return Ok(control_byte(chars[1]));
    }
    if chars.len() == 1 {
        if let Some(key) = ascii_byte(chars[0]) {
            return Ok(key);
        }
    }
    match parse_decimal_byte(&chars) {
        Some(n) => Ok(n),
        None => Err("invalid detach key: ".to_owned().concat(spec)),
    }
}

// ---- arguments --------------------------------------------------------------

/// What the arguments ask for.
#[derive(Debug)]
pub enum Parsed {
    Run(Options),
    /// -v: print the version.
    Version,
}

pub enum ParsedView {
    Run(OptionsView),
    Version,
    /// The arguments are wrong, for this reason.
    Error(Seq<char>),
}

pub open spec fn parsed_view(r: Result<Parsed, String>) -> ParsedView {
    match r {
        Ok(Parsed::Run(options)) => ParsedView::Run(options@),
        Ok(Parsed::Version) => ParsedView::Version,
        Err(message) => ParsedView::Error(message@),
    }
}

/// The options before any argument is read.
pub open spec fn no_options() -> OptionsView {
    OptionsView {
        action: None,
        list: false,
        force: false,
        readonly: false,
        lowpriority: false,
        passthrough: false,
        quiet: false,
        detach_key: DEFAULT_DETACH_KEY,
        name: None,
        command: Seq::empty(),
    }
}

/// What the flags of one argument come to.
pub enum FlagsView {
    /// These options, and the arguments that are still to be read.
    Next { options: OptionsView, rest: Seq<Seq<char>> },
    Version,
    Error(Seq<char>),
}

/// The action that a flag asks for.
pub open spec fn action_flag(c: char) -> Option<Action> {
    if c == 'a' {
        Some(Action::Attach)
    } else if c == 'A' {
        Some(Action::AttachOrCreate)
    } else if c == 'c' {
        Some(Action::Create)
    } else if c == 'n' {
        Some(Action::CreateNoAttach)
    } else if c == 'R' {
        Some(Action::Rename)
    } else {
        None
    }
}

/// The options with one of the simple flags set.
pub open spec fn set_flag(o: OptionsView, c: char) -> Option<OptionsView> {
    if c == 'f' {
        Some(OptionsView { force: true, ..o })
    } else if c == 'l' {
        Some(OptionsView { list: true, ..o })
    } else if c == 'L' {
        Some(OptionsView { lowpriority: true, ..o })
    } else if c == 'p' {
        Some(OptionsView { passthrough: true, ..o })
    } else if c == 'q' {
        Some(OptionsView { quiet: true, ..o })
    } else if c == 'r' {
        Some(OptionsView { readonly: true, ..o })
    } else {
        None
    }
}

/// The options with the prefix key that `value` names.
pub open spec fn set_key(o: OptionsView, value: Seq<char>, rest: Seq<Seq<char>>) -> FlagsView {
    match detach_key(value) {
        Some(key) => FlagsView::Next { options: OptionsView { detach_key: key, ..o }, rest },
        None => FlagsView::Error("invalid detach key: "@ + value),
    }
}

/// Whether an argument holds flags.
pub open spec fn is_flags(arg: Seq<char>) -> bool {
    arg.len() >= 2 && arg[0] == '-' && arg != "--"@
}

/// Reads the flags of one argument, one after the other; `rest` are the arguments
/// behind it.  At most one action may be given.  The value of `-e` is the rest of
/// its argument, or else the next argument.
pub open spec fn read_flags(
    flags: Seq<char>,
    rest: Seq<Seq<char>>,
    o: OptionsView,
) -> FlagsView
    decreases flags.len(),
{
    if flags.len() == 0 {
        FlagsView::Next { options: o, rest }
    } else {
        let c = flags[0];
        let more = flags.drop_first();
        if action_flag(c) is Some {
            if o.action is Some {
                FlagsView::Error("only one of -a/-A/-c/-n may be given"@)
            } else {
                read_flags(more, rest, OptionsView { action: action_flag(c), ..o })
            }
        } else if set_flag(o, c) is Some {
            read_flags(more, rest, set_flag(o, c)->Some_0)
        } else if c == 'v' {
            FlagsView::Version
        } else if c == 'e' {
            if more.len() > 0 {
                set_key(o, more, rest)
            } else if rest.len() > 0 {
                set_key(o, rest[0], rest.drop_first())
            } else {
                FlagsView::Error("-e requires a key argument"@)
            }
        } else {
            FlagsView::Error("unknown option -"@.push(c))
        }
    }
}

/// Reads the arguments.  The first that is no flag is the session's name.  Flags may
/// still follow it, up to the first word of the command; from there on all is the
/// command, verbatim.  Behind a `--` that stands before the name all is the command;
/// behind the name `--` is a word of the command like any other.
pub open spec fn read_args(args: Seq<Seq<char>>, o: OptionsView) -> ParsedView
    decreases args.len(),
{
    if args.len() == 0 {
        ParsedView::Run(o)
    } else {
        let arg = args[0];
        let rest = args.drop_first();
        if is_flags(arg) {
            match read_flags(arg.drop_first(), rest, o) {
                FlagsView::Next { options, rest: left } => if left.len() < args.len() {
                    read_args(left, options)
                } else {
                    ParsedView::Run(options)
                },
                FlagsView::Version => ParsedView::Version,
                FlagsView::Error(message) => ParsedView::Error(message),
            }
        } else if o.name is Some {
            ParsedView::Run(OptionsView { command: o.command + args, ..o })
        } else if arg == "--"@ {
            ParsedView::Run(OptionsView { command: o.command + rest, ..o })
        } else {
            read_args(rest, OptionsView { name: Some(arg), ..o })
        }
    }
}

/// Notes the action; only one may be given.
pub fn set_action(opts: &mut Options, action: Action) -> (r: Result<(), String>)
    ensures
        match r {
            Ok(()) => old(opts)@.action is None && final(opts)@ == (OptionsView {
                action: Some(action),
                ..old(opts)@
            }),
            Err(message) => old(opts)@.action is Some && final(opts)@ == old(opts)@ && message@
                == "only one of -a/-A/-c/-n may be given"@,
        },
{
    if opts.action.is_some() {
        return Err("only one of -a/-A/-c/-n may be given".to_owned());
    }
    opts.action = Some(action);
    Ok(())
}

enum FlagsEnd {
    /// The index of the next argument to be read.
    Next(usize),
    Version,
}

fn parse_flags(opts: &mut Options, flags: &Vec<char>, args: &Vec<String>, next: usize) -> (r: Result<
    FlagsEnd,
    String,
>)
    requires
        flags@.len() >= 1,
        next <= args@.len(),
    ensures
        match read_flags(
            flags@.drop_first(),
            strings_view(args@).skip(next as int),
            old(opts)@,
        ) {
            FlagsView::Next { options, rest } => {
                &&& r is Ok && r->Ok_0 is Next
                &&& next <= r->Ok_0->Next_0 <= args@.len()
                &&& rest == strings_view(args@).skip(r->Ok_0->Next_0 as int)
                &&& final(opts)@ == options
            },
            FlagsView::Version => r is Ok && r->Ok_0 is Version,
            FlagsView::Error(message) => r is Err && r->Err_0@ == message,
        },
{
    let ghost rest = strings_view(args@).skip(next as int);
    let ghost goal = read_flags(flags@.drop_first(), rest, opts@);
    let mut j: usize = 1;
    assert(flags@.skip(1) == flags@.drop_first());
    while j < flags.len()
        invariant
            1 <= j <= flags@.len(),
            next <= args@.len(),
            rest == strings_view(args@).skip(next as int),
            goal == read_flags(flags@.drop_first(), rest, old(opts)@),
            goal == read_flags(flags@.skip(j as int), rest, opts@),
        decreases flags@.len() - j,
    {
        let c: char = flags[j];
        let ghost here = flags@.skip(j as int);
        proof {
            assert(here[0] == c);
            assert(here.drop_first() == flags@.skip(j + 1));
        }
        let action: Option<Action> = if c == 'a' {
            Some(Action::Attach)
        } else if c == 'A' {
            Some(Action::AttachOrCreate)
        } else if c == 'c' {
            Some(Action::Create)
        } else if c == 'n' {
            Some(Action::CreateNoAttach)
        } else if c == 'R' {
            Some(Action::Rename)
        } else {
            None
        };
        if let Some(action) = action {
            match set_action(opts, action) {
                Ok(()) => {},
                Err(message) => {
                    return Err(message);
                },
            }
        } else if c == 'f' {
            opts.force = true;
        } else if c == 'l' {
            opts.list = true;
        } else if c == 'L' {
            opts.lowpriority = true;
        } else if c == 'p' {
            opts.passthrough = true;
        } else if c == 'q' {
            opts.quiet = true;
        } else if c == 'r' {
            opts.readonly = true;
        } else if c == 'v' {
            return Ok(FlagsEnd::Version);
        } else if c == 'e' {
            if j + 1 < flags.len() {
                let value = text::string_from(flags, j + 1);
                return match parse_detach_key(value.as_str()) {
                    Ok(key) => {
                        opts.detach_key = key;
                        Ok(FlagsEnd::Next(next))
                    },
                    Err(message) => Err(message),
                };
            }
            if next >= args.len() {
                return Err("-e requires a key argument".to_owned());
            }
            assert(rest[0] == args@[next as int]@);
            assert(rest.drop_first() == strings_view(args@).skip(next + 1));
            return match parse_detach_key(args[next].as_str()) {
                Ok(key) => {
                    opts.detach_key = key;
                    Ok(FlagsEnd::Next(next + 1))
                },
                Err(message) => Err(message),
            };
        } else {
            let mut message = "unknown option -".to_owned();
            message.push(c);
            return Err(message);
        }
        j += 1;
    }
    Ok(FlagsEnd::Next(next))
}

/// Appends the arguments from `from` on to the command.
fn push_command(opts: &mut Options, args: &Vec<String>, from: usize)
    requires
        from <= args@.len(),
    ensures
        final(opts)@ == (OptionsView {
            command: old(opts)@.command + strings_view(args@).skip(from as int),
            ..old(opts)@
        }),
{
    let ghost before = opts@;
    let ghost all = strings_view(args@);
    let mut i: usize = from;
    assert(before.command + all.subrange(from as int, from as int) == before.command);
    while i < args.len()
        invariant
            from <= i <= args@.len(),
            all == strings_view(args@),
            before == old(opts)@,
            opts@ == (OptionsView {
                command: before.command + all.subrange(from as int, i as int),
                ..before
            }),
        decreases args@.len() - i,
    {
        let ghost sofar = opts@.command;
        opts.command.push(args[i].clone());
        proof {
            assert(opts@.command == sofar.push(all[i as int]));
            assert(all.subrange(from as int, i + 1) == all.subrange(from as int, i as int).push(
                all[i as int],
            ));
            assert(sofar.push(all[i as int]) == before.command + all.subrange(
                from as int,
                i + 1,
            ));
        }
        i += 1;
    }
    assert(all.subrange(from as int, all.len() as int) == all.skip(from as int));
}

/// Parses the arguments (without the program's name).
pub fn parse_args(args: &Vec<String>) -> (r: Result<Parsed, String>)
    ensures
        parsed_view(r) == read_args(strings_view(args@), no_options()),
{
    let mut opts = Options {
        action: None,
        list: false,
        force: false,
        readonly: false,
        lowpriority: false,
        passthrough: false,
        quiet: false,
        detach_key: DEFAULT_DETACH_KEY,
        name: None,
        command: Vec::new(),
    };
    let ghost all = strings_view(args@);
    let ghost goal = read_args(all, no_options());
    proof {
        reveal_strlit("--");
        assert(opts@.command == Seq::<Seq<char>>::empty());
        assert(opts@ == no_options());
        assert(all.skip(0) == all);
    }
    let mut i: usize = 0;
    while i < args.len()
        invariant
            i <= args@.len(),
            all == strings_view(args@),
            goal == read_args(all, no_options()),
            goal == read_args(all.skip(i as int), opts@),
            "--"@.len() == 2,
            "--"@[0] == '-',
            "--"@[1] == '-',
        decreases args@.len() - i,
    {
        let tok = text::chars_of(args[i].as_str());
        let ghost here = all.skip(i as int);
        proof {
            assert(here[0] == tok@);
            assert(here.drop_first() == all.skip(i + 1));
        }
        let dashes: bool = tok.len() == 2 && tok[0] == '-' && tok[1] == '-';
        proof {
            if dashes {
                assert(tok@ == "--"@);
            }
        }
        if tok.len() >= 2 && tok[0] == '-' && !dashes {
            match parse_flags(&mut opts, &tok, args, i + 1) {
                Ok(FlagsEnd::Next(next)) => {
                    i = next;
                },
                Ok(FlagsEnd::Version) => {
                    return Ok(Parsed::Version);
                },
                Err(message) => {
                    return Err(message);
                },
            }
        } else if opts.name.is_some() {
            push_command(&mut opts, args, i);
            return Ok(Parsed::Run(opts));
        } else if dashes {
            push_command(&mut opts, args, i + 1);
            return Ok(Parsed::Run(opts));
        } else {
            opts.name = Some(args[i].clone());
            i += 1;
        }
    }
    Ok(Parsed::Run(opts))
}

// ---- what to do -------------------------------------------------------------

/// What the options ask for.
#[derive(Debug)]
pub enum Plan {
    /// List the sessions.
    List,
    /// A session name is missing.
    NeedName,
    /// `-R` without exactly one new name.
    NeedNewName,
    /// Rename session `from` to `to`.
    Rename { from: String, to: String },
    /// Attach to or create the session.
    Session { action: Action, name: String },
}

pub enum PlanView {
    List,
    NeedName,
    NeedNewName,
    Rename { from: Seq<char>, to: Seq<char> },
    Session { action: Action, name: Seq<char> },
}

impl View for Plan {
    type V = PlanView;

    open spec fn view(&self) -> PlanView {
        match self {
            Plan::List => PlanView::List,
            Plan::NeedName => PlanView::NeedName,
            Plan::NeedNewName => PlanView::NeedNewName,
            Plan::Rename { from, to } => PlanView::Rename { from: from@, to: to@ },
            Plan::Session { action, name } => PlanView::Session { action: *action, name: name@ },
        }
    }
}

/// List on `-l` or when there is nothing to act on.  Everything else needs a name.
/// A name without an action means attach-or-create.
pub open spec fn plan_of(o: OptionsView) -> PlanView {
    if o.list || (o.action is None && o.name is None) {
        PlanView::List
    } else {
        match (o.name, o.action) {
            (None, _) => PlanView::NeedName,
            (Some(from), Some(Action::Rename)) => if o.command.len() == 1 {
                PlanView::Rename { from, to: o.command[0] }
            } else {
                PlanView::NeedNewName
            },
            (Some(name), Some(action)) => PlanView::Session { action, name },
            (Some(name), None) => PlanView::Session { action: Action::AttachOrCreate, name },
        }
    }
}

pub fn plan(opts: &Options) -> (p: Plan)
    ensures
        p@ == plan_of(opts@),
        p@ matches PlanView::Session { action, .. } ==> action != Action::Rename,
{
    if opts.list || (opts.action.is_none() && opts.name.is_none()) {
        return Plan::List;
    }
    let name = match &opts.name {
        Some(name) => name.clone(),
        None => {
            return Plan::NeedName;
        },
    };
    let action = match opts.action {
        Some(action) => action,
        None => Action::AttachOrCreate,
    };
    if action == Action::Rename {
        if opts.command.len() != 1 {
            return Plan::NeedNewName;
        }
        return Plan::Rename { from: name, to: opts.command[0].clone() };
    }
    Plan::Session { action, name }
}

/// Why nothing is done.
#[derive(Debug, Clone, Copy, PartialEq, Eq, Structural)]
pub enum Refusal {
    /// There is no live session of that name.
    NoSuchSession,
    /// There is a live session of that name.
    AlreadyExists,
    /// A dead session's socket is in the way.
    Stale,
}

impl Refusal {
    pub open spec fn spec_message(self, name: Seq<char>) -> Seq<char> {
        match self {
            Refusal::NoSuchSession => "no such session: "@ + name,
            Refusal::AlreadyExists => "session already exists: "@ + name,
            Refusal::Stale => "stale session '"@ + name + "' exists; use -f to replace it"@,
        }
    }

    pub fn message(&self, name: &str) -> (message: String)
        ensures
            message@ == self.spec_message(name@),
    {
        match self {
            Refusal::NoSuchSession => "no such session: ".to_owned().concat(name),
            Refusal::AlreadyExists => "session already exists: ".to_owned().concat(name),
            Refusal::Stale => "stale session '".to_owned().concat(name).concat(
                "' exists; use -f to replace it",
            ),
        }
    }
}

/// What to do about a session.
#[derive(Debug, Clone, Copy, PartialEq, Eq, Structural)]
pub enum Decision {
    Attach,
    /// Create the session, first removing a stale socket where `clear` holds, and
    /// then attach to it where `attach` holds.
    Create { clear: bool, attach: bool },
    Refuse(Refusal),
}

/// What to do, given whether a live server answers on the session's socket and
/// whether there is anything at its path.  A dead session's socket is replaced
/// only by attach-or-create or on force, a live one never.
pub open spec fn decision(action: Action, alive: bool, exists: bool, force: bool) -> Decision {
    match action {
        Action::Attach => if alive {
            Decision::Attach
        } else {
            Decision::Refuse(Refusal::NoSuchSession)
        },
        Action::AttachOrCreate => if alive {
            Decision::Attach
        } else {
            Decision::Create { clear: true, attach: true }
        },
        _ => if alive {
            Decision::Refuse(Refusal::AlreadyExists)
        } else if exists && !force {
            Decision::Refuse(Refusal::Stale)
        } else {
            Decision::Create { clear: exists, attach: action == Action::Create }
        },
    }
}

pub fn decide(action: Action, alive: bool, exists: bool, force: bool) -> (d: Decision)
    requires
        action != Action::Rename,
    ensures
        d == decision(action, alive, exists, force),
{
    match action {
        Action::Attach => {
            if !alive {
                return Decision::Refuse(Refusal::NoSuchSession);
            }
            Decision::Attach
        },
        Action::AttachOrCreate => {
            if alive {
                Decision::Attach
            } else {
                Decision::Create { clear: true, attach: true }
            }
        },
        _ => {
            if alive {
                return Decision::Refuse(Refusal::AlreadyExists);
            }
            if exists && !force {
                return Decision::Refuse(Refusal::Stale);
            }
            Decision::Create { clear: exists, attach: action == Action::Create }
        },
    }
}

/// Whether a session may be renamed: it must be alive, and no live session may have
/// the new name (a dead one's socket gives way).
pub fn decide_rename(old_alive: bool, new_alive: bool) -> (r: Result<(), Refusal>)
    ensures
        r is Ok <==> old_alive && !new_alive,
        r == Err::<(), Refusal>(Refusal::NoSuchSession) <==> !old_alive,
        r == Err::<(), Refusal>(Refusal::AlreadyExists) <==> old_alive && new_alive,
{
    if !old_alive {
        Err(Refusal::NoSuchSession)
    } else if new_alive {
        Err(Refusal::AlreadyExists)
    } else {
        Ok(())
    }
}

/// The command to run: the explicit one, else `$SM_CMD`, else `$SHELL`, else
/// `/bin/sh`.
pub open spec fn command_of(
    command: Seq<Seq<char>>,
    sm_cmd: Option<String>,
    shell: Option<String>,
) -> Seq<Seq<char>> {
    if command.len() > 0 {
        command
    } else {
        match (sockdir::set_value(sm_cmd), sockdir::set_value(shell)) {
            (Some(cmd), _) => seq![cmd],
            (None, Some(sh)) => seq![sh],
            (None, None) => seq!["/bin/sh"@],
        }
    }
}

pub fn resolve_command(
    command: &Vec<String>,
    sm_cmd: Option<String>,
    shell: Option<String>,
) -> (argv: Vec<String>)
    ensures
        strings_view(argv@) == command_of(strings_view(command@), sm_cmd, shell),
{
    let mut argv: Vec<String> = Vec::new();
    if command.len() > 0 {
        let mut i: usize = 0;
        while i < command.len()
            invariant
                i <= command@.len(),
                argv@.len() == i,
                forall|k: int| 0 <= k < i ==> (#[trigger] argv@[k])@ == command@[k]@,
            decreases command@.len() - i,
        {
            argv.push(command[i].clone());
            i += 1;
        }
        assert(strings_view(argv@) == strings_view(command@));
        return argv;
    }
    let ghost goal = command_of(strings_view(command@), sm_cmd, shell);
    if let Some(cmd) = sm_cmd {
        if !cmd.as_str().is_empty() {
            argv.push(cmd);
            assert(strings_view(argv@) == goal);
            return argv;
        }
    }
    if let Some(sh) = shell {
        if !sh.as_str().is_empty() {
            argv.push(sh);
            assert(strings_view(argv@) == goal);
            return argv;
        }
    }
    argv.push("/bin/sh".to_owned());
    assert(strings_view(argv@) == goal);
    argv
}

/// Whether the words can be given to a program: there is one, and none contains a
/// NUL.
pub open spec fn runnable(command: Seq<Seq<char>>) -> bool {
    command.len() > 0 && forall|i: int|
        0 <= i < command.len() ==> !(#[trigger] command[i]).contains('\0')
}

/// The words as C strings, each with its terminating NUL; `None` for an invalid
/// command.
pub fn c_args(command: &Vec<String>) -> (argv: Option<Vec<Vec<u8>>>)
    ensures
        match argv {
            Some(words) => {
                &&& runnable(strings_view(command@))
                &&& words@.len() == command@.len()
                &&& forall|i: int|
                    0 <= i < words@.len() ==> (#[trigger] words@[i])@ == vstd::utf8::encode_utf8(
                        command@[i]@,
                    ).push(0)
            },
            None => !runnable(strings_view(command@)),
        },
{
    let ghost all = strings_view(command@);
    if command.len() == 0 {
        return None;
    }
    let mut words: Vec<Vec<u8>> = Vec::new();
    let mut i: usize = 0;
    while i < command.len()
        invariant
            i <= command@.len(),
            all == strings_view(command@),
            words@.len() == i,
            forall|k: int| 0 <= k < i ==> !(#[trigger] all[k]).contains('\0'),
            forall|k: int|
                0 <= k < i ==> (#[trigger] words@[k])@ == vstd::utf8::encode_utf8(
                    command@[k]@,
                ).push(0),
        decreases command@.len() - i,
    {
        proof {
            text::lemma_ascii_in_utf8(command@[i as int]@, '\0');
            assert(all[i as int] == command@[i as int]@);
        }
        match sockdir::cpath(command[i].as_str().as_bytes()) {
            Ok(word) => {
                words.push(word);
            },
            Err(_) => {
                return None;
            },
        }
        i += 1;
    }
    Some(words)
}

/// What follows the start of a session's server.
#[derive(Debug)]
pub enum Started {
    /// It failed, with this message.
    Failed(String),
    /// The session runs: attach to it.
    Attach,
    /// The session runs; say this, if anything.
    Done(Option<String>),
}

pub open spec fn started_message(name: Seq<char>) -> Seq<char> {
    "session '"@ + name + "' started"@
}

/// Given what the server reported while it started (nothing, if the command was
/// executed): what follows.
pub fn after_start(report: String, attach: bool, quiet: bool, name: &str) -> (s: Started)
    ensures
        match s {
            Started::Failed(message) => report@.len() > 0 && message@ == report@,
            Started::Attach => report@.len() == 0 && attach,
            Started::Done(message) => {
                &&& report@.len() == 0 && !attach
                &&& message is None <==> quiet
                &&& message matches Some(m) ==> m@ == started_message(name@)
            },
        },
{
    if !report.as_str().is_empty() {
        return Started::Failed(report);
    }
    if attach {
        return Started::Attach;
    }
    if quiet {
        Started::Done(None)
    } else {
        Started::Done(Some("session '".to_owned().concat(name).concat("' started")))
    }
}

/// The exit code after an attach, and what to say.
pub fn after_attach(outcome: Outcome, quiet: bool) -> (r: (i32, Option<&'static str>))
    ensures
        match outcome {
            Outcome::Detached => r.0 == 0 && if quiet {
                r.1 is None
            } else {
                r.1 is Some && r.1->Some_0@ == "detached"@
            },
            Outcome::Exited(status) => r.0 == status && r.1 is None,
            Outcome::ServerGone => r.0 == 1 && r.1 is Some && r.1->Some_0@
                == "session ended unexpectedly"@,
        },
{
    match outcome {
        Outcome::Detached => {
            if quiet {
                (0, None)
            } else {
                (0, Some("detached"))
            }
        },
        Outcome::Exited(status) => (status, None),
        Outcome::ServerGone => (1, Some("session ended unexpectedly")),
    }
}

// ---- the listing ------------------------------------------------------------

/// `n` blanks.
pub open spec fn blanks(n: int) -> Seq<char> {
    Seq::new(
        if n > 0 {
            n as nat
        } else {
            0
        },
        |i: int| ' ',
    )
}

/// One line of the listing: status, name, pid (right-aligned) and time.
pub open spec fn row(info: SessionInfo, when: Seq<char>) -> Seq<char> {
    let pid = match info.pid {
        Some(pid) => text::decimal_digits(pid as nat),
        None => "-"@,
    };
    seq![info.status] + "  "@ + info.name@ + blanks(20 - info.name@.len()) + " "@ + blanks(
        8 - pid.len(),
    ) + pid + "  "@ + when
}

/// Appends blanks until a field of `have` characters is `width` wide.
fn pad(s: &mut String, have: usize, width: usize)
    ensures
        final(s)@ == old(s)@ + blanks(width - have),
{
    let mut i: usize = have;
    let ghost before = s@;
    assert(before + blanks(0) == before);
    if have < width {
        while i < width
            invariant
                have <= i <= width,
                s@ == before + blanks(i - have),
            decreases width - i,
        {
            s.push(' ');
            assert(before + blanks(i + 1 - have) == (before + blanks(i - have)).push(' '));
            i += 1;
        }
    } else {
        assert(before + blanks(width - have) == before);
    }
}

pub fn session_row(info: &SessionInfo, when: &str) -> (line: String)
    ensures
        line@ == row(*info, when@),
{
    let pid = match info.pid {
        Some(pid) => text::decimal(pid as u64),
        None => "-".to_owned(),
    };
    let mut line = String::new();
    line.push(info.status);
    assert(line@ == seq![info.status]);
    line.append("  ");
    line.append(info.name.as_str());
    pad(&mut line, info.name.as_str().unicode_len(), 20);
    line.append(" ");
    pad(&mut line, pid.as_str().unicode_len(), 8);
    line.append(pid.as_str());
    line.append("  ");
    line.append(when);
    line
}

// ---- laws -------------------------------------------------------------------

/// Once the name and the first word of the command are there, all is the command
/// verbatim, arguments that look like flags included.
pub proof fn law_command_is_verbatim(
    name: Seq<char>,
    first: Seq<char>,
    more: Seq<Seq<char>>,
    o: OptionsView,
)
    requires
        o.name is None,
        !is_flags(name) && name != "--"@,
        !is_flags(first),
    ensures
        read_args(seq![name, first] + more, o) == ParsedView::Run(
            OptionsView { name: Some(name), command: o.command + (seq![first] + more), ..o },
        ),
{
    let args = seq![name, first] + more;
    reveal_with_fuel(read_args, 2);
    assert(args[0] == name);
    assert(args.drop_first() == seq![first] + more);
    assert(args.drop_first()[0] == first);
}

/// The options with this name.
pub open spec fn named(o: OptionsView, name: Seq<char>) -> OptionsView {
    OptionsView { name: Some(name), ..o }
}

proof fn lemma_flags_keep_the_name(
    flags: Seq<char>,
    rest: Seq<Seq<char>>,
    o: OptionsView,
    name: Seq<char>,
)
    requires
        o.name is None,
        read_flags(flags, Seq::empty(), o) is Next,
    ensures
        read_flags(flags, Seq::empty(), o)->options.name is None,
        read_flags(flags, rest, o) == (FlagsView::Next {
            options: read_flags(flags, Seq::empty(), o)->options,
            rest,
        }),
        read_flags(flags, rest, named(o, name)) == (FlagsView::Next {
            options: named(read_flags(flags, Seq::empty(), o)->options, name),
            rest,
        }),
    decreases flags.len(),
{
    if flags.len() > 0 {
        let c = flags[0];
        let more = flags.drop_first();
        if action_flag(c) is Some {
            let next = OptionsView { action: action_flag(c), ..o };
            assert(named(next, name) == OptionsView { action: action_flag(c), ..named(o, name) });
            lemma_flags_keep_the_name(more, rest, next, name);
        } else if set_flag(o, c) is Some {
            let next = set_flag(o, c)->Some_0;
            assert(set_flag(named(o, name), c) == Some(named(next, name)));
            assert(next.name is None);
            lemma_flags_keep_the_name(more, rest, next, name);
        } else {
            assert(set_flag(named(o, name), c) is None);
        }
    }
}

/// Flags mean the same behind the session's name as before it.  (Flags that need the
/// next argument for a value stay together with it, so they are left out.)
pub proof fn law_flags_may_follow_the_name(
    flags: Seq<char>,
    name: Seq<char>,
    rest: Seq<Seq<char>>,
    o: OptionsView,
)
    requires
        o.name is None,
        is_flags(flags),
        !is_flags(name) && name != "--"@,
        read_flags(flags.drop_first(), Seq::empty(), o) is Next,
    ensures
        read_args(seq![name, flags] + rest, o) == read_args(seq![flags, name] + rest, o),
{
    reveal_with_fuel(read_args, 3);
    let letters = flags.drop_first();
    let after = seq![name, flags] + rest;
    let before = seq![flags, name] + rest;
    assert(after.drop_first() == seq![flags] + rest);
    assert((seq![flags] + rest).drop_first() == rest);
    assert(before.drop_first() == seq![name] + rest);
    assert((seq![name] + rest).drop_first() == rest);
    lemma_flags_keep_the_name(letters, rest, o, name);
    lemma_flags_keep_the_name(letters, seq![name] + rest, o, name);
}

/// Once an action was given, a second one is refused, whichever the two are, in the
/// same argument or in a later one.
pub proof fn law_only_one_action(
    flag: char,
    more: Seq<char>,
    rest: Seq<Seq<char>>,
    o: OptionsView,
)
    requires
        o.action is Some,
        action_flag(flag) is Some,
    ensures
        read_flags(seq![flag] + more, rest, o) == FlagsView::Error(
            "only one of -a/-A/-c/-n may be given"@,
        ),
        read_args(seq![seq!['-', flag] + more] + rest, o) == ParsedView::Error(
            "only one of -a/-A/-c/-n may be given"@,
        ),
{
    reveal_strlit("--");
    let arg = seq!['-', flag] + more;
    let args = seq![arg] + rest;
    assert((seq![flag] + more)[0] == flag);
    assert(arg.drop_first() == seq![flag] + more);
    assert(args[0] == arg);
    assert(args.drop_first() == rest);
    assert(arg[1] == flag);
}

/// A live session is never replaced: whatever is asked, no socket on which a server
/// answers is removed, and no second session of its name is created.
pub proof fn law_live_session_is_never_replaced(action: Action, exists: bool, force: bool)
    ensures
        !(decision(action, true, exists, force) is Create),
{
}

/// A dead session's socket is removed by attach-or-create and, if forced, by
/// create; otherwise it stays.
pub proof fn law_stale_socket_stays_unless_asked(action: Action, force: bool)
    ensures
        decision(action, false, true, force) matches Decision::Create { clear, .. } ==> clear && (
        action == Action::AttachOrCreate || force),
{
}

/// Ctrl with a letter gives the same byte in upper and lower case, a control byte.
pub proof fn law_control_keys(c: char)
    ensures
        control_key(c) < 32,
        'a' <= c <= 'z' ==> control_key(c) == c as u32 - 96 && control_key(c) == control_key(
            (c as u32 - 32) as char,
        ),
{
}

/// Every byte from ten on can be named as the prefix key by its decimal value.  (One
/// digit names the key of that digit.)
pub proof fn law_every_key_can_be_named(key: u8)
    requires
        key >= 10,
    ensures
        detach_key(text::decimal_digits(key as nat)) == Some(key),
{
    let s = text::decimal_digits(key as nat);
    lemma_digits_read_back(key as nat);
    assert(s.len() >= 2) by {
        assert(text::decimal_digits(key as nat / 10).len() >= 1);
    }
    assert(is_digit(s[0]));
}

proof fn lemma_digits_read_back(n: nat)
    ensures
        digits_value(text::decimal_digits(n)) == n,
        all_digits(text::decimal_digits(n)),
        text::decimal_digits(n).len() > 0,
    decreases n,
{
    let s = text::decimal_digits(n);
    if n >= 10 {
        lemma_digits_read_back(n / 10);
        assert(s.drop_last() == text::decimal_digits(n / 10));
        assert(s.last() == text::digit_char(n % 10));
        assert forall|i: int| 0 <= i < s.len() implies is_digit(#[trigger] s[i]) by {
            if i < s.len() - 1 {
                assert(s[i] == s.drop_last()[i]);
            }
        }
    } else {
        assert(s.drop_last() == Seq::<char>::empty());
        assert(digits_value(Seq::<char>::empty()) == 0);
        assert(s.last() == text::digit_char(n));
    }
}

// ---- more laws --------------------------------------------------------------

/// What is created is attached to, unless the session was asked for without attaching;
/// and where there is no such session and nothing is in the way, all that may create
/// do create.
pub proof fn law_created_sessions_are_attached_to(
    action: Action,
    alive: bool,
    exists: bool,
    force: bool,
)
    requires
        action != Action::Rename,
    ensures
        decision(action, alive, exists, force) matches Decision::Create { attach, .. } ==> (attach
            <==> action != Action::CreateNoAttach),
        !alive && !exists && action != Action::Attach ==> decision(action, alive, exists, force)
            is Create,
        !alive && force && action != Action::Attach ==> decision(action, alive, exists, force)
            is Create,
{
}

/// A live session is attached to by what attaches, and is in the way of what creates;
/// a session that is not there is missed only by what attaches and does not create.
pub proof fn law_live_sessions_are_attached_to(
    action: Action,
    alive: bool,
    exists: bool,
    force: bool,
)
    requires
        action != Action::Rename,
    ensures
        ({
            let d = decision(action, alive, exists, force);
            &&& d == Decision::Attach <==> alive && (action == Action::Attach || action
                == Action::AttachOrCreate)
            &&& d == Decision::Refuse(Refusal::AlreadyExists) <==> alive && (action
                == Action::Create || action == Action::CreateNoAttach)
            &&& d == Decision::Refuse(Refusal::NoSuchSession) <==> !alive && action
                == Action::Attach
        }),
{
}

/// What a dead session left is refused exactly when `-c` or `-n` is not forced, and it
/// is cleared away before anything is created in its place; nothing that is not there
/// is cleared away but by attach-or-create, which clears in any case.
pub proof fn law_what_a_dead_session_left(action: Action, alive: bool, exists: bool, force: bool)
    requires
        action != Action::Rename,
    ensures
        ({
            let d = decision(action, alive, exists, force);
            &&& d == Decision::Refuse(Refusal::Stale) <==> !alive && exists && !force && (action
                == Action::Create || action == Action::CreateNoAttach)
            &&& d matches Decision::Create { clear, .. } ==> (clear <==> action
                == Action::AttachOrCreate || exists)
        }),
{
}

/// What refusals say: each names the session, all of its name.
pub proof fn law_refusals_name_the_session(name: Seq<char>)
    ensures
        Refusal::NoSuchSession.spec_message(name) == "no such session: "@ + name,
        Refusal::AlreadyExists.spec_message(name) == "session already exists: "@ + name,
        Refusal::Stale.spec_message(name) == "stale session '"@ + name
            + "' exists; use -f to replace it"@,
        started_message(name) == "session '"@ + name + "' started"@,
{
}

/// What a row shows, column by column: the status first, the name from the fourth
/// column on, at least 20 wide, a blank, the pid (or `-`) flush right in at least 8
/// columns, two blanks and the time.  All else is blank.
pub proof fn law_rows_show_the_session(info: SessionInfo, when: Seq<char>)
    ensures
        ({
            let r = row(info, when);
            let n = info.name@.len() as int;
            let pid = match info.pid {
                Some(pid) => text::decimal_digits(pid as nat),
                None => seq!['-'],
            };
            let p = pid.len() as int;
            let wide: int = if n < 20 {
                20
            } else {
                n
            };
            let right: int = if p < 8 {
                8
            } else {
                p
            };
            let end = 3 + wide + 1 + right;
            &&& r.len() == end + 2 + when.len()
            &&& r[0] == info.status
            &&& r.subrange(3, 3 + n) == info.name@
            &&& r.subrange(end - p, end) == pid
            &&& r.subrange(end + 2, r.len() as int) == when
            &&& forall|i: int|
                (1 <= i < 3 || 3 + n <= i < end - p || end <= i < end + 2) ==> #[trigger] r[i]
                    == ' '
        }),
{
    reveal_strlit("  ");
    reveal_strlit(" ");
    reveal_strlit("-");
    assert("-"@ =~= seq!['-']);
    let r = row(info, when);
    let name = info.name@;
    let n = name.len() as int;
    let pid = match info.pid {
        Some(pid) => text::decimal_digits(pid as nat),
        None => "-"@,
    };
    let p = pid.len() as int;
    let a = blanks(20 - n);
    let b = blanks(8 - p);
    let head = seq![info.status] + "  "@;
    assert(r == head + name + a + " "@ + b + pid + "  "@ + when);
    let end = 3 + n + a.len() + 1 + b.len() + p;
    assert(r.subrange(3, 3 + n) =~= name);
    assert(r.subrange(end - p, end) =~= pid);
    assert(r.subrange(end + 2, r.len() as int) =~= when);
}

/// So rows of sessions that differ in status differ in their first character.
pub proof fn law_rows_tell_the_status(
    one: SessionInfo,
    other: SessionInfo,
    when: Seq<char>,
    since: Seq<char>,
)
    requires
        one.status != other.status,
    ensures
        row(one, when)[0] != row(other, since)[0],
{
    law_rows_show_the_session(one, when);
    law_rows_show_the_session(other, since);
}

/// `^` and a letter name the control byte of the letter, in either case; `^` and any
/// other character name its low five bits; and an ASCII character alone names itself.
pub proof fn law_keys_that_are_named_by_a_character(c: char)
    ensures
        'a' <= c <= 'z' ==> detach_key(seq!['^', c]) == Some((c as u32 - 96) as u8),
        'A' <= c <= 'Z' ==> detach_key(seq!['^', c]) == Some((c as u32 - 64) as u8),
        !('a' <= c <= 'z') && !('A' <= c <= 'Z') ==> detach_key(seq!['^', c]) == Some(
            (c as u32 % 32) as u8,
        ),
        (c as u32) < 128 ==> detach_key(seq![c]) == Some(c as u8),
        (c as u32) >= 128 ==> detach_key(seq![c]) is None,
{
    let one = seq![c];
    if (c as u32) >= 128 {
        assert(without_plus(one) == one);
        assert(!is_digit(one[0]));
    }
}

/// Everything else names a key only as a decimal number up to 255, with or without a
/// `+` before it.
pub proof fn law_keys_that_are_named_by_a_number(s: Seq<char>, digits: Seq<char>, key: u8)
    requires
        s.len() != 1,
        !(s.len() == 2 && s[0] == '^'),
        digits == if s.len() > 0 && s[0] == '+' {
            s.drop_first()
        } else {
            s
        },
    ensures
        detach_key(s) == Some(key) <==> digits.len() > 0 && (forall|i: int|
            0 <= i < digits.len() ==> '0' <= #[trigger] digits[i] <= '9') && digits_value(digits)
            == key,
{
    if digits.len() > 0 && all_digits(digits) {
        assert forall|i: int| 0 <= i < digits.len() implies '0' <= #[trigger] digits[i] <= '9' by {
            assert(is_digit(digits[i]));
        }
    }
    if forall|i: int| 0 <= i < digits.len() ==> '0' <= #[trigger] digits[i] <= '9' {
        assert(all_digits(digits));
    }
}

/// What decimal digits come to.
pub proof fn law_digits_count_tenfold(digits: Seq<char>, c: char)
    requires
        '0' <= c <= '9',
    ensures
        digits_value(Seq::empty()) == 0,
        digits_value(digits.push(c)) == 10 * digits_value(digits) + (c as u32 - 48),
{
    assert(digits.push(c).drop_last() == digits);
}

/// What each flag does, alone: it sets its own option and no other; a key for `-e` is
/// the next argument; and an action is noted if none was.
pub proof fn law_each_flag_sets_its_option(c: char, rest: Seq<Seq<char>>, o: OptionsView)
    ensures
        ({
            let done = |options: OptionsView| FlagsView::Next { options, rest };
            let action = |action: Action|
                if o.action is Some {
                    FlagsView::Error("only one of -a/-A/-c/-n may be given"@)
                } else {
                    done(OptionsView { action: Some(action), ..o })
                };
            read_flags(seq![c], rest, o) == if c == 'f' {
                done(OptionsView { force: true, ..o })
            } else if c == 'l' {
                done(OptionsView { list: true, ..o })
            } else if c == 'L' {
                done(OptionsView { lowpriority: true, ..o })
            } else if c == 'p' {
                done(OptionsView { passthrough: true, ..o })
            } else if c == 'q' {
                done(OptionsView { quiet: true, ..o })
            } else if c == 'r' {
                done(OptionsView { readonly: true, ..o })
            } else if c == 'a' {
                action(Action::Attach)
            } else if c == 'A' {
                action(Action::AttachOrCreate)
            } else if c == 'c' {
                action(Action::Create)
            } else if c == 'n' {
                action(Action::CreateNoAttach)
            } else if c == 'R' {
                action(Action::Rename)
            } else if c == 'v' {
                FlagsView::Version
            } else if c == 'e' {
                if rest.len() == 0 {
                    FlagsView::Error("-e requires a key argument"@)
                } else {
                    match detach_key(rest[0]) {
                        Some(key) => FlagsView::Next {
                            options: OptionsView { detach_key: key, ..o },
                            rest: rest.drop_first(),
                        },
                        None => FlagsView::Error("invalid detach key: "@ + rest[0]),
                    }
                }
            } else {
                FlagsView::Error("unknown option -"@.push(c))
            }
        }),
{
    reveal_with_fuel(read_flags, 2);
    assert(seq![c].drop_first() == Seq::<char>::empty());
}

/// Flags in one argument are read one after the other, as if each had its own; but all
/// that follows `-e` in its argument is the key.
pub proof fn law_flags_are_read_one_by_one(
    c: char,
    more: Seq<char>,
    rest: Seq<Seq<char>>,
    o: OptionsView,
)
    requires
        more.len() > 0,
    ensures
        c != 'e' ==> read_flags(seq![c] + more, rest, o) == match read_flags(seq![c], rest, o) {
            FlagsView::Next { options, rest: left } => read_flags(more, left, options),
            end => end,
        },
        c == 'e' ==> read_flags(seq![c] + more, rest, o) == match detach_key(more) {
            Some(key) => FlagsView::Next { options: OptionsView { detach_key: key, ..o }, rest },
            None => FlagsView::Error("invalid detach key: "@ + more),
        },
{
    law_each_flag_sets_its_option(c, rest, o);
    let flags = seq![c] + more;
    assert(flags[0] == c);
    assert(flags.drop_first() == more);
}

proof fn lemma_flags_use_no_more_than_there_is(
    flags: Seq<char>,
    rest: Seq<Seq<char>>,
    o: OptionsView,
)
    ensures
        read_flags(flags, rest, o) matches FlagsView::Next { rest: left, .. } ==> left.len()
            <= rest.len(),
    decreases flags.len(),
{
    if flags.len() > 0 {
        let c = flags[0];
        let more = flags.drop_first();
        if action_flag(c) is Some {
            lemma_flags_use_no_more_than_there_is(
                more,
                rest,
                OptionsView { action: action_flag(c), ..o },
            );
        } else if set_flag(o, c) is Some {
            lemma_flags_use_no_more_than_there_is(more, rest, set_flag(o, c)->Some_0);
        }
    }
}

/// Arguments are read one after the other.  One of at least two characters that starts
/// with `-`, and is not `--`, holds flags.  The first other one is the session's name,
/// unless it is `--`, behind which all is the command; the second starts the command.
pub proof fn law_arguments_are_read_one_by_one(
    arg: Seq<char>,
    rest: Seq<Seq<char>>,
    o: OptionsView,
)
    ensures
        read_args(Seq::empty(), o) == ParsedView::Run(o),
        ({
            let dashes = arg == seq!['-', '-'];
            read_args(seq![arg] + rest, o) == if arg.len() >= 2 && arg[0] == '-' && !dashes {
                match read_flags(arg.drop_first(), rest, o) {
                    FlagsView::Next { options, rest: left } => read_args(left, options),
                    FlagsView::Version => ParsedView::Version,
                    FlagsView::Error(message) => ParsedView::Error(message),
                }
            } else if o.name is Some {
                ParsedView::Run(OptionsView { command: o.command + (seq![arg] + rest), ..o })
            } else if dashes {
                ParsedView::Run(OptionsView { command: o.command + rest, ..o })
            } else {
                read_args(rest, OptionsView { name: Some(arg), ..o })
            }
        }),
{
    reveal_strlit("--");
    assert("--"@ =~= seq!['-', '-']);
    let args = seq![arg] + rest;
    assert(args[0] == arg);
    assert(args.drop_first() == rest);
    lemma_flags_use_no_more_than_there_is(arg.drop_first(), rest, o);
}

/// Nothing is asked for before an argument asks for it, and the prefix key is Ctrl-a.
pub proof fn law_nothing_is_asked_for_at_first()
    ensures
        no_options().action is None && no_options().name is None,
        no_options().command.len() == 0,
        !no_options().list && !no_options().force && !no_options().readonly,
        !no_options().lowpriority && !no_options().passthrough && !no_options().quiet,
        no_options().detach_key == 1,
{
}

/// The outcome of parsing is seen as what it is, and so are options.
pub proof fn law_options_are_seen_as_they_are(r: Result<Parsed, String>, i: int)
    ensures
        match r {
            Ok(Parsed::Run(o)) => {
                &&& parsed_view(r) == ParsedView::Run(o@)
                &&& o@.action == o.action && o@.list == o.list && o@.force == o.force
                &&& o@.readonly == o.readonly && o@.lowpriority == o.lowpriority
                &&& o@.passthrough == o.passthrough && o@.quiet == o.quiet
                &&& o@.detach_key == o.detach_key
                &&& o@.name is Some <==> o.name is Some
                &&& o.name is Some ==> o@.name == Some(o.name->Some_0@)
                &&& o@.command.len() == o.command@.len()
                &&& 0 <= i < o.command@.len() ==> o@.command[i] == o.command@[i]@
            },
            Ok(Parsed::Version) => parsed_view(r) is Version,
            Err(message) => parsed_view(r) == ParsedView::Error(message@),
        },
{
}

/// What options come to.  `-l` lists, and so does asking for nothing; all else needs a
/// name, and `-R` one new name besides.  A name alone asks for attach-or-create, and
/// any other action is the one that was given.
pub proof fn law_what_options_come_to(o: OptionsView)
    ensures
        ({
            let lists = o.list || (o.action is None && o.name is None);
            let renames = !lists && o.name is Some && o.action == Some(Action::Rename);
            &&& plan_of(o) is List <==> lists
            &&& plan_of(o) is NeedName <==> !lists && o.name is None
            &&& plan_of(o) is NeedNewName <==> renames && o.command.len() != 1
            &&& renames && o.command.len() == 1 ==> plan_of(o) == (PlanView::Rename {
                from: o.name->Some_0,
                to: o.command[0],
            })
            &&& !lists && o.name is Some && !renames ==> plan_of(o) == (PlanView::Session {
                action: if o.action is Some {
                    o.action->Some_0
                } else {
                    Action::AttachOrCreate
                },
                name: o.name->Some_0,
            })
        }),
{
}

/// Which command is run: the one that was given, all of it; else that of the first of
/// the two variables that is set; else `/bin/sh`.
pub proof fn law_which_command_is_run(
    command: Seq<Seq<char>>,
    sm_cmd: Option<String>,
    shell: Option<String>,
)
    ensures
        ({
            let run = command_of(command, sm_cmd, shell);
            &&& command.len() > 0 ==> run == command
            &&& command.len() == 0 && sockdir::is_set(sm_cmd) ==> run == seq![sm_cmd->Some_0@]
            &&& command.len() == 0 && !sockdir::is_set(sm_cmd) && sockdir::is_set(shell) ==> run
                == seq![shell->Some_0@]
            &&& command.len() == 0 && !sockdir::is_set(sm_cmd) && !sockdir::is_set(shell) ==> run
                == seq!["/bin/sh"@]
        }),
{
    sockdir::law_variables_have_their_values(sm_cmd, 0);
    sockdir::law_variables_have_their_values(shell, 0);
}

/// Which commands can be run: those of at least one word, and without a NUL.
pub proof fn law_which_commands_can_be_run(command: Seq<Seq<char>>)
    ensures
        runnable(command) <==> command.len() > 0 && forall|i: int|
            0 <= i < command.len() ==> !(#[trigger] command[i]).contains('\0'),
{
}

} // verus!
