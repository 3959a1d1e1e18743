//! The flag-parsing engine: a static table of flag definitions, a strict
//! left-to-right parser that builds an option map or stops at the first
//! error, and a lenient validator that reports every unrecognized
//! flag-shaped token without failing.

use vstd::prelude::*;
use vstd::string::*;

use crate::text::str_eq;

verus! {

/// Category a flag belongs to; used only to group flags in help output.
/// The declaration order is the display order.
#[derive(Debug, Clone, Copy, PartialEq, Eq, Structural, Hash, PartialOrd, Ord)]
pub enum Cats {
    Pattern,
    Interpretation,
    Miscellaneous,
    Output,
    Context,
}

impl Cats {
    /// Human-readable name of the category.
    pub fn name(&self) -> (r: String)
        ensures
            *self is Pattern ==> r@ == "Pattern"@,
            *self is Interpretation ==> r@ == "Interpretation"@,
            *self is Miscellaneous ==> r@ == "Miscellaneous"@,
            *self is Output ==> r@ == "Output"@,
            *self is Context ==> r@ == "Context"@,
    {
        match self {
            Cats::Pattern => String::from_str("Pattern"),
            Cats::Interpretation => String::from_str("Interpretation"),
            Cats::Miscellaneous => String::from_str("Miscellaneous"),
            Cats::Output => String::from_str("Output"),
            Cats::Context => String::from_str("Context"),
        }
    }
}

/// One flag definition: its primary name, one alias, whether it takes a
/// value, a description for help output, and its help category.
#[derive(Debug)]
pub struct Command {
    /// The primary name of the flag (e.g. `"--help"`).
    pub flag: String,
    /// The alias of the flag (e.g. `"-h"`).
    pub aliase: String,
    /// Whether the flag must be followed by a value token.
    pub takes_value: bool,
    /// A short description, for help messages.
    pub description: String,
    /// Category the flag belongs to.
    pub cat: Cats,
}

/// Mathematical image of a flag definition.
pub struct CommandV {
    pub flag: Seq<char>,
    pub aliase: Seq<char>,
    pub takes_value: bool,
    pub description: Seq<char>,
    pub cat: Cats,
}

impl View for Command {
    type V = CommandV;

    open spec fn view(&self) -> CommandV {
        CommandV {
            flag: self.flag@,
            aliase: self.aliase@,
            takes_value: self.takes_value,
            description: self.description@,
            cat: self.cat,
        }
    }
}

/// The parsed value recorded under one flag: either bare presence (a boolean
/// flag) or the ordered list of values captured for a value-taking flag.
#[derive(Debug)]
pub enum FlagValue {
    /// A boolean flag: present, with no value.
    Bool,
    /// A value-taking flag with the values captured so far, in input order.
    Values(Vec<String>),
}

/// Mathematical image of a parsed flag value.
pub enum FlagV {
    Present,
    List(Seq<Seq<char>>),
}

impl View for FlagValue {
    type V = FlagV;

    open spec fn view(&self) -> FlagV {
        match self {
            FlagValue::Bool => FlagV::Present,
            FlagValue::Values(vs) => FlagV::List(vs.deep_view()),
        }
    }
}

/// Errors of the strict parser.
#[derive(Debug)]
pub enum CliError {
    /// A flag-shaped token matched no definition; carries the token.
    UnknownFlag(String),
    /// A value-taking flag had no value token; carries the flag's primary name.
    MissingValue(String),
}

/// Mathematical image of a parse error.
pub enum CliErrorV {
    UnknownFlag(Seq<char>),
    MissingValue(Seq<char>),
}

impl View for CliError {
    type V = CliErrorV;

    open spec fn view(&self) -> CliErrorV {
        match self {
            CliError::UnknownFlag(tok) => CliErrorV::UnknownFlag(tok@),
            CliError::MissingValue(flag) => CliErrorV::MissingValue(flag@),
        }
    }
}

impl CliError {
    /// Human-readable message naming the offending token or flag.
    pub fn message(&self) -> (r: String)
        ensures
            match self {
                CliError::UnknownFlag(tok) => r@ == "unknown flag: "@ + tok@,
                CliError::MissingValue(flag) => r@ == "missing value for flag "@ + flag@,
            },
    {
        match self {
            CliError::UnknownFlag(tok) => String::from_str("unknown flag: ").concat(tok.as_str()),
            CliError::MissingValue(flag) => String::from_str("missing value for flag ").concat(
                flag.as_str(),
            ),
        }
    }
}

/// View of a flag table.
pub open spec fn table_view(cmds: Seq<Command>) -> Seq<CommandV> {
    cmds.map_values(|c: Command| c@)
}

/// View of a token list.
pub open spec fn args_view(args: Seq<String>) -> Seq<Seq<char>> {
    args.map_values(|s: String| s@)
}

/// A token is a flag candidate exactly when it starts with the sigil `-`.
pub open spec fn is_flag_shaped(tok: Seq<char>) -> bool {
    tok.len() > 0 && tok[0] == '-'
}

/// First definition whose primary name or alias equals the token exactly.
pub open spec fn lookup(table: Seq<CommandV>, tok: Seq<char>) -> Option<CommandV>
    decreases table.len(),
{
    if table.len() == 0 {
        None
    } else if table[0].flag == tok || table[0].aliase == tok {
        Some(table[0])
    } else {
        lookup(table.skip(1), tok)
    }
}

/// Recording a boolean flag: first occurrence inserts bare presence, repeated
/// occurrences are idempotent.
pub open spec fn record_bool(m: Map<Seq<char>, FlagV>, flag: Seq<char>) -> Map<Seq<char>, FlagV> {
    if m.contains_key(flag) {
        m
    } else {
        m.insert(flag, FlagV::Present)
    }
}

/// Recording one captured value: appended to the flag's list, which is
/// created on the first occurrence.
pub open spec fn record_value(
    m: Map<Seq<char>, FlagV>,
    flag: Seq<char>,
    val: Seq<char>,
) -> Map<Seq<char>, FlagV> {
    if m.contains_key(flag) && m[flag] is List {
        m.insert(flag, FlagV::List(m[flag]->List_0.push(val)))
    } else {
        m.insert(flag, FlagV::List(seq![val]))
    }
}

/// The strict parser, one token of lookahead, stopping at the first error.
/// Non-flag tokens are skipped; a recognized value-taking flag consumes the
/// next token as its value if that token exists and is not flag-shaped.
pub open spec fn spec_parse(
    table: Seq<CommandV>,
    args: Seq<Seq<char>>,
    acc: Map<Seq<char>, FlagV>,
) -> Result<Map<Seq<char>, FlagV>, CliErrorV>
    decreases args.len(),
{
    if args.len() == 0 {
        Ok(acc)
    } else {
        let tok = args[0];
        if !is_flag_shaped(tok) {
            spec_parse(table, args.skip(1), acc)
        } else {
            match lookup(table, tok) {
                None => Err(CliErrorV::UnknownFlag(tok)),
                Some(cmd) => {
                    if cmd.takes_value {
                        if args.len() >= 2 && !is_flag_shaped(args[1]) {
                            spec_parse(table, args.skip(2), record_value(acc, cmd.flag, args[1]))
                        } else {
                            Err(CliErrorV::MissingValue(cmd.flag))
                        }
                    } else {
                        spec_parse(table, args.skip(1), record_bool(acc, cmd.flag))
                    }
                },
            }
        }
    }
}

/// Dropping the first element of a suffix advances the suffix by one.
pub proof fn lemma_skip_succ<A>(s: Seq<A>, i: int)
    requires
        0 <= i < s.len(),
    ensures
        s.skip(i).len() == s.len() - i,
        s.skip(i)[0] == s[i],
        s.skip(i).skip(1) =~= s.skip(i + 1),
{
}

/// The option map built by one parse: a list of (primary name, value) pairs
/// with pairwise distinct names, read abstractly as a finite map.
#[derive(Debug)]
pub struct ParsedArgs {
    pub entries: Vec<(String, FlagValue)>,
}

/// The map described by a list of key/value pairs; later pairs win, though a
/// well-formed `ParsedArgs` never holds a name twice.
pub open spec fn entries_map(s: Seq<(String, FlagValue)>) -> Map<Seq<char>, FlagV>
    decreases s.len(),
{
    if s.len() == 0 {
        Map::empty()
    } else {
        entries_map(s.drop_last()).insert(s.last().0@, s.last().1@)
    }
}

impl View for ParsedArgs {
    type V = Map<Seq<char>, FlagV>;

    open spec fn view(&self) -> Map<Seq<char>, FlagV> {
        entries_map(self.entries@)
    }
}

/// A key is in the map exactly when some pair carries it.
proof fn lemma_entries_map_key(s: Seq<(String, FlagValue)>, k: Seq<char>)
    ensures
        entries_map(s).contains_key(k) <==> exists|i: int| 0 <= i < s.len() && s[i].0@ == k,
    decreases s.len(),
{
    if s.len() > 0 {
        lemma_entries_map_key(s.drop_last(), k);
        if entries_map(s).contains_key(k) {
            if s.last().0@ == k {
                assert(s[s.len() - 1].0@ == k);
            } else {
                let i = choose|i: int| 0 <= i < s.drop_last().len() && s.drop_last()[i].0@ == k;
                assert(s[i].0@ == k);
            }
        }
        if exists|i: int| 0 <= i < s.len() && s[i].0@ == k {
            let i = choose|i: int| 0 <= i < s.len() && s[i].0@ == k;
            if i < s.len() - 1 {
                assert(s.drop_last()[i].0@ == k);
            }
        }
    }
}

impl ParsedArgs {
    /// Well-formed: no primary name occurs twice.
    pub open spec fn wf(self) -> bool {
        forall|i: int, j: int|
            0 <= i < j < self.entries@.len() ==> self.entries@[i].0@ != self.entries@[j].0@
    }

    /// An empty option map.
    pub fn new() -> (r: ParsedArgs)
        ensures
            r.wf(),
            r@ == Map::<Seq<char>, FlagV>::empty(),
    {
        ParsedArgs { entries: Vec::new() }
    }

    /// How many flags are recorded.
    pub fn len(&self) -> (r: usize)
        ensures
            r == self.entries@.len(),
    {
        self.entries.len()
    }

    /// Index of the pair carrying `name`, if any.
    fn index_of(&self, name: &String) -> (r: Option<usize>)
        ensures
            match r {
                Some(i) => i < self.entries@.len() && self.entries@[i as int].0@ == name@,
                None => forall|j: int|
                    0 <= j < self.entries@.len() ==> self.entries@[j].0@ != name@,
            },
    {
        let n = self.entries.len();
        let mut i: usize = 0;
        while i < n
            invariant
                i <= n,
                n == self.entries@.len(),
                forall|j: int| 0 <= j < i ==> self.entries@[j].0@ != name@,
            decreases n - i,
        {
            if str_eq(self.entries[i].0.as_str(), name.as_str()) {
                return Some(i);
            }
            i = i + 1;
        }
        None
    }

    /// Is a flag with this primary name recorded?
    pub fn contains_key(&self, name: &String) -> (r: bool)
        ensures
            r == self@.contains_key(name@),
    {
        proof {
            lemma_entries_map_key(self.entries@, name@);
        }
        match self.index_of(name) {
            Some(_) => true,
            None => false,
        }
    }

    /// The value recorded under this primary name, if any.
    pub fn get(&self, name: &String) -> (r: Option<&FlagValue>)
        requires
            self.wf(),
        ensures
            match r {
                Some(v) => self@.contains_key(name@) && v@ == self@[name@],
                None => !self@.contains_key(name@),
            },
    {
        proof {
            lemma_entries_map_key(self.entries@, name@);
        }
        match self.index_of(name) {
            Some(i) => {
                proof {
                    lemma_entries_map_at(self.entries@, i as int);
                }
                Some(&self.entries[i].1)
            },
            None => None,
        }
    }

    /// Record a boolean flag; repeated occurrences have no further effect.
    fn set_bool(&mut self, name: &String)
        requires
            old(self).wf(),
        ensures
            final(self).wf(),
            final(self)@ == record_bool(old(self)@, name@),
    {
        proof {
            lemma_entries_map_key(self.entries@, name@);
        }
        match self.index_of(name) {
            Some(_) => {},
            None => {
                let ghost s0 = self.entries@;
                self.entries.push((name.clone(), FlagValue::Bool));
                proof {
                    assert(self.entries@.drop_last() =~= s0);
                }
            },
        }
    }

    /// Append one captured value to the flag's list, creating the list on the
    /// first occurrence.
    fn append_value(&mut self, name: &String, val: String)
        requires
            old(self).wf(),
        ensures
            final(self).wf(),
            final(self)@ == record_value(old(self)@, name@, val@),
    {
        proof {
            lemma_entries_map_key(self.entries@, name@);
        }
        match self.index_of(name) {
            Some(i) => {
                proof {
                    lemma_entries_map_at(self.entries@, i as int);
                }
                let ghost old_v = self.entries@[i as int].1@;
                let mut vs: Vec<String>;
                match &self.entries[i].1 {
                    FlagValue::Values(old_vs) => {
                        vs = clone_strings(old_vs);
                        proof {
                            assert(vs.deep_view() =~= old_vs.deep_view());
                            assert(old_v == FlagV::List(vs.deep_view()));
                        }
                    },
                    FlagValue::Bool => {
                        vs = Vec::new();
                        proof {
                            assert(vs.deep_view() =~= Seq::<Seq<char>>::empty());
                        }
                    },
                }
                let ghost dv0 = vs.deep_view();
                vs.push(val);
                proof {
                    assert(vs.deep_view() =~= dv0.push(val@));
                }
                let p = (name.clone(), FlagValue::Values(vs));
                let ghost s0 = self.entries@;
                self.entries[i] = p;
                proof {
                    lemma_entries_map_update(s0, i as int, self.entries@[i as int]);
                    if old_v is List {
                        assert(dv0 =~= old(self)@[name@]->List_0);
                    } else {
                        assert(vs.deep_view() =~= seq![val@]);
                    }
                    assert(self@ =~= record_value(old(self)@, name@, val@));
                }
            },
            None => {
                let mut vs: Vec<String> = Vec::new();
                vs.push(val);
                proof {
                    assert(vs.deep_view() =~= seq![vs@[0]@]);
                }
                let ghost s0 = self.entries@;
                self.entries.push((name.clone(), FlagValue::Values(vs)));
                proof {
                    assert(self.entries@.drop_last() =~= s0);
                    assert(self@ =~= record_value(old(self)@, name@, val@));
                }
            },
        }
    }
}

/// With distinct names, the map holds exactly the pair's value under its key.
proof fn lemma_entries_map_at(s: Seq<(String, FlagValue)>, i: int)
    requires
        forall|a: int, b: int| 0 <= a < b < s.len() ==> s[a].0@ != s[b].0@,
        0 <= i < s.len(),
    ensures
        entries_map(s).contains_key(s[i].0@),
        entries_map(s)[s[i].0@] == s[i].1@,
    decreases s.len(),
{
    if i < s.len() - 1 {
        assert(forall|a: int, b: int|
            0 <= a < b < s.drop_last().len() ==> s.drop_last()[a].0@ != s.drop_last()[b].0@);
        assert(s.drop_last()[i] == s[i]);
        lemma_entries_map_at(s.drop_last(), i);
        assert(s[i].0@ != s.last().0@);
    }
}

/// Replacing the pair at `i` by one with the same key updates the map at that
/// key alone.
proof fn lemma_entries_map_update(s: Seq<(String, FlagValue)>, i: int, p: (String, FlagValue))
    requires
        forall|a: int, b: int| 0 <= a < b < s.len() ==> s[a].0@ != s[b].0@,
        0 <= i < s.len(),
        p.0@ == s[i].0@,
    ensures
        entries_map(s.update(i, p)) =~= entries_map(s).insert(p.0@, p.1@),
    decreases s.len(),
{
    let t = s.update(i, p);
    if i == s.len() - 1 {
        assert(t.drop_last() =~= s.drop_last());
        assert(t.last() == p);
    } else {
        assert(t.drop_last() =~= s.drop_last().update(i, p));
        assert(forall|a: int, b: int|
            0 <= a < b < s.drop_last().len() ==> s.drop_last()[a].0@ != s.drop_last()[b].0@);
        assert(s.drop_last()[i] == s[i]);
        lemma_entries_map_update(s.drop_last(), i, p);
        assert(t.last() == s.last());
        assert(s.last().0@ != p.0@);
    }
}

/// Element-wise copy of a list of strings.
fn clone_strings(v: &Vec<String>) -> (r: Vec<String>)
    ensures
        r@ == v@,
{
    let mut r: Vec<String> = Vec::new();
    let n = v.len();
    let mut i: usize = 0;
    while i < n
        invariant
            i <= n,
            n == v@.len(),
            r@ =~= v@.subrange(0, i as int),
        decreases n - i,
    {
        r.push(v[i].clone());
        i = i + 1;
    }
    proof {
        assert(r@ =~= v@);
    }
    r
}

/// Is this token a flag candidate (does it start with the sigil `-`)?
pub fn is_flag_token(tok: &String) -> (r: bool)
    ensures
        r == is_flag_shaped(tok@),
{
    let s = tok.as_str();
    let n = s.unicode_len();
    if n == 0 {
        false
    } else {
        s.get_char(0) == '-'
    }
}

/// Index of the first definition whose primary name or alias equals the
/// token exactly, if any.
pub fn find_command(commands: &[Command], tok: &String) -> (r: Option<usize>)
    ensures
        match r {
            Some(ci) => ci < commands@.len() && lookup(table_view(commands@), tok@) == Some(
                commands@[ci as int]@,
            ),
            None => lookup(table_view(commands@), tok@) is None,
        },
{
    let ghost tv = table_view(commands@);
    proof {
        assert(tv.skip(0) =~= tv);
    }
    let n = commands.len();
    let mut ci: usize = 0;
    while ci < n
        invariant
            ci <= n,
            n == commands@.len(),
            tv == table_view(commands@),
            tv.len() == n,
            lookup(tv, tok@) == lookup(tv.skip(ci as int), tok@),
        decreases n - ci,
    {
        proof {
            lemma_skip_succ(tv, ci as int);
        }
        let c = &commands[ci];
        if str_eq(c.flag.as_str(), tok.as_str()) || str_eq(c.aliase.as_str(), tok.as_str()) {
            return Some(ci);
        }
        ci = ci + 1;
    }
    proof {
        assert(tv.skip(ci as int) =~= Seq::<CommandV>::empty());
    }
    None
}

impl Command {
    /// Extract the value token for a value-taking flag: the token at `next`,
    /// provided it exists and is not itself flag-shaped.
    fn extract_value(cmd: &Command, args: &[String], next: usize) -> (r: Result<String, CliError>)
        ensures
            match r {
                Ok(v) => next < args@.len() && !is_flag_shaped(args@[next as int]@) && v@
                    == args@[next as int]@,
                Err(e) => (next >= args@.len() || is_flag_shaped(args@[next as int]@)) && e@
                    == CliErrorV::MissingValue(cmd.flag@),
            },
    {
        if next < args.len() && !is_flag_token(&args[next]) {
            Ok(args[next].clone())
        } else {
            Err(CliError::MissingValue(cmd.flag.clone()))
        }
    }

    /// Handle one recognized flag at the scan position: record bare presence,
    /// or capture the following value token. Returns how many tokens were
    /// consumed (the flag itself plus its value, if any).
    fn handle_command(
        cmd: &Command,
        args: &[String],
        next: usize,
        parsed: &mut ParsedArgs,
    ) -> (r: Result<usize, CliError>)
        requires
            old(parsed).wf(),
            next <= args@.len(),
        ensures
            final(parsed).wf(),
            match r {
                Ok(consumed) => if cmd@.takes_value {
                    &&& consumed == 2
                    &&& next < args@.len()
                    &&& !is_flag_shaped(args@[next as int]@)
                    &&& final(parsed)@ == record_value(
                        old(parsed)@,
                        cmd.flag@,
                        args@[next as int]@,
                    )
                } else {
                    &&& consumed == 1
                    &&& final(parsed)@ == record_bool(old(parsed)@, cmd.flag@)
                },
                Err(e) => {
                    &&& final(parsed)@ == old(parsed)@
                    &&& cmd@.takes_value
                    &&& (next >= args@.len() || is_flag_shaped(args@[next as int]@))
                    &&& e@ == CliErrorV::MissingValue(cmd.flag@)
                },
            },
    {
        if cmd.takes_value {
            match Self::extract_value(cmd, args, next) {
                Ok(val) => {
                    parsed.append_value(&cmd.flag, val);
                    Ok(2)
                },
                Err(e) => Err(e),
            }
        } else {
            parsed.set_bool(&cmd.flag);
            Ok(1)
        }
    }

    /// Parse the argument tokens against the flag table, left to right with
    /// one token of lookahead, stopping at the first error. The result is
    /// pinned down by the specification-level parser `spec_parse`.
    pub fn parse_args(commands: &[Command], args: &[String]) -> (r: Result<ParsedArgs, CliError>)
        ensures
            match r {
                Ok(m) => m.wf() && spec_parse(
                    table_view(commands@),
                    args_view(args@),
                    Map::empty(),
                ) == Ok::<Map<Seq<char>, FlagV>, CliErrorV>(m@),
                Err(e) => spec_parse(table_view(commands@), args_view(args@), Map::empty())
                    == Err::<Map<Seq<char>, FlagV>, CliErrorV>(e@),
            },
    {
        let ghost tv = table_view(commands@);
        let ghost av = args_view(args@);
        proof {
            assert(av.skip(0) =~= av);
        }
        let mut parsed = ParsedArgs::new();
        let n = args.len();
        let mut i: usize = 0;
        while i < n
            invariant
                parsed.wf(),
                i <= n,
                n == args@.len(),
                tv == table_view(commands@),
                av == args_view(args@),
                av.len() == n,
                spec_parse(tv, av, Map::empty()) == spec_parse(tv, av.skip(i as int), parsed@),
            decreases n - i,
        {
            proof {
                lemma_skip_succ(av, i as int);
            }
            let arg = &args[i];
            if is_flag_token(arg) {
                match find_command(commands, arg) {
                    Some(ci) => {
                        let cmd = &commands[ci];
                        match Self::handle_command(cmd, args, i + 1, &mut parsed) {
                            Ok(consumed) => {
                                proof {
                                    if consumed == 2 {
                                        assert(av.skip(i as int)[1] == av[i + 1]);
                                        assert(av.skip(i as int).skip(2) =~= av.skip(i + 2));
                                    }
                                }
                                i = i + consumed;
                            },
                            Err(e) => {
                                return Err(e);
                            },
                        }
                    },
                    None => {
                        return Err(CliError::UnknownFlag(arg.clone()));
                    },
                }
            } else {
                i = i + 1;
            }
        }
        proof {
            assert(av.skip(i as int) =~= Seq::<Seq<char>>::empty());
        }
        Ok(parsed)
    }

    /// The lenient validator: scan every token, report each flag-shaped token
    /// that matches no definition, once, in order of first appearance. No
    /// value extraction is performed and no error is ever returned.
    pub fn validate_args(commands: &[Command], args: &[String]) -> (r: Vec<String>)
        ensures
            args_view(r@) == spec_unknown_flags(
                table_view(commands@),
                args_view(args@),
                Seq::empty(),
            ),
    {
        let ghost tv = table_view(commands@);
        let ghost av = args_view(args@);
        let mut found: Vec<String> = Vec::new();
        proof {
            assert(av.skip(0) =~= av);
            assert(args_view(found@) =~= Seq::<Seq<char>>::empty());
        }
        let n = args.len();
        let mut i: usize = 0;
        while i < n
            invariant
                i <= n,
                n == args@.len(),
                tv == table_view(commands@),
                av == args_view(args@),
                av.len() == n,
                spec_unknown_flags(tv, av, Seq::empty()) == spec_unknown_flags(
                    tv,
                    av.skip(i as int),
                    args_view(found@),
                ),
            decreases n - i,
        {
            proof {
                lemma_skip_succ(av, i as int);
            }
            let arg = &args[i];
            let ghost before = args_view(found@);
            if is_flag_token(arg) && matches!(find_command(commands, arg), None) && !contains_string(
                &found,
                arg,
            ) {
                found.push(arg.clone());
                proof {
                    assert(args_view(found@) =~= before.push(av[i as int]));
                }
            }
            i = i + 1;
        }
        proof {
            assert(av.skip(i as int) =~= Seq::<Seq<char>>::empty());
        }
        found
    }
}

/// The distinct unrecognized flag-shaped tokens of the input, in order of
/// first appearance, appended to what was already reported.
pub open spec fn spec_unknown_flags(
    table: Seq<CommandV>,
    args: Seq<Seq<char>>,
    acc: Seq<Seq<char>>,
) -> Seq<Seq<char>>
    decreases args.len(),
{
    if args.len() == 0 {
        acc
    } else {
        let tok = args[0];
        let acc2 = if is_flag_shaped(tok) && lookup(table, tok) is None && !acc.contains(tok) {
            acc.push(tok)
        } else {
            acc
        };
        spec_unknown_flags(table, args.skip(1), acc2)
    }
}

/// The primary names of the flags present in the input: those recorded by a
/// scan that, like the parser, skips non-flag tokens and consumes each
/// captured value together with its flag. Meaningful where the parse succeeds.
pub open spec fn spec_present_flags(table: Seq<CommandV>, args: Seq<Seq<char>>) -> Set<Seq<char>>
    decreases args.len(),
{
    if args.len() == 0 {
        Set::empty()
    } else {
        let tok = args[0];
        if !is_flag_shaped(tok) {
            spec_present_flags(table, args.skip(1))
        } else {
            match lookup(table, tok) {
                None => Set::empty(),
                Some(cmd) => {
                    if cmd.takes_value {
                        if args.len() >= 2 && !is_flag_shaped(args[1]) {
                            spec_present_flags(table, args.skip(2)).insert(cmd.flag)
                        } else {
                            Set::empty()
                        }
                    } else {
                        spec_present_flags(table, args.skip(1)).insert(cmd.flag)
                    }
                },
            }
        }
    }
}

proof fn lemma_parse_keys_rec(
    table: Seq<CommandV>,
    args: Seq<Seq<char>>,
    acc: Map<Seq<char>, FlagV>,
    m: Map<Seq<char>, FlagV>,
)
    requires
        spec_parse(table, args, acc) == Ok::<Map<Seq<char>, FlagV>, CliErrorV>(m),
    ensures
        m.dom() =~= acc.dom().union(spec_present_flags(table, args)),
    decreases args.len(),
{
    if args.len() == 0 {
    } else {
        let tok = args[0];
        if !is_flag_shaped(tok) {
            lemma_parse_keys_rec(table, args.skip(1), acc, m);
        } else {
            let cmd = lookup(table, tok).unwrap();
            if cmd.takes_value {
                let acc2 = record_value(acc, cmd.flag, args[1]);
                assert(acc2.dom() =~= acc.dom().insert(cmd.flag));
                lemma_parse_keys_rec(table, args.skip(2), acc2, m);
            } else {
                let acc2 = record_bool(acc, cmd.flag);
                assert(acc2.dom() =~= acc.dom().insert(cmd.flag));
                lemma_parse_keys_rec(table, args.skip(1), acc2, m);
            }
        }
    }
}

/// When parsing succeeds, the option map's keys are exactly the primary names
/// of the distinct flags present in the input.
pub proof fn lemma_parse_keys_exact(
    table: Seq<CommandV>,
    args: Seq<Seq<char>>,
    m: Map<Seq<char>, FlagV>,
)
    requires
        spec_parse(table, args, Map::empty()) == Ok::<Map<Seq<char>, FlagV>, CliErrorV>(m),
    ensures
        m.dom() == spec_present_flags(table, args),
{
    lemma_parse_keys_rec(table, args, Map::empty(), m);
    assert(m.dom() =~= spec_present_flags(table, args));
}

/// The token stream that repeats one flag token `n` times, each occurrence
/// followed by one value: `tok v1 tok v2 ... tok vn`.
pub open spec fn interleaved(tok: Seq<char>, vals: Seq<Seq<char>>) -> Seq<Seq<char>>
    decreases vals.len(),
{
    if vals.len() == 0 {
        Seq::empty()
    } else {
        seq![tok, vals[0]] + interleaved(tok, vals.skip(1))
    }
}

proof fn lemma_repeat_rec(
    table: Seq<CommandV>,
    cmd: CommandV,
    tok: Seq<char>,
    vals: Seq<Seq<char>>,
    acc: Map<Seq<char>, FlagV>,
    vs0: Seq<Seq<char>>,
)
    requires
        lookup(table, tok) == Some(cmd),
        cmd.takes_value,
        is_flag_shaped(tok),
        forall|k: int| 0 <= k < vals.len() ==> !is_flag_shaped(vals[k]),
        acc.contains_key(cmd.flag),
        acc[cmd.flag] == FlagV::List(vs0),
    ensures
        spec_parse(table, interleaved(tok, vals), acc) == Ok::<Map<Seq<char>, FlagV>, CliErrorV>(
            acc.insert(cmd.flag, FlagV::List(vs0 + vals)),
        ),
    decreases vals.len(),
{
    if vals.len() == 0 {
        assert(vs0 + vals =~= vs0);
        assert(acc.insert(cmd.flag, FlagV::List(vs0)) =~= acc);
    } else {
        let args = interleaved(tok, vals);
        assert(args[0] == tok);
        assert(args[1] == vals[0]);
        assert(args.skip(2) =~= interleaved(tok, vals.skip(1)));
        let acc2 = record_value(acc, cmd.flag, vals[0]);
        assert(acc2 == acc.insert(cmd.flag, FlagV::List(vs0.push(vals[0]))));
        lemma_repeat_rec(table, cmd, tok, vals.skip(1), acc2, vs0.push(vals[0]));
        assert(vs0.push(vals[0]) + vals.skip(1) =~= vs0 + vals);
        assert(acc2.insert(cmd.flag, FlagV::List(vs0 + vals)) =~= acc.insert(
            cmd.flag,
            FlagV::List(vs0 + vals),
        ));
    }
}

/// Repeating one value-taking flag `n` times with values `v1..vn` yields
/// exactly the list `[v1, ..., vn]`, in that order, under the flag's primary
/// name.
pub proof fn lemma_repeated_value_flag(
    table: Seq<CommandV>,
    cmd: CommandV,
    tok: Seq<char>,
    vals: Seq<Seq<char>>,
)
    requires
        lookup(table, tok) == Some(cmd),
        cmd.takes_value,
        is_flag_shaped(tok),
        forall|k: int| 0 <= k < vals.len() ==> !is_flag_shaped(vals[k]),
        vals.len() > 0,
    ensures
        spec_parse(table, interleaved(tok, vals), Map::empty()) == Ok::<
            Map<Seq<char>, FlagV>,
            CliErrorV,
        >(Map::empty().insert(cmd.flag, FlagV::List(vals))),
{
    let args = interleaved(tok, vals);
    assert(args[0] == tok);
    assert(args[1] == vals[0]);
    assert(args.skip(2) =~= interleaved(tok, vals.skip(1)));
    let acc1 = record_value(Map::empty(), cmd.flag, vals[0]);
    assert(acc1 == Map::<Seq<char>, FlagV>::empty().insert(
        cmd.flag,
        FlagV::List(seq![vals[0]]),
    ));
    lemma_repeat_rec(table, cmd, tok, vals.skip(1), acc1, seq![vals[0]]);
    assert(seq![vals[0]] + vals.skip(1) =~= vals);
    assert(acc1.insert(cmd.flag, FlagV::List(vals)) =~= Map::<Seq<char>, FlagV>::empty().insert(
        cmd.flag,
        FlagV::List(vals),
    ));
}

/// A recognized value-taking flag followed by end of input or by another
/// flag-shaped token fails with `MissingValue` carrying that flag's primary
/// name, whatever was recorded before the flag was reached.
pub proof fn lemma_missing_value(
    table: Seq<CommandV>,
    args: Seq<Seq<char>>,
    acc: Map<Seq<char>, FlagV>,
    cmd: CommandV,
)
    requires
        args.len() > 0,
        is_flag_shaped(args[0]),
        lookup(table, args[0]) == Some(cmd),
        cmd.takes_value,
        args.len() == 1 || is_flag_shaped(args[1]),
    ensures
        spec_parse(table, args, acc) == Err::<Map<Seq<char>, FlagV>, CliErrorV>(
            CliErrorV::MissingValue(cmd.flag),
        ),
{
}

/// A flag-shaped token absent from the table fails with `UnknownFlag`
/// carrying that token, whatever was recorded before: no partial option map
/// escapes and nothing after the token is inspected.
pub proof fn lemma_unknown_flag(
    table: Seq<CommandV>,
    args: Seq<Seq<char>>,
    acc: Map<Seq<char>, FlagV>,
)
    requires
        args.len() > 0,
        is_flag_shaped(args[0]),
        lookup(table, args[0]) is None,
    ensures
        spec_parse(table, args, acc) == Err::<Map<Seq<char>, FlagV>, CliErrorV>(
            CliErrorV::UnknownFlag(args[0]),
        ),
{
}

/// Does the list hold a string with this content?
fn contains_string(v: &Vec<String>, x: &String) -> (r: bool)
    ensures
        r == args_view(v@).contains(x@),
{
    let n = v.len();
    let mut i: usize = 0;
    while i < n
        invariant
            i <= n,
            n == v@.len(),
            forall|j: int| 0 <= j < i ==> v@[j]@ != x@,
        decreases n - i,
    {
        if str_eq(v[i].as_str(), x.as_str()) {
            proof {
                assert(args_view(v@)[i as int] == x@);
            }
            return true;
        }
        i = i + 1;
    }
    proof {
        assert(forall|j: int| 0 <= j < args_view(v@).len() ==> args_view(v@)[j] != x@);
    }
    false
}

} // verus!
