//! What is decided of a command line under completion: which argument the
//! last word belongs to, which command the words lead to, and which
//! subcommands and flags can complete the last word.
use vstd::prelude::*;
use vstd::string::StringExecFns;
use crate::text::{same_text, text_starts_with, views};

verus! {

/// How an argument takes its values, as far as completion cares.
#[derive(Clone, Copy, Debug, PartialEq, Eq, Structural)]
pub enum ValueAction {
    /// The argument takes one value.
    One,
    /// The argument takes any number of values.
    Many,
    /// The argument takes no value.
    Flag,
}

/// What an argument is.
pub struct ArgView {
    pub id: Seq<char>,
    pub short: Option<char>,
    pub long: Option<Seq<char>>,
    pub action: ValueAction,
}

/// An argument of a command: its id, its short and long flag if it has any,
/// and how it takes its values. An argument without flags is positional.
#[derive(Debug)]
pub struct ArgSpec {
    pub id: String,
    pub short: Option<char>,
    pub long: Option<String>,
    pub action: ValueAction,
}

impl View for ArgSpec {
    type V = ArgView;

    open spec fn view(&self) -> ArgView {
        ArgView {
            id: self.id@,
            short: self.short,
            long: match self.long {
                Some(l) => Some(l@),
                None => None,
            },
            action: self.action,
        }
    }
}

/// The views of a sequence of arguments, element by element.
pub open spec fn arg_views(args: Seq<ArgSpec>) -> Seq<ArgView> {
    Seq::new(args.len(), |i: int| args[i]@)
}

/// The short flag as it is written.
pub open spec fn short_flag(c: char) -> Seq<char> {
    seq!['-', c]
}

/// The long flag as it is written.
pub open spec fn long_flag(name: Seq<char>) -> Seq<char> {
    "--"@ + name
}

/// Whether `word` is one of the flags of the argument.
pub open spec fn names_arg(arg: ArgView, word: Seq<char>) -> bool {
    ||| arg.short is Some && word == short_flag(arg.short->0)
    ||| arg.long is Some && word == long_flag(arg.long->0)
}

/// The index of the first of the arguments that `word` names.
pub open spec fn named_arg(args: Seq<ArgView>, word: Seq<char>) -> Option<int>
    decreases args.len(),
{
    if args.len() == 0 {
        None
    } else {
        match named_arg(args.drop_last(), word) {
            Some(i) => Some(i),
            None => if names_arg(args.last(), word) {
                Some(args.len() - 1)
            } else {
                None
            },
        }
    }
}

/// What a command is: its name, the arguments with flags that completion
/// treats as options, its positional arguments in order, all its arguments
/// with flags, and whether it offers the help subcommand and the help flag.
pub struct CommandView {
    pub name: Seq<char>,
    pub options: Seq<ArgView>,
    pub positionals: Seq<ArgView>,
    pub arguments: Seq<ArgView>,
    pub help_subcommand: bool,
    pub help_flag: bool,
}

/// A command as completion sees it.
#[derive(Debug)]
pub struct CommandSpec {
    pub name: String,
    pub options: Vec<ArgSpec>,
    pub positionals: Vec<ArgSpec>,
    pub arguments: Vec<ArgSpec>,
    pub help_subcommand: bool,
    pub help_flag: bool,
}

impl View for CommandSpec {
    type V = CommandView;

    open spec fn view(&self) -> CommandView {
        CommandView {
            name: self.name@,
            options: arg_views(self.options@),
            positionals: arg_views(self.positionals@),
            arguments: arg_views(self.arguments@),
            help_subcommand: self.help_subcommand,
            help_flag: self.help_flag,
        }
    }
}

/// What is known after some words of a command line: the option named
/// last and the index of the word that named it, the positional argument
/// taken last and the index of the word that took it, how many positional
/// arguments are taken, and the id of the argument that the last word
/// belongs to, if it belongs to one.
pub struct ScanState {
    pub option: Option<int>,
    pub option_start: int,
    pub positional: Option<int>,
    pub positional_start: int,
    pub taken: int,
    pub assigned: Option<Seq<char>>,
}

impl CommandView {
    /// Whether the word at `index` is a value of the option named last: the
    /// one value of an option that takes one, or any value after an option
    /// that takes many.
    pub open spec fn continues_option(self, state: ScanState, index: int) -> bool {
        match state.option {
            Some(k) => match self.options[k].action {
                ValueAction::One => state.option_start == index - 1,
                ValueAction::Many => state.option_start < index,
                ValueAction::Flag => false,
            },
            None => false,
        }
    }

    /// Whether the word at `index` is a value of the positional argument
    /// taken last.
    pub open spec fn continues_positional(self, state: ScanState, index: int) -> bool {
        match state.positional {
            Some(k) => match self.positionals[k].action {
                ValueAction::One => state.positional_start == index,
                ValueAction::Many => state.positional_start <= index,
                ValueAction::Flag => false,
            },
            None => false,
        }
    }

    /// What is known after the first `n` words. A word that is the name of
    /// the command belongs to no argument; a word that names an option
    /// belongs to none and makes that option the one named last; any other
    /// word belongs to the option named last if it is a value of it, else to
    /// the positional argument taken last if it is a value of it, else to
    /// the next positional argument, which it takes, if there is one.
    pub open spec fn scan(self, words: Seq<Seq<char>>, n: int) -> ScanState
        decreases n,
    {
        if n <= 0 {
            ScanState {
                option: None,
                option_start: 0,
                positional: None,
                positional_start: 0,
                taken: 0,
                assigned: None,
            }
        } else {
            let before = self.scan(words, n - 1);
            let index = n - 1;
            let word = words[index];
            if word == self.name {
                ScanState { assigned: None, ..before }
            } else {
                match named_arg(self.options, word) {
                    Some(k) => ScanState {
                        option: Some(k),
                        option_start: index,
                        assigned: None,
                        ..before
                    },
                    None => if self.continues_option(before, index) {
                        ScanState { assigned: Some(self.options[before.option->0].id), ..before }
                    } else if self.continues_positional(before, index) {
                        ScanState {
                            assigned: Some(self.positionals[before.positional->0].id),
                            ..before
                        }
                    } else if 0 <= before.taken < self.positionals.len() {
                        ScanState {
                            positional: Some(before.taken),
                            positional_start: index,
                            taken: before.taken + 1,
                            assigned: Some(self.positionals[before.taken].id),
                            ..before
                        }
                    } else {
                        ScanState { assigned: None, ..before }
                    },
                }
            }
        }
    }

    /// The id of the argument that the last of the words belongs to.
    pub open spec fn edited(self, words: Seq<Seq<char>>) -> Option<Seq<char>> {
        if words.len() == 0 {
            None
        } else {
            self.scan(words, words.len() as int).assigned
        }
    }
}

/// The index of the first of the arguments that `word` names.
pub fn find_named_arg(args: &Vec<ArgSpec>, word: &str) -> (r: Option<usize>)
    ensures
        match r {
            Some(i) => named_arg(arg_views(args@), word@) == Some(i as int) && i < args@.len(),
            None => named_arg(arg_views(args@), word@) is None,
        },
{
    let ghost all = arg_views(args@);
    let mut i: usize = 0;
    proof {
        assert(all.take(0) =~= Seq::empty());
    }
    while i < args.len()
        invariant
            i <= args.len(),
            all == arg_views(args@),
            named_arg(all.take(i as int), word@) is None,
        decreases args.len() - i,
    {
        proof {
            assert(all.take(i + 1).drop_last() =~= all.take(i as int));
            assert(all.take(i + 1).last() == args@[i as int]@);
        }
        let arg = &args[i];
        let by_short = match arg.short {
            Some(c) => {
                let mut flag = String::from_str("-");
                flag.push(c);
                proof {
                    reveal_strlit("-");
                    assert(flag@ =~= short_flag(c));
                }
                same_text(flag.as_str(), word)
            },
            None => false,
        };
        let by_long = match &arg.long {
            Some(l) => {
                let mut flag = String::from_str("--");
                flag.append(l.as_str());
                same_text(flag.as_str(), word)
            },
            None => false,
        };
        if by_short || by_long {
            proof {
                lemma_named_arg_extends(all, word@, i + 1);
            }
            return Some(i);
        }
        i += 1;
    }
    assert(all.take(all.len() as int) =~= all);
    None
}

proof fn lemma_named_arg_extends(args: Seq<ArgView>, word: Seq<char>, k: int)
    requires
        0 <= k <= args.len(),
        named_arg(args.take(k), word) is Some,
    ensures
        named_arg(args, word) == named_arg(args.take(k), word),
    decreases args.len() - k,
{
    if k < args.len() {
        assert(args.take(k + 1).drop_last() =~= args.take(k));
        lemma_named_arg_extends(args, word, k + 1);
    } else {
        assert(args.take(k) =~= args);
    }
}

/// The id of the argument that the last word of `appendix` belongs to, if it
/// belongs to one. This is the argument being edited when the cursor stands
/// on the last word.
pub fn currently_editing(command: &CommandSpec, appendix: &Vec<String>) -> (r: Option<String>)
    ensures
        match r {
            Some(id) => command@.edited(views(appendix@)) == Some(id@),
            None => command@.edited(views(appendix@)) is None,
        },
{
    let ghost words = views(appendix@);
    let mut current_option: Option<usize> = None;
    let mut current_option_start: usize = 0;
    let mut current_positional: Option<usize> = None;
    let mut current_positional_start: usize = 0;
    let mut taken: usize = 0;
    let mut assigned: Option<String> = None;
    let mut index: usize = 0;
    while index < appendix.len()
        invariant
            index <= appendix.len(),
            words == views(appendix@),
            taken <= command.positionals@.len(),
            match current_option {
                Some(k) => k < command.options@.len(),
                None => true,
            },
            match current_positional {
                Some(k) => k < command.positionals@.len(),
                None => true,
            },
            current_option.is_some() ==> current_option_start < index,
            command@.scan(words, index as int) == (ScanState {
                option: match current_option {
                    Some(k) => Some(k as int),
                    None => None,
                },
                option_start: current_option_start as int,
                positional: match current_positional {
                    Some(k) => Some(k as int),
                    None => None,
                },
                positional_start: current_positional_start as int,
                taken: taken as int,
                assigned: match assigned {
                    Some(id) => Some(id@),
                    None => None,
                },
            }),
        decreases appendix.len() - index,
    {
        let word = appendix[index].as_str();
        proof {
            assert(words[index as int] == word@);
        }
        if same_text(word, command.name.as_str()) {
            assigned = None;
        } else {
            match find_named_arg(&command.options, word) {
                Some(k) => {
                    current_option = Some(k);
                    current_option_start = index;
                    assigned = None;
                },
                None => {
                    let of_option = match current_option {
                        Some(k) => match command.options[k].action {
                            ValueAction::One => current_option_start == index - 1,
                            ValueAction::Many => current_option_start < index,
                            ValueAction::Flag => false,
                        },
                        None => false,
                    };
                    let of_positional = match current_positional {
                        Some(k) => match command.positionals[k].action {
                            ValueAction::One => current_positional_start == index,
                            ValueAction::Many => current_positional_start <= index,
                            ValueAction::Flag => false,
                        },
                        None => false,
                    };
                    if of_option {
                        let k = current_option.unwrap();
                        assigned = Some(command.options[k].id.clone());
                    } else if of_positional {
                        let k = current_positional.unwrap();
                        assigned = Some(command.positionals[k].id.clone());
                    } else if taken < command.positionals.len() {
                        current_positional = Some(taken);
                        current_positional_start = index;
                        assigned = Some(command.positionals[taken].id.clone());
                        taken += 1;
                    } else {
                        assigned = None;
                    }
                },
            }
        }
        index += 1;
    }
    if appendix.len() == 0 {
        None
    } else {
        assigned
    }
}

/// Looks at a command line under completion: the words after the name of
/// the program, the last of which is being edited.
#[derive(Debug)]
pub struct CompletionHelper<'a> {
    command: &'a CommandSpec,
    appendix: Vec<String>,
}

impl<'a> CompletionHelper<'a> {
    /// The command that the words are given to.
    pub closed spec fn command_view(&self) -> CommandView {
        self.command@
    }

    /// The words.
    pub closed spec fn words(&self) -> Seq<Seq<char>> {
        views(self.appendix@)
    }

    /// The helper for the words `appendix` given to `command`.
    pub fn new(command: &'a CommandSpec, appendix: Vec<String>) -> (r: Self)
        ensures
            r.command_view() == command@,
            r.words() == views(appendix@),
    {
        Self { command, appendix }
    }

    /// The words.
    pub fn get_appendix(&self) -> (r: &Vec<String>)
        ensures
            views(r@) == self.words(),
    {
        &self.appendix
    }

    /// The id of the argument that the last word belongs to, if it belongs
    /// to one.
    pub fn currently_editing(&self) -> (r: Option<String>)
        ensures
            match r {
                Some(id) => self.command_view().edited(self.words()) == Some(id@),
                None => self.command_view().edited(self.words()) is None,
            },
    {
        currently_editing(self.command, &self.appendix)
    }
}

/// What a command with its subcommands is.
pub struct CommandMapView {
    pub command: CommandView,
    pub children: Seq<CommandMapView>,
}

/// The index of the first of the commands that is named `name`.
pub open spec fn first_named(commands: Seq<CommandMapView>, name: Seq<char>) -> Option<int>
    decreases commands.len(),
{
    if commands.len() == 0 {
        None
    } else {
        match first_named(commands.drop_last(), name) {
            Some(i) => Some(i),
            None => if commands.last().command.name == name {
                Some(commands.len() - 1)
            } else {
                None
            },
        }
    }
}

/// The commands whose name begins with `prefix`, in order.
pub open spec fn named_with_prefix(commands: Seq<CommandMapView>, prefix: Seq<char>) -> Seq<
    CommandMapView,
>
    decreases commands.len(),
{
    if commands.len() == 0 {
        Seq::empty()
    } else if prefix.is_prefix_of(commands.last().command.name) {
        named_with_prefix(commands.drop_last(), prefix).push(commands.last())
    } else {
        named_with_prefix(commands.drop_last(), prefix)
    }
}

/// The name of the subcommand that completion itself is asked through.
pub open spec fn completion_command_name() -> Seq<char> {
    "__completion"@
}

/// The names of the commands, without that of the completion command.
pub open spec fn offered_names(commands: Seq<CommandMapView>) -> Seq<Seq<char>>
    decreases commands.len(),
{
    if commands.len() == 0 {
        Seq::empty()
    } else if commands.last().command.name == completion_command_name() {
        offered_names(commands.drop_last())
    } else {
        offered_names(commands.drop_last()).push(commands.last().command.name)
    }
}

/// The flags of the argument that begin with `word`: the short one unless
/// `word` begins a long flag, then the long one.
pub open spec fn flags_of(arg: ArgView, word: Seq<char>) -> Seq<Seq<char>> {
    let short = if arg.short is Some && !"--"@.is_prefix_of(word) && word.is_prefix_of(
        short_flag(arg.short->0),
    ) {
        seq![short_flag(arg.short->0)]
    } else {
        Seq::empty()
    };
    let long = if arg.long is Some && word.is_prefix_of(long_flag(arg.long->0)) {
        seq![long_flag(arg.long->0)]
    } else {
        Seq::empty()
    };
    short + long
}

/// The flags of the arguments that begin with `word`, in order.
pub open spec fn flags_among(args: Seq<ArgView>, word: Seq<char>) -> Seq<Seq<char>>
    decreases args.len(),
{
    if args.len() == 0 {
        Seq::empty()
    } else {
        flags_among(args.drop_last(), word) + flags_of(args.last(), word)
    }
}

/// The argument that asks for help.
pub open spec fn help_arg() -> ArgView {
    ArgView { id: "help"@, short: Some('h'), long: Some("help"@), action: ValueAction::Flag }
}

impl CommandMapView {
    /// The first subcommand named `name`.
    pub open spec fn child(self, name: Seq<char>) -> Option<CommandMapView> {
        match first_named(self.children, name) {
            Some(i) => Some(self.children[i]),
            None => None,
        }
    }

    /// The command that the names lead to: none unless the first name is the
    /// name of this command; else the command reached by following the
    /// further names through subcommands for as long as they name one.
    pub open spec fn deepest(self, names: Seq<Seq<char>>) -> Option<CommandMapView>
        decreases names.len(),
    {
        if names.len() == 0 || self.command.name != names[0] {
            None
        } else if names.len() == 1 {
            Some(self)
        } else {
            match self.child(names[1]) {
                Some(c) => match c.deepest(names.skip(1)) {
                    Some(found) => Some(found),
                    None => Some(self),
                },
                None => Some(self),
            }
        }
    }

    /// The way to the command that the names lead to: the index of each
    /// subcommand gone through, in order.
    pub open spec fn deepest_path(self, names: Seq<Seq<char>>) -> Option<Seq<int>>
        decreases names.len(),
    {
        if names.len() == 0 || self.command.name != names[0] {
            None
        } else if names.len() == 1 {
            Some(Seq::empty())
        } else {
            match first_named(self.children, names[1]) {
                Some(i) => match self.children[i].deepest_path(names.skip(1)) {
                    Some(rest) => Some(seq![i] + rest),
                    None => Some(Seq::empty()),
                },
                None => Some(Seq::empty()),
            }
        }
    }

    /// The command at the end of the way `path` through subcommands.
    pub open spec fn at(self, path: Seq<int>) -> CommandMapView
        decreases path.len(),
    {
        if path.len() == 0 {
            self
        } else {
            self.children[path[0]].at(path.skip(1))
        }
    }

    /// The way that `deepest_path` gives ends at the command that `deepest`
    /// gives.
    pub proof fn lemma_deepest_path(self, names: Seq<Seq<char>>)
        ensures
            match self.deepest_path(names) {
                Some(path) => self.deepest(names) == Some(self.at(path)),
                None => self.deepest(names) is None,
            },
        decreases names.len(),
    {
        if names.len() > 1 && self.command.name == names[0] {
            match first_named(self.children, names[1]) {
                Some(i) => {
                    let child = self.children[i];
                    child.lemma_deepest_path(names.skip(1));
                    match child.deepest_path(names.skip(1)) {
                        Some(rest) => {
                            let path = seq![i] + rest;
                            assert(path[0] == i);
                            assert(path.skip(1) =~= rest);
                        },
                        None => {},
                    }
                },
                None => {},
            }
        }
    }

    /// The subcommands that can complete `word`: those whose name begins
    /// with it, and the help subcommand where the command offers it and its
    /// name begins with the word; the completion command is never offered.
    pub open spec fn subcommand_offers(self, word: Seq<char>) -> Seq<Seq<char>> {
        let named = offered_names(named_with_prefix(self.children, word));
        if word.is_prefix_of("help"@) && self.command.help_subcommand {
            named.push("help"@)
        } else {
            named
        }
    }

    /// The flags that can complete `word`, where it begins with a dash:
    /// those of the arguments of the command, and of the help argument where
    /// the command offers it.
    pub open spec fn flag_offers(self, word: Seq<char>) -> Seq<Seq<char>> {
        if !"-"@.is_prefix_of(word) {
            Seq::empty()
        } else if self.command.help_flag {
            flags_among(self.command.arguments, word) + flags_of(help_arg(), word)
        } else {
            flags_among(self.command.arguments, word)
        }
    }

    /// What completes the last of the words, as far as commands and flags
    /// go: the subcommands and then the flags of the command that the words
    /// lead to.
    pub open spec fn offers(self, words: Seq<Seq<char>>) -> Seq<Seq<char>> {
        if words.len() == 0 {
            Seq::empty()
        } else {
            match self.deepest(words) {
                Some(command) => command.subcommand_offers(words.last()) + command.flag_offers(
                    words.last(),
                ),
                None => Seq::empty(),
            }
        }
    }
}

/// A command with its subcommands.
#[derive(Debug)]
pub struct CommandMap {
    command: CommandSpec,
    children: Vec<CommandMap>,
}

impl View for CommandMap {
    type V = CommandMapView;

    closed spec fn view(&self) -> CommandMapView {
        self.model()
    }
}

/// The indices as mathematical integers, one by one.
pub open spec fn indices(path: Seq<usize>) -> Seq<int> {
    Seq::new(path.len(), |i: int| path[i] as int)
}

/// The views of a sequence of command references, element by element.
pub open spec fn map_views(commands: Seq<&CommandMap>) -> Seq<CommandMapView> {
    Seq::new(commands.len(), |i: int| commands[i]@)
}

impl CommandMap {
    /// What this command is, subcommands included.
    pub closed spec fn model(&self) -> CommandMapView
        decreases self,
    {
        CommandMapView { command: self.command@, children: Self::models(self.children@) }
    }

    /// What the commands are, one by one.
    pub closed spec fn models(commands: Seq<CommandMap>) -> Seq<CommandMapView>
        decreases commands,
    {
        if commands.len() == 0 {
            Seq::empty()
        } else {
            Self::models(commands.drop_last()).push(commands.last().model())
        }
    }

    proof fn lemma_models(commands: Seq<CommandMap>)
        ensures
            Self::models(commands).len() == commands.len(),
            forall|i: int|
                0 <= i < commands.len() ==> (#[trigger] Self::models(commands)[i]) == commands[i]@,
        decreases commands.len(),
    {
        if commands.len() > 0 {
            Self::lemma_models(commands.drop_last());
            assert forall|i: int| 0 <= i < commands.len() implies (#[trigger] Self::models(
                commands,
            )[i]) == commands[i]@ by {
                if i < commands.len() - 1 {
                    assert(commands.drop_last()[i] == commands[i]);
                }
            }
        }
    }

    proof fn lemma_children(&self)
        ensures
            self@.command == self.command@,
            self@.children.len() == self.children@.len(),
            forall|i: int|
                0 <= i < self.children@.len() ==> (#[trigger] self@.children[i])
                    == self.children@[i]@,
    {
        Self::lemma_models(self.children@);
    }

    /// The command with the given subcommands.
    pub fn new(command: CommandSpec, children: Vec<CommandMap>) -> (r: Self)
        ensures
            r@.command == command@,
            r@.children.len() == children@.len(),
            forall|i: int| 0 <= i < children@.len() ==> (#[trigger] r@.children[i]) == children@[i]@,
    {
        let r = Self { command, children };
        proof {
            r.lemma_children();
        }
        r
    }

    /// The command itself.
    pub fn get_command(&self) -> (r: &CommandSpec)
        ensures
            r@ == self@.command,
    {
        proof {
            self.lemma_children();
        }
        &self.command
    }

    /// The subcommands.
    pub fn get_children(&self) -> (r: &Vec<CommandMap>)
        ensures
            r@.len() == self@.children.len(),
            forall|i: int| 0 <= i < r@.len() ==> (#[trigger] r@[i])@ == self@.children[i],
    {
        proof {
            self.lemma_children();
        }
        &self.children
    }

    /// The index of the first subcommand named `name`.
    pub fn find_child_index(&self, name: &str) -> (r: Option<usize>)
        ensures
            match r {
                Some(i) => first_named(self@.children, name@) == Some(i as int) && i
                    < self@.children.len(),
                None => first_named(self@.children, name@) is None,
            },
    {
        proof {
            self.lemma_children();
            assert(self@.children.take(0) =~= Seq::empty());
        }
        let mut i: usize = 0;
        while i < self.children.len()
            invariant
                i <= self.children.len(),
                self@.children.len() == self.children@.len(),
                forall|k: int|
                    0 <= k < self.children@.len() ==> (#[trigger] self@.children[k])
                        == self.children@[k]@,
                first_named(self@.children.take(i as int), name@) is None,
            decreases self.children.len() - i,
        {
            proof {
                assert(self@.children.take(i + 1).drop_last() =~= self@.children.take(i as int));
                assert(self@.children.take(i + 1).last() == self.children@[i as int]@);
                self.children@[i as int].lemma_children();
            }
            if same_text(self.children[i].command.name.as_str(), name) {
                proof {
                    lemma_first_named_extends(self@.children, name@, i + 1);
                }
                return Some(i);
            }
            i += 1;
        }
        assert(self@.children.take(self@.children.len() as int) =~= self@.children);
        None
    }

    /// The first subcommand named `name`.
    pub fn find_child(&self, name: &str) -> (r: Option<&CommandMap>)
        ensures
            match r {
                Some(c) => self@.child(name@) == Some(c@),
                None => self@.child(name@) is None,
            },
    {
        match self.find_child_index(name) {
            Some(i) => {
                proof {
                    self.lemma_children();
                }
                Some(&self.children[i])
            },
            None => None,
        }
    }

    fn path_from(&self, names: &Vec<String>, from: usize, path: &mut Vec<usize>) -> (r: bool)
        requires
            from <= names@.len(),
        ensures
            match self@.deepest_path(views(names@).skip(from as int)) {
                Some(way) => r && indices(final(path)@) == indices(old(path)@) + way,
                None => !r && final(path)@ == old(path)@,
            },
        decreases names@.len() - from,
    {
        proof {
            self.lemma_children();
        }
        let ghost rest = views(names@).skip(from as int);
        if from == names.len() {
            return false;
        }
        proof {
            assert(rest[0] == names@[from as int]@);
        }
        if !same_text(self.command.name.as_str(), names[from].as_str()) {
            return false;
        }
        proof {
            assert(indices(path@) + Seq::<int>::empty() =~= indices(path@));
        }
        if from == names.len() - 1 {
            return true;
        }
        proof {
            assert(rest[1] == names@[from + 1]@);
            assert(rest.skip(1) =~= views(names@).skip(from + 1));
        }
        match self.find_child_index(names[from + 1].as_str()) {
            Some(i) => {
                let ghost before = indices(path@);
                path.push(i);
                proof {
                    assert(indices(path@) =~= before.push(i as int));
                }
                let found = self.children[i].path_from(names, from + 1, path);
                if !found {
                    path.pop();
                    proof {
                        assert(path@ =~= old(path)@);
                    }
                } else {
                    proof {
                        let way = self@.children[i as int].deepest_path(rest.skip(1))->0;
                        assert(before.push(i as int) + way =~= before + (seq![i as int] + way));
                    }
                }
                true
            },
            None => true,
        }
    }

    /// The way to the command that the names lead to: the index of each
    /// subcommand gone through, in order.
    pub fn find_last_child_path(&self, names: &Vec<String>) -> (r: Option<Vec<usize>>)
        ensures
            match r {
                Some(path) => self@.deepest_path(views(names@)) == Some(indices(path@)),
                None => self@.deepest_path(views(names@)) is None,
            },
    {
        let mut path: Vec<usize> = Vec::new();
        proof {
            assert(views(names@).skip(0) =~= views(names@));
            assert(indices(path@) =~= Seq::<int>::empty());
        }
        if self.path_from(names, 0, &mut path) {
            proof {
                let way = self@.deepest_path(views(names@))->0;
                assert(Seq::<int>::empty() + way =~= way);
            }
            Some(path)
        } else {
            None
        }
    }

    fn deepest_from(&self, names: &Vec<String>, from: usize) -> (r: Option<&CommandMap>)
        requires
            from <= names@.len(),
        ensures
            match r {
                Some(c) => self@.deepest(views(names@).skip(from as int)) == Some(c@),
                None => self@.deepest(views(names@).skip(from as int)) is None,
            },
        decreases names@.len() - from,
    {
        proof {
            self.lemma_children();
        }
        let ghost rest = views(names@).skip(from as int);
        if from == names.len() {
            return None;
        }
        proof {
            assert(rest[0] == names@[from as int]@);
        }
        if !same_text(self.command.name.as_str(), names[from].as_str()) {
            return None;
        }
        if from == names.len() - 1 {
            return Some(self);
        }
        proof {
            assert(rest[1] == names@[from + 1]@);
            assert(rest.skip(1) =~= views(names@).skip(from + 1));
        }
        match self.find_child(names[from + 1].as_str()) {
            Some(child) => match child.deepest_from(names, from + 1) {
                Some(found) => Some(found),
                None => Some(self),
            },
            None => Some(self),
        }
    }

    /// The command that the names lead to, if the first name is the name of
    /// this command.
    pub fn find_last_child_recursive(&self, names: &Vec<String>) -> (r: Option<&CommandMap>)
        ensures
            match r {
                Some(c) => self@.deepest(views(names@)) == Some(c@),
                None => self@.deepest(views(names@)) is None,
            },
    {
        assert(views(names@).skip(0) =~= views(names@));
        self.deepest_from(names, 0)
    }

    /// The subcommands whose name begins with `prefix`, in order.
    pub fn find_children_by_prefix(&self, prefix: &str) -> (r: Vec<&CommandMap>)
        ensures
            map_views(r@) == named_with_prefix(self@.children, prefix@),
    {
        proof {
            self.lemma_children();
            assert(self@.children.take(0) =~= Seq::empty());
        }
        let mut out: Vec<&CommandMap> = Vec::new();
        let mut i: usize = 0;
        proof {
            assert(map_views(out@) =~= Seq::empty());
        }
        while i < self.children.len()
            invariant
                i <= self.children.len(),
                self@.children.len() == self.children@.len(),
                forall|k: int|
                    0 <= k < self.children@.len() ==> (#[trigger] self@.children[k])
                        == self.children@[k]@,
                map_views(out@) == named_with_prefix(self@.children.take(i as int), prefix@),
            decreases self.children.len() - i,
        {
            proof {
                assert(self@.children.take(i + 1).drop_last() =~= self@.children.take(i as int));
                assert(self@.children.take(i + 1).last() == self.children@[i as int]@);
                self.children@[i as int].lemma_children();
            }
            if text_starts_with(self.children[i].command.name.as_str(), prefix) {
                let ghost before = map_views(out@);
                out.push(&self.children[i]);
                assert(map_views(out@) =~= before.push(self.children@[i as int]@));
            }
            i += 1;
        }
        assert(self@.children.take(self@.children.len() as int) =~= self@.children);
        out
    }

    /// The subcommands that can complete `word`.
    pub fn subcommands_for(&self, word: &str) -> (r: Vec<String>)
        ensures
            views(r@) == self@.subcommand_offers(word@),
    {
        let found = self.find_children_by_prefix(word);
        let ghost all = map_views(found@);
        let mut out: Vec<String> = Vec::new();
        let mut i: usize = 0;
        proof {
            assert(all.take(0) =~= Seq::empty());
            assert(views(out@) =~= Seq::empty());
        }
        while i < found.len()
            invariant
                i <= found.len(),
                all == map_views(found@),
                views(out@) == offered_names(all.take(i as int)),
            decreases found.len() - i,
        {
            proof {
                assert(all.take(i + 1).drop_last() =~= all.take(i as int));
                assert(all.take(i + 1).last() == found@[i as int]@);
            }
            let name = &found[i].get_command().name;
            if !same_text(name.as_str(), "__completion") {
                let ghost before = views(out@);
                out.push(name.clone());
                assert(views(out@) =~= before.push(name@));
            }
            i += 1;
        }
        assert(all.take(all.len() as int) =~= all);
        if text_starts_with("help", word) && self.get_command().help_subcommand {
            let ghost before = views(out@);
            out.push(String::from_str("help"));
            assert(views(out@) =~= before.push("help"@));
        }
        out
    }

    /// The flags that can complete `word`.
    pub fn flags_for(&self, word: &str) -> (r: Vec<String>)
        ensures
            views(r@) == self@.flag_offers(word@),
    {
        let mut out: Vec<String> = Vec::new();
        proof {
            assert(views(out@) =~= Seq::empty());
        }
        if !text_starts_with(word, "-") {
            return out;
        }
        let command = self.get_command();
        let ghost all = arg_views(command.arguments@);
        let mut i: usize = 0;
        proof {
            assert(all.take(0) =~= Seq::empty());
        }
        while i < command.arguments.len()
            invariant
                i <= command.arguments.len(),
                all == arg_views(command.arguments@),
                views(out@) == flags_among(all.take(i as int), word@),
            decreases command.arguments.len() - i,
        {
            proof {
                assert(all.take(i + 1).drop_last() =~= all.take(i as int));
                assert(all.take(i + 1).last() == command.arguments@[i as int]@);
            }
            let arg = &command.arguments[i];
            push_flags(&mut out, arg.short, &arg.long, word);
            i += 1;
        }
        assert(all.take(all.len() as int) =~= all);
        if command.help_flag {
            let long = Some(String::from_str("help"));
            push_flags(&mut out, Some('h'), &long, word);
        }
        out
    }

    /// What completes the last of the words, as far as commands and flags
    /// go.
    pub fn completion_words(&self, to_complete: &Vec<String>) -> (r: Vec<String>)
        ensures
            views(r@) == self@.offers(views(to_complete@)),
    {
        if to_complete.len() == 0 {
            let out: Vec<String> = Vec::new();
            assert(views(out@) =~= Seq::empty());
            return out;
        }
        match self.find_last_child_recursive(to_complete) {
            Some(last_child) => {
                let last_item = to_complete[to_complete.len() - 1].as_str();
                let mut out = last_child.subcommands_for(last_item);
                let mut flags = last_child.flags_for(last_item);
                let ghost a = views(out@);
                let ghost b = views(flags@);
                out.append(&mut flags);
                assert(views(out@) =~= a + b);
                out
            },
            None => {
                let out: Vec<String> = Vec::new();
                assert(views(out@) =~= Seq::empty());
                out
            },
        }
    }
}

/// Appends the flags of an argument that begin with `word`.
fn push_flags(out: &mut Vec<String>, short: Option<char>, long: &Option<String>, word: &str)
    ensures
        views(final(out)@) == views(old(out)@) + flags_of(
            ArgView {
                id: Seq::empty(),
                short,
                long: match long {
                    Some(l) => Some(l@),
                    None => None,
                },
                action: ValueAction::Flag,
            },
            word@,
        ),
{
    let ghost start = views(out@);
    let long_word = text_starts_with(word, "--");
    proof {
        assert(start + (Seq::<Seq<char>>::empty() + Seq::<Seq<char>>::empty()) =~= start);
    }
    let ghost mut shorts: Seq<Seq<char>> = Seq::empty();
    match short {
        Some(c) => {
            if !long_word {
                let mut flag = String::from_str("-");
                flag.push(c);
                proof {
                    reveal_strlit("-");
                    assert(flag@ =~= short_flag(c));
                }
                if text_starts_with(flag.as_str(), word) {
                    proof {
                        shorts = seq![flag@];
                    }
                    out.push(flag);
                    assert(views(out@) =~= start.push(short_flag(c)));
                }
            }
        },
        None => {},
    }
    assert(views(out@) =~= start + shorts);
    let ghost middle = views(out@);
    let ghost mut longs: Seq<Seq<char>> = Seq::empty();
    match long {
        Some(l) => {
            let mut flag = String::from_str("--");
            flag.append(l.as_str());
            if text_starts_with(flag.as_str(), word) {
                proof {
                    longs = seq![flag@];
                }
                out.push(flag);
                assert(views(out@) =~= middle.push(long_flag(l@)));
            }
        },
        None => {},
    }
    assert(views(out@) =~= start + (shorts + longs));
}

proof fn lemma_first_named_extends(commands: Seq<CommandMapView>, name: Seq<char>, k: int)
    requires
        0 <= k <= commands.len(),
        first_named(commands.take(k), name) is Some,
    ensures
        first_named(commands, name) == first_named(commands.take(k), name),
    decreases commands.len() - k,
{
    if k < commands.len() {
        assert(commands.take(k + 1).drop_last() =~= commands.take(k));
        lemma_first_named_extends(commands, name, k + 1);
    } else {
        assert(commands.take(k) =~= commands);
    }
}

} // verus!
