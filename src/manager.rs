//! The registry of handlers and the decisions taken on each input line.
use crate::text::{chars_of, lex_less, lex_lt, lemma_lex_total, lemma_lex_transitive};
use crate::text::{eq_ignore_ascii_case, push_char, same_ignoring_ascii_case, trim, trimmed};
use crate::tokenizer::{arguments_of, command_of, parse_input, views};
use crate::CliError;
use crate::CliHandler;
use std::collections::HashSet;
use vstd::prelude::*;

verus! {

/// The string printed when the manager waits for input.
pub const PROMPT: &'static str = "> ";

/// The command that lists all registered commands.
pub const HELP: &'static str = "help";

/// The command that stops the manager.
pub const EXIT: &'static str = "exit";

/// The message printed for a line whose command is unknown or missing.
pub const INVALID_COMMAND: &'static str = "Invalid command";

/// The routes after registering `cmds` to the handler at index `k`: each of
/// them now leads to `k`, every other name keeps its route.
pub open spec fn registered(routes: Map<Seq<char>, int>, cmds: Seq<Seq<char>>, k: int) -> Map<
    Seq<char>,
    int,
> {
    Map::new(
        |c: Seq<char>| routes.contains_key(c) || cmds.contains(c),
        |c: Seq<char>|
            if cmds.contains(c) {
                k
            } else {
                routes[c]
            },
    )
}

/// `names` in strictly increasing lexicographic order, hence without repeats.
pub open spec fn strictly_sorted(names: Seq<Seq<char>>) -> bool {
    forall|i: int, j: int| 0 <= i < j < names.len() ==> lex_lt(#[trigger] names[i], #[trigger] names[j])
}

/// Relies on `HashSet::iter`: each element of the set is visited once.
#[verifier::external_body]
fn set_items(set: &HashSet<&'static str>) -> (r: Vec<&'static str>)
    ensures
        r@.to_set() == set@,
{
    set.iter().copied().collect()
}

/// The names of `items` as owned strings.
fn owned_names(items: &Vec<&'static str>) -> (r: Vec<String>)
    ensures
        views(r@) == items@.map_values(|s: &'static str| s@),
{
    let mut r: Vec<String> = Vec::new();
    for i in 0..items.len()
        invariant
            views(r@) == items@.take(i as int).map_values(|s: &'static str| s@),
    {
        let ghost prior = views(r@);
        let name = String::from_str(items[i]);
        assert(name@ == items@[i as int]@);
        r.push(name);
        assert(views(r@) =~= prior.push(items@[i as int]@));
        assert(items@.take(i + 1) =~= items@.take(i as int).push(items@[i as int]));
        assert(views(r@) =~= items@.take(i + 1).map_values(|s: &'static str| s@));
    }
    assert(items@.take(items@.len() as int) =~= items@);
    r
}

/// A manager of command line input and output: it holds the two streams and
/// the handlers, and routes each command name to one handler.
pub struct CliManager<R, W, H> {
    /// The stream that lines are read from.
    pub reader: R,
    /// The stream that replies are written to.
    pub writer: W,
    /// Every handler added, once each; a route is an index into it.
    handlers: Vec<H>,
    /// The registered command names, in strictly increasing order.
    names: Vec<String>,
    /// For the name at each index, the index of its handler.
    owners: Vec<usize>,
    /// The routes as a map from command name to handler index.
    routes: Ghost<Map<Seq<char>, int>>,
}

impl<R, W, H> CliManager<R, W, H> {
    /// The stream that lines are read from.
    pub closed spec fn input(&self) -> R {
        self.reader
    }

    /// The stream that replies are written to.
    pub closed spec fn output(&self) -> W {
        self.writer
    }

    /// The registered command names, in strictly increasing order.
    pub closed spec fn commands(&self) -> Seq<Seq<char>> {
        views(self.names@)
    }

    /// The handlers, in the order they were added.
    pub closed spec fn handlers(&self) -> Seq<H> {
        self.handlers@
    }

    /// For each registered command name, the index of its handler.
    pub closed spec fn routes(&self) -> Map<Seq<char>, int> {
        self.routes@
    }

    /// The registry is consistent: names sorted, each name routed to the
    /// handler recorded beside it, and every route leading to a handler.
    pub closed spec fn wf(&self) -> bool {
        &&& self.names@.len() == self.owners@.len()
        &&& strictly_sorted(self.commands())
        &&& self.routes@.dom() == self.commands().to_set()
        &&& forall|i: int|
            0 <= i < self.names@.len() ==> #[trigger] self.routes@[self.names@[i]@]
                == self.owners@[i] as int
        &&& forall|c: Seq<char>| #[trigger]
            self.routes@.contains_key(c) ==> 0 <= self.routes@[c] < self.handlers@.len()
    }

    /// Constructs a manager on the given streams, with no handler.
    pub fn with_reader_writer(reader: R, writer: W) -> (r: CliManager<R, W, H>)
        ensures
            r.wf(),
            r.input() == reader,
            r.output() == writer,
            r.handlers() == Seq::<H>::empty(),
            r.routes() == Map::<Seq<char>, int>::empty(),
    {
        let r = CliManager {
            reader,
            writer,
            handlers: Vec::new(),
            names: Vec::new(),
            owners: Vec::new(),
            routes: Ghost(Map::empty()),
        };
        assert(r.commands().to_set() =~= Set::empty());
        r
    }

    /// Routes `name` to the handler at index `owner`, in place of any
    /// earlier route.
    fn set_route(&mut self, name: &String, owner: usize)
        requires
            old(self).wf(),
            owner < old(self).handlers@.len(),
        ensures
            final(self).wf(),
            final(self).handlers@ == old(self).handlers@,
            final(self).reader == old(self).reader,
            final(self).writer == old(self).writer,
            final(self).routes() == old(self).routes().insert(name@, owner as int),
    {
        let key = chars_of(name.as_str());
        let mut i: usize = 0;
        while i < self.names.len() && lex_less(&chars_of(self.names[i].as_str()), &key)
            invariant
                self.wf(),
                key@ == name@,
                i <= self.names@.len(),
                forall|j: int| 0 <= j < i ==> lex_lt(#[trigger] self.names@[j]@, name@),
            decreases self.names@.len() - i,
        {
            i = i + 1;
        }
        let ghost names0 = self.commands();
        let ghost routes0 = self.routes@;
        assert(routes0.dom() == names0.to_set());
        if i < self.names.len() && self.names[i] == *name {
            self.owners.set(i, owner);
            self.routes = Ghost(self.routes@.insert(name@, owner as int));
            assert(self.routes@.dom() =~= self.commands().to_set()) by {
                assert(self.commands().contains(name@) ==> names0.to_set().contains(name@));
                assert(names0[i as int] == name@);
            }
            assert forall|j: int| 0 <= j < self.names@.len() implies #[trigger] self.routes@[self.names@[j]@]
                == self.owners@[j] as int by {
                if j != i {
                    assert(self.names@[j]@ != name@) by {
                        if j < i {
                            assert(lex_lt(names0[j], names0[i as int]));
                        } else {
                            assert(lex_lt(names0[i as int], names0[j]));
                        }
                        crate::text::lemma_lex_irreflexive(name@);
                    }
                }
            }
        } else {
            proof {
                if i < self.names@.len() {
                    lemma_lex_total(self.names@[i as int]@, name@);
                    assert forall|j: int| i <= j < self.names@.len() implies lex_lt(name@, #[trigger] names0[j]) by {
                        if j > i {
                            assert(lex_lt(names0[i as int], names0[j]));
                            lemma_lex_transitive(name@, names0[i as int], names0[j]);
                        }
                    }
                }
            }
            self.names.insert(i, name.clone());
            self.owners.insert(i, owner);
            self.routes = Ghost(self.routes@.insert(name@, owner as int));
            assert(self.commands() =~= names0.insert(i as int, name@));
            assert(strictly_sorted(self.commands())) by {
                assert forall|a: int, b: int| 0 <= a < b < self.commands().len() implies lex_lt(
                    #[trigger] self.commands()[a],
                    #[trigger] self.commands()[b],
                ) by {
                    if b < i {
                        assert(lex_lt(names0[a], names0[b]));
                    } else if b == i {
                    } else if a < i {
                        assert(lex_lt(names0[a], name@));
                        assert(lex_lt(name@, names0[b - 1]));
                        lemma_lex_transitive(names0[a], name@, names0[b - 1]);
                    } else if a == i {
                    } else {
                        assert(lex_lt(names0[a - 1], names0[b - 1]));
                    }
                }
            }
            assert(self.routes@.dom() =~= self.commands().to_set()) by {
                assert forall|c: Seq<char>| self.commands().contains(c) <==> (names0.contains(c) || c == name@) by {
                    if self.commands().contains(c) {
                        let k = choose|k: int| 0 <= k < self.commands().len() && self.commands()[k] == c;
                        if k < i {
                            assert(names0[k] == c);
                        } else if k > i {
                            assert(names0[k - 1] == c);
                        }
                    }
                    if names0.contains(c) {
                        let k = choose|k: int| 0 <= k < names0.len() && names0[k] == c;
                        if k < i {
                            assert(self.commands()[k] == c);
                        } else {
                            assert(self.commands()[k + 1] == c);
                        }
                    }
                    if c == name@ {
                        assert(self.commands()[i as int] == c);
                    }
                }
                assert forall|c: Seq<char>| self.routes@.dom().contains(c) <==> self.commands().to_set().contains(c) by {
                    assert(routes0.dom().contains(c) <==> names0.contains(c));
                }
            }
            assert forall|j: int| 0 <= j < self.names@.len() implies #[trigger] self.routes@[self.names@[j]@]
                == self.owners@[j] as int by {
                if j < i {
                    assert(self.names@[j]@ == names0[j]);
                    assert(lex_lt(names0[j], name@));
                    crate::text::lemma_lex_irreflexive(name@);
                } else if j > i {
                    assert(self.names@[j]@ == names0[j - 1]);
                    assert(lex_lt(name@, names0[j - 1]));
                    crate::text::lemma_lex_irreflexive(name@);
                }
            }
        }
    }

    /// Registers each of `commands` to `handler`, which is added to the
    /// handlers; a name registered before now leads to `handler`.
    pub fn register(&mut self, commands: &Vec<String>, handler: H)
        requires
            old(self).wf(),
        ensures
            final(self).wf(),
            final(self).handlers() == old(self).handlers().push(handler),
            final(self).routes() == registered(
                old(self).routes(),
                views(commands@),
                old(self).handlers().len() as int,
            ),
            final(self).input() == old(self).input(),
            final(self).output() == old(self).output(),
    {
        let k = self.handlers.len();
        self.handlers.push(handler);
        let ghost routes0 = old(self).routes@;
        assert(self.routes@ =~= registered(routes0, views(commands@).take(0), k as int));
        for i in 0..commands.len()
            invariant
                self.wf(),
                k == old(self).handlers@.len(),
                self.handlers@ == old(self).handlers@.push(handler),
                self.reader == old(self).reader,
                self.writer == old(self).writer,
                self.routes@ == registered(routes0, views(commands@).take(i as int), k as int),
        {
            self.set_route(&commands[i], k);
            let ghost before = views(commands@).take(i as int);
            let ghost after = views(commands@).take(i + 1);
            assert forall|c: Seq<char>| after.contains(c) <==> (before.contains(c) || c == commands@[i as int]@) by {
                assert(after =~= before.push(commands@[i as int]@));
                if after.contains(c) {
                    let k = choose|k: int| 0 <= k < after.len() && after[k] == c;
                    if k < i {
                        assert(before[k] == c);
                    }
                }
                if before.contains(c) {
                    let k = choose|k: int| 0 <= k < before.len() && before[k] == c;
                    assert(after[k] == c);
                }
                if c == commands@[i as int]@ {
                    assert(after[i as int] == c);
                }
            }
            assert(self.routes@ =~= registered(routes0, after, k as int));
        }
        assert(views(commands@).take(commands@.len() as int) =~= views(commands@));
    }

    /// The index of the handler that `command` is routed to, if any.
    pub fn find(&self, command: &String) -> (r: Option<usize>)
        requires
            self.wf(),
        ensures
            r == (if self.routes().contains_key(command@) {
                Some(self.routes()[command@] as usize)
            } else {
                None
            }),
    {
        for i in 0..self.names.len()
            invariant
                self.wf(),
                forall|j: int| 0 <= j < i ==> #[trigger] self.names@[j]@ != command@,
        {
            if self.names[i] == *command {
                assert(self.commands()[i as int] == command@);
                assert(self.commands().to_set().contains(command@));
                return Some(self.owners[i]);
            }
        }
        assert(!self.commands().contains(command@));
        None
    }

    /// The registered command names, one per line, in increasing order.
    pub fn help(&self) -> (r: String)
        requires
            self.wf(),
        ensures
            r@ == help_listing(self.commands()),
    {
        let mut s = String::new();
        assert(self.commands().take(0) =~= Seq::<Seq<char>>::empty());
        for i in 0..self.names.len()
            invariant
                s@ == help_listing(self.commands().take(i as int)),
        {
            assert(self.commands().take(i + 1).drop_last() =~= self.commands().take(i as int));
            s.append(self.names[i].as_str());
            push_char(&mut s, '\n');
        }
        assert(self.commands().take(self.commands().len() as int) =~= self.commands());
        s
    }

    /// What the manager does with `line`, by the rules of `outcome`.
    pub fn decide(&self, line: &str) -> (a: Action)
        requires
            self.wf(),
        ensures
            a@ == self.outcome(line@),
    {
        let t = trim(line);
        if t.is_empty() {
            return Action::Reply(String::new());
        }
        let (command, args) = parse_input(String::from_str(t));
        if command.as_str().is_empty() {
            Action::Reply(invalid_command_line())
        } else if eq_ignore_ascii_case(command.as_str(), EXIT) {
            Action::Exit
        } else if eq_ignore_ascii_case(command.as_str(), HELP) {
            Action::Reply(self.help())
        } else {
            match self.find(&command) {
                Some(k) => Action::Run { handler: k, command, args },
                None => Action::Reply(invalid_command_line()),
            }
        }
    }

    /// What the manager does with `line`: nothing for a blank line; `Invalid
    /// command` for a line without a command; stop on `exit` and list the
    /// commands on `help`, in any case of letters; otherwise run the
    /// command's handler, or reply `Invalid command` when it has none.
    pub open spec fn outcome(&self, line: Seq<char>) -> Outcome {
        let t = trimmed(line);
        let c = command_of(t);
        if t.len() == 0 {
            Outcome::Text(Seq::empty())
        } else if c.len() == 0 {
            Outcome::Text(invalid_command_text())
        } else if same_ignoring_ascii_case(c, EXIT@) {
            Outcome::Stop
        } else if same_ignoring_ascii_case(c, HELP@) {
            Outcome::Text(help_listing(self.commands()))
        } else if self.routes().contains_key(c) {
            Outcome::Dispatch(self.routes()[c], c, arguments_of(t))
        } else {
            Outcome::Text(invalid_command_text())
        }
    }
}

impl<R, W, H: CliHandler> CliManager<R, W, H> {
    /// Adds `handler`: every command that it declares is now routed to it.
    pub fn add_handler(&mut self, handler: H)
        requires
            old(self).wf(),
        ensures
            final(self).wf(),
            final(self).handlers() == old(self).handlers().push(handler),
            exists|cmds: Seq<Seq<char>>|
                final(self).routes() == registered(
                    old(self).routes(),
                    cmds,
                    old(self).handlers().len() as int,
                ),
            final(self).input() == old(self).input(),
            final(self).output() == old(self).output(),
    {
        let commands = owned_names(&set_items(&handler.get_commands()));
        self.register(&commands, handler);
    }

    /// Handles one input line: `None` when the manager is to stop, otherwise
    /// the text to print.
    pub fn respond(&self, line: &str) -> (r: Option<String>)
        requires
            self.wf(),
        ensures
            match self.outcome(line@) {
                Outcome::Stop => r is None,
                Outcome::Text(t) => r matches Some(s) && s@ == t,
                Outcome::Dispatch(_, _, _) => r matches Some(s) && exists|
                    out: Seq<char>,
                    res: Result<(), CliError>,
                | s@ == out + result_text(res),
            },
    {
        match self.decide(line) {
            Action::Exit => None,
            Action::Reply(text) => Some(text),
            Action::Run { handler, command, args } => {
                let mut out = String::new();
                let res = self.handlers[handler].handle_command(command.as_str(), args, &mut out);
                let ghost printed = out@;
                let ghost result = res;
                let r = with_result(out, res);
                assert(r@ == printed + result_text(result));
                Some(r)
            },
        }
    }
}

/// What the manager does with a line, as a mathematical value.
pub enum Outcome {
    /// Stop reading lines.
    Stop,
    /// Print the text.
    Text(Seq<char>),
    /// Run the handler at the index on the command and its arguments.
    Dispatch(int, Seq<char>, Seq<Seq<char>>),
}

/// What the manager does with a line.
pub enum Action {
    /// Stop reading lines.
    Exit,
    /// Print the text.
    Reply(String),
    /// Run the handler at index `handler` on `command` and `args`.
    Run { handler: usize, command: String, args: Vec<String> },
}

impl View for Action {
    type V = Outcome;

    open spec fn view(&self) -> Outcome {
        match self {
            Action::Exit => Outcome::Stop,
            Action::Reply(s) => Outcome::Text(s@),
            Action::Run { handler, command, args } => Outcome::Dispatch(
                *handler as int,
                command@,
                views(args@),
            ),
        }
    }
}

/// The names, each followed by a line break.
pub open spec fn help_listing(names: Seq<Seq<char>>) -> Seq<char>
    decreases names.len(),
{
    if names.len() == 0 {
        Seq::empty()
    } else {
        help_listing(names.drop_last()) + names.last().push('\n')
    }
}

/// The reply to a line whose command is unknown or missing.
pub open spec fn invalid_command_text() -> Seq<char> {
    INVALID_COMMAND@.push('\n')
}

fn invalid_command_line() -> (r: String)
    ensures
        r@ == invalid_command_text(),
{
    let mut s = String::from_str(INVALID_COMMAND);
    push_char(&mut s, '\n');
    s
}

/// What is printed after a handler returns `res`: nothing on success, the
/// error's message and a line break on failure.
pub open spec fn result_text(res: Result<(), CliError>) -> Seq<char> {
    match res {
        Ok(_) => Seq::empty(),
        Err(e) => e.message_spec().push('\n'),
    }
}

/// The text printed for a command whose handler printed `out` and returned
/// `res`.
pub fn with_result(out: String, res: Result<(), CliError>) -> (r: String)
    ensures
        r@ == out@ + result_text(res),
{
    let mut r = out;
    match res {
        Ok(_) => {},
        Err(e) => {
            let m = e.message();
            r.append(m.as_str());
            push_char(&mut r, '\n');
        },
    }
    r
}

/// The routes after registering each batch of names in turn, the batch at
/// index `j` to the handler at index `first + j`.
pub open spec fn registered_all(
    routes: Map<Seq<char>, int>,
    batches: Seq<Seq<Seq<char>>>,
    first: int,
) -> Map<Seq<char>, int>
    decreases batches.len(),
{
    if batches.len() == 0 {
        routes
    } else {
        registered(
            registered_all(routes, batches.drop_last(), first),
            batches.last(),
            first + batches.len() - 1,
        )
    }
}

/// Whatever the registrations, a name leads to the handler of the most
/// recent registration that names it.
pub proof fn lemma_latest_registration_wins(
    routes: Map<Seq<char>, int>,
    batches: Seq<Seq<Seq<char>>>,
    first: int,
    c: Seq<char>,
    k: int,
)
    requires
        0 <= k < batches.len(),
        batches[k].contains(c),
        forall|j: int| k < j < batches.len() ==> !(#[trigger] batches[j]).contains(c),
    ensures
        registered_all(routes, batches, first).contains_key(c),
        registered_all(routes, batches, first)[c] == first + k,
    decreases batches.len(),
{
    if k < batches.len() - 1 {
        let rest = batches.drop_last();
        assert forall|j: int| k < j < rest.len() implies !(#[trigger] rest[j]).contains(c) by {
            assert(rest[j] == batches[j]);
        }
        lemma_latest_registration_wins(routes, rest, first, c, k);
        assert(!batches[batches.len() - 1].contains(c));
    }
}

/// Two handlers that declare disjoint sets of commands, added one after the
/// other: each command leads to the handler that declared it.
pub proof fn lemma_disjoint_handlers_route_to_owner(
    routes: Map<Seq<char>, int>,
    first: Seq<Seq<char>>,
    second: Seq<Seq<char>>,
    k: int,
    c: Seq<char>,
)
    requires
        forall|x: Seq<char>| first.contains(x) ==> !second.contains(x),
    ensures
        first.contains(c) ==> registered(registered(routes, first, k), second, k + 1)[c] == k,
        second.contains(c) ==> registered(registered(routes, first, k), second, k + 1)[c] == k + 1,
{
}

/// Two strictly sorted listings of the same names are the same listing.
pub proof fn lemma_sorted_listing_unique(a: Seq<Seq<char>>, b: Seq<Seq<char>>)
    requires
        strictly_sorted(a),
        strictly_sorted(b),
        a.to_set() == b.to_set(),
    ensures
        a == b,
    decreases a.len(),
{
    if a.len() == 0 {
        if b.len() > 0 {
            assert(b.to_set().contains(b[0]));
        }
        assert(a =~= b);
    } else {
        assert(a.to_set().contains(a[0]));
        assert(b.contains(a[0]));
        assert(b.to_set().contains(b[0]));
        assert(a.to_set().contains(b[0]));
        assert(a.contains(b[0]));
        let i = choose|i: int| 0 <= i < a.len() && a[i] == b[0];
        let j = choose|j: int| 0 <= j < b.len() && b[j] == a[0];
        if i > 0 && j > 0 {
            assert(lex_lt(a[0], a[i])) by {
                assert(0 <= 0 < i < a.len());
            }
            assert(lex_lt(b[0], b[j])) by {
                assert(0 <= 0 < j < b.len());
            }
            lemma_lex_total(a[0], b[0]);
        }
        assert(a[0] == b[0]);
        let a1 = a.drop_first();
        let b1 = b.drop_first();
        assert forall|x: Seq<char>| a1.contains(x) implies b1.contains(x) by {
            {
                let p = choose|p: int| 0 <= p < a1.len() && a1[p] == x;
                assert(lex_lt(a[0], a[p + 1]));
                crate::text::lemma_lex_irreflexive(x);
                assert(a.to_set().contains(x));
                assert(b.contains(x));
                let q = choose|q: int| 0 <= q < b.len() && b[q] == x;
                assert(q > 0);
                assert(b1[q - 1] == x);
            }
        }
        assert forall|x: Seq<char>| b1.contains(x) implies a1.contains(x) by {
            {
                let p = choose|p: int| 0 <= p < b1.len() && b1[p] == x;
                assert(lex_lt(b[0], b[p + 1]));
                crate::text::lemma_lex_irreflexive(x);
                assert(b.to_set().contains(x));
                assert(a.contains(x));
                let q = choose|q: int| 0 <= q < a.len() && a[q] == x;
                assert(q > 0);
                assert(a1[q - 1] == x);
            }
        }
        assert(a1.to_set() =~= b1.to_set());
        lemma_sorted_listing_unique(a1, b1);
        assert(a =~= seq![a[0]] + a1);
        assert(b =~= seq![b[0]] + b1);
    }
}

/// The `help` listing holds each registered command name once, in
/// increasing lexicographic order, whatever order they were registered in:
/// it is the one sorted listing of the registered names.
pub proof fn lemma_help_lists_registered<R, W, H>(m: &CliManager<R, W, H>, names: Seq<Seq<char>>)
    requires
        m.wf(),
        strictly_sorted(names),
        names.to_set() == m.routes().dom(),
    ensures
        strictly_sorted(m.commands()),
        m.commands().to_set() == m.routes().dom(),
        m.commands() == names,
{
    lemma_sorted_listing_unique(m.commands(), names);
}

/// A line with no command, or whose command is neither built in nor
/// registered, gets exactly `Invalid command` and a line break.
pub proof fn lemma_unknown_command_is_invalid<R, W, H>(m: &CliManager<R, W, H>, line: Seq<char>)
    requires
        trimmed(line).len() > 0,
        command_of(trimmed(line)).len() == 0 || (!same_ignoring_ascii_case(
            command_of(trimmed(line)),
            EXIT@,
        ) && !same_ignoring_ascii_case(command_of(trimmed(line)), HELP@)
            && !m.routes().contains_key(command_of(trimmed(line)))),
    ensures
        m.outcome(line) == Outcome::Text(invalid_command_text()),
{
}

/// A line whose command is `exit`, in any case of letters, stops the
/// manager, whatever the arguments and whatever is registered.
pub proof fn lemma_exit_stops<R, W, H>(m: &CliManager<R, W, H>, line: Seq<char>)
    requires
        same_ignoring_ascii_case(command_of(trimmed(line)), EXIT@),
    ensures
        m.outcome(line) == Outcome::Stop,
{
    reveal_strlit("exit");
    assert(trimmed(line).len() > 0) by {
        if trimmed(line).len() == 0 {
            crate::tokenizer::lemma_blank_line(trimmed(line));
        }
    }
}

} // verus!
