//! Finding the hosts that the user named.
//!
//! An entry of the options is an address, a block in CIDR notation, a host
//! name, or the path of a file that lists such entries line by line. Blocks
//! and addresses are read here. Names and files need the system, the network
//! or the disk: the parser asks for each with a `Lookup`, and whoever drives
//! it hands back what was `Found`.

use crate::cidr::{literal_hosts, parse_literal};
use crate::host::Host;
use crate::input::Opts;
use crate::text::texts_of;
use std::collections::VecDeque;
use vstd::prelude::*;

verus! {

/// The port that goes with a name when the system resolver is asked.
pub const LOOKUP_PORT: u16 = 80;

/// A question that the parser cannot answer by itself.
#[derive(Clone, Debug)]
pub enum Lookup {
    /// Which addresses does the system resolver give for this name and port?
    /// Only the first counts.
    Socket { name: String, port: u16 },
    /// Which addresses does the domain name system give for this name?
    /// Only the first counts.
    Dns { name: String },
    /// Which lines does the file at this path hold, if it is a file?
    File { path: String },
}

/// The answer to a `Lookup`.
#[derive(Clone, Debug)]
pub enum Found {
    /// The lookup failed, or the path is no file that can be read.
    Nothing,
    /// The addresses of a name.
    Hosts(Vec<Host>),
    /// The lines of a file.
    Lines(Vec<String>),
}

/// A `Lookup` as a plain value.
pub enum Question {
    Socket { name: Seq<char>, port: u16 },
    Dns { name: Seq<char> },
    File { path: Seq<char> },
}

/// A `Found` as a plain value.
pub enum Answer {
    Nothing,
    Hosts(Seq<Host>),
    Lines(Seq<Seq<char>>),
}

/// One piece of work that is left. `listed` tells an entry that was read
/// from a file from one of the options.
pub enum Step {
    /// A text that was not looked at yet.
    Name { text: Seq<char>, listed: bool },
    /// A name that is put to the system resolver.
    Socket { text: Seq<char>, listed: bool },
    /// A name that is put to the domain name system.
    Dns { text: Seq<char>, listed: bool },
    /// A path whose lines are wanted.
    File { path: Seq<char> },
}

/// Whether a step asks for a file or may come to do so: 1 if so, else 0.
pub open spec fn files_in(step: Step) -> nat {
    match step {
        Step::Name { listed, .. } | Step::Socket { listed, .. } | Step::Dns { listed, .. } => if listed {
            0
        } else {
            1
        },
        Step::File { .. } => 1,
    }
}

/// The number of looks and lookups that a step may still take before it is
/// done or asks for a file.
pub open spec fn lookups_in(step: Step) -> nat {
    match step {
        Step::Name { .. } => 3,
        Step::Socket { .. } => 2,
        Step::Dns { .. } => 1,
        Step::File { .. } => 0,
    }
}

/// The weights of some steps taken together.
pub open spec fn summed(queue: Seq<Step>, weight: spec_fn(Step) -> nat) -> nat
    decreases queue.len(),
{
    if queue.len() == 0 {
        0
    } else {
        weight(queue[0]) + summed(queue.drop_first(), weight)
    }
}

/// The work that a list of texts brings.
pub open spec fn names_of(texts: Seq<Seq<char>>, listed: bool) -> Seq<Step> {
    texts.map_values(|text: Seq<char>| Step::Name { text, listed })
}

impl View for Lookup {
    type V = Question;

    open spec fn view(&self) -> Question {
        match self {
            Lookup::Socket { name, port } => Question::Socket { name: name@, port: *port },
            Lookup::Dns { name } => Question::Dns { name: name@ },
            Lookup::File { path } => Question::File { path: path@ },
        }
    }
}

impl View for Found {
    type V = Answer;

    open spec fn view(&self) -> Answer {
        match self {
            Found::Nothing => Answer::Nothing,
            Found::Hosts(hosts) => Answer::Hosts(hosts@),
            Found::Lines(lines) => Answer::Lines(texts_of(lines@)),
        }
    }
}

/// How far the search for the hosts has come.
pub struct Resolution {
    /// The hosts found so far, in the order in which they were found.
    pub hosts: Seq<Host>,
    /// The work that is left; its first step is the one in hand.
    pub queue: Seq<Step>,
    /// The entries of the options that turned out to be nothing at all.
    pub dropped: Seq<Seq<char>>,
}

impl Resolution {
    /// Nothing is left that can be done without a question: the step in
    /// hand, if there is one, is a question.
    pub open spec fn is_settled(self) -> bool {
        self.queue.len() > 0 ==> !(self.queue[0] is Name)
    }

    /// Everything is done.
    pub open spec fn is_done(self) -> bool {
        self.queue.len() == 0
    }

    /// Works off the texts at the head of the queue as far as they can be
    /// read as addresses or blocks. The first text that cannot becomes a
    /// question to the system resolver.
    pub open spec fn settled(self) -> Resolution
        decreases self.queue.len(),
    {
        if self.queue.len() == 0 {
            self
        } else {
            match self.queue[0] {
                Step::Name { text, listed } => match literal_hosts(text) {
                    Some(hosts) => Resolution {
                        hosts: self.hosts + hosts,
                        queue: self.queue.drop_first(),
                        dropped: self.dropped,
                    }.settled(),
                    None => Resolution {
                        hosts: self.hosts,
                        queue: self.queue.update(0, Step::Socket { text, listed }),
                        dropped: self.dropped,
                    },
                },
                _ => self,
            }
        }
    }

    /// The search after one question after the other was answered.
    #[verifier::opaque]
    pub open spec fn after(self, answers: Seq<Answer>) -> Resolution
        decreases answers.len(),
    {
        if answers.len() == 0 {
            self
        } else {
            self.after(answers.drop_last()).answered(answers.last())
        }
    }

    /// The number of steps that ask for a file or may come to do so.
    pub open spec fn files_left(self) -> nat {
        summed(self.queue, |step: Step| files_in(step))
    }

    /// The number of looks and lookups that the steps may still take, those
    /// for the lines of files that were not read yet left aside.
    pub open spec fn lookups_left(self) -> nat {
        summed(self.queue, |step: Step| lookups_in(step))
    }

    /// Where the search starts for these entries of the options.
    pub open spec fn start(addresses: Seq<Seq<char>>) -> Resolution {
        Resolution {
            hosts: Seq::empty(),
            queue: names_of(addresses, false),
            dropped: Seq::empty(),
        }.settled()
    }

    /// The question in hand.
    pub open spec fn question(self) -> Option<Question> {
        if self.queue.len() == 0 {
            None
        } else {
            match self.queue[0] {
                Step::Name { .. } => None,
                Step::Socket { text, .. } => Some(Question::Socket { name: text, port: LOOKUP_PORT }),
                Step::Dns { text, .. } => Some(Question::Dns { name: text }),
                Step::File { path } => Some(Question::File { path }),
            }
        }
    }

    /// The search after the question in hand was answered.
    ///
    /// - The first address from the system resolver is a host. Without one,
    ///   the name goes to the domain name system.
    /// - The first address from the domain name system is a host. Without
    ///   one, an entry of the options is kept as the path of a file, to be
    ///   read when all other entries are done; an entry of a file is given up.
    /// - The lines of a file are worked off one by one, before the files that
    ///   wait behind it. A path that is no file is dropped.
    pub open spec fn answered(self, answer: Answer) -> Resolution {
        if self.queue.len() == 0 {
            self
        } else {
            let rest = self.queue.drop_first();
            match self.queue[0] {
                Step::Name { .. } => self.settled(),
                Step::Socket { text, listed } => match answer {
                    Answer::Hosts(found) if found.len() > 0 => Resolution {
                        hosts: self.hosts.push(found[0]),
                        queue: rest,
                        dropped: self.dropped,
                    }.settled(),
                    _ => Resolution {
                        hosts: self.hosts,
                        queue: self.queue.update(0, Step::Dns { text, listed }),
                        dropped: self.dropped,
                    },
                },
                Step::Dns { text, listed } => match answer {
                    Answer::Hosts(found) if found.len() > 0 => Resolution {
                        hosts: self.hosts.push(found[0]),
                        queue: rest,
                        dropped: self.dropped,
                    }.settled(),
                    _ => Resolution {
                        hosts: self.hosts,
                        queue: if listed {
                            rest
                        } else {
                            rest.push(Step::File { path: text })
                        },
                        dropped: self.dropped,
                    }.settled(),
                },
                Step::File { path } => match answer {
                    Answer::Lines(lines) => Resolution {
                        hosts: self.hosts,
                        queue: names_of(lines, true) + rest,
                        dropped: self.dropped,
                    }.settled(),
                    _ => Resolution {
                        hosts: self.hosts,
                        queue: rest,
                        dropped: self.dropped.push(path),
                    }.settled(),
                },
            }
        }
    }
}

/// The weight of two rows of steps is that of the one and that of the other.
proof fn lemma_summed_add(first: Seq<Step>, second: Seq<Step>, weight: spec_fn(Step) -> nat)
    ensures
        summed(first + second, weight) == summed(first, weight) + summed(second, weight),
    decreases first.len(),
{
    if first.len() > 0 {
        assert((first + second).drop_first() =~= first.drop_first() + second);
        lemma_summed_add(first.drop_first(), second, weight);
    }
}

/// The weight of one step alone.
proof fn lemma_summed_one(step: Step, weight: spec_fn(Step) -> nat)
    ensures
        summed(seq![step], weight) == weight(step),
{
    assert(summed(seq![step].drop_first(), weight) == 0);
}

/// The lines of a file never ask for a file.
proof fn lemma_lines_ask_for_no_file(lines: Seq<Seq<char>>)
    ensures
        summed(names_of(lines, true), |step: Step| files_in(step)) == 0,
    decreases lines.len(),
{
    if lines.len() > 0 {
        assert(names_of(lines, true).drop_first() =~= names_of(lines.drop_first(), true));
        lemma_lines_ask_for_no_file(lines.drop_first());
    }
}

/// Settling keeps the hosts that were found and what was dropped, ends with
/// a question in hand or with nothing left, and adds no work.
pub proof fn lemma_settled(resolution: Resolution)
    ensures
        resolution.settled().is_settled(),
        resolution.hosts.is_prefix_of(resolution.settled().hosts),
        resolution.settled().dropped == resolution.dropped,
        resolution.is_settled() ==> resolution.settled() == resolution,
        resolution.settled().files_left() <= resolution.files_left(),
        resolution.settled().lookups_left() <= resolution.lookups_left(),
    decreases resolution.queue.len(),
{
    if resolution.queue.len() > 0 {
        match resolution.queue[0] {
            Step::Name { text, listed } => match literal_hosts(text) {
                Some(hosts) => {
                    let next = Resolution {
                        hosts: resolution.hosts + hosts,
                        queue: resolution.queue.drop_first(),
                        dropped: resolution.dropped,
                    };
                    lemma_settled(next);
                },
                None => {
                    assert(resolution.queue.update(0, Step::Socket { text, listed }).drop_first()
                        =~= resolution.queue.drop_first());
                },
            },
            _ => {},
        }
    }
}

/// After every answer a question is in hand or nothing is left, no host that
/// was found is lost or moved, and the search has come closer to its end:
/// fewer steps may ask for a file, or as many and fewer lookups are left.
pub proof fn lemma_answered(resolution: Resolution, answer: Answer)
    ensures
        resolution.answered(answer).is_settled(),
        resolution.hosts.is_prefix_of(resolution.answered(answer).hosts),
        resolution.dropped.is_prefix_of(resolution.answered(answer).dropped),
        resolution.answered(answer).files_left() <= resolution.files_left(),
        !resolution.is_done() ==> resolution.answered(answer).files_left()
            < resolution.files_left() || resolution.answered(answer).lookups_left()
            < resolution.lookups_left(),
{
    let files = |step: Step| files_in(step);
    let lookups = |step: Step| lookups_in(step);
    if resolution.queue.len() > 0 {
        let rest = resolution.queue.drop_first();
        match resolution.queue[0] {
            Step::Name { text, listed } => {
                lemma_settled(resolution);
                match literal_hosts(text) {
                    Some(hosts) => {
                        lemma_settled(
                            Resolution {
                                hosts: resolution.hosts + hosts,
                                queue: rest,
                                dropped: resolution.dropped,
                            },
                        );
                    },
                    None => {
                        assert(resolution.queue.update(0, Step::Socket { text, listed }).drop_first()
                            =~= rest);
                    },
                }
            },
            Step::Socket { text, listed } => match answer {
                Answer::Hosts(found) if found.len() > 0 => {
                    let next = Resolution {
                        hosts: resolution.hosts.push(found[0]),
                        queue: rest,
                        dropped: resolution.dropped,
                    };
                    lemma_settled(next);
                },
                _ => {
                    assert(resolution.queue.update(0, Step::Dns { text, listed }).drop_first()
                        =~= rest);
                },
            },
            Step::Dns { text, listed } => match answer {
                Answer::Hosts(found) if found.len() > 0 => {
                    let next = Resolution {
                        hosts: resolution.hosts.push(found[0]),
                        queue: rest,
                        dropped: resolution.dropped,
                    };
                    lemma_settled(next);
                },
                _ => {
                    let file = Step::File { path: text };
                    assert(rest.push(file) =~= rest + seq![file]);
                    lemma_summed_add(rest, seq![file], files);
                    lemma_summed_add(rest, seq![file], lookups);
                    lemma_summed_one(file, files);
                    lemma_summed_one(file, lookups);
                    lemma_settled(
                        Resolution {
                            hosts: resolution.hosts,
                            queue: if listed {
                                rest
                            } else {
                                rest.push(file)
                            },
                            dropped: resolution.dropped,
                        },
                    );
                },
            },
            Step::File { path } => match answer {
                Answer::Lines(lines) => {
                    lemma_lines_ask_for_no_file(lines);
                    lemma_summed_add(names_of(lines, true), rest, files);
                    lemma_settled(
                        Resolution {
                            hosts: resolution.hosts,
                            queue: names_of(lines, true) + rest,
                            dropped: resolution.dropped,
                        },
                    );
                },
                _ => {
                    let next = Resolution {
                        hosts: resolution.hosts,
                        queue: rest,
                        dropped: resolution.dropped.push(path),
                    };
                    lemma_settled(next);
                },
            },
        }
    }
}

/// Where a question is in hand or nothing is left, the search is over exactly
/// when there is no question.
pub proof fn lemma_question(resolution: Resolution)
    requires
        resolution.is_settled(),
    ensures
        resolution.question() is None <==> resolution.is_done(),
{
}

/// Whether `look_up` may have answered `answer` when it was asked
/// `question`.
pub open spec fn lookup_gave<F: Fn(Lookup) -> Found>(
    look_up: F,
    question: Question,
    answer: Answer,
) -> bool {
    exists|lookup: Lookup, found: Found|
        lookup@ == question && found@ == answer && call_ensures(look_up, (lookup,), found)
}

/// Whether `answers` are what `look_up` may have answered, one after the
/// other, to the questions of the search that begins at `start`: each of them
/// answers the question that was in hand, and none was given after the end.
pub open spec fn answers_of<F: Fn(Lookup) -> Found>(
    look_up: F,
    start: Resolution,
    answers: Seq<Answer>,
) -> bool {
    forall|k: int| 0 <= k < answers.len() ==> answer_of(look_up, start, answers, k)
}

/// Whether the answer at place `k` is one that `look_up` may have given to
/// the question in hand after the answers before it.
pub open spec fn answer_of<F: Fn(Lookup) -> Found>(
    look_up: F,
    start: Resolution,
    answers: Seq<Answer>,
    k: int,
) -> bool {
    let asked = start.after(answers.take(k));
    &&& !asked.is_done()
    &&& asked.question() is Some
    &&& lookup_gave(look_up, asked.question().unwrap(), answers[k])
}

/// Answering one question more is one step more of the search.
pub proof fn lemma_after(start: Resolution, answers: Seq<Answer>, answer: Answer)
    ensures
        start.after(Seq::empty()) == start,
        start.after(answers.push(answer)) == start.after(answers).answered(answer),
{
    reveal_with_fuel(Resolution::after, 2);
    assert(answers.push(answer).drop_last() =~= answers);
}

/// A row of answers stays one when the answer to the question in hand is put
/// at its end.
proof fn lemma_answers_grow<F: Fn(Lookup) -> Found>(
    look_up: F,
    start: Resolution,
    answers: Seq<Answer>,
    answer: Answer,
)
    requires
        answers_of(look_up, start, answers),
        !start.after(answers).is_done(),
        start.after(answers).question() is Some,
        lookup_gave(look_up, start.after(answers).question().unwrap(), answer),
    ensures
        answers_of(look_up, start, answers.push(answer)),
        start.after(answers.push(answer)) == start.after(answers).answered(answer),
{
    let longer = answers.push(answer);
    lemma_after(start, answers, answer);
    assert forall|k: int| 0 <= k < longer.len() implies answer_of(look_up, start, longer, k) by {
        if k < answers.len() {
            assert(answer_of(look_up, start, answers, k));
            assert(longer.take(k) =~= answers.take(k));
        } else {
            assert(longer.take(k) =~= answers);
        }
    }
}

/// The search after two rows of answers, one after the other, is the search
/// after the two rows put together.
pub proof fn lemma_after_add(start: Resolution, first: Seq<Answer>, second: Seq<Answer>)
    ensures
        start.after(first + second) == start.after(first).after(second),
    decreases second.len(),
{
    if second.len() == 0 {
        lemma_after(start.after(first), second, Answer::Nothing);
        assert(second =~= Seq::<Answer>::empty());
    } else {
        let earlier = second.drop_last();
        lemma_after_add(start, first, earlier);
        lemma_after(start, first + earlier, second.last());
        lemma_after(start.after(first), earlier, second.last());
        assert((first + earlier).push(second.last()) =~= first + second);
        assert(earlier.push(second.last()) =~= second);
    }
}

/// What the system, the network and the disk answer, as far as the search
/// depends on it.
pub struct World {
    /// The address that the system resolver gives first for a name, if it
    /// gives any.
    pub socket: spec_fn(Seq<char>) -> Option<Host>,
    /// The address that the domain name system gives first for a name, if it
    /// gives any.
    pub dns: spec_fn(Seq<char>) -> Option<Host>,
    /// The lines of the file at a path, if there is a file.
    pub files: spec_fn(Seq<char>) -> Option<Seq<Seq<char>>>,
}

/// The hosts that one text brings, be it an entry of the options or a line
/// of a file: those of the block or address that it is, else the address of
/// the name that it is, else none.
pub open spec fn text_hosts(text: Seq<char>, world: World) -> Seq<Host> {
    match literal_hosts(text) {
        Some(hosts) => hosts,
        None => match (world.socket)(text) {
            Some(host) => seq![host],
            None => match (world.dns)(text) {
                Some(host) => seq![host],
                None => Seq::empty(),
            },
        },
    }
}

/// The hosts that some texts bring, text after text.
pub open spec fn texts_hosts(texts: Seq<Seq<char>>, world: World) -> Seq<Host>
    decreases texts.len(),
{
    if texts.len() == 0 {
        Seq::empty()
    } else {
        text_hosts(texts[0], world) + texts_hosts(texts.drop_first(), world)
    }
}

/// The number of questions that one text takes.
pub open spec fn text_questions(text: Seq<char>, world: World) -> nat {
    if literal_hosts(text) is Some {
        0
    } else if (world.socket)(text) is Some {
        1
    } else {
        2
    }
}

/// The number of questions that some texts take.
pub open spec fn texts_questions(texts: Seq<Seq<char>>, world: World) -> nat
    decreases texts.len(),
{
    if texts.len() == 0 {
        0
    } else {
        text_questions(texts[0], world) + texts_questions(texts.drop_first(), world)
    }
}

/// Whether a text is neither an address, nor a block, nor a name with an
/// address.
pub open spec fn is_no_host(text: Seq<char>, world: World) -> bool {
    literal_hosts(text) is None && (world.socket)(text) is None && (world.dns)(text) is None
}

/// Those of the texts that are no hosts, in their order: the entries of the
/// options that are left to be tried as files.
pub open spec fn waiting(texts: Seq<Seq<char>>, world: World) -> Seq<Seq<char>>
    decreases texts.len(),
{
    if texts.len() == 0 {
        Seq::empty()
    } else if is_no_host(texts[0], world) {
        seq![texts[0]] + waiting(texts.drop_first(), world)
    } else {
        waiting(texts.drop_first(), world)
    }
}

/// The steps that ask for the files at some paths.
pub open spec fn file_steps(paths: Seq<Seq<char>>) -> Seq<Step> {
    paths.map_values(|path: Seq<char>| Step::File { path })
}

/// The hosts that the files at some paths bring, file after file, each with
/// the hosts of its lines; a path without a file brings none.
pub open spec fn files_hosts(paths: Seq<Seq<char>>, world: World) -> Seq<Host>
    decreases paths.len(),
{
    if paths.len() == 0 {
        Seq::empty()
    } else {
        (match (world.files)(paths[0]) {
            Some(lines) => texts_hosts(lines, world),
            None => Seq::empty(),
        }) + files_hosts(paths.drop_first(), world)
    }
}

/// The number of questions that the files at some paths take: one for each
/// path, and those for the lines of each file.
pub open spec fn files_questions(paths: Seq<Seq<char>>, world: World) -> nat
    decreases paths.len(),
{
    if paths.len() == 0 {
        0
    } else {
        1 + (match (world.files)(paths[0]) {
            Some(lines) => texts_questions(lines, world),
            None => 0,
        }) + files_questions(paths.drop_first(), world)
    }
}

/// Those of the paths at which there is no file, in their order.
pub open spec fn no_files(paths: Seq<Seq<char>>, world: World) -> Seq<Seq<char>>
    decreases paths.len(),
{
    if paths.len() == 0 {
        Seq::empty()
    } else if (world.files)(paths[0]) is None {
        seq![paths[0]] + no_files(paths.drop_first(), world)
    } else {
        no_files(paths.drop_first(), world)
    }
}

/// The first address of an answer, if it holds one.
pub open spec fn first_host(answer: Answer) -> Option<Host> {
    match answer {
        Answer::Hosts(found) if found.len() > 0 => Some(found[0]),
        _ => None,
    }
}

/// The lines of an answer, if it holds lines.
pub open spec fn lines_of(answer: Answer) -> Option<Seq<Seq<char>>> {
    match answer {
        Answer::Lines(lines) => Some(lines),
        _ => None,
    }
}

/// Whether the answer at place `k` is the one that the world gives to the
/// question in hand.
pub open spec fn world_answer(start: Resolution, answers: Seq<Answer>, k: int, world: World) -> bool {
    match start.after(answers.take(k)).question() {
        Some(Question::Socket { name, .. }) => first_host(answers[k]) == (world.socket)(name),
        Some(Question::Dns { name }) => first_host(answers[k]) == (world.dns)(name),
        Some(Question::File { path }) => lines_of(answers[k]) == (world.files)(path),
        None => true,
    }
}

/// Whether the answers are those that the world gives, one after the other,
/// to the questions of the search that begins at `start`.
pub open spec fn world_answers(start: Resolution, answers: Seq<Answer>, world: World) -> bool {
    forall|k: int| 0 <= k < answers.len() ==> #[trigger] world_answer(start, answers, k, world)
}

/// Answers of the world stay so when the first of them are taken as given,
/// and when the last of them are left away.
proof fn lemma_world_answers_split(start: Resolution, answers: Seq<Answer>, n: int, world: World)
    requires
        0 <= n <= answers.len(),
        world_answers(start, answers, world),
    ensures
        world_answers(start, answers.take(n), world),
        world_answers(start.after(answers.take(n)), answers.skip(n), world),
        start.after(answers) == start.after(answers.take(n)).after(answers.skip(n)),
{
    let first = answers.take(n);
    let later = answers.skip(n);
    assert(first + later =~= answers);
    lemma_after_add(start, first, later);
    assert forall|k: int| 0 <= k < first.len() implies #[trigger] world_answer(
        start,
        first,
        k,
        world,
    ) by {
        assert(first.take(k) =~= answers.take(k));
        assert(world_answer(start, answers, k, world));
    }
    assert forall|k: int| 0 <= k < later.len() implies #[trigger] world_answer(
        start.after(first),
        later,
        k,
        world,
    ) by {
        assert(first + later.take(k) =~= answers.take(n + k));
        lemma_after_add(start, first, later.take(k));
        assert(world_answer(start, answers, n + k, world));
    }
}

/// The steps that are left of some texts when the questions for them are
/// answered: none of the lines of a file, and of the entries of the options
/// those that are to be tried as files.
pub open spec fn left_of(texts: Seq<Seq<char>>, listed: bool, world: World) -> Seq<Step> {
    if listed {
        Seq::empty()
    } else {
        file_steps(waiting(texts, world))
    }
}

/// Texts at the head of the work bring their hosts in their order: a text
/// that is an address or a block brings its addresses, a name with an
/// address brings that address, and any other text brings nothing. Here
/// `before` is the search with the texts in front of the work `rest`, before
/// anything of them was looked at. When the questions for the texts are
/// answered, `rest` goes on, and behind it wait the entries of the options
/// that brought nothing.
pub proof fn lemma_hosts_of_texts(
    before: Resolution,
    texts: Seq<Seq<char>>,
    listed: bool,
    rest: Seq<Step>,
    answers: Seq<Answer>,
    world: World,
)
    requires
        before.queue == names_of(texts, listed) + rest,
        answers.len() == texts_questions(texts, world),
        world_answers(before.settled(), answers, world),
    ensures
        before.settled().after(answers) == (Resolution {
            hosts: before.hosts + texts_hosts(texts, world),
            queue: rest + left_of(texts, listed, world),
            dropped: before.dropped,
        }).settled(),
    decreases texts.len(),
{
    let start = before.settled();
    let none = Seq::<Answer>::empty();
    if texts.len() == 0 {
        lemma_after(start, none, Answer::Nothing);
        assert(answers =~= none);
        assert(before.queue =~= rest + left_of(texts, listed, world));
        assert(before.hosts + texts_hosts(texts, world) =~= before.hosts);
    } else {
        let text = texts[0];
        let tail = texts.drop_first();
        let left = names_of(tail, listed) + rest;
        assert(before.queue[0] == Step::Name { text, listed });
        assert(before.queue.drop_first() =~= left);
        match literal_hosts(text) {
            Some(hosts) => {
                let next = Resolution {
                    hosts: before.hosts + hosts,
                    queue: left,
                    dropped: before.dropped,
                };
                lemma_hosts_of_texts(next, tail, listed, rest, answers, world);
                assert(next.hosts + texts_hosts(tail, world) =~= before.hosts + texts_hosts(
                    texts,
                    world,
                ));
            },
            None => {
                let asked = Resolution {
                    hosts: before.hosts,
                    queue: before.queue.update(0, Step::Socket { text, listed }),
                    dropped: before.dropped,
                };
                assert(start == asked);
                assert(asked.queue.drop_first() =~= left);
                lemma_after(start, none, answers[0]);
                assert(answers.take(0) =~= none);
                assert(answers.take(1) =~= none.push(answers[0]));
                assert(world_answer(start, answers, 0, world));
                match (world.socket)(text) {
                    Some(host) => {
                        let next = Resolution {
                            hosts: before.hosts.push(host),
                            queue: left,
                            dropped: before.dropped,
                        };
                        assert(start.after(answers.take(1)) == next.settled());
                        lemma_world_answers_split(start, answers, 1, world);
                        lemma_hosts_of_texts(next, tail, listed, rest, answers.skip(1), world);
                        assert(next.hosts + texts_hosts(tail, world) =~= before.hosts
                            + texts_hosts(texts, world));
                    },
                    None => {
                        let again = Resolution {
                            hosts: before.hosts,
                            queue: asked.queue.update(0, Step::Dns { text, listed }),
                            dropped: before.dropped,
                        };
                        assert(start.after(answers.take(1)) == again);
                        assert(again.queue.drop_first() =~= left);
                        lemma_after(start, answers.take(1), answers[1]);
                        assert(answers.take(2) =~= answers.take(1).push(answers[1]));
                        assert(world_answer(start, answers, 1, world));
                        let waits = !listed && (world.dns)(text) is None;
                        let more = if waits {
                            rest.push(Step::File { path: text })
                        } else {
                            rest
                        };
                        let next = Resolution {
                            hosts: before.hosts + text_hosts(text, world),
                            queue: names_of(tail, listed) + more,
                            dropped: before.dropped,
                        };
                        assert(next.hosts =~= match (world.dns)(text) {
                            Some(host) => before.hosts.push(host),
                            None => before.hosts,
                        });
                        assert(next.queue =~= if waits {
                            left.push(Step::File { path: text })
                        } else {
                            left
                        });
                        assert(start.after(answers.take(2)) == next.settled());
                        lemma_world_answers_split(start, answers, 2, world);
                        lemma_hosts_of_texts(next, tail, listed, more, answers.skip(2), world);
                        assert(next.hosts + texts_hosts(tail, world) =~= before.hosts
                            + texts_hosts(texts, world));
                        assert(more + left_of(tail, listed, world) =~= rest + left_of(
                            texts,
                            listed,
                            world,
                        )) by {
                            if waits {
                                assert(file_steps(seq![text] + waiting(tail, world)) =~= seq![
                                    Step::File { path: text },
                                ] + file_steps(waiting(tail, world)));
                            }
                        }
                    },
                }
            },
        }
    }
}

/// The lines of a file bring the hosts of its lines, in the order of the
/// lines, and nothing of them is left. Here `before` is the search when the
/// lines were put in front of the work that was left, `rest`.
pub proof fn lemma_lines_of_a_file(
    before: Resolution,
    lines: Seq<Seq<char>>,
    rest: Seq<Step>,
    answers: Seq<Answer>,
    world: World,
)
    requires
        before.queue == names_of(lines, true) + rest,
        answers.len() == texts_questions(lines, world),
        world_answers(before.settled(), answers, world),
    ensures
        before.settled().after(answers) == (Resolution {
            hosts: before.hosts + texts_hosts(lines, world),
            queue: rest,
            dropped: before.dropped,
        }).settled(),
{
    lemma_hosts_of_texts(before, lines, true, rest, answers, world);
    assert(rest + left_of(lines, true, world) =~= rest);
}

/// The files at the paths that wait bring their hosts file after file, and
/// the paths without a file are dropped. Here `before` is the search when
/// nothing but these paths is left to be tried.
pub proof fn lemma_hosts_of_files(
    before: Resolution,
    paths: Seq<Seq<char>>,
    answers: Seq<Answer>,
    world: World,
)
    requires
        before.queue == file_steps(paths),
        answers.len() == files_questions(paths, world),
        world_answers(before, answers, world),
    ensures
        before.after(answers) == (Resolution {
            hosts: before.hosts + files_hosts(paths, world),
            queue: Seq::empty(),
            dropped: before.dropped + no_files(paths, world),
        }),
    decreases paths.len(),
{
    let none = Seq::<Answer>::empty();
    if paths.len() == 0 {
        lemma_after(before, none, Answer::Nothing);
        assert(answers =~= none);
        assert(before.queue =~= Seq::<Step>::empty());
        assert(before.hosts + files_hosts(paths, world) =~= before.hosts);
        assert(before.dropped + no_files(paths, world) =~= before.dropped);
    } else {
        let path = paths[0];
        let tail = paths.drop_first();
        let rest = file_steps(tail);
        assert(before.queue[0] == Step::File { path });
        assert(before.queue.drop_first() =~= rest);
        lemma_after(before, none, answers[0]);
        assert(answers.take(0) =~= none);
        assert(answers.take(1) =~= none.push(answers[0]));
        assert(world_answer(before, answers, 0, world));
        lemma_world_answers_split(before, answers, 1, world);
        let later = answers.skip(1);
        match (world.files)(path) {
            Some(lines) => {
                let read = Resolution {
                    hosts: before.hosts,
                    queue: names_of(lines, true) + rest,
                    dropped: before.dropped,
                };
                assert(before.after(answers.take(1)) == read.settled());
                let n = texts_questions(lines, world) as int;
                lemma_world_answers_split(read.settled(), later, n, world);
                lemma_lines_of_a_file(read, lines, rest, later.take(n), world);
                let next = Resolution {
                    hosts: before.hosts + texts_hosts(lines, world),
                    queue: rest,
                    dropped: before.dropped,
                };
                lemma_settled(next);
                if rest.len() > 0 {
                    assert(rest[0] == Step::File { path: tail[0] });
                }
                assert(next.settled() == next);
                lemma_hosts_of_files(next, tail, later.skip(n), world);
                assert(next.hosts + files_hosts(tail, world) =~= before.hosts + files_hosts(
                    paths,
                    world,
                ));
            },
            None => {
                let next = Resolution {
                    hosts: before.hosts,
                    queue: rest,
                    dropped: before.dropped.push(path),
                };
                lemma_settled(next);
                if rest.len() > 0 {
                    assert(rest[0] == Step::File { path: tail[0] });
                }
                assert(before.after(answers.take(1)) == next);
                lemma_hosts_of_files(next, tail, later, world);
                assert(next.hosts + files_hosts(tail, world) =~= before.hosts + files_hosts(
                    paths,
                    world,
                ));
                assert(next.dropped + no_files(tail, world) =~= before.dropped + no_files(
                    paths,
                    world,
                ));
            },
        }
    }
}

/// The hosts that the entries of the options bring: first those of the
/// entries that are addresses, blocks or names, entry after entry; then those
/// of the files that the other entries name, file after file, each with the
/// hosts of its lines. The entries that are nothing of all this are dropped.
pub proof fn lemma_hosts_of_the_entries(entries: Seq<Seq<char>>, answers: Seq<Answer>, world: World)
    requires
        answers.len() == texts_questions(entries, world) + files_questions(
            waiting(entries, world),
            world,
        ),
        world_answers(Resolution::start(entries), answers, world),
    ensures
        Resolution::start(entries).after(answers) == (Resolution {
            hosts: texts_hosts(entries, world) + files_hosts(waiting(entries, world), world),
            queue: Seq::empty(),
            dropped: no_files(waiting(entries, world), world),
        }),
{
    let before = Resolution {
        hosts: Seq::empty(),
        queue: names_of(entries, false),
        dropped: Seq::empty(),
    };
    let start = Resolution::start(entries);
    let paths = waiting(entries, world);
    let n = texts_questions(entries, world) as int;
    assert(before.queue =~= names_of(entries, false) + Seq::<Step>::empty());
    lemma_world_answers_split(start, answers, n, world);
    lemma_hosts_of_texts(before, entries, false, Seq::empty(), answers.take(n), world);
    let waits = Resolution {
        hosts: texts_hosts(entries, world),
        queue: file_steps(paths),
        dropped: Seq::empty(),
    };
    assert(waits.hosts =~= before.hosts + texts_hosts(entries, world));
    assert(waits.queue =~= Seq::<Step>::empty() + left_of(entries, false, world));
    lemma_settled(waits);
    if paths.len() > 0 {
        assert(waits.queue[0] == Step::File { path: paths[0] });
    }
    assert(start.after(answers.take(n)) == waits);
    lemma_hosts_of_files(waits, paths, answers.skip(n), world);
    assert(waits.dropped + no_files(paths, world) =~= no_files(paths, world));
}

/// Entries that are all addresses or blocks bring their addresses in their
/// order, and no question is asked.
pub proof fn lemma_literal_entries(entries: Seq<Seq<char>>, world: World)
    requires
        forall|i: int| 0 <= i < entries.len() ==> literal_hosts(#[trigger] entries[i]) is Some,
    ensures
        Resolution::start(entries).is_done(),
        Resolution::start(entries).hosts == texts_hosts(entries, world),
        Resolution::start(entries).dropped == Seq::<Seq<char>>::empty(),
{
    lemma_no_questions(entries, world);
    let none = Seq::<Answer>::empty();
    lemma_after(Resolution::start(entries), none, Answer::Nothing);
    lemma_hosts_of_the_entries(entries, none, world);
    assert(texts_hosts(entries, world) + files_hosts(Seq::empty(), world) =~= texts_hosts(
        entries,
        world,
    ));
}

/// One entry that is an address or a block brings the addresses of its
/// block and nothing else, and no question is asked.
pub proof fn lemma_one_literal_entry(entry: Seq<char>)
    requires
        literal_hosts(entry) is Some,
    ensures
        Resolution::start(seq![entry]).is_done(),
        Resolution::start(seq![entry]).hosts == literal_hosts(entry).unwrap(),
{
    let world = World {
        socket: |name: Seq<char>| None::<Host>,
        dns: |name: Seq<char>| None::<Host>,
        files: |path: Seq<char>| None::<Seq<Seq<char>>>,
    };
    let entries = seq![entry];
    lemma_literal_entries(entries, world);
    assert(entries.drop_first() =~= Seq::<Seq<char>>::empty());
    assert(texts_hosts(entries.drop_first(), world) =~= Seq::<Host>::empty());
    assert(texts_hosts(entries, world) =~= literal_hosts(entry).unwrap());
}

/// Texts that are all addresses or blocks take no question, and none of
/// them waits to be tried as a file.
proof fn lemma_no_questions(texts: Seq<Seq<char>>, world: World)
    requires
        forall|i: int| 0 <= i < texts.len() ==> literal_hosts(#[trigger] texts[i]) is Some,
    ensures
        texts_questions(texts, world) == 0,
        waiting(texts, world) == Seq::<Seq<char>>::empty(),
    decreases texts.len(),
{
    if texts.len() > 0 {
        let tail = texts.drop_first();
        assert(literal_hosts(texts[0]) is Some);
        assert forall|i: int| 0 <= i < tail.len() implies literal_hosts(#[trigger] tail[i])
            is Some by {
            assert(tail[i] == texts[i + 1]);
        }
        lemma_no_questions(tail, world);
    }
}

/// One piece of work, as the parser holds it.
#[derive(Clone, Debug)]
enum Task {
    Name { text: String, listed: bool },
    Socket { text: String, listed: bool },
    Dns { text: String, listed: bool },
    File { path: String },
}

impl View for Task {
    type V = Step;

    closed spec fn view(&self) -> Step {
        match self {
            Task::Name { text, listed } => Step::Name { text: text@, listed: *listed },
            Task::Socket { text, listed } => Step::Socket { text: text@, listed: *listed },
            Task::Dns { text, listed } => Step::Dns { text: text@, listed: *listed },
            Task::File { path } => Step::File { path: path@ },
        }
    }
}

/// The steps that some tasks stand for.
spec fn steps_of(tasks: Seq<Task>) -> Seq<Step> {
    tasks.map_values(|task: Task| task@)
}

/// The first of the addresses that were found, if any were.
fn first_of(found: Found) -> (first: Option<Host>)
    ensures
        first == match found@ {
            Answer::Hosts(hosts) if hosts.len() > 0 => Some(hosts[0]),
            _ => None,
        },
{
    match found {
        Found::Hosts(hosts) => if hosts.len() > 0 {
            Some(hosts[0])
        } else {
            None
        },
        _ => None,
    }
}

/// The hosts that were found and the work that is left, in any state.
#[derive(Debug)]
struct Work {
    hosts: Vec<Host>,
    queue: VecDeque<Task>,
    dropped: Vec<String>,
}

impl View for Work {
    type V = Resolution;

    closed spec fn view(&self) -> Resolution {
        Resolution {
            hosts: self.hosts@,
            queue: steps_of(self.queue@),
            dropped: texts_of(self.dropped@),
        }
    }
}

impl Work {
    /// No hosts and no work.
    fn empty() -> (work: Work)
        ensures
            work@ == (Resolution { hosts: Seq::empty(), queue: Seq::empty(), dropped: Seq::empty() }),
    {
        let work = Work { hosts: Vec::new(), queue: VecDeque::new(), dropped: Vec::new() };
        assert(work@.queue =~= Seq::empty() && work@.dropped =~= Seq::empty());
        work
    }

    /// The work that `addresses` bring, as far as it goes without a question.
    fn new(addresses: &Vec<String>) -> (parser: Work)
        ensures
            parser@ == Resolution::start(texts_of(addresses@)),
            parser@.is_settled(),
    {
        let mut queue: VecDeque<Task> = VecDeque::new();
        let mut i: usize = 0;
        while i < addresses.len()
            invariant
                i <= addresses.len(),
                steps_of(queue@) == names_of(texts_of(addresses@.take(i as int)), false),
            decreases addresses.len() - i,
        {
            let ghost done = queue@;
            let text = addresses[i].clone();
            queue.push_back(Task::Name { text, listed: false });
            i = i + 1;
            assert(steps_of(queue@) =~= names_of(texts_of(addresses@.take(i as int)), false)) by {
                let wanted = names_of(texts_of(addresses@.take(i as int)), false);
                assert(steps_of(done).len() == done.len());
                assert forall|j: int| 0 <= j < wanted.len() implies steps_of(queue@)[j]
                    == wanted[j] by {
                    if j < i - 1 {
                        assert(steps_of(queue@)[j] == steps_of(done)[j]);
                    }
                }
            }
        }
        assert(addresses@.take(i as int) =~= addresses@);
        let mut parser = Work { hosts: Vec::new(), queue, dropped: Vec::new() };
        assert(parser@.dropped =~= Seq::empty());
        parser.settle();
        parser
    }

    /// Works off what can be read without a question.
    fn settle(&mut self)
        ensures
            final(self)@ == old(self)@.settled(),
            final(self)@.is_settled(),
    {
        proof {
            lemma_settled(self@);
        }
        loop
            invariant
                self@.settled() == old(self)@.settled(),
            ensures
                self@ == old(self)@.settled(),
            decreases self.queue@.len(),
        {
            let ghost before = self@;
            match self.queue.pop_front() {
                None => {
                    break ;
                },
                Some(Task::Name { text, listed }) => {
                    match parse_literal(text.as_str()) {
                        Some(mut found) => {
                            self.hosts.append(&mut found);
                            assert(self@.queue =~= before.queue.drop_first());
                        },
                        None => {
                            self.queue.push_front(Task::Socket { text, listed });
                            assert(self@.queue =~= before.queue.update(
                                0,
                                Step::Socket { text: text@, listed },
                            ));
                            break ;
                        },
                    }
                },
                Some(other) => {
                    self.queue.push_front(other);
                    assert(self@.queue =~= before.queue);
                    break ;
                },
            }
        }
    }

    /// The question in hand, if there is one.
    fn pending(&self) -> (lookup: Option<Lookup>)
        ensures
            lookup is Some <==> self@.question() is Some,
            lookup matches Some(l) ==> self@.question() == Some(l@),
    {
        if self.queue.len() == 0 {
            return None;
        }
        match &self.queue[0] {
            Task::Name { .. } => None,
            Task::Socket { text, .. } => Some(Lookup::Socket { name: text.clone(), port: LOOKUP_PORT }),
            Task::Dns { text, .. } => Some(Lookup::Dns { name: text.clone() }),
            Task::File { path } => Some(Lookup::File { path: path.clone() }),
        }
    }

    /// Takes the answer to the question in hand and goes on to the next.
    fn answer(&mut self, found: Found)
        ensures
            final(self)@ == old(self)@.answered(found@),
            final(self)@.is_settled(),
    {
        proof {
            lemma_answered(self@, found@);
        }
        let ghost before = self@;
        match self.queue.pop_front() {
            None => {},
            Some(Task::Name { text, listed }) => {
                self.queue.push_front(Task::Name { text, listed });
                assert(self@.queue =~= before.queue);
                self.settle();
            },
            Some(Task::Socket { text, listed }) => {
                assert(self@.queue =~= before.queue.drop_first());
                match first_of(found) {
                    Some(host) => {
                        self.hosts.push(host);
                        self.settle();
                    },
                    None => {
                        self.queue.push_front(Task::Dns { text, listed });
                        assert(self@.queue =~= before.queue.update(
                            0,
                            Step::Dns { text: text@, listed },
                        ));
                    },
                }
            },
            Some(Task::Dns { text, listed }) => {
                assert(self@.queue =~= before.queue.drop_first());
                match first_of(found) {
                    Some(host) => {
                        self.hosts.push(host);
                    },
                    None => {
                        if !listed {
                            self.queue.push_back(Task::File { path: text });
                            assert(self@.queue =~= before.queue.drop_first().push(
                                Step::File { path: text@ },
                            ));
                        }
                    },
                }
                self.settle();
            },
            Some(Task::File { path }) => {
                assert(self@.queue =~= before.queue.drop_first());
                match found {
                    Found::Lines(lines) => {
                        self.put_lines(lines);
                    },
                    _ => {
                        self.dropped.push(path);
                        assert(self@.dropped =~= before.dropped.push(path@));
                    },
                }
                self.settle();
            },
        }
    }

    /// Puts the lines of a file in front of the work that is left.
    fn put_lines(&mut self, lines: Vec<String>)
        ensures
            final(self)@ == (Resolution {
                hosts: old(self)@.hosts,
                queue: names_of(texts_of(lines@), true) + old(self)@.queue,
                dropped: old(self)@.dropped,
            }),
    {
        let mut lines = lines;
        let ghost all = lines@;
        while lines.len() > 0
            invariant
                lines@.len() <= all.len(),
                lines@ == all.take(lines@.len() as int),
                self.hosts == old(self).hosts,
                self.dropped == old(self).dropped,
                steps_of(self.queue@) == names_of(
                    texts_of(all.skip(lines@.len() as int)),
                    true,
                ) + steps_of(old(self).queue@),
            decreases lines.len(),
        {
            let ghost queue_before = steps_of(self.queue@);
            let ghost left = lines@.len() as int;
            let line = lines.pop();
            match line {
                Some(text) => {
                    self.queue.push_front(Task::Name { text, listed: true });
                    assert(steps_of(self.queue@) =~= seq![Step::Name { text: text@, listed: true }]
                        + queue_before);
                    assert(names_of(texts_of(all.skip(left - 1)), true) =~= seq![
                        Step::Name { text: text@, listed: true },
                    ] + names_of(texts_of(all.skip(left)), true));
                    assert(steps_of(self.queue@) =~= names_of(
                        texts_of(all.skip(left - 1)),
                        true,
                    ) + steps_of(old(self).queue@));
                },
                None => {},
            }
        }
        assert(all.skip(0) =~= all);
    }
}

/// The search for the hosts that the options name. It stands with a question
/// in hand, or is over.
#[derive(Debug)]
pub struct AddressParser {
    work: Work,
}

impl View for AddressParser {
    type V = Resolution;

    closed spec fn view(&self) -> Resolution {
        self.work@
    }
}

impl AddressParser {
    #[verifier::type_invariant]
    spec fn inv(&self) -> bool {
        self@.is_settled()
    }

    /// Starts the search for the hosts that `addresses` name.
    pub fn new(addresses: &Vec<String>) -> (parser: AddressParser)
        ensures
            parser@ == Resolution::start(texts_of(addresses@)),
            parser@.is_settled(),
    {
        AddressParser { work: Work::new(addresses) }
    }

    /// The question in hand, or nothing when the search is over.
    pub fn pending(&self) -> (lookup: Option<Lookup>)
        ensures
            self@.is_settled(),
            lookup is None <==> self@.is_done(),
            lookup matches Some(l) ==> self@.question() == Some(l@),
    {
        proof {
            use_type_invariant(self);
            lemma_question(self@);
        }
        self.work.pending()
    }

    /// Takes the answer to the question in hand and goes on to the next.
    /// After the end of the search an answer changes nothing.
    pub fn answer(&mut self, found: Found)
        ensures
            final(self)@ == old(self)@.answered(found@),
            final(self)@.is_settled(),
    {
        let mut work = Work::empty();
        std::mem::swap(&mut self.work, &mut work);
        work.answer(found);
        std::mem::swap(&mut self.work, &mut work);
    }

    /// Brings the search to its end: puts one question after the other to
    /// `look_up` and takes each answer before the next question is asked.
    pub fn resolve<F: Fn(Lookup) -> Found>(self, look_up: F) -> (parser: AddressParser)
        requires
            forall|lookup: Lookup| call_requires(look_up, (lookup,)),
        ensures
            parser@.is_done(),
            exists|answers: Seq<Answer>|
                parser@ == #[trigger] self@.after(answers) && answers_of(look_up, self@, answers),
    {
        let mut parser = self;
        let ghost mut answers: Seq<Answer> = Seq::empty();
        proof {
            lemma_after(self@, answers, Answer::Nothing);
        }
        while !parser.is_done()
            invariant
                forall|lookup: Lookup| call_requires(look_up, (lookup,)),
                parser@ == self@.after(answers),
                answers_of(look_up, self@, answers),
            decreases parser@.files_left(), parser@.lookups_left(),
        {
            let ghost asked = parser@;
            let lookup = parser.pending().unwrap();
            let found = look_up(lookup);
            proof {
                assert(lookup_gave(look_up, asked.question().unwrap(), found@)) by {
                    assert(lookup@ == asked.question().unwrap() && call_ensures(
                        look_up,
                        (lookup,),
                        found,
                    ));
                }
                lemma_answered(asked, found@);
                lemma_answers_grow(look_up, self@, answers, found@);
                answers = answers.push(found@);
            }
            parser.answer(found);
        }
        parser
    }

    /// Whether the search is over.
    pub fn is_done(&self) -> (done: bool)
        ensures
            done == self@.is_done(),
    {
        self.work.queue.len() == 0
    }

    /// The hosts found so far, in the order in which they were found.
    pub fn hosts(&self) -> (hosts: &Vec<Host>)
        ensures
            hosts@ == self@.hosts,
    {
        &self.work.hosts
    }

    /// The entries of the options that were neither an address, nor a name
    /// with an address, nor a file.
    pub fn dropped(&self) -> (dropped: &Vec<String>)
        ensures
            texts_of(dropped@) == self@.dropped,
    {
        &self.work.dropped
    }

    /// Ends the search and hands out the hosts that were found.
    pub fn into_hosts(self) -> (hosts: Vec<Host>)
        ensures
            hosts@ == self@.hosts,
    {
        self.work.hosts
    }
}

/// Finds the hosts that the options name, with `look_up` to answer what
/// only the system, the network or the disk can tell.
pub fn parse_addresses<F: Fn(Lookup) -> Found>(input: &Opts, look_up: F) -> (hosts: Vec<Host>)
    requires
        forall|lookup: Lookup| call_requires(look_up, (lookup,)),
    ensures
        exists|answers: Seq<Answer>|
            {
                &&& answers_of(look_up, Resolution::start(texts_of(input.addresses@)), answers)
                &&& (#[trigger] Resolution::start(texts_of(input.addresses@)).after(
                    answers,
                )).is_done()
                &&& hosts@ == Resolution::start(texts_of(input.addresses@)).after(answers).hosts
            },
{
    let parser = AddressParser::new(&input.addresses).resolve(look_up);
    parser.into_hosts()
}

} // verus!
