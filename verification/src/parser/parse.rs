//! The command set and the compiler that resolves loop brackets to jump
//! targets in one pass over the source text.

use crate::parser::brackets::{
    boundary, lemma_close_of_open, lemma_never_closed, lemma_no_opener, lemma_open_of_close,
    lemma_pending_wf, lemma_top_matches, matching_close, matching_open, pending, pending_wf,
};
use crate::parser::error::{
    collect_chars, error_message_text, format_error_message, lemma_newlines_bound,
    newlines_before, ParseError, ParseErrors,
};
use vstd::prelude::*;

verus! {

/// One executable command. A jump carries the index, within the command
/// sequence, of the jump it is paired with.
#[derive(Debug, PartialEq, Eq, Structural, Clone, Copy)]
pub enum BFCommand {
    DataPtrIncrement,
    DataPtrDecrement,
    Increment,
    Decrement,
    OutputByte,
    InputByte,
    ForwardGoto(usize),
    BackwardGoto(usize),
}

/// Whether `c` is one of the eight characters that compile to a command.
pub open spec fn is_command(c: char) -> bool {
    c == '>' || c == '<' || c == '+' || c == '-' || c == '.' || c == ',' || c == '[' || c == ']'
}

/// How many command characters stand before position `pos`: the index, in
/// the command sequence, of a command at `pos`.
pub open spec fn commands_before(src: Seq<char>, pos: int) -> nat
    decreases pos,
{
    if pos <= 0 {
        0
    } else {
        commands_before(src, pos - 1) + if is_command(src[pos - 1]) {
            1nat
        } else {
            0nat
        }
    }
}

/// The command that the character at `pos` compiles to, if any. A bracket
/// becomes a jump to the index of the bracket it matches.
pub open spec fn command_at(src: Seq<char>, pos: int) -> Option<BFCommand> {
    let c = src[pos];
    if c == '>' {
        Some(BFCommand::DataPtrIncrement)
    } else if c == '<' {
        Some(BFCommand::DataPtrDecrement)
    } else if c == '+' {
        Some(BFCommand::Increment)
    } else if c == '-' {
        Some(BFCommand::Decrement)
    } else if c == '.' {
        Some(BFCommand::OutputByte)
    } else if c == ',' {
        Some(BFCommand::InputByte)
    } else if c == '[' {
        Some(BFCommand::ForwardGoto(commands_before(src, matching_close(src, pos)) as usize))
    } else if c == ']' {
        Some(BFCommand::BackwardGoto(commands_before(src, matching_open(src, pos)) as usize))
    } else {
        None
    }
}

/// The commands of the first `n` characters, in source order.
pub open spec fn compiled_prefix(src: Seq<char>, n: int) -> Seq<BFCommand>
    decreases n,
{
    if n <= 0 {
        Seq::empty()
    } else {
        match command_at(src, n - 1) {
            Some(command) => compiled_prefix(src, n - 1).push(command),
            None => compiled_prefix(src, n - 1),
        }
    }
}

/// The command sequence of a whole source text.
pub open spec fn compiled(src: Seq<char>) -> Seq<BFCommand> {
    compiled_prefix(src, src.len() as int)
}

/// A `]` at `pos` that no `[` opens.
pub open spec fn is_unmatched_close(src: Seq<char>, pos: int) -> bool {
    src[pos] == ']' && matching_open(src, pos) < 0
}

/// A `[` at `pos` that no `]` closes.
pub open spec fn is_unmatched_open(src: Seq<char>, pos: int) -> bool {
    src[pos] == '[' && matching_close(src, pos) >= src.len()
}

/// What is wrong with an empty text.
pub open spec fn empty_input_text() -> Seq<char> {
    "Empty input"@
}

/// What is wrong with a `]` that nothing opens.
pub open spec fn unopened_text() -> Seq<char> {
    "Found a closing ']' without an opening '['"@
}

/// What is wrong with a `[` that nothing closes.
pub open spec fn unclosed_text() -> Seq<char> {
    "Found an opening '[' without a closing ']'"@
}

/// The rendered message for an error at position `pos`: anchored at the
/// line and the column of that position.
pub open spec fn diagnostic(src: Seq<char>, pos: int, what: Seq<char>) -> Seq<char> {
    error_message_text(src, newlines_before(src, pos) + 1, pos, what)
}

/// One message for each unmatched `]` among the first `n` characters, in
/// source order.
pub open spec fn close_errors(src: Seq<char>, n: int) -> Seq<Seq<char>>
    decreases n,
{
    if n <= 0 {
        Seq::empty()
    } else if is_unmatched_close(src, n - 1) {
        close_errors(src, n - 1).push(diagnostic(src, n - 1, unopened_text()))
    } else {
        close_errors(src, n - 1)
    }
}

/// One message for each unmatched `[` at or after position `from`, the last
/// of them first.
pub open spec fn open_errors(src: Seq<char>, from: int) -> Seq<Seq<char>>
    decreases src.len() - from,
{
    if from >= src.len() {
        Seq::empty()
    } else if is_unmatched_open(src, from) {
        open_errors(src, from + 1).push(diagnostic(src, from, unclosed_text()))
    } else {
        open_errors(src, from + 1)
    }
}

/// Every structural error of a source text: an empty text is one; else
/// each unmatched `]` in source order, then each unmatched `[` from the
/// innermost to the outermost.
pub open spec fn structural_errors(src: Seq<char>) -> Seq<Seq<char>> {
    if src.len() == 0 {
        seq![empty_input_text()]
    } else {
        close_errors(src, src.len() as int) + open_errors(src, 0)
    }
}

/// A text that compiles: it is not empty and each of its brackets is
/// matched.
pub open spec fn well_formed(src: Seq<char>) -> bool {
    &&& src.len() > 0
    &&& forall|p: int| 0 <= p < src.len() ==> !#[trigger] is_unmatched_close(src, p)
    &&& forall|p: int| 0 <= p < src.len() ==> !#[trigger] is_unmatched_open(src, p)
}

/// What compiling a source text yields: its command sequence, or its
/// structural errors when it has any.
pub open spec fn parse_spec(src: Seq<char>) -> Result<Seq<BFCommand>, Seq<Seq<char>>> {
    if structural_errors(src).len() == 0 {
        Ok(compiled(src))
    } else {
        Err(structural_errors(src))
    }
}

/// A later position has at least as many commands before it.
pub proof fn lemma_commands_before_monotone(src: Seq<char>, a: int, b: int)
    requires
        a <= b,
    ensures
        commands_before(src, a) <= commands_before(src, b),
    decreases b - a,
{
    if a < b {
        lemma_commands_before_monotone(src, a, b - 1);
    }
}

/// No more commands stand before a position than characters.
pub proof fn lemma_commands_before_bound(src: Seq<char>, n: int)
    requires
        0 <= n,
    ensures
        commands_before(src, n) <= n,
    decreases n,
{
    if n > 0 {
        lemma_commands_before_bound(src, n - 1);
    }
}

/// The first `n` characters compile to as many commands as there are
/// command characters among them.
pub proof fn lemma_compiled_len(src: Seq<char>, n: int)
    requires
        0 <= n <= src.len(),
    ensures
        compiled_prefix(src, n).len() == commands_before(src, n),
    decreases n,
{
    if n > 0 {
        lemma_compiled_len(src, n - 1);
    }
}

/// The command of the character at `p` stands at index
/// `commands_before(src, p)` of the command sequence.
pub proof fn lemma_compiled_index(src: Seq<char>, n: int, p: int)
    requires
        0 <= p < n <= src.len(),
        is_command(src[p]),
    ensures
        commands_before(src, p) < commands_before(src, n),
        compiled_prefix(src, n).len() == commands_before(src, n),
        Some(compiled_prefix(src, n)[commands_before(src, p) as int]) == command_at(src, p),
    decreases n,
{
    lemma_compiled_len(src, n);
    lemma_compiled_len(src, n - 1);
    if p < n - 1 {
        lemma_compiled_index(src, n - 1, p);
    }
}

/// Each index of the command sequence belongs to a command character.
pub proof fn lemma_command_position(src: Seq<char>, n: int, i: int) -> (p: int)
    requires
        0 <= n <= src.len(),
        0 <= i < commands_before(src, n),
    ensures
        0 <= p < n,
        is_command(src[p]),
        commands_before(src, p) == i,
    decreases n,
{
    if is_command(src[n - 1]) && commands_before(src, n - 1) == i {
        n - 1
    } else {
        lemma_command_position(src, n - 1, i)
    }
}

/// The text has no structural error exactly when it is not empty and each
/// of its brackets is matched.
pub proof fn lemma_structural_errors_empty(src: Seq<char>)
    ensures
        structural_errors(src).len() == 0 <==> well_formed(src),
{
    if src.len() > 0 {
        lemma_close_errors_empty(src, src.len() as int);
        lemma_open_errors_empty(src, 0);
    }
}

/// No `]` among the first `n` characters is reported exactly when each of
/// them is matched.
pub proof fn lemma_close_errors_empty(src: Seq<char>, n: int)
    requires
        0 <= n <= src.len(),
    ensures
        close_errors(src, n).len() == 0 <==> (forall|p: int|
            0 <= p < n ==> !#[trigger] is_unmatched_close(src, p)),
    decreases n,
{
    if n > 0 {
        lemma_close_errors_empty(src, n - 1);
        if close_errors(src, n).len() != 0 && !is_unmatched_close(src, n - 1) {
            let p = choose|p: int| 0 <= p < n - 1 && is_unmatched_close(src, p);
            assert(is_unmatched_close(src, p));
        }
    }
}

/// No `[` at or after `from` is reported exactly when each of them is
/// matched.
pub proof fn lemma_open_errors_empty(src: Seq<char>, from: int)
    requires
        0 <= from <= src.len(),
    ensures
        open_errors(src, from).len() == 0 <==> (forall|p: int|
            from <= p < src.len() ==> !#[trigger] is_unmatched_open(src, p)),
    decreases src.len() - from,
{
    if from < src.len() {
        lemma_open_errors_empty(src, from + 1);
        if open_errors(src, from).len() != 0 && !is_unmatched_open(src, from) {
            let p = choose|p: int| from + 1 <= p < src.len() && is_unmatched_open(src, p);
            assert(is_unmatched_open(src, p));
        }
    }
}

/// A stretch without an unmatched `[` adds no message.
pub proof fn lemma_open_errors_skip(src: Seq<char>, a: int, b: int)
    requires
        0 <= a <= b <= src.len(),
        forall|q: int| a <= q < b ==> !#[trigger] is_unmatched_open(src, q),
    ensures
        open_errors(src, a) == open_errors(src, b),
    decreases b - a,
{
    if a < b {
        assert(!is_unmatched_open(src, a));
        lemma_open_errors_skip(src, a + 1, b);
    }
}

/// Equal texts compile alike: the result is a function of the text alone.
pub proof fn lemma_compile_deterministic(first: Seq<char>, second: Seq<char>)
    requires
        first == second,
    ensures
        parse_spec(first) == parse_spec(second),
{
}

/// In a compiled program each `ForwardGoto` names the index of its own
/// `BackwardGoto`, which lies after it, and each `BackwardGoto` names the
/// index of its own `ForwardGoto`, which lies before it.
pub proof fn lemma_jumps_are_paired(src: Seq<char>, i: int)
    requires
        src.len() <= usize::MAX,
        well_formed(src),
        0 <= i < compiled(src).len(),
    ensures
        match compiled(src)[i] {
            BFCommand::ForwardGoto(target) => i < target < compiled(src).len() && compiled(
                src,
            )[target as int] == BFCommand::BackwardGoto(i as usize),
            BFCommand::BackwardGoto(target) => target < i && compiled(src)[target as int]
                == BFCommand::ForwardGoto(i as usize),
            _ => true,
        },
{
    let len = src.len() as int;
    lemma_compiled_len(src, len);
    lemma_commands_before_bound(src, len);
    let p = lemma_command_position(src, len, i);
    lemma_compiled_index(src, len, p);
    assert(!is_unmatched_close(src, p));
    assert(!is_unmatched_open(src, p));
    if src[p] == '[' {
        let q = matching_close(src, p);
        lemma_close_of_open(src, p);
        lemma_compiled_index(src, len, q);
        lemma_commands_before_monotone(src, p + 1, q);
        lemma_commands_before_monotone(src, q, len);
    } else if src[p] == ']' {
        let o = matching_open(src, p);
        lemma_open_of_close(src, p);
        lemma_compiled_index(src, len, o);
        lemma_commands_before_monotone(src, o + 1, p);
    }
}

/// An opening bracket whose `]` the pass has not met yet.
#[derive(Clone, Copy)]
struct OpenBracket {
    command_index: usize,
    position: usize,
    newlines: usize,
}

/// The stack of the pass holds the open brackets `stack`, each with the
/// line breaks before it and a command index below `emitted`.
spec fn mirrors(
    open_brackets: Seq<OpenBracket>,
    src: Seq<char>,
    stack: Seq<int>,
    emitted: int,
) -> bool {
    &&& open_brackets.len() <= stack.len()
    &&& forall|j: int|
        0 <= j < open_brackets.len() ==> {
            &&& (#[trigger] open_brackets[j]).position == stack[j]
            &&& open_brackets[j].newlines == newlines_before(src, stack[j])
            &&& open_brackets[j].command_index < emitted
        }
}

/// Whether the command at index `i` is the jump of a bracket that is still
/// open, whose target is not known yet.
spec fn is_placeholder(open_brackets: Seq<OpenBracket>, i: int) -> bool {
    exists|j: int|
        0 <= j < open_brackets.len() && (#[trigger] open_brackets[j]).command_index == i
}

/// What the pass has emitted for the first `n` characters is their
/// compiled form, but for the jumps of the brackets that are still open.
spec fn tracks(
    commands: Seq<BFCommand>,
    open_brackets: Seq<OpenBracket>,
    src: Seq<char>,
    n: int,
) -> bool {
    &&& commands.len() == commands_before(src, n)
    &&& forall|j: int|
        0 <= j < open_brackets.len() ==> (#[trigger] open_brackets[j]).command_index
            == commands_before(src, open_brackets[j].position as int)
    &&& forall|i: int|
        0 <= i < commands.len() ==> #[trigger] commands[i] == compiled_prefix(src, n)[i]
            || is_placeholder(open_brackets, i)
}

proof fn lemma_track_plain(
    commands: Seq<BFCommand>,
    open_brackets: Seq<OpenBracket>,
    src: Seq<char>,
    n: int,
    command: BFCommand,
)
    requires
        0 <= n < src.len(),
        tracks(commands, open_brackets, src, n),
        command_at(src, n) == Some(command),
    ensures
        tracks(commands.push(command), open_brackets, src, n + 1),
{
    lemma_compiled_len(src, n);
    let next = commands.push(command);
    assert forall|i: int| 0 <= i < next.len() implies #[trigger] next[i] == compiled_prefix(
        src,
        n + 1,
    )[i] || is_placeholder(open_brackets, i) by {
        if i < commands.len() {
            assert(next[i] == commands[i]);
        }
    }
}

proof fn lemma_track_skip(
    commands: Seq<BFCommand>,
    open_brackets: Seq<OpenBracket>,
    src: Seq<char>,
    n: int,
)
    requires
        0 <= n < src.len(),
        tracks(commands, open_brackets, src, n),
        command_at(src, n) is None,
    ensures
        tracks(commands, open_brackets, src, n + 1),
{
}

proof fn lemma_track_open(
    commands: Seq<BFCommand>,
    open_brackets: Seq<OpenBracket>,
    src: Seq<char>,
    n: int,
    entry: OpenBracket,
)
    requires
        0 <= n < src.len(),
        src[n] == '[',
        tracks(commands, open_brackets, src, n),
        entry.command_index == commands.len(),
        entry.position == n,
    ensures
        tracks(
            commands.push(BFCommand::ForwardGoto(0)),
            open_brackets.push(entry),
            src,
            n + 1,
        ),
{
    lemma_compiled_len(src, n);
    let next = commands.push(BFCommand::ForwardGoto(0));
    let opens = open_brackets.push(entry);
    assert forall|j: int| 0 <= j < opens.len() implies (#[trigger] opens[j]).command_index
        == commands_before(src, opens[j].position as int) by {
        if j < open_brackets.len() {
            assert(opens[j] == open_brackets[j]);
        }
    }
    assert forall|i: int| 0 <= i < next.len() implies #[trigger] next[i] == compiled_prefix(
        src,
        n + 1,
    )[i] || is_placeholder(opens, i) by {
        if i < commands.len() {
            assert(next[i] == commands[i]);
            if is_placeholder(open_brackets, i) {
                let j = choose|j: int|
                    0 <= j < open_brackets.len() && (#[trigger] open_brackets[j]).command_index
                        == i;
                assert(opens[j] == open_brackets[j]);
            }
        } else {
            assert(opens[open_brackets.len() as int] == entry);
        }
    }
}

proof fn lemma_track_close(
    commands: Seq<BFCommand>,
    open_brackets: Seq<OpenBracket>,
    src: Seq<char>,
    n: int,
)
    requires
        0 <= n < src.len(),
        src.len() <= usize::MAX,
        src[n] == ']',
        open_brackets.len() > 0,
        open_brackets.len() == pending(src, n).len(),
        mirrors(open_brackets, src, pending(src, n), commands.len() as int),
        tracks(commands, open_brackets, src, n),
    ensures
        tracks(
            commands.update(
                open_brackets.last().command_index as int,
                BFCommand::ForwardGoto(commands.len() as usize),
            ).push(BFCommand::BackwardGoto(open_brackets.last().command_index)),
            open_brackets.drop_last(),
            src,
            n + 1,
        ),
{
    let stack = pending(src, n);
    let top = open_brackets.len() - 1;
    let open = open_brackets[top];
    let p0 = open.position as int;
    let k0 = open.command_index as int;
    lemma_pending_wf(src, n);
    lemma_top_matches(src, n, stack);
    assert(stack[top] == p0);
    lemma_compiled_len(src, n);
    lemma_compiled_index(src, n, p0);
    lemma_commands_before_bound(src, n);
    let patched = commands.update(k0, BFCommand::ForwardGoto(commands.len() as usize));
    let next = patched.push(BFCommand::BackwardGoto(open.command_index));
    let opens = open_brackets.drop_last();
    assert forall|j: int| 0 <= j < opens.len() implies (#[trigger] opens[j]).command_index
        == commands_before(src, opens[j].position as int) by {
        assert(opens[j] == open_brackets[j]);
    }
    assert forall|i: int| 0 <= i < next.len() implies #[trigger] next[i] == compiled_prefix(
        src,
        n + 1,
    )[i] || is_placeholder(opens, i) by {
        if i == commands.len() {
        } else if i == k0 {
        } else {
            assert(next[i] == commands[i]);
            if is_placeholder(open_brackets, i) {
                let j = choose|j: int|
                    0 <= j < open_brackets.len() && (#[trigger] open_brackets[j]).command_index
                        == i;
                assert(opens[j] == open_brackets[j]);
            }
        }
    }
}

/// A `]` met while a bracket is open is matched.
proof fn lemma_close_matched(src: Seq<char>, n: int)
    requires
        0 <= n < src.len(),
        src[n] == ']',
        pending(src, n).len() > 0,
    ensures
        !is_unmatched_close(src, n),
{
    lemma_pending_wf(src, n);
    lemma_top_matches(src, n, pending(src, n));
}

/// A `]` met while no bracket is open is unmatched.
proof fn lemma_close_unmatched(src: Seq<char>, n: int)
    requires
        0 <= n < src.len(),
        src[n] == ']',
        pending(src, n).len() == 0,
    ensures
        is_unmatched_close(src, n),
{
    lemma_pending_wf(src, n);
    lemma_no_opener(src, n, pending(src, n));
}

/// No bracket strictly between two neighbours of the stack is unmatched.
proof fn lemma_gap_is_matched(src: Seq<char>, stack: Seq<int>, k: int)
    requires
        pending_wf(src, src.len() as int, stack),
        0 <= k <= stack.len(),
    ensures
        forall|q: int|
            (if k > 0 {
                stack[k - 1] + 1
            } else {
                0
            }) <= q < boundary(stack, k - 1, src.len() as int) ==> !#[trigger] is_unmatched_open(
                src,
                q,
            ),
{
    let low = if k > 0 {
        stack[k - 1] + 1
    } else {
        0
    };
    let high = boundary(stack, k - 1, src.len() as int);
    assert forall|q: int| low <= q < high implies !#[trigger] is_unmatched_open(src, q) by {
        if src[q] == '[' {
            if stack.contains(q) {
                let j = choose|j: int| 0 <= j < stack.len() && stack[j] == q;
                if j < k {
                    if j < k - 1 {
                        assert(stack[j] < stack[k - 1]);
                    }
                } else {
                    if j > k {
                        assert(stack[k] < stack[j]);
                    }
                }
            }
            assert(matching_close(src, q) < src.len());
        }
    }
}

/// What the report of entry `k - 1` of the stack adds to the messages of
/// the entries after it.
proof fn lemma_report_open(src: Seq<char>, stack: Seq<int>, k: int)
    requires
        pending_wf(src, src.len() as int, stack),
        1 <= k <= stack.len(),
    ensures
        open_errors(src, boundary(stack, k - 2, src.len() as int)) == open_errors(
            src,
            boundary(stack, k - 1, src.len() as int),
        ).push(diagnostic(src, stack[k - 1], unclosed_text())),
{
    let p = stack[k - 1];
    let high = boundary(stack, k - 1, src.len() as int);
    lemma_never_closed(src, stack, k - 1);
    lemma_gap_is_matched(src, stack, k);
    if k < stack.len() {
        assert(stack[k - 1] < stack[k]);
    }
    lemma_open_errors_skip(src, p + 1, high);
}

/// Adds a rendered message to the errors found so far.
fn record(parse_errors: &mut ParseErrors, message: String)
    ensures
        final(parse_errors)@ == old(parse_errors)@.push(message@),
{
    parse_errors.errors.push(ParseError { message });
    assert(parse_errors@ =~= old(parse_errors)@.push(message@));
}

/// Compiles a source text. Characters other than the eight commands are
/// skipped. The result is the command sequence, each bracket resolved to
/// the index of its partner, when the text is not empty and every bracket
/// is matched; else every structural error of the text.
pub fn parse(code: String) -> (result: Result<Vec<BFCommand>, ParseErrors>)
    ensures
        result is Ok <==> well_formed(code@),
        match result {
            Ok(commands) => parse_spec(code@) == Ok::<Seq<BFCommand>, Seq<Seq<char>>>(commands@),
            Err(errors) => parse_spec(code@) == Err::<Seq<BFCommand>, Seq<Seq<char>>>(errors@),
        },
{
    let ghost src = code@;
    let mut bf_commands: Vec<BFCommand> = Vec::new();
    let mut open_brackets: Vec<OpenBracket> = Vec::new();
    let mut parse_errors = ParseErrors::new();
    let chars = collect_chars(code.as_str());
    proof {
        lemma_structural_errors_empty(src);
    }

    if chars.len() == 0 {
        record(&mut parse_errors, "Empty input".to_owned());
        assert(parse_errors@ =~= seq![empty_input_text()]);
        return Err(parse_errors);
    }
    let mut newlines: usize = 0;
    let mut index: usize = 0;
    proof {
        lemma_pending_wf(src, 0);
    }
    while index < chars.len()
        invariant
            src == code@,
            chars@ == src,
            index <= chars.len(),
            newlines == newlines_before(src, index as int),
            newlines <= index,
            parse_errors@ == close_errors(src, index as int),
            open_brackets@.len() == pending(src, index as int).len(),
            mirrors(open_brackets@, src, pending(src, index as int), bf_commands@.len() as int),
            parse_errors@.len() == 0 ==> tracks(bf_commands@, open_brackets@, src, index as int),
        decreases chars.len() - index,
    {
        let c = chars[index];
        let ghost n = index as int;
        let ghost clean = parse_errors@.len() == 0;
        match c {
            '>' => {
                proof {
                    if clean {
                        lemma_track_plain(
                            bf_commands@,
                            open_brackets@,
                            src,
                            n,
                            BFCommand::DataPtrIncrement,
                        );
                    }
                }
                bf_commands.push(BFCommand::DataPtrIncrement);
            },
            '<' => {
                proof {
                    if clean {
                        lemma_track_plain(
                            bf_commands@,
                            open_brackets@,
                            src,
                            n,
                            BFCommand::DataPtrDecrement,
                        );
                    }
                }
                bf_commands.push(BFCommand::DataPtrDecrement);
            },
            '+' => {
                proof {
                    if clean {
                        lemma_track_plain(bf_commands@, open_brackets@, src, n, BFCommand::Increment);
                    }
                }
                bf_commands.push(BFCommand::Increment);
            },
            '-' => {
                proof {
                    if clean {
                        lemma_track_plain(bf_commands@, open_brackets@, src, n, BFCommand::Decrement);
                    }
                }
                bf_commands.push(BFCommand::Decrement);
            },
            '[' => {
                let entry = OpenBracket {
                    command_index: bf_commands.len(),
                    position: index,
                    newlines,
                };
                proof {
                    if clean {
                        lemma_track_open(bf_commands@, open_brackets@, src, n, entry);
                    }
                }
                bf_commands.push(BFCommand::ForwardGoto(0));
                open_brackets.push(entry);
            },
            ']' => {
                let ghost before = open_brackets@;
                match open_brackets.pop() {
                    Some(open) => {
                        proof {
                            lemma_close_matched(src, n);
                            assert(open_brackets@ =~= before.drop_last());
                            if clean {
                                lemma_track_close(bf_commands@, before, src, n);
                            }
                        }
                        let target = bf_commands.len();
                        bf_commands[open.command_index] = BFCommand::ForwardGoto(target);
                        bf_commands.push(BFCommand::BackwardGoto(open.command_index));
                    },
                    None => {
                        proof {
                            lemma_close_unmatched(src, n);
                        }
                        let message = format_error_message(
                            code.as_str(),
                            newlines + 1,
                            index,
                            "Found a closing ']' without an opening '['",
                        );
                        record(&mut parse_errors, message);
                    },
                }
            },
            '.' => {
                proof {
                    if clean {
                        lemma_track_plain(bf_commands@, open_brackets@, src, n, BFCommand::OutputByte);
                    }
                }
                bf_commands.push(BFCommand::OutputByte);
            },
            ',' => {
                proof {
                    if clean {
                        lemma_track_plain(bf_commands@, open_brackets@, src, n, BFCommand::InputByte);
                    }
                }
                bf_commands.push(BFCommand::InputByte);
            },
            _ => {
                proof {
                    if clean {
                        lemma_track_skip(bf_commands@, open_brackets@, src, n);
                    }
                }
            },
        }
        if c == '\n' {
            newlines += 1;
        }
        index += 1;
    }

    let ghost stack = pending(src, src.len() as int);
    let ghost opens = open_brackets@;
    proof {
        lemma_pending_wf(src, src.len() as int);
    }
    while open_brackets.len() > 0
        invariant
            src == code@,
            chars@ == src,
            stack == pending(src, src.len() as int),
            pending_wf(src, src.len() as int, stack),
            opens.len() == stack.len(),
            mirrors(open_brackets@, src, stack, bf_commands@.len() as int),
            close_errors(src, src.len() as int).len() == 0 ==> tracks(
                bf_commands@,
                opens,
                src,
                src.len() as int,
            ),
            parse_errors@ == close_errors(src, src.len() as int) + open_errors(
                src,
                boundary(stack, open_brackets@.len() - 1, src.len() as int),
            ),
            parse_errors@.len() >= stack.len() - open_brackets@.len(),
        decreases open_brackets.len(),
    {
        let ghost k = open_brackets@.len() as int;
        let ghost before = open_brackets@;
        let open = open_brackets.pop().unwrap();
        proof {
            assert(open == before[k - 1]);
            assert(open.position == stack[k - 1]);
            assert(open.newlines == newlines_before(src, stack[k - 1]));
            assert(0 <= stack[k - 1] < src.len());
            assert(src.len() == chars.len());
            lemma_newlines_bound(src, stack[k - 1]);
            assert(open.newlines < chars.len());
            lemma_report_open(src, stack, k);
        }
        let message = format_error_message(
            code.as_str(),
            open.newlines + 1,
            open.position,
            "Found an opening '[' without a closing ']'",
        );
        record(&mut parse_errors, message);
        assert(parse_errors@ =~= close_errors(src, src.len() as int) + open_errors(
            src,
            boundary(stack, k - 2, src.len() as int),
        ));
    }
    proof {
        lemma_gap_is_matched(src, stack, 0);
        lemma_open_errors_skip(src, 0, boundary(stack, -1, src.len() as int));
        assert(parse_errors@ == structural_errors(src));
    }

    if parse_errors.errors.len() == 0 {
        proof {
            lemma_compiled_len(src, src.len() as int);
            assert(opens.len() == 0);
            assert forall|i: int| 0 <= i < bf_commands@.len() implies bf_commands@[i] == compiled(
                src,
            )[i] by {
                assert(!is_placeholder(opens, i));
            }
            assert(bf_commands@ =~= compiled(src));
        }
        Ok(bf_commands)
    } else {
        Err(parse_errors)
    }
}

} // verus!
