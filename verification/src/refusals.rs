//! Which logs are refused, and which lines of a log say nothing.

use vstd::prelude::*;

use crate::numeral;
use crate::sandbox::{self, Entry, LogFault};
use crate::text;

verus! {

/// A text without white space around it.
pub open spec fn plain(s: Seq<char>) -> bool {
    s.len() > 0 && text::trimmed(s) == s
}

/// The line of an instruction is read as the instruction.
proof fn lemma_execute(instruction: Seq<char>)
    requires
        plain(instruction),
    ensures
        ({
            let line = "execute "@ + instruction;
            &&& text::trimmed(line) == line
            &&& text::after(line, "execute "@) == Some(instruction)
        }),
{
    reveal_strlit("execute ");
    let line = "execute "@ + instruction;
    text::lemma_trimmed_ends(instruction);
    assert(line[0] == 'e');
    assert(line.last() == instruction.last());
    text::lemma_trimmed_already(line);
    text::lemma_after("execute "@, instruction);
}

/// A log that ends within an instruction is refused, with the name of the
/// instruction and of what is missing.
pub proof fn law_cut_log_is_refused(
    front: Seq<Seq<char>>,
    instruction: Seq<char>,
    gas: Seq<char>,
)
    requires
        sandbox::entries_from(front, 0, Seq::empty()) is Ok,
        plain(instruction),
        sandbox::gas_of(text::trimmed(gas)) is Ok,
    ensures
        sandbox::entries_from(front + seq!["execute "@ + instruction], 0, Seq::empty()) == Err::<
            Seq<Entry>,
            LogFault,
        >(LogFault::MissingGas { instruction }),
        sandbox::entries_from(front + seq!["execute "@ + instruction, gas], 0, Seq::empty())
            == Err::<Seq<Entry>, LogFault>(LogFault::MissingStack { instruction }),
{
    let line = "execute "@ + instruction;
    lemma_execute(instruction);
    let one = seq![line];
    let two = seq![line, gas];
    sandbox::law_log_reads_on(front, one);
    sandbox::law_log_reads_on(front, two);
    assert(one[0] == line);
    assert(two[0] == line);
    assert(two[1] == gas);
}

/// A log in which an instruction is not followed by its gas and its stack is
/// refused, with the line that stands there.
pub proof fn law_log_out_of_order_is_refused(
    front: Seq<Seq<char>>,
    instruction: Seq<char>,
    gas: Seq<char>,
    other: Seq<char>,
    behind: Seq<Seq<char>>,
)
    requires
        sandbox::entries_from(front, 0, Seq::empty()) is Ok,
        plain(instruction),
        sandbox::gas_of(text::trimmed(gas)) is Ok,
        plain(other),
    ensures
        !"gas:"@.is_prefix_of(other) ==> sandbox::entries_from(
            front + (seq!["execute "@ + instruction, other] + behind),
            0,
            Seq::empty(),
        ) == Err::<Seq<Entry>, LogFault>(LogFault::NotGas { line: other }),
        !"stack:"@.is_prefix_of(other) ==> sandbox::entries_from(
            front + (seq!["execute "@ + instruction, gas, other] + behind),
            0,
            Seq::empty(),
        ) == Err::<Seq<Entry>, LogFault>(LogFault::NotStack { line: other }),
{
    let line = "execute "@ + instruction;
    lemma_execute(instruction);
    let a = seq![line, other] + behind;
    let b = seq![line, gas, other] + behind;
    sandbox::law_log_reads_on(front, a);
    sandbox::law_log_reads_on(front, b);
    assert(a[0] == line);
    assert(a[1] == other);
    assert(b[0] == line);
    assert(b[1] == gas);
    assert(b[2] == other);
}

/// A log with an exit code that is no integer is refused, with the word.
pub proof fn law_exit_code_must_be_an_integer(
    front: Seq<Seq<char>>,
    word: Seq<char>,
    behind: Seq<Seq<char>>,
)
    requires
        sandbox::entries_from(front, 0, Seq::empty()) is Ok,
        plain(word),
        numeral::int_value(word, 10, i32::MIN as int, i32::MAX as int) is Err,
    ensures
        sandbox::entries_from(front + (seq!["exit code: "@ + word] + behind), 0, Seq::empty())
            matches Err(LogFault::ExitCode { word: w, .. }) && w == word,
{
    reveal_strlit("exit code: ");
    reveal_strlit("exit code:");
    reveal_strlit("execute ");
    let line = "exit code: "@ + word;
    text::lemma_trimmed_ends(word);
    assert(line[0] == 'e');
    assert(line.last() == word.last());
    text::lemma_trimmed_already(line);
    assert(line =~= "exit code:"@ + (seq![' '] + word));
    text::lemma_after("exit code:"@, seq![' '] + word);
    text::lemma_blank_before(word);
    if "execute "@.is_prefix_of(line) {
        assert(line.subrange(0, 8)[2] == 'i');
    }
    let b = seq![line] + behind;
    sandbox::law_log_reads_on(front, b);
    assert(b[0] == line);
}

/// A line that begins neither an instruction nor an exit code says nothing.
pub proof fn law_other_line_says_nothing(
    front: Seq<Seq<char>>,
    line: Seq<char>,
    behind: Seq<Seq<char>>,
)
    requires
        sandbox::entries_from(front, 0, Seq::empty()) is Ok,
        !"execute "@.is_prefix_of(text::trimmed(line)),
        !"exit code:"@.is_prefix_of(text::trimmed(line)),
    ensures
        sandbox::entries_from(front + seq![line] + behind, 0, Seq::empty())
            == sandbox::entries_from(front + behind, 0, Seq::empty()),
{
    let one = seq![line];
    sandbox::law_log_reads_on(front, one);
    assert(one[0] == line);
    let done = sandbox::entries_from(front, 0, Seq::empty())->Ok_0;
    assert(sandbox::entries_from(one, 1, done) == Ok::<Seq<Entry>, LogFault>(done));
    sandbox::law_log_reads_on(front + one, behind);
    sandbox::law_log_reads_on(front, behind);
}

} // verus!
