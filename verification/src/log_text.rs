//! Logs of the virtual machine as they are written, and that reading one gives
//! back what was written.

use vstd::prelude::*;

use crate::numeral;
use crate::numeral::IntError;
use crate::sandbox;
use crate::sandbox::{Entry, LogFault};
use crate::text;

verus! {

/// A word of a stack line: not empty and without white space.
pub open spec fn stack_word(w: Seq<char>) -> bool {
    w.len() > 0 && forall|i: int| 0 <= i < w.len() ==> !text::white(#[trigger] w[i])
}

/// An entry that can be written: an instruction on one line, gas that is not
/// negative, and a stack of words.
pub open spec fn writable(e: Entry) -> bool {
    &&& e.instruction.len() > 0
    &&& text::trimmed(e.instruction) == e.instruction
    &&& forall|i: int| 0 <= i < e.instruction.len() ==> #[trigger] e.instruction[i] != '\n'
    &&& 0 <= e.gas_used <= i64::MAX
    &&& 0 <= e.gas_remaining <= i64::MAX
    &&& forall|i: int| 0 <= i < e.stack.len() ==> stack_word(#[trigger] e.stack[i])
}

/// The line of an instruction.
pub open spec fn execute_line(e: Entry) -> Seq<char> {
    "execute "@ + e.instruction
}

/// The line of the gas.
pub open spec fn gas_line(e: Entry) -> Seq<char> {
    "gas: "@ + numeral::int_text(e.gas_used) + " -> "@ + numeral::int_text(e.gas_remaining)
}

/// The line of the stack.
pub open spec fn stack_line(e: Entry) -> Seq<char> {
    "stack: ["@ + text::joined(e.stack, " "@) + "]"@
}

/// The line of an exit code.
pub open spec fn exit_line(code: i32) -> Seq<char> {
    "exit code: "@ + numeral::int_text(code as int)
}

/// The lines of an entry.
pub open spec fn entry_lines(e: Entry) -> Seq<Seq<char>> {
    let group = seq![execute_line(e), gas_line(e), stack_line(e)];
    match e.exit_code {
        Some(code) => group.push(exit_line(code)),
        None => group,
    }
}

/// Lines as a text, each with its line feed.
pub open spec fn lines_text(lines: Seq<Seq<char>>) -> Seq<char>
    decreases lines.len(),
{
    if lines.len() == 0 {
        Seq::empty()
    } else {
        lines[0] + "\n"@ + lines_text(lines.skip(1))
    }
}

/// The lines of some entries.
pub open spec fn log_lines(entries: Seq<Entry>) -> Seq<Seq<char>>
    decreases entries.len(),
{
    if entries.len() == 0 {
        Seq::empty()
    } else {
        entry_lines(entries[0]) + log_lines(entries.skip(1))
    }
}

/// The text of a log.
pub open spec fn log_text(entries: Seq<Entry>) -> Seq<char> {
    lines_text(log_lines(entries))
}

/// A line that a text gives back: without a line feed in it or a carriage
/// return at its end.
pub open spec fn single_line(s: Seq<char>) -> bool {
    &&& forall|i: int| 0 <= i < s.len() ==> #[trigger] s[i] != '\n'
    &&& s.len() > 0 ==> s.last() != '\r'
}

/// A text without `-` holds no arrow.
proof fn lemma_no_arrow(s: Seq<char>)
    requires
        forall|i: int| 0 <= i < s.len() ==> #[trigger] s[i] != '-',
    ensures
        text::split_on_text(s, "->"@) == seq![s],
{
    reveal_strlit("->");
    let p = text::is_text_at(s, "->"@);
    assert forall|j: int| 0 <= j < s.len() - 1 implies !#[trigger] p(j) by {
        if p(j) {
            assert(s.skip(j).subrange(0, 2)[0] == '-');
        }
    }
    text::lemma_first_none(0, s.len() - 2 + 1, p);
}

/// One arrow between two texts without `-` splits them.
proof fn lemma_arrow(a: Seq<char>, b: Seq<char>)
    requires
        forall|i: int| 0 <= i < a.len() ==> #[trigger] a[i] != '-',
        forall|i: int| 0 <= i < b.len() ==> #[trigger] b[i] != '-',
    ensures
        text::split_on_text(a + "->"@ + b, "->"@) == seq![a, b],
{
    reveal_strlit("->");
    let s = a + "->"@ + b;
    let n = a.len() as int;
    let p = text::is_text_at(s, "->"@);
    assert(s.skip(n).subrange(0, 2) =~= "->"@);
    assert forall|j: int| 0 <= j < n implies !#[trigger] p(j) by {
        if p(j) {
            assert(s.skip(j).subrange(0, 2)[0] == a[j]);
        }
    }
    text::lemma_first_is(0, s.len() - 2 + 1, p, n);
    assert(s.take(n) =~= a);
    assert(s.skip(n + 2) =~= b);
    lemma_no_arrow(b);
    assert(seq![a] + seq![b] =~= seq![a, b]);
}

/// The gas of a written entry is read back.
proof fn lemma_gas_line(e: Entry)
    requires
        writable(e),
    ensures
        text::trimmed(gas_line(e)) == gas_line(e),
        sandbox::gas_of(gas_line(e)) == Ok::<(int, int), LogFault>((e.gas_used, e.gas_remaining)),
{
    reveal_strlit("gas: ");
    reveal_strlit("gas:");
    reveal_strlit(" -> ");
    reveal_strlit("->");
    let x = numeral::int_text(e.gas_used);
    let y = numeral::int_text(e.gas_remaining);
    numeral::lemma_int_text_ends(e.gas_used);
    numeral::lemma_int_text_ends(e.gas_remaining);
    numeral::lemma_nat_text_digits(e.gas_used as nat);
    numeral::lemma_nat_text_digits(e.gas_remaining as nat);
    numeral::law_decimal_round_trip(e.gas_used, i64::MIN as int, i64::MAX as int);
    numeral::law_decimal_round_trip(e.gas_remaining, i64::MIN as int, i64::MAX as int);
    let line = gas_line(e);
    assert(line[0] == 'g');
    assert(line.last() == y.last());
    text::lemma_trimmed_already(line);
    let left = x + seq![' '];
    let right = seq![' '] + y;
    let values = left + "->"@ + right;
    assert(line =~= "gas:"@ + (seq![' '] + values));
    text::lemma_after("gas:"@, seq![' '] + values);
    assert(values[0] == x[0]);
    assert(values.last() == y.last());
    text::lemma_blank_before(values);
    lemma_arrow(left, right);
    text::lemma_blank_behind(x);
    text::lemma_blank_before(y);
}

/// The words of a text that begins with a word and a blank.
pub proof fn lemma_first_word(w: Seq<char>, rest: Seq<char>)
    requires
        stack_word(w),
    ensures
        text::words_of(w) == seq![w],
        text::words_of(w + seq![' '] + rest) == seq![w] + text::words_of(rest),
{
    let p = text::is_white_at(w);
    assert forall|j: int| 0 <= j < w.len() implies !#[trigger] p(j) by {
        assert(!text::white(w[j]));
    }
    text::lemma_first_none(0, w.len() as int, p);
    assert(!text::white(w[0]));
    let s = w + seq![' '] + rest;
    let n = w.len() as int;
    let q = text::is_white_at(s);
    assert forall|j: int| 0 <= j < n implies !#[trigger] q(j) by {
        assert(s[j] == w[j]);
    }
    assert(q(n));
    text::lemma_first_is(0, s.len() as int, q, n);
    assert(s[0] == w[0]);
    assert(s.take(n) =~= w);
    assert(s.skip(n)[0] == ' ');
    assert(s.skip(n).skip(1) =~= rest);
    reveal_with_fuel(text::words_of, 2);
}

/// The words of a joined list are the list, and nothing is there to trim.
proof fn lemma_words(words: Seq<Seq<char>>)
    requires
        forall|i: int| 0 <= i < words.len() ==> stack_word(#[trigger] words[i]),
    ensures
        text::words_of(text::joined(words, " "@)) == words,
        text::trimmed(text::joined(words, " "@)) == text::joined(words, " "@),
    decreases words.len(),
{
    reveal_strlit(" ");
    let s = text::joined(words, " "@);
    if words.len() == 1 {
        lemma_first_word(words[0], Seq::empty());
        assert(seq![words[0]] =~= words);
        text::lemma_trimmed_already(s);
    } else if words.len() > 1 {
        let rest = words.skip(1);
        assert forall|i: int| 0 <= i < rest.len() implies stack_word(#[trigger] rest[i]) by {
            assert(rest[i] == words[i + 1]);
        }
        lemma_words(rest);
        text::lemma_joined_front(words, " "@);
        assert(" "@ =~= seq![' ']);
        lemma_first_word(words[0], text::joined(rest, " "@));
        assert(seq![words[0]] + rest =~= words);
        assert(s[0] == words[0][0]);
        assert(s.last() == words.last().last());
        assert(stack_word(words.last()));
        text::lemma_trimmed_already(s);
    } else {
        assert(words =~= Seq::empty());
    }
}

/// The stack of a written entry is read back.
proof fn lemma_stack_line(e: Entry)
    requires
        writable(e),
    ensures
        text::trimmed(stack_line(e)) == stack_line(e),
        sandbox::stack_of(stack_line(e)) == Ok::<Seq<Seq<char>>, LogFault>(e.stack),
{
    reveal_strlit("stack: [");
    reveal_strlit("stack:");
    reveal_strlit("[");
    reveal_strlit("]");
    let line = stack_line(e);
    assert(line[0] == 's');
    assert(line.last() == ']');
    text::lemma_trimmed_already(line);
    let inner = text::joined(e.stack, " "@);
    let list = "["@ + (inner + "]"@);
    assert(line =~= "stack:"@ + (seq![' '] + list));
    text::lemma_after("stack:"@, seq![' '] + list);
    assert(list[0] == '[');
    assert(list.last() == ']');
    text::lemma_blank_before(list);
    text::lemma_after("["@, inner + "]"@);
    text::lemma_before(inner, "]"@);
    lemma_words(e.stack);
}

/// The instruction of a written entry is read back.
proof fn lemma_execute_line(e: Entry)
    requires
        writable(e),
    ensures
        text::trimmed(execute_line(e)) == execute_line(e),
        text::after(execute_line(e), "execute "@) == Some(e.instruction),
{
    reveal_strlit("execute ");
    text::lemma_trimmed_ends(e.instruction);
    let line = execute_line(e);
    assert(line[0] == 'e');
    assert(line.last() == e.instruction.last());
    text::lemma_trimmed_already(line);
    text::lemma_after("execute "@, e.instruction);
}

/// An exit code is read back, and its line is no instruction.
proof fn lemma_exit_line(code: i32)
    ensures
        text::trimmed(exit_line(code)) == exit_line(code),
        text::after(exit_line(code), "execute "@) is None,
        text::after(exit_line(code), "exit code:"@) is Some,
        numeral::int_value(
            text::trimmed(text::after(exit_line(code), "exit code:"@)->0),
            10,
            i32::MIN as int,
            i32::MAX as int,
        ) == Ok::<int, IntError>(code as int),
{
    reveal_strlit("exit code: ");
    reveal_strlit("exit code:");
    reveal_strlit("execute ");
    let line = exit_line(code);
    let digits = numeral::int_text(code as int);
    numeral::lemma_int_text_ends(code as int);
    numeral::law_decimal_round_trip(code as int, i32::MIN as int, i32::MAX as int);
    assert(line[0] == 'e');
    assert(line.last() == digits.last());
    text::lemma_trimmed_already(line);
    if "execute "@.is_prefix_of(line) {
        assert(line.subrange(0, 8)[2] == 'i');
        assert("execute "@[2] == 'e');
    }
    assert(line =~= "exit code:"@ + (seq![' '] + digits));
    text::lemma_after("exit code:"@, seq![' '] + digits);
    text::lemma_blank_before(digits);
}

/// The lines of one entry are read back.
proof fn lemma_entry_lines(e: Entry, done: Seq<Entry>)
    requires
        writable(e),
    ensures
        sandbox::entries_from(entry_lines(e), 0, done) == Ok::<Seq<Entry>, LogFault>(
            sandbox::with_exit_code(done, None).push(e),
        ),
{
    lemma_execute_line(e);
    lemma_gas_line(e);
    lemma_stack_line(e);
    let lines = entry_lines(e);
    assert(lines[0] == execute_line(e));
    assert(lines[1] == gas_line(e));
    assert(lines[2] == stack_line(e));
    let plain = Entry { exit_code: None, ..e };
    reveal_with_fuel(sandbox::entries_from, 3);
    match e.exit_code {
        Some(code) => {
            lemma_exit_line(code);
            assert(lines[3] == exit_line(code));
            let cleared = sandbox::with_exit_code(done, None);
            assert(sandbox::with_exit_code(cleared.push(plain), Some(code)) =~= cleared.push(e));
        },
        None => {
            assert(plain == e);
        },
    }
}

/// Reading what was written, line by line.
proof fn lemma_log_lines(entries: Seq<Entry>, done: Seq<Entry>)
    requires
        forall|i: int| 0 <= i < entries.len() ==> writable(#[trigger] entries[i]),
        sandbox::exits_at_the_end(entries),
        done.len() > 0 && entries.len() > 0 ==> done.last().exit_code is None,
    ensures
        sandbox::entries_from(log_lines(entries), 0, done) == Ok::<Seq<Entry>, LogFault>(
            done + entries,
        ),
    decreases entries.len(),
{
    if entries.len() == 0 {
        assert(done + entries =~= done);
    } else {
        let first = entries[0];
        let rest = entries.skip(1);
        lemma_entry_lines(first, done);
        assert(sandbox::with_exit_code(done, None) =~= done);
        sandbox::lemma_reads_on(entry_lines(first), log_lines(rest), 0, done);
        assert forall|i: int| 0 <= i < rest.len() implies writable(#[trigger] rest[i]) by {
            assert(rest[i] == entries[i + 1]);
        }
        assert forall|k: int| 0 <= k < rest.len() - 1 implies #[trigger] rest[k].exit_code is None by {
            assert(rest[k] == entries[k + 1]);
        }
        lemma_log_lines(rest, done.push(first));
        assert(done.push(first) + rest =~= done + entries);
    }
}

/// The lines of a text of lines are those lines.
proof fn lemma_lines_text(lines: Seq<Seq<char>>)
    requires
        forall|i: int| 0 <= i < lines.len() ==> single_line(#[trigger] lines[i]),
    ensures
        text::lines_of(lines_text(lines)) == lines,
    decreases lines.len(),
{
    reveal_strlit("\n");
    if lines.len() == 0 {
        assert(lines =~= Seq::empty());
    } else {
        let line = lines[0];
        let rest = lines.skip(1);
        let s = lines_text(lines);
        let n = line.len() as int;
        assert(single_line(line));
        let p = text::is_at(s, '\n');
        assert forall|j: int| 0 <= j < n implies !#[trigger] p(j) by {
            assert(s[j] == line[j]);
        }
        assert(p(n));
        text::lemma_first_is(0, s.len() as int, p, n);
        assert(s.take(n) =~= line);
        assert(s.skip(n + 1) =~= lines_text(rest));
        assert forall|i: int| 0 <= i < rest.len() implies single_line(#[trigger] rest[i]) by {
            assert(rest[i] == lines[i + 1]);
        }
        lemma_lines_text(rest);
        assert(seq![line] + rest =~= lines);
    }
}

/// The lines of an entry are single lines.
proof fn lemma_entry_single(e: Entry)
    requires
        writable(e),
    ensures
        forall|i: int|
            0 <= i < entry_lines(e).len() ==> single_line(#[trigger] entry_lines(e)[i]),
{
    reveal_strlit("execute ");
    reveal_strlit("gas: ");
    reveal_strlit(" -> ");
    reveal_strlit("stack: [");
    reveal_strlit("]");
    reveal_strlit("exit code: ");
    text::lemma_trimmed_ends(e.instruction);
    numeral::lemma_int_text_ends(e.gas_remaining);
    numeral::lemma_nat_text_digits(e.gas_used as nat);
    numeral::lemma_nat_text_digits(e.gas_remaining as nat);
    lemma_joined_single(e.stack);
    assert(single_line(execute_line(e)));
    assert(single_line(gas_line(e)));
    assert(single_line(stack_line(e)));
    if let Some(code) = e.exit_code {
        numeral::lemma_int_text_ends(code as int);
        if code < 0 {
            numeral::lemma_nat_text_digits((-code) as nat);
        } else {
            numeral::lemma_nat_text_digits(code as nat);
        }
        assert(single_line(exit_line(code)));
    }
}

proof fn lemma_joined_single(words: Seq<Seq<char>>)
    requires
        forall|i: int| 0 <= i < words.len() ==> stack_word(#[trigger] words[i]),
    ensures
        forall|i: int|
            0 <= i < text::joined(words, " "@).len() ==> #[trigger] text::joined(words, " "@)[i]
                != '\n',
    decreases words.len(),
{
    reveal_strlit(" ");
    if words.len() > 0 {
        assert(stack_word(words.last()));
        let less = words.drop_last();
        assert forall|i: int| 0 <= i < less.len() implies stack_word(#[trigger] less[i]) by {
            assert(less[i] == words[i]);
        }
        lemma_joined_single(less);
        let s = text::joined(words, " "@);
        let front = text::joined(less, " "@);
        let last = words.last();
        assert forall|i: int| 0 <= i < s.len() implies #[trigger] s[i] != '\n' by {
            if words.len() == 1 {
                assert(!text::white(last[i]));
            } else if i < front.len() {
                assert(s[i] == front[i]);
            } else if i == front.len() {
                assert(s[i] == ' ');
            } else {
                assert(s[i] == last[i - front.len() - 1]);
                assert(!text::white(last[i - front.len() - 1]));
            }
        }
    }
}

proof fn lemma_log_single(entries: Seq<Entry>)
    requires
        forall|i: int| 0 <= i < entries.len() ==> writable(#[trigger] entries[i]),
    ensures
        forall|i: int|
            0 <= i < log_lines(entries).len() ==> single_line(#[trigger] log_lines(entries)[i]),
    decreases entries.len(),
{
    if entries.len() > 0 {
        let rest = entries.skip(1);
        assert forall|i: int| 0 <= i < rest.len() implies writable(#[trigger] rest[i]) by {
            assert(rest[i] == entries[i + 1]);
        }
        lemma_entry_single(entries[0]);
        lemma_log_single(rest);
        let front = entry_lines(entries[0]);
        let back = log_lines(rest);
        assert forall|i: int| 0 <= i < log_lines(entries).len() implies single_line(
            #[trigger] log_lines(entries)[i],
        ) by {
            if i < front.len() {
                assert(log_lines(entries)[i] == front[i]);
            } else {
                assert(log_lines(entries)[i] == back[i - front.len()]);
            }
        }
    }
}

/// A log is read back as it was written: the text of any entries of which only
/// the last may have an exit code is read as these entries, none lost, none
/// added and none changed.
pub proof fn law_written_log_is_read_back(entries: Seq<Entry>)
    requires
        forall|i: int| 0 <= i < entries.len() ==> writable(#[trigger] entries[i]),
        sandbox::exits_at_the_end(entries),
    ensures
        sandbox::entries_of(log_text(entries)) == Ok::<Seq<Entry>, LogFault>(entries),
{
    lemma_log_single(entries);
    lemma_lines_text(log_lines(entries));
    lemma_log_lines(entries, Seq::empty());
    assert(Seq::<Entry>::empty() + entries =~= entries);
}

/// A minus sign before digits is no arrow.
#[verifier::spinoff_prover]
#[verifier::rlimit(40)]
proof fn lemma_signed_arrow(a: int, b: int)
    ensures
        ({
            let x = numeral::int_text(a) + seq![' '];
            let y = seq![' '] + numeral::int_text(b);
            text::split_on_text(x + "->"@ + y, "->"@) == seq![x, y]
        }),
{
    reveal_strlit("->");
    let x = numeral::int_text(a) + seq![' '];
    let y = seq![' '] + numeral::int_text(b);
    let s = x + "->"@ + y;
    let n = x.len() as int;
    lemma_no_arrow_in(a);
    lemma_no_arrow_in(b);
    let p = text::is_text_at(s, "->"@);
    assert(s.skip(n).subrange(0, 2) =~= "->"@);
    assert forall|j: int| 0 <= j < n implies !#[trigger] p(j) by {
        if p(j) {
            assert(s.skip(j).subrange(0, 2)[1] == s[j + 1]);
            assert(s[j + 1] == '>');
            if j + 1 < n - 1 {
                assert(s[j + 1] == numeral::int_text(a)[j + 1]);
            } else if j + 1 == n - 1 {
                assert(s[j + 1] == ' ');
            }
        }
    }
    text::lemma_first_is(0, s.len() - 2 + 1, p, n);
    assert(s.take(n) =~= x);
    assert(s.skip(n + 2) =~= y);
    let q = text::is_text_at(y, "->"@);
    assert forall|j: int| 0 <= j < y.len() - 1 implies !#[trigger] q(j) by {
        if q(j) {
            assert(y.skip(j).subrange(0, 2)[1] == y[j + 1]);
            assert(y[j + 1] == numeral::int_text(b)[j]);
        }
    }
    text::lemma_first_none(0, y.len() - 2 + 1, q);
    assert(text::split_on_text(y, "->"@) == seq![y]);
    assert(seq![x] + seq![y] =~= seq![x, y]);
}

/// The rendering of an integer holds no angle bracket.
proof fn lemma_no_arrow_in(n: int)
    ensures
        forall|i: int| 0 <= i < numeral::int_text(n).len() ==> #[trigger] numeral::int_text(n)[i]
            != '>',
{
    if n < 0 {
        numeral::lemma_nat_text_digits((-n) as nat);
    } else {
        numeral::lemma_nat_text_digits(n as nat);
    }
}

/// Gas is read without its sign: a line with the gas before and after the
/// instruction gives the absolute values of both.
pub proof fn law_gas_is_read_without_its_sign(before: i64, after: i64)
    ensures
        sandbox::gas_of(
            "gas: "@ + numeral::int_text(before as int) + " -> "@ + numeral::int_text(after as int),
        ) == Ok::<(int, int), LogFault>(
            (
                if before < 0 {
                    -before as int
                } else {
                    before as int
                },
                if after < 0 {
                    -after as int
                } else {
                    after as int
                },
            ),
        ),
{
    reveal_strlit("gas: ");
    reveal_strlit("gas:");
    reveal_strlit(" -> ");
    reveal_strlit("->");
    let x = numeral::int_text(before as int);
    let y = numeral::int_text(after as int);
    numeral::lemma_int_text_ends(before as int);
    numeral::lemma_int_text_ends(after as int);
    numeral::law_decimal_round_trip(before as int, i64::MIN as int, i64::MAX as int);
    numeral::law_decimal_round_trip(after as int, i64::MIN as int, i64::MAX as int);
    let line = "gas: "@ + x + " -> "@ + y;
    let left = x + seq![' '];
    let right = seq![' '] + y;
    let values = left + "->"@ + right;
    assert(line =~= "gas:"@ + (seq![' '] + values));
    text::lemma_after("gas:"@, seq![' '] + values);
    assert(values[0] == x[0]);
    assert(values.last() == y.last());
    text::lemma_blank_before(values);
    lemma_signed_arrow(before as int, after as int);
    text::lemma_blank_behind(x);
    text::lemma_blank_before(y);
}

} // verus!
