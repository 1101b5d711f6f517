//! Dumps of the stack and of the heap, for debugging: one line for each
//! word, with its address and what it holds, both in hexadecimal, between
//! two rules.

use crate::heap::Heap;
use crate::text::{hex_string, hexadecimal};
use vstd::prelude::*;
use vstd::string::StringExecFns;

verus! {

/// The rule before and after a dump.
pub open spec fn rule_line() -> Seq<char> {
    "-----------------------------------------"@
}

/// The line for one word: its address, a colon and a blank, and the word.
pub open spec fn dump_line(addr: nat, word: u64) -> Seq<char> {
    hexadecimal(addr) + seq![':', ' '] + hexadecimal(word as nat)
}

/// The line for one word.
pub fn dump_line_string(addr: u64, word: u64) -> (line: String)
    ensures
        line@ == dump_line(addr as nat, word),
{
    let mut line = hex_string(addr);
    proof {
        reveal_strlit(": ");
    }
    line.append(": ");
    let value = hex_string(word);
    line.append(value.as_str());
    assert(line@ =~= dump_line(addr as nat, word));
    line
}

/// The stack dump: a rule, one line for each word from the stack base (the
/// last slot) down to the stack pointer (slot 0, at the address
/// `stack_pointer`), and a rule.
pub fn snek_print_stack(stack: &Vec<u64>, stack_pointer: u64) -> (lines: Vec<String>)
    requires
        stack_pointer + 8 * stack.len() <= u64::MAX,
    ensures
        lines@.len() == stack@.len() + 2,
        lines@[0]@ == rule_line(),
        lines@[stack@.len() as int + 1]@ == rule_line(),
        forall|k: int|
            0 <= k < stack@.len() ==> (#[trigger] lines@[1 + k])@ == dump_line(
                (stack_pointer + 8 * (stack@.len() - 1 - k)) as nat,
                stack@[stack@.len() - 1 - k],
            ),
{
    let n: usize = stack.len();
    let mut lines: Vec<String> = Vec::new();
    lines.push(String::from_str("-----------------------------------------"));
    let mut i: usize = n;
    while i > 0
        invariant
            n == stack@.len(),
            i <= n,
            stack_pointer + 8 * n <= u64::MAX,
            lines@.len() == 1 + (n - i),
            lines@[0]@ == rule_line(),
            forall|k: int|
                0 <= k < n - i ==> (#[trigger] lines@[1 + k])@ == dump_line(
                    (stack_pointer + 8 * (n - 1 - k)) as nat,
                    stack@[n - 1 - k],
                ),
        decreases i,
    {
        i = i - 1;
        let addr: u64 = stack_pointer + 8 * (i as u64);
        lines.push(dump_line_string(addr, stack[i]));
    }
    lines.push(String::from_str("-----------------------------------------"));
    lines
}

/// The heap dump: a rule, one line for each word of the region from its
/// first to its last, and a rule.
pub fn snek_print_heap(heap: &Heap) -> (lines: Vec<String>)
    requires
        heap@.bounded(),
    ensures
        lines@.len() == heap.words@.len() + 2,
        lines@[0]@ == rule_line(),
        lines@[heap.words@.len() as int + 1]@ == rule_line(),
        forall|k: int|
            0 <= k < heap.words@.len() ==> (#[trigger] lines@[1 + k])@ == dump_line(
                (heap.start + 8 * k) as nat,
                heap.words@[k],
            ),
{
    let n: usize = heap.words.len();
    let mut lines: Vec<String> = Vec::new();
    lines.push(String::from_str("-----------------------------------------"));
    let mut i: usize = 0;
    while i < n
        invariant
            n == heap.words@.len(),
            i <= n,
            heap@.bounded(),
            lines@.len() == 1 + i,
            lines@[0]@ == rule_line(),
            forall|k: int|
                0 <= k < i ==> (#[trigger] lines@[1 + k])@ == dump_line(
                    (heap.start + 8 * k) as nat,
                    heap.words@[k],
                ),
        decreases n - i,
    {
        let addr: u64 = heap.start + 8 * (i as u64);
        lines.push(dump_line_string(addr, heap.words[i]));
        i = i + 1;
    }
    lines.push(String::from_str("-----------------------------------------"));
    lines
}

} // verus!
