//! Helpers on whole strings.

use vstd::prelude::*;
use crate::common::text::{chars_of, lines_of, rows, trimmed_lines};

verus! {

/// The characters of `s` in reverse order.
pub fn reversed_str(s: &str) -> (reversed: String)
    ensures
        reversed@ == s@.reverse(),
{
    let chars = chars_of(s);
    let mut reversed = String::new();
    let mut left: usize = chars.len();
    while left > 0
        invariant
            left <= chars.len(),
            chars@ == s@,
            reversed@ == s@.reverse().take(chars.len() - left),
        decreases left,
    {
        left -= 1;
        reversed.push(chars[left]);
        proof {
            let done = chars.len() - left;
            assert(s@.reverse().take(done) =~= s@.reverse().take(done - 1).push(chars[left as int]));
        }
    }
    proof {
        assert(s@.reverse().take(chars.len() as int) =~= s@.reverse());
    }
    reversed
}

/// Text that can be cut into its lines, trimmed, without the blank ones.
pub trait TrimmedSplit {
    /// The characters of the text.
    spec fn characters(&self) -> Seq<char>;

    fn trimmed_split(&self) -> (lines: Vec<Vec<char>>)
        ensures
            rows(lines@) == trimmed_lines(self.characters()),
    ;
}

impl TrimmedSplit for str {
    open spec fn characters(&self) -> Seq<char> {
        self@
    }

    fn trimmed_split(&self) -> (lines: Vec<Vec<char>>) {
        let chars = chars_of(self);
        lines_of(chars.as_slice())
    }
}

} // verus!
