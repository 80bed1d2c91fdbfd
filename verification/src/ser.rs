//! The layout of the text form of a rule set: where commas, line breaks
//! and indentation go between the items of nested lists.
use vstd::prelude::*;
use vstd::string::StringExecFns;

verus! {

/// How the text form is laid out.
#[derive(Debug, Clone, Copy, PartialEq, Eq)]
pub struct Options {
    /// Number of indentation steps that every line begins with.
    pub initial_indent: usize,
}

impl Default for Options {
    fn default() -> (r: Self)
        ensures
            r.initial_indent == 0,
    {
        Options { initial_indent: 0 }
    }
}

impl Options {
    /// The layout state at the start of a text.
    pub fn to_layout(&self) -> (r: Layout)
        ensures
            r.wf(),
            r.base() == self.initial_indent,
            r.open() == seq![false],
    {
        Layout::new(self.initial_indent)
    }
}

/// `n` indentation steps of four blanks each.
pub open spec fn padding(n: nat) -> Seq<char> {
    Seq::new(4 * n, |i: int| ' ')
}

/// What separates an item from what stands before it: a comma behind an
/// earlier item of the same list, then a line break and the indentation
/// of `depth` steps, or one blank.
pub open spec fn separator(after_item: bool, indent: bool, depth: nat) -> Seq<char> {
    let comma = if after_item {
        seq![',']
    } else {
        Seq::<char>::empty()
    };
    if indent {
        comma + seq!['\n'] + padding(depth)
    } else {
        comma + seq![' ']
    }
}

/// Appends `depth` indentation steps to `out`.
fn pad(out: &mut String, depth: usize)
    ensures
        final(out)@ == old(out)@ + padding(depth as nat),
{
    let mut i: usize = 0;
    assert(out@ =~= old(out)@ + padding(0));
    while i < depth
        invariant
            i <= depth,
            out@ == old(out)@ + padding(i as nat),
        decreases depth - i,
    {
        out.push(' ');
        out.push(' ');
        out.push(' ');
        out.push(' ');
        i += 1;
        assert(out@ =~= old(out)@ + padding(i as nat));
    }
}

/// The lists that are open, innermost last: for each, whether an item has
/// been written into it.
pub struct Layout {
    indent: usize,
    stack: Vec<bool>,
}

impl Layout {
    /// Number of indentation steps of the outermost list.
    pub closed spec fn base(&self) -> usize {
        self.indent
    }

    /// For each open list, outermost first, whether it has an item yet.
    pub closed spec fn open(&self) -> Seq<bool> {
        self.stack@
    }

    /// At least the outermost list is open.
    pub open spec fn wf(&self) -> bool {
        self.open().len() > 0
    }

    /// The depth of indentation can be counted in a `usize`.
    pub open spec fn fits(&self) -> bool {
        self.base() + self.open().len() <= usize::MAX
    }

    /// Number of indentation steps of the items of the innermost list.
    pub open spec fn depth(&self) -> nat {
        (self.base() + self.open().len() - 1) as nat
    }

    /// The state in which only the outermost list is open, and empty.
    pub fn new(indent: usize) -> (r: Self)
        ensures
            r.wf(),
            r.base() == indent,
            r.open() == seq![false],
    {
        let mut stack = Vec::new();
        stack.push(false);
        assert(stack@ =~= seq![false]);
        Layout { indent, stack }
    }

    /// Whether the state is one that the other operations accept: a list
    /// is open and the depth of indentation can be counted.
    pub fn usable(&self) -> (r: bool)
        ensures
            r == (self.wf() && self.fits()),
    {
        self.stack.len() > 0 && self.indent <= usize::MAX - self.stack.len()
    }

    /// Whether the innermost list has an item yet.
    pub fn peek(&self) -> (r: bool)
        requires
            self.wf(),
        ensures
            r == self.open().last(),
    {
        self.stack[self.stack.len() - 1]
    }

    /// The indentation of the items of the innermost list.
    pub fn do_indent(&self) -> (r: String)
        requires
            self.wf(),
            self.fits(),
        ensures
            r@ == padding(self.depth()),
    {
        let mut out = String::new();
        pad(&mut out, self.indent + self.stack.len() - 1);
        assert(out@ =~= padding(self.depth()));
        out
    }

    /// Begins an item of the innermost list and returns what separates it
    /// from what stands before it.
    pub fn begin_item(&mut self, indent: bool) -> (r: String)
        requires
            old(self).wf(),
            old(self).fits(),
        ensures
            final(self).wf(),
            final(self).base() == old(self).base(),
            final(self).open() == old(self).open().drop_last().push(true),
            r@ == separator(old(self).open().last(), indent, old(self).depth()),
    {
        let mut out = String::new();
        if self.peek() {
            out.push(',');
        }
        let ghost comma = out@;
        if indent {
            out.push('\n');
            let pad = self.do_indent();
            out.append(pad.as_str());
        } else {
            out.push(' ');
        }
        let last = self.stack.len() - 1;
        self.stack.set(last, true);
        proof {
            assert(self.stack@ =~= old(self).stack@.drop_last().push(true));
            assert(comma =~= (if old(self).open().last() {
                seq![',']
            } else {
                Seq::<char>::empty()
            }));
        }
        out
    }

    /// Opens a list inside the innermost one.
    pub fn indent(&mut self)
        requires
            old(self).wf(),
        ensures
            final(self).wf(),
            final(self).base() == old(self).base(),
            final(self).open() == old(self).open().push(false),
    {
        self.stack.push(false);
    }

    /// Closes the innermost list and returns what stands before its closing
    /// bracket: where the list had an item, a line break and the
    /// indentation of the list around it. Closing the outermost list opens
    /// it anew.
    pub fn outdent(&mut self) -> (r: String)
        requires
            old(self).wf(),
            old(self).fits(),
        ensures
            final(self).wf(),
            final(self).base() == old(self).base(),
            final(self).open() == (if old(self).open().len() > 1 {
                old(self).open().drop_last()
            } else {
                seq![false]
            }),
            r@ == (if old(self).open().last() {
                seq!['\n'] + padding(
                    if old(self).depth() > 0 {
                        (old(self).depth() - 1) as nat
                    } else {
                        0
                    },
                )
            } else {
                Seq::<char>::empty()
            }),
    {
        let had = self.stack.pop();
        let mut out = String::new();
        if self.stack.len() == 0 {
            if had == Some(true) {
                out.push('\n');
                let depth = if self.indent > 0 {
                    self.indent - 1
                } else {
                    0
                };
                pad(&mut out, depth);
            }
            self.stack.push(false);
            assert(self.stack@ =~= seq![false]);
        } else if had == Some(true) {
            out.push('\n');
            let pad = self.do_indent();
            out.append(pad.as_str());
        }
        out
    }
}

} // verus!
