//! Utilities for generating code in various languages, and for
//! pretty-printing it.
//!
//! Nothing here writes anywhere: the text is collected, and who has
//! collected it sends it where it should go.
use vstd::prelude::*;
use vstd::string::StringExecFns;

pub mod python;

verus! {

/// A piece of text that is laid out in lines.
pub enum Block {
    /// One line.
    Line(String),
    /// Blocks below each other.
    Stack(Vec<Block>),
    /// A block that is indented by four spaces more than what is around it.
    Indent(Box<Block>),
}

/// The text of `count` spaces.
pub open spec fn spaces(count: nat) -> Seq<char> {
    Seq::new(count, |i: int| ' ')
}

/// The text of a block at a given indentation level: every line behind as
/// many spaces as it is indented, and with a line feed at its end.
pub open spec fn block_text(block: Block, indent: nat) -> Seq<char>
    decreases block,
{
    match block {
        Block::Line(line) => spaces(indent) + line@ + seq!['\n'],
        Block::Indent(inner) => block_text(*inner, indent + 4),
        Block::Stack(blocks) => blocks_text(blocks@, indent, 0),
    }
}

/// The text of the blocks from index `i` on, below each other.
pub open spec fn blocks_text(blocks: Seq<Block>, indent: nat, i: int) -> Seq<char>
    decreases blocks, blocks.len() - i,
{
    if i < 0 || i >= blocks.len() {
        Seq::empty()
    } else {
        block_text(blocks[i], indent) + blocks_text(blocks, indent, i + 1)
    }
}

/// Whether a block can be printed at a given indentation level: no line
/// is indented by more than 32 spaces.
pub open spec fn block_fits(block: Block, indent: nat) -> bool
    decreases block,
{
    indent <= 32 && match block {
        Block::Line(_) => true,
        Block::Indent(inner) => block_fits(*inner, indent + 4),
        Block::Stack(blocks) => blocks_fit(blocks@, indent, 0),
    }
}

/// Whether the blocks from index `i` on can be printed.
pub open spec fn blocks_fit(blocks: Seq<Block>, indent: nat, i: int) -> bool
    decreases blocks, blocks.len() - i,
{
    if i < 0 || i >= blocks.len() {
        true
    } else {
        block_fits(blocks[i], indent) && blocks_fit(blocks, indent, i + 1)
    }
}

/// The blocks of the stack that results when `block` is put below `first`.
/// A stack takes up the blocks of a stack, and any other block as it is; a
/// block that is no stack becomes the first of two.
pub open spec fn joined(first: Block, block: Block) -> Seq<Block> {
    match first {
        Block::Stack(blocks) => match block {
            Block::Stack(more) => blocks@ + more@,
            _ => blocks@.push(block),
        },
        _ => seq![first, block],
    }
}

/// Blocks behind each other can be printed if the first ones and the
/// others can.
pub proof fn lemma_blocks_fit_add(first: Seq<Block>, others: Seq<Block>, indent: nat, i: int)
    requires
        0 <= i <= first.len(),
    ensures
        blocks_fit(first + others, indent, i) == (blocks_fit(first, indent, i) && blocks_fit(
            others,
            indent,
            0,
        )),
    decreases first.len() - i,
{
    let all = first + others;
    if i < first.len() {
        assert(all[i] == first[i]);
        lemma_blocks_fit_add(first, others, indent, i + 1);
    } else {
        lemma_blocks_fit_from(all, others, indent, i, 0);
    }
}

/// Whether blocks can be printed depends on the blocks only.
proof fn lemma_blocks_fit_from(all: Seq<Block>, tail: Seq<Block>, indent: nat, i: int, j: int)
    requires
        0 <= j <= tail.len(),
        0 <= i,
        i - j + tail.len() == all.len(),
        forall|k: int| j <= k < tail.len() ==> all[i - j + k] == tail[k],
    ensures
        blocks_fit(all, indent, i) == blocks_fit(tail, indent, j),
    decreases tail.len() - j,
{
    if j < tail.len() {
        assert(all[i] == tail[j]);
        lemma_blocks_fit_from(all, tail, indent, i + 1, j + 1);
    }
}

/// The text of blocks behind each other is the text of the first ones
/// followed by the text of the others.
pub proof fn lemma_blocks_text_add(first: Seq<Block>, others: Seq<Block>, indent: nat, i: int)
    requires
        0 <= i <= first.len(),
    ensures
        blocks_text(first + others, indent, i) == blocks_text(first, indent, i) + blocks_text(
            others,
            indent,
            0,
        ),
    decreases first.len() - i,
{
    let all = first + others;
    if i < first.len() {
        assert(all[i] == first[i]);
        lemma_blocks_text_add(first, others, indent, i + 1);
        assert(blocks_text(all, indent, i) =~= blocks_text(first, indent, i) + blocks_text(
            others,
            indent,
            0,
        ));
    } else {
        lemma_blocks_text_from(all, others, indent, i, 0);
        assert(blocks_text(first, indent, i) =~= Seq::empty());
        assert(blocks_text(all, indent, i) =~= blocks_text(first, indent, i) + blocks_text(
            others,
            indent,
            0,
        ));
    }
}

/// The text of blocks depends on the blocks only.
proof fn lemma_blocks_text_from(all: Seq<Block>, tail: Seq<Block>, indent: nat, i: int, j: int)
    requires
        0 <= j <= tail.len(),
        0 <= i,
        i - j + tail.len() == all.len(),
        forall|k: int| j <= k < tail.len() ==> all[i - j + k] == tail[k],
    ensures
        blocks_text(all, indent, i) == blocks_text(tail, indent, j),
    decreases tail.len() - j,
{
    if j < tail.len() {
        assert(all[i] == tail[j]);
        lemma_blocks_text_from(all, tail, indent, i + 1, j + 1);
    }
}

impl Block {
    /// A block without lines.
    pub fn new() -> (block: Block)
        ensures
            block matches Block::Stack(blocks) && blocks@ == Seq::<Block>::empty(),
            forall|indent: nat| #[trigger] block_text(block, indent) == Seq::<char>::empty(),
            forall|indent: nat| #[trigger] block_fits(block, indent) == (indent <= 32),
    {
        let blocks: Vec<Block> = Vec::new();
        let block = Block::Stack(blocks);
        proof {
            assert forall|indent: nat| #[trigger] block_fits(block, indent) == (indent <= 32) by {
                assert(blocks_fit(blocks@, indent, 0));
            }
            assert forall|indent: nat| #[trigger]
                block_text(block, indent) == Seq::<char>::empty() by {
                assert(blocks@.len() == 0);
                assert(blocks_text(blocks@, indent, 0) =~= Seq::<char>::empty());
                assert(block_text(block, indent) == blocks_text(blocks@, indent, 0));
            }
        }
        block
    }

    /// Put a block below this one.
    pub fn push_block(&mut self, block: Block)
        ensures
            *final(self) matches Block::Stack(blocks) && blocks@ == joined(*old(self), block),
            forall|indent: nat| #[trigger]
                block_text(*final(self), indent) == block_text(*old(self), indent) + block_text(
                    block,
                    indent,
                ),
            forall|indent: nat| #[trigger]
                block_fits(*final(self), indent) == (block_fits(*old(self), indent) && block_fits(
                    block,
                    indent,
                )),
    {
        let mut taken = Block::Stack(Vec::new());
        core::mem::swap(&mut taken, self);
        match taken {
            Block::Stack(blocks) => {
                let mut blocks = blocks;
                let ghost before = blocks@;
                // If we are appending two stacks, then we can fold them into a
                // single stack and avoid some nesting.
                match block {
                    Block::Stack(more) => {
                        let mut more = more;
                        let ghost added = more@;
                        blocks.append(&mut more);
                        proof {
                            assert forall|indent: nat| #[trigger]
                                blocks_text(blocks@, indent, 0) == blocks_text(before, indent, 0)
                                    + blocks_text(added, indent, 0) by {
                                lemma_blocks_text_add(before, added, indent, 0);
                            }
                            assert forall|indent: nat| #[trigger]
                                blocks_fit(blocks@, indent, 0) == (blocks_fit(before, indent, 0)
                                    && blocks_fit(added, indent, 0)) by {
                                lemma_blocks_fit_add(before, added, indent, 0);
                            }
                        }
                    },
                    other => {
                        blocks.push(other);
                        proof {
                            assert forall|indent: nat| #[trigger]
                                blocks_text(blocks@, indent, 0) == blocks_text(before, indent, 0)
                                    + block_text(other, indent) by {
                                assert(blocks@ =~= before + seq![other]);
                                lemma_blocks_text_add(before, seq![other], indent, 0);
                                reveal_with_fuel(blocks_text, 2);
                                assert(blocks_text(seq![other], indent, 0) =~= block_text(
                                    other,
                                    indent,
                                ));
                            }
                            assert forall|indent: nat| #[trigger]
                                blocks_fit(blocks@, indent, 0) == (blocks_fit(before, indent, 0)
                                    && block_fits(other, indent)) by {
                                assert(blocks@ =~= before + seq![other]);
                                lemma_blocks_fit_add(before, seq![other], indent, 0);
                                reveal_with_fuel(blocks_fit, 2);
                            }
                            assert(blocks@ =~= before.push(other));
                        }
                    },
                }
                *self = Block::Stack(blocks);
                proof {
                    assert forall|indent: nat| #[trigger]
                        block_text(*self, indent) == block_text(*old(self), indent) + block_text(
                            block,
                            indent,
                        ) by {
                        assert(block_text(*self, indent) == blocks_text(blocks@, indent, 0));
                        assert(block_text(*old(self), indent) == blocks_text(before, indent, 0));
                    }
                    assert forall|indent: nat| #[trigger]
                        block_fits(*self, indent) == (block_fits(*old(self), indent) && block_fits(
                            block,
                            indent,
                        )) by {
                        assert(block_fits(*self, indent) == (indent <= 32 && blocks_fit(
                            blocks@,
                            indent,
                            0,
                        )));
                        assert(block_fits(*old(self), indent) == (indent <= 32 && blocks_fit(
                            before,
                            indent,
                            0,
                        )));
                    }
                }
            },
            first => {
                let blocks = vec![first, block];
                proof {
                    assert forall|indent: nat| #[trigger]
                        blocks_text(blocks@, indent, 0) == block_text(first, indent) + block_text(
                            block,
                            indent,
                        ) by {
                        reveal_with_fuel(blocks_text, 3);
                        assert(blocks_text(blocks@, indent, 0) =~= block_text(first, indent)
                            + block_text(block, indent));
                    }
                }
                *self = Block::Stack(blocks);
                proof {
                    assert forall|indent: nat| #[trigger]
                        block_text(*self, indent) == block_text(*old(self), indent) + block_text(
                            block,
                            indent,
                        ) by {
                        assert(block_text(*self, indent) == blocks_text(blocks@, indent, 0));
                    }
                    assert forall|indent: nat| #[trigger]
                        block_fits(*self, indent) == (block_fits(*old(self), indent) && block_fits(
                            block,
                            indent,
                        )) by {
                        reveal_with_fuel(blocks_fit, 3);
                        assert(block_fits(*self, indent) == (indent <= 32 && blocks_fit(
                            blocks@,
                            indent,
                            0,
                        )));
                    }
                    assert(blocks@ =~= seq![first, block]);
                }
            },
        }
    }

    /// Put a line below this block.
    pub fn push_line(&mut self, fragment: String)
        ensures
            *final(self) matches Block::Stack(blocks) && blocks@ == joined(
                *old(self),
                Block::Line(fragment),
            ),
            forall|indent: nat| #[trigger]
                block_text(*final(self), indent) == block_text(*old(self), indent) + spaces(indent)
                    + fragment@ + seq!['\n'],
            forall|indent: nat| #[trigger]
                block_fits(*final(self), indent) == block_fits(*old(self), indent),
    {
        self.push_block(Block::Line(fragment));
    }

    /// Put a line below this block.
    pub fn push_line_str(&mut self, fragment: &str)
        ensures
            *final(self) matches Block::Stack(blocks) && blocks@ == joined(
                *old(self),
                blocks@.last(),
            ) && (blocks@.last() matches Block::Line(line) && line@ == fragment@),
            forall|indent: nat| #[trigger]
                block_text(*final(self), indent) == block_text(*old(self), indent) + spaces(indent)
                    + fragment@ + seq!['\n'],
            forall|indent: nat| #[trigger]
                block_fits(*final(self), indent) == block_fits(*old(self), indent),
    {
        self.push_block(Block::Line(String::from_str(fragment)));
    }

    /// Indent the block by four spaces more.
    pub fn indent(self) -> (block: Block)
        ensures
            forall|indent: nat| #[trigger] block_text(block, indent) == block_text(self, indent + 4),
            forall|indent: nat| #[trigger] block_fits(block, indent) == (indent <= 32 && block_fits(
                self,
                indent + 4,
            )),
    {
        Block::Indent(Box::new(self))
    }

    /// Pretty-print the block tree at a given indentation level.
    fn format_internal(&self, out: &mut String, indent: u32)
        requires
            block_fits(*self, indent as nat),
        ensures
            final(out)@ == old(out)@ + block_text(*self, indent as nat),
        decreases *self,
    {
        match self {
            Block::Line(line) => {
                let mut i: u32 = 0;
                proof {
                    assert(out@ =~= old(out)@ + spaces(0));
                    reveal_strlit(" ");
                }
                while i < indent
                    invariant
                        i <= indent,
                        out@ == old(out)@ + spaces(i as nat),
                    decreases indent - i,
                {
                    out.append(" ");
                    proof {
                        reveal_strlit(" ");
                        assert(old(out)@ + spaces(i as nat) + " "@ =~= old(out)@ + spaces(
                            (i + 1) as nat,
                        ));
                    }
                    i += 1;
                }
                out.append(line.as_str());
                out.append("\n");
                proof {
                    reveal_strlit("\n");
                    assert(out@ =~= old(out)@ + (spaces(indent as nat) + line@ + seq!['\n']));
                }
            },
            Block::Indent(block) => block.format_internal(out, indent + 4),
            Block::Stack(blocks) => Block::format_all(blocks, 0, out, indent),
        }
    }

    /// Pretty-print the blocks from index `i` on, below each other.
    fn format_all(blocks: &Vec<Block>, i: usize, out: &mut String, indent: u32)
        requires
            blocks_fit(blocks@, indent as nat, i as int),
        ensures
            final(out)@ == old(out)@ + blocks_text(blocks@, indent as nat, i as int),
        decreases blocks@, blocks@.len() - i,
    {
        if i < blocks.len() {
            blocks[i].format_internal(out, indent);
            Block::format_all(blocks, i + 1, out, indent);
            proof {
                assert(old(out)@ + block_text(blocks@[i as int], indent as nat) + blocks_text(
                    blocks@,
                    indent as nat,
                    i + 1,
                ) =~= old(out)@ + blocks_text(blocks@, indent as nat, i as int));
            }
        } else {
            proof {
                assert(out@ =~= old(out)@ + blocks_text(blocks@, indent as nat, i as int));
            }
        }
    }

    /// Pretty-print the block tree.
    pub fn format(&self) -> (text: String)
        requires
            block_fits(*self, 0),
        ensures
            text@ == block_text(*self, 0),
    {
        let mut out = String::new();
        let indent: u32 = 0;
        self.format_internal(&mut out, indent);
        proof {
            assert(Seq::<char>::empty() + block_text(*self, 0) =~= block_text(*self, 0));
        }
        out
    }
}

/// What is defined in one scope of the generated code.
pub struct Scope {
    /// Names that are defined in this scope (and therefore cannot be used as
    /// identifiers for new things).
    _idents: Vec<String>,
}

/// Helper for generating nicely formatted code, and avoiding name collisions.
///
/// The base state for the code generator is to be at the start of a new line,
/// no indent applied yet. Most appends should append one logical segment (e.g.
/// a function call, or a function signature) and terminate that with a newline.
pub struct CodeGenerator {
    /// The text that was generated so far.
    out: String,
    /// Current indent, in number of spaces.
    indent: u32,
    /// The currently open scopes.
    scopes: Vec<Scope>,
}

impl Scope {
    /// The names that are defined in this scope.
    pub closed spec fn names(&self) -> Seq<Seq<char>> {
        self._idents@.map_values(|name: String| name@)
    }
}

impl CodeGenerator {
    /// The text that was generated so far.
    pub closed spec fn text(&self) -> Seq<char> {
        self.out@
    }

    /// The current indent, in number of spaces.
    pub closed spec fn level(&self) -> nat {
        self.indent as nat
    }

    /// The scopes that are open, the innermost last.
    pub closed spec fn scopes(&self) -> Seq<Scope> {
        self.scopes@
    }

    /// The number of scopes that are open.
    pub open spec fn depth(&self) -> nat {
        self.scopes().len()
    }

    /// A generator that has generated nothing yet.
    pub fn new() -> (generator: CodeGenerator)
        ensures
            generator.text() == Seq::<char>::empty(),
            generator.level() == 0,
            generator.scopes() == Seq::<Scope>::empty(),
    {
        Self { out: String::new(), indent: 0, scopes: Vec::new() }
    }

    /// Begin a new scope.
    ///
    /// This does not write any tokens, it only does the bookkeeping.
    pub fn open_scope(&mut self)
        requires
            old(self).level() + 4 <= u32::MAX,
        ensures
            final(self).text() == old(self).text(),
            final(self).level() == old(self).level() + 4,
            final(self).scopes().len() == old(self).scopes().len() + 1,
            final(self).scopes().drop_last() == old(self).scopes(),
            final(self).scopes().last().names() == Seq::<Seq<char>>::empty(),
    {
        let scope = Scope { _idents: Vec::new() };
        self.scopes.push(scope);
        self.indent += 4;
    }

    /// Close the innermost scope.
    ///
    /// This does not write any tokens, it only does the bookkeeping.
    pub fn close_scope(&mut self)
        requires
            old(self).depth() > 0,
            old(self).level() >= 4,
        ensures
            final(self).text() == old(self).text(),
            final(self).level() == old(self).level() - 4,
            final(self).scopes() == old(self).scopes().drop_last(),
    {
        self.scopes.pop();
        self.indent -= 4;
    }

    /// Set the indent, without opening or closing a scope.
    pub fn set_indent(&mut self, indent: u32)
        ensures
            final(self).text() == old(self).text(),
            final(self).level() == indent,
            final(self).scopes() == old(self).scopes(),
    {
        self.indent = indent;
    }

    /// The current indent, in number of spaces.
    pub fn indent(&self) -> (indent: u32)
        ensures
            indent == self.level(),
    {
        self.indent
    }

    /// Append a string verbatim to the output.
    pub fn write(&mut self, s: &str)
        ensures
            final(self).text() == old(self).text() + s@,
            final(self).level() == old(self).level(),
            final(self).scopes() == old(self).scopes(),
    {
        self.out.append(s);
    }

    /// Write as many spaces as the current indent.
    pub fn write_indent(&mut self)
        requires
            old(self).level() <= 32,
        ensures
            final(self).text() == old(self).text() + spaces(old(self).level()),
            final(self).level() == old(self).level(),
            final(self).scopes() == old(self).scopes(),
    {
        let mut i: u32 = 0;
        proof {
            assert(self.out@ =~= old(self).out@ + spaces(0));
        }
        while i < self.indent
            invariant
                i <= self.indent,
                self.indent == old(self).indent,
                self.scopes == old(self).scopes,
                self.out@ == old(self).out@ + spaces(i as nat),
            decreases self.indent - i,
        {
            self.out.append(" ");
            proof {
                reveal_strlit(" ");
                assert(old(self).out@ + spaces(i as nat) + " "@ =~= old(self).out@ + spaces(
                    (i + 1) as nat,
                ));
            }
            i += 1;
        }
    }

    /// Hand over the text that was generated.
    pub fn into_text(self) -> (text: String)
        ensures
            text@ == self.text(),
    {
        self.out
    }
}

} // verus!
